use vstd::prelude::*;
use vstd::multiset::Multiset;
use vstd::seq_lib::lemma_multiset_commutative;
use crate::order::TotalOrder;

use super::node::{bag_of, contents_of, within, Key, Node, NodeType};
use super::sums::{lemma_empty_bag, lemma_total_concat, lemma_total_member, lemma_total_one, total};

verus! {

/// No value of `s` has a greater key than a later one.
pub open spec fn sorted_by_key<U: TotalOrder, T: Key<U>>(s: Seq<T>) -> bool {
    forall|i: int, j: int|
        0 <= i <= j < s.len() ==> (#[trigger] s[i]).spec_key().le((#[trigger] s[j]).spec_key())
}

/// The values that a walk from the child at the place `from` on passes.
pub open spec fn rest_bag<U, T>(node: &Node<U, T>, from: int) -> Multiset<T> {
    node.key@.subrange(from, node.key@.len() as int).to_multiset().add(
        if from <= node.children@.len() {
            total(node.child_bags().subrange(from, node.children@.len() as int))
        } else {
            Multiset::empty()
        },
    )
}

proof fn lemma_one<T>(v: T)
    ensures
        seq![v].to_multiset() == Multiset::<T>::empty().insert(v),
{
    let e = Seq::<T>::empty();
    assert(seq![v] =~= e.insert(0, v));
    vstd::seq_lib::to_multiset_insert(e, 0, v);
    lemma_empty_bag(e);
}

proof fn lemma_none<T>()
    ensures
        Seq::<T>::empty().to_multiset() == Multiset::<T>::empty(),
{
    let e = Seq::<T>::empty();
    lemma_empty_bag(e);
}

/// A walk passes each value that is held once for each time it is held.
pub proof fn lemma_walked_bag<U, T>(node: &Node<U, T>, from: nat, height: nat, order: nat)
    requires
        node.formed(height, order),
        from <= node.key@.len(),
    ensures
        node.walked(from).to_multiset() == rest_bag(node, from as int),
    decreases node, node.key@.len() - from,
{
    let n = node.key@.len() as int;
    let f = from as int;
    let bs = node.child_bags();
    let ks = node.key@.subrange(f, n);
    let below = if from < node.children@.len() {
        contents_of(node.children@[f])
    } else {
        Seq::<T>::empty()
    };
    lemma_none::<T>();
    match node.node_type {
        NodeType::Leaf => {
            if f == 0 {
                assert(bs.subrange(f, 0) =~= Seq::<Multiset<T>>::empty());
            }
            assert(below =~= Seq::<T>::empty());
        },
        NodeType::Regular => {
            let c = node.children@[f].unwrap();
            lemma_walked_bag(&*c, 0, (height - 1) as nat, order);
            assert(c.key@.subrange(0, c.key@.len() as int) =~= c.key@);
            assert(c.child_bags().subrange(0, c.children@.len() as int) =~= c.child_bags());
            assert(below.to_multiset() == c.bag());
            assert(bs[f] == c.bag());
        },
    }
    if f < n {
        lemma_walked_bag(node, from + 1, height, order);
        let k = node.key@[f];
        let tail = node.walked(from + 1);
        assert(node.walked(from) == below + seq![k] + tail);
        lemma_multiset_commutative(below + seq![k], tail);
        lemma_multiset_commutative(below, seq![k]);
        lemma_one(k);
        assert(ks =~= seq![k] + node.key@.subrange(f + 1, n));
        lemma_multiset_commutative(seq![k], node.key@.subrange(f + 1, n));
        match node.node_type {
            NodeType::Leaf => {
                assert(node.walked(from).to_multiset() =~= rest_bag(node, f));
            },
            NodeType::Regular => {
                let all = bs.subrange(f, n + 1);
                assert(all =~= seq![bs[f]] + bs.subrange(f + 1, n + 1));
                lemma_total_concat(seq![bs[f]], bs.subrange(f + 1, n + 1));
                lemma_total_one(bs[f]);
                assert(node.walked(from).to_multiset() =~= rest_bag(node, f));
            },
        }
    } else {
        assert(ks =~= Seq::<T>::empty());
        match node.node_type {
            NodeType::Leaf => {
                assert(node.walked(from).to_multiset() =~= rest_bag(node, f));
            },
            NodeType::Regular => {
                assert(bs.subrange(f, n + 1) =~= seq![bs[f]]);
                lemma_total_one(bs[f]);
                assert(node.walked(from).to_multiset() =~= rest_bag(node, f));
            },
        }
    }
}

/// The walk through a node passes what the node holds.
pub proof fn law_contents_bag<U, T>(node: &Node<U, T>, height: nat, order: nat)
    requires
        node.formed(height, order),
    ensures
        node.contents().to_multiset() == node.bag(),
{
    lemma_walked_bag(node, 0, height, order);
    assert(node.key@.subrange(0, node.key@.len() as int) =~= node.key@);
    assert(node.child_bags().subrange(0, node.children@.len() as int) =~= node.child_bags());
}

/// What a walk from the place `from` on passes is a value from that
/// place on, or held below a child from that place on.
proof fn lemma_rest_parts<U, T>(node: &Node<U, T>, from: int, e: T)
    requires
        0 <= from <= node.key@.len(),
        rest_bag(node, from).count(e) > 0,
    ensures
        (exists|i: int| from <= i < node.key@.len() && #[trigger] node.key@[i] == e) || (exists|j: int|
            from <= j < node.children@.len() && (#[trigger] bag_of(node.children@[j])).count(e) > 0),
{
    let ks = node.key@.subrange(from, node.key@.len() as int);
    ks.to_multiset_ensures();
    if ks.to_multiset().count(e) > 0 {
        assert(ks.contains(e));
        let i = choose|i: int| 0 <= i < ks.len() && ks[i] == e;
        assert(node.key@[i + from] == e);
    } else {
        let bs = node.child_bags().subrange(from, node.children@.len() as int);
        lemma_total_member(bs, e);
        let j = choose|j: int| 0 <= j < bs.len() && (#[trigger] bs[j]).count(e) > 0;
        assert(bag_of(node.children@[j + from]).count(e) > 0);
    }
}

proof fn lemma_walked_sorted<U: TotalOrder, T: Key<U>>(
    node: &Node<U, T>,
    from: nat,
    height: nat,
    order: nat,
)
    requires
        node.formed(height, order),
        node.ordered(),
        from <= node.key@.len(),
    ensures
        sorted_by_key(node.walked(from)),
    decreases node, node.key@.len() - from,
{
    let n = node.key@.len() as int;
    let f = from as int;
    let below = if from < node.children@.len() {
        contents_of(node.children@[f])
    } else {
        Seq::<T>::empty()
    };
    match node.node_type {
        NodeType::Leaf => {
            assert(below =~= Seq::<T>::empty());
        },
        NodeType::Regular => {
            let c = node.children@[f].unwrap();
            assert(match node.children@[f] {
                Some(c) => c.ordered() && within(c.bag(), node.key_before(f), node.key_behind(f)),
                None => true,
            });
            lemma_walked_sorted(&*c, 0, (height - 1) as nat, order);
            law_contents_bag(&*c, (height - 1) as nat, order);
        },
    }
    if f < n {
        let k = node.key@[f];
        let tail = node.walked(from + 1);
        lemma_walked_sorted(node, from + 1, height, order);
        lemma_walked_bag(node, from + 1, height, order);
        let w = node.walked(from);
        assert(w == below + seq![k] + tail);
        assert forall|i: int, j: int| 0 <= i <= j < w.len() implies (#[trigger] w[i]).spec_key().le(
            (#[trigger] w[j]).spec_key(),
        ) by {
            let m = below.len() as int;
            // every value of `below` is not above `k`, every value of `tail` not below it
            if i < m {
                below.to_multiset_ensures();
                assert(below.contains(below[i]));
                assert(w[i] == below[i]);
                assert(bag_of(node.children@[f]).count(below[i]) > 0);
                assert(w[i].spec_key().le(k.spec_key()));
            }
            if j > m {
                let y = tail[j - m - 1];
                assert(w[j] == y);
                tail.to_multiset_ensures();
                assert(tail.contains(y));
                lemma_rest_parts(node, f + 1, y);
                if exists|a: int| f + 1 <= a < node.key@.len() && #[trigger] node.key@[a] == y {
                    let a = choose|a: int| f + 1 <= a < node.key@.len() && #[trigger] node.key@[a] == y;
                    assert(node.key@[f].spec_key().le(node.key@[a].spec_key()));
                } else {
                    let b = choose|b: int|
                        f + 1 <= b < node.children@.len() && (#[trigger] bag_of(
                            node.children@[b],
                        )).count(y) > 0;
                    let c = node.children@[b].unwrap();
                    assert(within(c.bag(), node.key_before(b), node.key_behind(b)));
                    assert(node.key@[f].spec_key().le(node.key@[b - 1].spec_key()));
                    U::le_transitive(k.spec_key(), node.key@[b - 1].spec_key(), y.spec_key());
                }
                assert(k.spec_key().le(w[j].spec_key()));
            }
            if i < m && j < m {
                assert(w[j] == below[j]);
            } else if i < m && j == m {
            } else if i < m {
                U::le_transitive(w[i].spec_key(), k.spec_key(), w[j].spec_key());
            } else if i == m && j == m {
                U::le_reflexive(k.spec_key());
            } else if i == m {
            } else {
                assert(w[i] == tail[i - m - 1]);
            }
        }
    } else {
    }
}

/// The walk through an ordered node passes the values in ascending
/// order of their keys.
pub proof fn law_contents_sorted<U: TotalOrder, T: Key<U>>(
    node: &Node<U, T>,
    height: nat,
    order: nat,
)
    requires
        node.formed(height, order),
        node.ordered(),
    ensures
        sorted_by_key(node.contents()),
{
    lemma_walked_sorted(node, 0, height, order);
}

} // verus!
