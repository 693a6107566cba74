use vstd::prelude::*;
use vstd::multiset::Multiset;
use vstd::seq_lib::{lemma_multiset_commutative, to_multiset_insert};
use crate::order::TotalOrder;
use super::lookup::{lemma_bag_parts, lemma_key_in_bag};
use super::node::{bag_of, within, Key, Node, NodeType, Tree};
use super::sums::{lemma_total_insert, lemma_total_split, lemma_total_update, total};

verus! {

/// A node cut at its value at the place `at`: `left` keeps what stands
/// before that value, `right` gets what stands behind it.
pub open spec fn halves<U, T>(
    whole: &Node<U, T>,
    left: &Node<U, T>,
    right: &Node<U, T>,
    at: int,
) -> bool {
    let n = whole.key@.len() as int;
    &&& 0 <= at < n
    &&& left.node_type == whole.node_type
    &&& right.node_type == whole.node_type
    &&& left.key@ == whole.key@.subrange(0, at)
    &&& right.key@ == whole.key@.subrange(at + 1, n)
    &&& match whole.node_type {
        NodeType::Leaf => left.children@.len() == 0 && right.children@.len() == 0,
        NodeType::Regular => left.children@ == whole.children@.subrange(0, at + 1)
            && right.children@ == whole.children@.subrange(at + 1, n + 1),
    }
}

/// The two halves and the middle value hold what the whole node held.
pub proof fn lemma_halves_bag<U, T>(
    whole: &Node<U, T>,
    left: &Node<U, T>,
    right: &Node<U, T>,
    height: nat,
    order: nat,
    cut: int,
)
    requires
        order >= 1,
        whole.formed(height, order),
        halves(whole, left, right, cut),
    ensures
        whole.bag() == left.bag().add(right.bag()).insert(whole.key@[cut]),
        left.formed(height, order),
        right.formed(height, order),
{
    let t = cut + 1;
    let mid = whole.key@[t - 1];
    let ks = whole.key@;
    assert(ks =~= left.key@ + seq![mid] + right.key@);
    lemma_multiset_commutative(left.key@ + seq![mid], right.key@);
    lemma_multiset_commutative(left.key@, seq![mid]);
    assert(seq![mid] =~= Seq::<T>::empty().insert(0, mid));
    to_multiset_insert(Seq::<T>::empty(), 0, mid);
    Seq::<T>::empty().to_multiset_ensures();
    assert(Seq::<T>::empty().to_multiset() =~= Multiset::<T>::empty());
    assert(seq![mid].to_multiset() =~= Multiset::<T>::empty().insert(mid));
    match whole.node_type {
        NodeType::Leaf => {
            assert(whole.child_bags() =~= Seq::<Multiset<T>>::empty());
            assert(left.child_bags() =~= Seq::<Multiset<T>>::empty());
            assert(right.child_bags() =~= Seq::<Multiset<T>>::empty());
        },
        NodeType::Regular => {
            let bs = whole.child_bags();
            assert(left.child_bags() =~= bs.subrange(0, t));
            assert(right.child_bags() =~= bs.subrange(t, whole.key@.len() as int + 1));
            lemma_total_split(bs, t);
            assert forall|j: int| 0 <= j < left.children@.len() implies (
            #[trigger] left.children@[j]).is_some() && left.children@[j].unwrap().formed(
                (height - 1) as nat,
                order,
            ) by {
                assert(left.children@[j] == whole.children@[j]);
            }
            assert forall|j: int| 0 <= j < right.children@.len() implies (
            #[trigger] right.children@[j]).is_some() && right.children@[j].unwrap().formed(
                (height - 1) as nat,
                order,
            ) by {
                assert(right.children@[j] == whole.children@[j + t]);
            }
        },
    }
    assert(whole.bag() =~= left.bag().add(right.bag()).insert(mid));
}

/// The halves of a node hold enough values if the cut leaves each of
/// them `stock - 1`.
pub proof fn lemma_halves_filled<U, T>(
    whole: &Node<U, T>,
    left: &Node<U, T>,
    right: &Node<U, T>,
    stock: nat,
    cut: int,
)
    requires
        stock >= 1,
        whole.filled(stock, 0),
        whole.node_type == NodeType::Regular ==> whole.children@.len() == whole.key@.len() + 1,
        halves(whole, left, right, cut),
        cut >= stock - 1,
        whole.key@.len() - cut - 1 >= stock - 1,
    ensures
        left.filled(stock, (stock - 1) as nat),
        right.filled(stock, (stock - 1) as nat),
{
    let t = cut + 1;
    assert(left.key@.len() == cut);
    assert(right.key@.len() == whole.key@.len() - cut - 1);
    assert forall|j: int| 0 <= j < left.children@.len() implies match #[trigger] left.children@[j] {
        Some(c) => c.filled(stock, (stock - 1) as nat),
        None => true,
    } by {
        assert(left.children@[j] == whole.children@[j]);
    }
    assert forall|j: int| 0 <= j < right.children@.len() implies match #[trigger] right.children@[j] {
        Some(c) => c.filled(stock, (stock - 1) as nat),
        None => true,
    } by {
        assert(right.children@[j] == whole.children@[j + t]);
    }
}

/// The halves of an ordered node are ordered, and the middle value lies
/// between them.
pub proof fn lemma_halves_ordered<U: TotalOrder, T: Key<U>>(
    whole: &Node<U, T>,
    left: &Node<U, T>,
    right: &Node<U, T>,
    height: nat,
    order: nat,
    cut: int,
)
    requires
        order >= 1,
        whole.formed(height, order),
        whole.ordered(),
        halves(whole, left, right, cut),
    ensures
        left.ordered(),
        right.ordered(),
        within(left.bag(), None, Some(whole.key@[cut].spec_key())),
        within(right.bag(), Some(whole.key@[cut].spec_key()), None),
{
    let t = cut + 1;
    let mid = whole.key@[t - 1];
    assert forall|i: int, j: int| 0 <= i <= j < left.key@.len() implies (
    #[trigger] left.key@[i]).spec_key().le((#[trigger] left.key@[j]).spec_key()) by {
        assert(whole.key@[i].spec_key().le(whole.key@[j].spec_key()));
    }
    assert forall|i: int, j: int| 0 <= i <= j < right.key@.len() implies (
    #[trigger] right.key@[i]).spec_key().le((#[trigger] right.key@[j]).spec_key()) by {
        assert(whole.key@[i + t].spec_key().le(whole.key@[j + t].spec_key()));
    }
    assert forall|j: int| 0 <= j < left.children@.len() implies match #[trigger] left.children@[j] {
        Some(c) => c.ordered() && within(c.bag(), left.key_before(j), left.key_behind(j)),
        None => true,
    } by {
        assert(left.children@[j] == whole.children@[j]);
        let c = whole.children@[j].unwrap();
        assert(within(c.bag(), whole.key_before(j), whole.key_behind(j)));
    }
    assert forall|j: int| 0 <= j < right.children@.len() implies match #[trigger] right.children@[j] {
        Some(c) => c.ordered() && within(c.bag(), right.key_before(j), right.key_behind(j)),
        None => true,
    } by {
        assert(right.children@[j] == whole.children@[j + t]);
        let c = whole.children@[j + t].unwrap();
        assert(within(c.bag(), whole.key_before(j + t), whole.key_behind(j + t)));
    }
    assert forall|e: T| left.bag().count(e) > 0 implies (#[trigger] e.spec_key()).le(
        mid.spec_key(),
    ) by {
        lemma_bag_parts(left, e);
        if exists|i: int| 0 <= i < left.key@.len() && #[trigger] left.key@[i] == e {
            let i = choose|i: int| 0 <= i < left.key@.len() && #[trigger] left.key@[i] == e;
            assert(whole.key@[i].spec_key().le(whole.key@[t - 1].spec_key()));
        } else {
            let j = choose|j: int|
                0 <= j < left.children@.len() && (#[trigger] bag_of(left.children@[j])).count(e)
                    > 0;
            assert(left.children@[j] == whole.children@[j]);
            let c = whole.children@[j].unwrap();
            assert(within(c.bag(), whole.key_before(j), whole.key_behind(j)));
            assert(whole.key@[j].spec_key().le(whole.key@[t - 1].spec_key()));
            U::le_transitive(e.spec_key(), whole.key@[j].spec_key(), mid.spec_key());
        }
    }
    assert forall|e: T| right.bag().count(e) > 0 implies mid.spec_key().le(
        #[trigger] e.spec_key(),
    ) by {
        lemma_bag_parts(right, e);
        if exists|i: int| 0 <= i < right.key@.len() && #[trigger] right.key@[i] == e {
            let i = choose|i: int| 0 <= i < right.key@.len() && #[trigger] right.key@[i] == e;
            assert(whole.key@[t - 1].spec_key().le(whole.key@[i + t].spec_key()));
        } else {
            let j = choose|j: int|
                0 <= j < right.children@.len() && (#[trigger] bag_of(right.children@[j])).count(e)
                    > 0;
            assert(right.children@[j] == whole.children@[j + t]);
            let c = whole.children@[j + t].unwrap();
            assert(within(c.bag(), whole.key_before(j + t), whole.key_behind(j + t)));
            assert(whole.key@[t - 1].spec_key().le(whole.key@[j + t - 1].spec_key()));
            U::le_transitive(mid.spec_key(), whole.key@[j + t - 1].spec_key(), e.spec_key());
        }
    }
}

/// A node whose child at the place `at` was cut in two: the middle
/// value of the child stands at the place `at` of the node, between the
/// two halves.
pub open spec fn child_split<U, T>(
    before: &Node<U, T>,
    after: &Node<U, T>,
    at: int,
    left: Tree<U, T>,
    right: Tree<U, T>,
    cut: int,
) -> bool {
    &&& 0 <= at < before.children@.len()
    &&& before.children@[at].is_some()
    &&& halves(&*before.children@[at].unwrap(), &*left, &*right, cut)
    &&& after.node_type == before.node_type
    &&& after.key@ == before.key@.insert(at, before.children@[at].unwrap().key@[cut])
    &&& after.children@ == before.children@.update(at, Some(left)).insert(at + 1, Some(right))
}

proof fn lemma_child_split_formed<U: TotalOrder, T: Key<U>>(
    before: &Node<U, T>,
    after: &Node<U, T>,
    at: int,
    left: Tree<U, T>,
    right: Tree<U, T>,
    height: nat,
    order: nat,
    cut: int,
)
    requires
        order >= 1,
        before.formed(height, order),
        before.ordered(),
        before.node_type == NodeType::Regular,
        before.key@.len() < 2 * order - 1,
        child_split(before, after, at, left, right, cut),
    ensures
        after.formed(height, order),
{
    let t = cut + 1;
    let child = before.children@[at].unwrap();
    let mid = child.key@[t - 1];
    let sub: nat = (height - 1) as nat;
    assert(child.formed(sub, order));
    assert(match before.children@[at] {
        Some(c) => c.ordered() && within(c.bag(), before.key_before(at), before.key_behind(at)),
        None => true,
    });
    lemma_halves_bag(&*child, &*left, &*right, sub, order, cut);
    assert forall|j: int| 0 <= j < after.children@.len() implies (
    #[trigger] after.children@[j]).is_some() && after.children@[j].unwrap().formed(sub, order) by {
        if j < at {
            assert(after.children@[j] == before.children@[j]);
        } else if j > at + 1 {
            assert(after.children@[j] == before.children@[j - 1]);
        }
    }
}

proof fn lemma_child_split_bag<U: TotalOrder, T: Key<U>>(
    before: &Node<U, T>,
    after: &Node<U, T>,
    at: int,
    left: Tree<U, T>,
    right: Tree<U, T>,
    height: nat,
    order: nat,
    cut: int,
)
    requires
        order >= 1,
        before.formed(height, order),
        before.ordered(),
        before.node_type == NodeType::Regular,
        before.key@.len() < 2 * order - 1,
        child_split(before, after, at, left, right, cut),
    ensures
        after.bag() == before.bag(),
{
    let t = cut + 1;
    let child = before.children@[at].unwrap();
    let mid = child.key@[t - 1];
    let sub: nat = (height - 1) as nat;
    assert(child.formed(sub, order));
    assert(match before.children@[at] {
        Some(c) => c.ordered() && within(c.bag(), before.key_before(at), before.key_behind(at)),
        None => true,
    });
    lemma_halves_bag(&*child, &*left, &*right, sub, order, cut);
    to_multiset_insert(before.key@, at, mid);
    let bs = before.child_bags();
    assert(after.child_bags() =~= bs.update(at, left.bag()).insert(at + 1, right.bag()));
    lemma_total_update(bs, at, left.bag());
    lemma_total_insert(bs.update(at, left.bag()), at + 1, right.bag());
    assert(bs[at] == child.bag());
    assert(after.bag() =~= before.bag()) by {
        let a = total(bs.update(at, left.bag()));
        assert(a.add(child.bag()) == total(bs).add(left.bag()));
        assert(a.add(left.bag().add(right.bag()).insert(mid)) =~= total(bs).add(left.bag()));
        assert forall|e: T| after.bag().count(e) == before.bag().count(e) by {
            assert(a.add(child.bag()).count(e) == total(bs).add(left.bag()).count(e));
        }
    }
}

proof fn lemma_child_split_keys<U: TotalOrder, T: Key<U>>(
    before: &Node<U, T>,
    after: &Node<U, T>,
    at: int,
    left: Tree<U, T>,
    right: Tree<U, T>,
    height: nat,
    order: nat,
    cut: int,
)
    requires
        order >= 1,
        before.formed(height, order),
        before.ordered(),
        before.node_type == NodeType::Regular,
        before.key@.len() < 2 * order - 1,
        child_split(before, after, at, left, right, cut),
    ensures
        forall|i: int, j: int|
            0 <= i <= j < after.key@.len() ==> (#[trigger] after.key@[i]).spec_key().le(
                (#[trigger] after.key@[j]).spec_key(),
            ),
{
    let t = cut + 1;
    let child = before.children@[at].unwrap();
    let mid = child.key@[t - 1];
    let sub: nat = (height - 1) as nat;
    assert(child.formed(sub, order));
    assert(match before.children@[at] {
        Some(c) => c.ordered() && within(c.bag(), before.key_before(at), before.key_behind(at)),
        None => true,
    });
    lemma_key_in_bag(&*child, t - 1);
    assert forall|i: int, j: int| 0 <= i <= j < after.key@.len() implies (
    #[trigger] after.key@[i]).spec_key().le((#[trigger] after.key@[j]).spec_key()) by {
        let a = if i < at { i } else { i - 1 };
        let b = if j < at { j } else { j - 1 };
        if i == at && j == at {
            U::le_reflexive(mid.spec_key());
        } else if i == at {
            assert(after.key@[j] == before.key@[j - 1]);
            assert(before.key@[at].spec_key().le(before.key@[j - 1].spec_key()));
            U::le_transitive(mid.spec_key(), before.key@[at].spec_key(), before.key@[j - 1].spec_key());
        } else if j == at {
            assert(after.key@[i] == before.key@[i]);
            assert(before.key@[i].spec_key().le(before.key@[at - 1].spec_key()));
            U::le_transitive(before.key@[i].spec_key(), before.key@[at - 1].spec_key(), mid.spec_key());
        } else {
            assert(after.key@[i] == before.key@[a]);
            assert(after.key@[j] == before.key@[b]);
            assert(before.key@[a].spec_key().le(before.key@[b].spec_key()));
        }
    }
}

proof fn lemma_child_split_halves<U: TotalOrder, T: Key<U>>(
    before: &Node<U, T>,
    after: &Node<U, T>,
    at: int,
    left: Tree<U, T>,
    right: Tree<U, T>,
    height: nat,
    order: nat,
    cut: int,
)
    requires
        order >= 1,
        before.formed(height, order),
        before.ordered(),
        before.node_type == NodeType::Regular,
        before.key@.len() < 2 * order - 1,
        child_split(before, after, at, left, right, cut),
    ensures
        left.ordered(),
        right.ordered(),
        within(
            left.bag(),
            before.key_before(at),
            Some(before.children@[at].unwrap().key@[cut].spec_key()),
        ),
        within(
            right.bag(),
            Some(before.children@[at].unwrap().key@[cut].spec_key()),
            before.key_behind(at),
        ),
{
    let child = before.children@[at].unwrap();
    let mid = child.key@[cut];
    let sub: nat = (height - 1) as nat;
    assert(child.formed(sub, order));
    assert(match before.children@[at] {
        Some(c) => c.ordered() && within(c.bag(), before.key_before(at), before.key_behind(at)),
        None => true,
    });
    lemma_halves_bag(&*child, &*left, &*right, sub, order, cut);
    lemma_halves_ordered(&*child, &*left, &*right, sub, order, cut);
    assert forall|e: T| left.bag().count(e) > 0 implies {
        &&& (before.key_before(at).is_some() ==> before.key_before(at).unwrap().le(
            #[trigger] e.spec_key(),
        ))
        &&& e.spec_key().le(mid.spec_key())
    } by {
        assert(child.bag().count(e) > 0);
    }
    assert forall|e: T| right.bag().count(e) > 0 implies {
        &&& mid.spec_key().le(#[trigger] e.spec_key())
        &&& (before.key_behind(at).is_some() ==> e.spec_key().le(before.key_behind(at).unwrap()))
    } by {
        assert(child.bag().count(e) > 0);
    }
}

proof fn lemma_child_split_children<U: TotalOrder, T: Key<U>>(
    before: &Node<U, T>,
    after: &Node<U, T>,
    at: int,
    left: Tree<U, T>,
    right: Tree<U, T>,
    height: nat,
    order: nat,
    cut: int,
)
    requires
        order >= 1,
        before.formed(height, order),
        before.ordered(),
        before.node_type == NodeType::Regular,
        before.key@.len() < 2 * order - 1,
        child_split(before, after, at, left, right, cut),
    ensures
        forall|j: int|
            0 <= j < after.children@.len() ==> match #[trigger] after.children@[j] {
                Some(c) => c.ordered() && within(c.bag(), after.key_before(j), after.key_behind(j)),
                None => true,
            },
{
    let child = before.children@[at].unwrap();
    let mid = child.key@[cut];
    lemma_child_split_halves(before, after, at, left, right, height, order, cut);
    assert forall|j: int| 0 <= j < after.children@.len() implies match #[trigger] after.children@[j] {
        Some(c) => c.ordered() && within(c.bag(), after.key_before(j), after.key_behind(j)),
        None => true,
    } by {
        if j < at {
            assert(after.children@[j] == before.children@[j]);
            assert(match before.children@[j] {
                Some(c) => c.ordered() && within(c.bag(), before.key_before(j), before.key_behind(j)),
                None => true,
            });
            assert(after.key_before(j) == before.key_before(j));
            assert(after.key_behind(j) == before.key_behind(j));
        } else if j == at {
            assert(after.children@[j] == Some(left));
            assert(after.key_before(j) == before.key_before(at));
            assert(after.key_behind(j) == Some(mid.spec_key()));
        } else if j == at + 1 {
            assert(after.children@[j] == Some(right));
            assert(after.key_before(j) == Some(mid.spec_key()));
            assert(after.key_behind(j) == before.key_behind(at));
        } else {
            assert(after.children@[j] == before.children@[j - 1]);
            assert(match before.children@[j - 1] {
                Some(c) => c.ordered() && within(
                    c.bag(),
                    before.key_before(j - 1),
                    before.key_behind(j - 1),
                ),
                None => true,
            });
            assert(after.key_before(j) == before.key_before(j - 1));
            assert(after.key_behind(j) == before.key_behind(j - 1));
        }
    }
}

proof fn lemma_child_split_filled<U, T>(
    before: &Node<U, T>,
    after: &Node<U, T>,
    at: int,
    left: Tree<U, T>,
    right: Tree<U, T>,
    stock: nat,
    cut: int,
)
    requires
        stock >= 1,
        before.filled(stock, 0),
        child_split(before, after, at, left, right, cut),
        before.children@[at].unwrap().node_type == NodeType::Regular ==> before.children@[at].unwrap().children@.len()
            == before.children@[at].unwrap().key@.len() + 1,
        cut >= stock - 1,
        before.children@[at].unwrap().key@.len() - cut - 1 >= stock - 1,
    ensures
        after.filled(stock, 0),
{
    let child = before.children@[at].unwrap();
    assert(match before.children@[at] {
        Some(c) => c.filled(stock, (stock - 1) as nat),
        None => true,
    });
    lemma_halves_filled(&*child, &*left, &*right, stock, cut);
    assert forall|j: int| 0 <= j < after.children@.len() implies match #[trigger] after.children@[j] {
        Some(c) => c.filled(stock, (stock - 1) as nat),
        None => true,
    } by {
        if j < at {
            assert(after.children@[j] == before.children@[j]);
        } else if j > at + 1 {
            assert(after.children@[j] == before.children@[j - 1]);
        }
    }
}

/// Cutting a child in two changes neither what the node holds nor its
/// form nor its order, and leaves every node with enough values if the
/// cut leaves each half `stock - 1`.
pub proof fn lemma_child_split<U: TotalOrder, T: Key<U>>(
    before: &Node<U, T>,
    after: &Node<U, T>,
    at: int,
    left: Tree<U, T>,
    right: Tree<U, T>,
    height: nat,
    order: nat,
    cut: int,
    stock: nat,
)
    requires
        order >= 1,
        before.formed(height, order),
        before.ordered(),
        before.node_type == NodeType::Regular,
        before.key@.len() < 2 * order - 1,
        child_split(before, after, at, left, right, cut),
    ensures
        after.formed(height, order),
        after.ordered(),
        after.bag() == before.bag(),
        stock >= 1 && before.filled(stock, 0) && cut >= stock - 1 && before.children@[at].unwrap().key@.len()
            - cut - 1 >= stock - 1 ==> after.filled(stock, 0),
{
    if stock >= 1 && before.filled(stock, 0) && cut >= stock - 1 && before.children@[at].unwrap().key@.len()
        - cut - 1 >= stock - 1 {
        assert(before.children@[at].unwrap().formed((height - 1) as nat, order));
        lemma_child_split_filled(before, after, at, left, right, stock, cut);
    }
    lemma_child_split_formed(before, after, at, left, right, height, order, cut);
    lemma_child_split_bag(before, after, at, left, right, height, order, cut);
    lemma_child_split_keys(before, after, at, left, right, height, order, cut);
    lemma_child_split_children(before, after, at, left, right, height, order, cut);
}

} // verus!
