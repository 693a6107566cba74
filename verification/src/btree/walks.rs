use vstd::prelude::*;
use crate::order::TotalOrder;
use super::grow::{child_split, halves};
use super::lend::{lent_left, lent_right};
use super::shrink::merged;
use super::laws::law_contents_sorted;
use super::node::{contents_of, Key, Node, NodeType, Tree};

verus! {

/// What a walk passes below the child at the place `j`.
pub open spec fn below<U, T>(node: &Node<U, T>, j: int) -> Seq<T> {
    if 0 <= j < node.children@.len() {
        contents_of(node.children@[j])
    } else {
        Seq::empty()
    }
}

/// What a walk passes before it reaches the child at the place `c`.
pub open spec fn head<U, T>(node: &Node<U, T>, c: nat) -> Seq<T>
    decreases c,
{
    if c == 0 || c > node.key@.len() {
        Seq::empty()
    } else {
        head(node, (c - 1) as nat) + below(node, c - 1) + seq![node.key@[c - 1]]
    }
}

/// A walk is what it passes before a child and what it passes from the
/// child on.
pub proof fn lemma_head_walked<U, T>(node: &Node<U, T>, c: nat)
    requires
        c <= node.key@.len(),
    ensures
        node.contents() == head(node, c) + node.walked(c),
    decreases c,
{
    if c == 0 {
        assert(head(node, 0) + node.walked(0) =~= node.walked(0));
    } else {
        lemma_head_walked(node, (c - 1) as nat);
        let d = (c - 1) as nat;
        assert(node.walked(d) =~= below(node, d as int) + seq![node.key@[d as int]] + node.walked(c));
        assert(head(node, c) + node.walked(c) =~= head(node, d) + node.walked(d));
    }
}

/// Two nodes that agree from a place on, one of them shifted, are walked
/// alike from there.
pub proof fn lemma_walked_alike<U, T>(a: &Node<U, T>, b: &Node<U, T>, from: nat, shift: int)
    requires
        from <= a.key@.len(),
        from + shift >= 0,
        a.key@.len() + shift == b.key@.len(),
        forall|j: int| from <= j < a.key@.len() ==> a.key@[j] == b.key@[j + shift],
        forall|j: int| from <= j <= a.key@.len() ==> below(a, j) == below(b, j + shift),
    ensures
        a.walked(from) == b.walked((from + shift) as nat),
    decreases a.key@.len() - from,
{
    let f = from as int;
    assert(below(a, f) == below(b, f + shift));
    if from < a.key@.len() {
        lemma_walked_alike(a, b, from + 1, shift);
        assert(a.key@[f] == b.key@[f + shift]);
    }
}

/// Two nodes that agree before a place are walked alike before it.
pub proof fn lemma_head_alike<U, T>(a: &Node<U, T>, b: &Node<U, T>, c: nat)
    requires
        c <= a.key@.len(),
        c <= b.key@.len(),
        forall|j: int| 0 <= j < c ==> a.key@[j] == b.key@[j],
        forall|j: int| 0 <= j < c ==> below(a, j) == below(b, j),
    ensures
        head(a, c) == head(b, c),
    decreases c,
{
    if c > 0 {
        lemma_head_alike(a, b, (c - 1) as nat);
        assert(a.key@[c - 1] == b.key@[c - 1]);
        assert(below(a, c - 1) == below(b, c - 1));
    }
}

/// A walk through a leaf passes its values.
pub proof fn lemma_leaf_walk<U, T>(leaf: &Node<U, T>, from: nat)
    requires
        leaf.children@.len() == 0,
        from <= leaf.key@.len(),
    ensures
        leaf.walked(from) == leaf.key@.subrange(from as int, leaf.key@.len() as int),
    decreases leaf.key@.len() - from,
{
    let n = leaf.key@.len() as int;
    if from < n {
        lemma_leaf_walk(leaf, from + 1);
        assert(leaf.walked(from) =~= leaf.key@.subrange(from as int, n));
    } else {
        assert(leaf.walked(from) =~= leaf.key@.subrange(from as int, n));
    }
}

/// A value that enters the walk of a child enters the walk of the node
/// behind what stands before that child.
pub proof fn lemma_child_walk_insert<U, T>(
    before: &Node<U, T>,
    after: &Node<U, T>,
    at: int,
    grown: Tree<U, T>,
    place: int,
    value: T,
)
    requires
        0 <= at < before.children@.len(),
        at <= before.key@.len(),
        before.children@[at].is_some(),
        after.key@ == before.key@,
        after.children@ == before.children@.update(at, Some(grown)),
        0 <= place <= before.children@[at].unwrap().contents().len(),
        grown.contents() == before.children@[at].unwrap().contents().insert(place, value),
    ensures
        after.contents() == before.contents().insert(head(before, at as nat).len() + place, value),
        before.contents().len() >= head(before, at as nat).len() + before.children@[at].unwrap().contents().len(),
{
    let c = at as nat;
    lemma_head_walked(before, c);
    lemma_head_walked(after, c);
    lemma_head_alike(before, after, c);
    if at < before.key@.len() {
        lemma_walked_alike(before, after, c + 1, 0);
    }
    let h = head(before, c);
    let old = before.children@[at].unwrap().contents();
    assert(below(before, at) == old);
    assert(below(after, at) == grown.contents());
    assert(after.walked(c) =~= before.walked(c).insert(place, value));
    assert(h + before.walked(c).insert(place, value) =~= (h + before.walked(c)).insert(
        h.len() + place,
        value,
    ));
}

/// The walk of a node is the walks of its halves with the value at the
/// cut between them.
pub proof fn lemma_halves_walk<U, T>(
    whole: &Node<U, T>,
    left: &Node<U, T>,
    right: &Node<U, T>,
    cut: int,
)
    requires
        halves(whole, left, right, cut),
        whole.node_type == NodeType::Regular ==> whole.children@.len() == whole.key@.len() + 1,
        whole.node_type == NodeType::Leaf ==> whole.children@.len() == 0,
    ensures
        whole.contents() == left.contents() + seq![whole.key@[cut]] + right.contents(),
{
    let c = cut as nat;
    lemma_head_walked(whole, c);
    lemma_head_walked(left, c);
    lemma_head_alike(whole, left, c);
    assert(below(whole, cut) == below(left, cut));
    assert(left.walked(c) == below(left, cut));
    lemma_walked_alike(right, whole, 0, cut + 1);
    assert(whole.walked(c) =~= below(whole, cut) + seq![whole.key@[cut]] + whole.walked(c + 1));
    assert(whole.contents() =~= left.contents() + seq![whole.key@[cut]] + right.contents());
}

/// Cutting a child in two changes nothing in the walk of the node.
pub proof fn lemma_child_split_walk<U, T>(
    before: &Node<U, T>,
    after: &Node<U, T>,
    at: int,
    left: Tree<U, T>,
    right: Tree<U, T>,
    cut: int,
)
    requires
        child_split(before, after, at, left, right, cut),
        before.children@.len() == before.key@.len() + 1,
        ({
            let whole = before.children@[at].unwrap();
            &&& (whole.node_type == NodeType::Regular ==> whole.children@.len() == whole.key@.len()
                + 1)
            &&& (whole.node_type == NodeType::Leaf ==> whole.children@.len() == 0)
        }),
    ensures
        after.contents() == before.contents(),
{
    let whole = before.children@[at].unwrap();
    let c = at as nat;
    lemma_halves_walk(&*whole, &*left, &*right, cut);
    lemma_head_walked(before, c);
    lemma_head_walked(after, c);
    lemma_head_alike(before, after, c);
    assert forall|j: int| at + 1 <= j < before.key@.len() implies before.key@[j] == after.key@[j
        + 1] by {
    }
    assert forall|j: int| at + 1 <= j <= before.key@.len() implies below(before, j) == below(
        after,
        j + 1,
    ) by {
        assert(after.children@[j + 1] == before.children@[j]);
    }
    if at < before.key@.len() {
        lemma_walked_alike(before, after, c + 1, 1);
    }
    assert(below(before, at) == whole.contents());
    assert(below(after, at) == left.contents());
    assert(below(after, at + 1) == right.contents());
    let mid = whole.key@[cut];
    assert(after.key@[at] == mid);
    assert(after.walked(c + 1) =~= right.contents() + (if at < before.key@.len() {
        seq![before.key@[at]] + after.walked(c + 2)
    } else {
        Seq::<T>::empty()
    })) by {
        if at < before.key@.len() {
            assert(after.key@[at + 1] == before.key@[at]);
        }
    }
    assert(after.walked(c) =~= left.contents() + seq![mid] + after.walked(c + 1));
    assert(after.walked(c) =~= before.walked(c));
}

/// The place `at` is where a value with the key `k` stands behind all
/// values of `s` whose keys are not above `k`.
pub open spec fn place_behind<U: TotalOrder, T: Key<U>>(s: Seq<T>, k: U, at: int) -> bool {
    &&& 0 <= at <= s.len()
    &&& forall|j: int| 0 <= j < at ==> (#[trigger] s[j]).spec_key().le(k)
    &&& forall|j: int| at <= j < s.len() ==> !(#[trigger] s[j]).spec_key().le(k)
}

/// The place `at` is where a value with the key `k` stands before all
/// values of `s` whose keys are not below `k`.
pub open spec fn place_before<U: TotalOrder, T: Key<U>>(s: Seq<T>, k: U, at: int) -> bool {
    &&& 0 <= at <= s.len()
    &&& forall|j: int| 0 <= j < at ==> !k.le((#[trigger] s[j]).spec_key())
    &&& forall|j: int| at <= j < s.len() ==> k.le((#[trigger] s[j]).spec_key())
}

/// `s` with `v` behind the last value whose key is not above that of
/// `v`: among values with equal keys the newest comes last.
pub open spec fn put_behind<U: TotalOrder, T: Key<U>>(s: Seq<T>, v: T) -> Seq<T>
    decreases s.len(),
{
    if s.len() == 0 {
        seq![v]
    } else if s.last().spec_key().le(v.spec_key()) {
        s.push(v)
    } else {
        put_behind(s.drop_last(), v).push(s.last())
    }
}

/// `s` with `v` before the first value whose key is not below that of
/// `v`: among values with equal keys the newest comes first.
pub open spec fn put_before<U: TotalOrder, T: Key<U>>(s: Seq<T>, v: T) -> Seq<T>
    decreases s.len(),
{
    if s.len() == 0 {
        seq![v]
    } else if v.spec_key().le(s[0].spec_key()) {
        seq![v] + s
    } else {
        seq![s[0]] + put_before(s.drop_first(), v)
    }
}

pub proof fn lemma_put_behind<U: TotalOrder, T: Key<U>>(s: Seq<T>, v: T, at: int)
    requires
        place_behind(s, v.spec_key(), at),
    ensures
        put_behind(s, v) == s.insert(at, v),
    decreases s.len(),
{
    if s.len() == 0 {
        assert(s.insert(at, v) =~= seq![v]);
    } else if at == s.len() {
        assert(s.last() == s[at - 1]);
        assert(s.insert(at, v) =~= s.push(v));
    } else {
        assert(s.last() == s[s.len() - 1]);
        lemma_put_behind(s.drop_last(), v, at);
        assert(s.drop_last().insert(at, v).push(s.last()) =~= s.insert(at, v));
    }
}

pub proof fn lemma_put_before<U: TotalOrder, T: Key<U>>(s: Seq<T>, v: T, at: int)
    requires
        place_before(s, v.spec_key(), at),
    ensures
        put_before(s, v) == s.insert(at, v),
    decreases s.len(),
{
    if s.len() == 0 {
        assert(s.insert(at, v) =~= seq![v]);
    } else if at == 0 {
        assert(s.insert(at, v) =~= seq![v] + s);
    } else {
        let rest = s.drop_first();
        assert forall|j: int| 0 <= j < at - 1 implies !v.spec_key().le(
            (#[trigger] rest[j]).spec_key(),
        ) by {
            assert(rest[j] == s[j + 1]);
        }
        assert forall|j: int| at - 1 <= j < rest.len() implies v.spec_key().le(
            (#[trigger] rest[j]).spec_key(),
        ) by {
            assert(rest[j] == s[j + 1]);
        }
        lemma_put_before(rest, v, at - 1);
        assert(seq![s[0]] + rest.insert(at - 1, v) =~= s.insert(at, v));
    }
}

/// The walk of a node around the child at the place `at`: what stands
/// before the child ends with the value before it, and the value behind
/// the child follows the child's walk.
pub proof fn lemma_around_child<U, T>(node: &Node<U, T>, at: int)
    requires
        0 <= at <= node.key@.len(),
    ensures
        ({
            let h = head(node, at as nat).len() as int;
            let c = below(node, at).len() as int;
            &&& node.contents().len() >= h + c
            &&& (at > 0 ==> h > 0 && node.contents()[h - 1] == node.key@[at - 1])
            &&& (at < node.key@.len() ==> node.contents().len() > h + c && node.contents()[h + c]
                == node.key@[at])
            &&& (at == node.key@.len() ==> node.contents().len() == h + c)
            &&& forall|j: int| 0 <= j < c ==> node.contents()[h + j] == below(node, at)[j]
        }),
{
    lemma_head_walked(node, at as nat);
    let h = head(node, at as nat);
    let c = below(node, at);
    if at < node.key@.len() {
        assert(node.walked(at as nat) =~= c + seq![node.key@[at]] + node.walked((at + 1) as nat));
    } else {
        assert(node.walked(at as nat) =~= c);
    }
}

/// Where a key has its place behind its equals among the values of a
/// node and in the walk of the child at that place, it has its place in
/// the walk of the node.
pub proof fn lemma_place_behind<U: TotalOrder, T: Key<U>>(
    node: &Node<U, T>,
    height: nat,
    order: nat,
    k: U,
    at: int,
    place: int,
)
    requires
        node.formed(height, order),
        node.ordered(),
        place_behind(node.key@, k, at),
        place_behind(below(node, at), k, place),
    ensures
        place_behind(node.contents(), k, head(node, at as nat).len() + place),
{
    law_contents_sorted(node, height, order);
    lemma_around_child(node, at);
    let s = node.contents();
    let h = head(node, at as nat).len() as int;
    let c = below(node, at).len() as int;
    assert forall|j: int| 0 <= j < h + place implies (#[trigger] s[j]).spec_key().le(k) by {
        if j < h {
            assert(s[j].spec_key().le(s[h - 1].spec_key()));
            assert(node.key@[at - 1].spec_key().le(k));
            U::le_transitive(s[j].spec_key(), s[h - 1].spec_key(), k);
        } else {
            assert(s[h + (j - h)] == below(node, at)[j - h]);
        }
    }
    assert forall|j: int| h + place <= j < s.len() implies !(#[trigger] s[j]).spec_key().le(k) by {
        if j < h + c {
            assert(s[h + (j - h)] == below(node, at)[j - h]);
        } else {
            assert(s[h + c].spec_key().le(s[j].spec_key()));
            assert(!node.key@[at].spec_key().le(k));
            if s[j].spec_key().le(k) {
                U::le_transitive(s[h + c].spec_key(), s[j].spec_key(), k);
            }
        }
    }
}

/// Where a key has its place before its equals among the values of a
/// node and in the walk of the child at that place, it has its place in
/// the walk of the node.
pub proof fn lemma_place_before<U: TotalOrder, T: Key<U>>(
    node: &Node<U, T>,
    height: nat,
    order: nat,
    k: U,
    at: int,
    place: int,
)
    requires
        node.formed(height, order),
        node.ordered(),
        place_before(node.key@, k, at),
        place_before(below(node, at), k, place),
    ensures
        place_before(node.contents(), k, head(node, at as nat).len() + place),
{
    law_contents_sorted(node, height, order);
    lemma_around_child(node, at);
    let s = node.contents();
    let h = head(node, at as nat).len() as int;
    let c = below(node, at).len() as int;
    assert forall|j: int| 0 <= j < h + place implies !k.le((#[trigger] s[j]).spec_key()) by {
        if j < h {
            assert(s[j].spec_key().le(s[h - 1].spec_key()));
            assert(!k.le(node.key@[at - 1].spec_key()));
            if k.le(s[j].spec_key()) {
                U::le_transitive(k, s[j].spec_key(), s[h - 1].spec_key());
            }
        } else {
            assert(s[h + (j - h)] == below(node, at)[j - h]);
        }
    }
    assert forall|j: int| h + place <= j < s.len() implies k.le((#[trigger] s[j]).spec_key()) by {
        if j < h + c {
            assert(s[h + (j - h)] == below(node, at)[j - h]);
        } else {
            assert(s[h + c].spec_key().le(s[j].spec_key()));
            assert(k.le(node.key@[at].spec_key()));
            U::le_transitive(k, s[h + c].spec_key(), s[j].spec_key());
        }
    }
}

/// Two children put together change nothing in the walk of the node.
pub proof fn lemma_merged_walk<U, T>(
    before: &Node<U, T>,
    after: &Node<U, T>,
    at: int,
    joined: Tree<U, T>,
)
    requires
        merged(before, after, at, joined),
        ({
            let left = before.children@[at].unwrap();
            let right = before.children@[at + 1].unwrap();
            &&& left.node_type == right.node_type
            &&& match left.node_type {
                NodeType::Leaf => left.children@.len() == 0 && right.children@.len() == 0,
                NodeType::Regular => left.children@.len() == left.key@.len() + 1
                    && right.children@.len() == right.key@.len() + 1,
            }
        }),
    ensures
        after.contents() == before.contents(),
{
    let left = before.children@[at].unwrap();
    let right = before.children@[at + 1].unwrap();
    let cut = left.key@.len() as int;
    assert(joined.key@.subrange(0, cut) =~= left.key@);
    assert(joined.key@.subrange(cut + 1, joined.key@.len() as int) =~= right.key@);
    match left.node_type {
        NodeType::Leaf => {},
        NodeType::Regular => {
            assert(joined.children@.subrange(0, cut + 1) =~= left.children@);
            assert(joined.children@.subrange(cut + 1, joined.key@.len() as int + 1)
                =~= right.children@);
        },
    }
    assert(halves(&*joined, &*left, &*right, cut));
    assert(before.key@ =~= after.key@.insert(at, joined.key@[cut]));
    assert(before.children@ =~= after.children@.update(at, Some(left)).insert(at + 1, Some(right)));
    assert(child_split(after, before, at, left, right, cut));
    lemma_child_split_walk(after, before, at, left, right, cut);
}

/// Two children exchanged, with another value between them, change
/// nothing in the walk of the node if their walks with that value
/// between them are the walks of the old ones with the old value.
pub proof fn lemma_pair_walk<U, T>(
    before: &Node<U, T>,
    after: &Node<U, T>,
    at: int,
    left: Tree<U, T>,
    right: Tree<U, T>,
    up: T,
)
    requires
        0 <= at < before.key@.len(),
        before.children@.len() == before.key@.len() + 1,
        before.children@[at].is_some(),
        before.children@[at + 1].is_some(),
        after.key@ == before.key@.update(at, up),
        after.children@ == before.children@.update(at, Some(left)).update(at + 1, Some(right)),
        left.contents() + seq![up] + right.contents() == before.children@[at].unwrap().contents()
            + seq![before.key@[at]] + before.children@[at + 1].unwrap().contents(),
    ensures
        after.contents() == before.contents(),
{
    let c = at as nat;
    lemma_head_walked(before, c);
    lemma_head_walked(after, c);
    lemma_head_alike(before, after, c);
    if at + 1 < before.key@.len() {
        lemma_walked_alike(before, after, c + 2, 0);
    }
    let l = before.children@[at].unwrap().contents();
    let r = before.children@[at + 1].unwrap().contents();
    let sep = before.key@[at];
    assert(below(before, at) == l && below(before, at + 1) == r);
    assert(below(after, at) == left.contents() && below(after, at + 1) == right.contents());
    let rest_b = if at + 1 < before.key@.len() {
        seq![before.key@[at + 1]] + before.walked(c + 2)
    } else {
        Seq::<T>::empty()
    };
    let rest_a = if at + 1 < before.key@.len() {
        seq![after.key@[at + 1]] + after.walked(c + 2)
    } else {
        Seq::<T>::empty()
    };
    assert(rest_a == rest_b);
    assert(before.walked(c + 1) =~= r + rest_b);
    assert(after.walked(c + 1) =~= right.contents() + rest_a);
    assert(before.walked(c) =~= l + seq![sep] + before.walked(c + 1));
    assert(after.walked(c) =~= left.contents() + seq![up] + after.walked(c + 1));
    assert(after.walked(c) =~= (left.contents() + seq![up] + right.contents()) + rest_a);
    assert(before.walked(c) =~= (l + seq![sep] + r) + rest_b);
}

/// A value lent to the child behind it changes nothing in the walk.
#[verifier::rlimit(50)]
pub proof fn lemma_lent_right_walk<U, T>(
    before: &Node<U, T>,
    after: &Node<U, T>,
    at: int,
    left: Tree<U, T>,
    right: Tree<U, T>,
)
    requires
        lent_right(before, after, at, left, right),
        ({
            let l = before.children@[at].unwrap();
            let r = before.children@[at + 1].unwrap();
            &&& l.node_type == r.node_type
            &&& match l.node_type {
                NodeType::Leaf => l.children@.len() == 0 && r.children@.len() == 0,
                NodeType::Regular => l.children@.len() == l.key@.len() + 1 && r.children@.len()
                    == r.key@.len() + 1,
            }
        }),
    ensures
        after.contents() == before.contents(),
{
    let l = before.children@[at].unwrap();
    let r = before.children@[at + 1].unwrap();
    let n = l.key@.len() as int;
    let up = l.key@.last();
    let sep = before.key@[at];
    let moved = below(&*l, n);
    // the giver: its walk is that of what is left of it, the value that
    // went up and the child that went over
    lemma_head_walked(&*l, (n - 1) as nat);
    lemma_head_walked(&*left, (n - 1) as nat);
    lemma_head_alike(&*l, &*left, (n - 1) as nat);
    assert(below(&*l, n - 1) == below(&*left, n - 1));
    assert(l.walked(n as nat) == moved);
    assert(l.walked((n - 1) as nat) =~= below(&*l, n - 1) + seq![up] + moved);
    assert(left.walked((n - 1) as nat) == below(&*left, n - 1));
    assert(l.contents() =~= left.contents() + seq![up] + moved);
    // the taker: the child that came over, the value that came down, and
    // its own walk
    lemma_walked_alike(&*r, &*right, 0, 1);
    assert(below(&*right, 0) == moved);
    assert(right.walked(0) =~= moved + seq![sep] + right.walked(1));
    assert(right.contents() =~= moved + seq![sep] + r.contents());
    assert(left.contents() + seq![up] + right.contents() =~= l.contents() + seq![sep]
        + r.contents());
    lemma_pair_walk(before, after, at, left, right, up);
}

/// A value lent to the child before it changes nothing in the walk.
#[verifier::rlimit(50)]
pub proof fn lemma_lent_left_walk<U, T>(
    before: &Node<U, T>,
    after: &Node<U, T>,
    at: int,
    left: Tree<U, T>,
    right: Tree<U, T>,
)
    requires
        lent_left(before, after, at, left, right),
        ({
            let l = before.children@[at].unwrap();
            let r = before.children@[at + 1].unwrap();
            &&& l.node_type == r.node_type
            &&& match l.node_type {
                NodeType::Leaf => l.children@.len() == 0 && r.children@.len() == 0,
                NodeType::Regular => l.children@.len() == l.key@.len() + 1 && r.children@.len()
                    == r.key@.len() + 1,
            }
        }),
    ensures
        after.contents() == before.contents(),
{
    let l = before.children@[at].unwrap();
    let r = before.children@[at + 1].unwrap();
    let n = l.key@.len() as int;
    let up = r.key@[0];
    let sep = before.key@[at];
    let moved = below(&*r, 0);
    // the giver
    lemma_walked_alike(&*right, &*r, 0, 1);
    assert(r.walked(0) =~= moved + seq![up] + r.walked(1));
    assert(r.contents() =~= moved + seq![up] + right.contents());
    // the taker
    lemma_head_walked(&*l, n as nat);
    lemma_head_walked(&*left, n as nat);
    lemma_head_alike(&*l, &*left, n as nat);
    assert(below(&*l, n) == below(&*left, n));
    assert(l.walked(n as nat) == below(&*l, n));
    assert(below(&*left, n + 1) == moved);
    assert(left.walked((n + 1) as nat) == moved);
    assert(left.walked(n as nat) =~= below(&*left, n) + seq![sep] + moved);
    assert(left.contents() =~= l.contents() + seq![sep] + moved);
    assert(left.contents() + seq![up] + right.contents() =~= l.contents() + seq![sep]
        + r.contents());
    lemma_pair_walk(before, after, at, left, right, up);
}

/// The last value of the walk of the last child is the last of the walk
/// of the node, and leaves it with it.
pub proof fn lemma_last_walk_remove<U, T>(
    before: &Node<U, T>,
    after: &Node<U, T>,
    less: Tree<U, T>,
)
    requires
        before.children@.len() == before.key@.len() + 1,
        before.children@.last().is_some(),
        after.key@ == before.key@,
        after.children@ == before.children@.update(before.key@.len() as int, Some(less)),
        before.children@.last().unwrap().contents().len() > 0,
        less.contents() == before.children@.last().unwrap().contents().drop_last(),
    ensures
        before.contents().len() > 0,
        before.contents().last() == before.children@.last().unwrap().contents().last(),
        after.contents() == before.contents().drop_last(),
{
    let at = before.key@.len() as int;
    let small = before.children@[at].unwrap().contents();
    assert(before.children@.last() == before.children@[at]);
    assert(small.drop_last() =~= small.remove(small.len() - 1));
    lemma_child_walk_remove(before, after, at, less, small.len() - 1);
    lemma_around_child(before, at);
    assert(below(before, at) == small);
    let s = before.contents();
    let h = head(before, at as nat).len() as int;
    assert(s.len() == h + small.len());
    assert(s.remove(h + small.len() - 1) =~= s.drop_last());
}

/// The first value of the walk of the first child is the first of the
/// walk of the node, and leaves it with it.
pub proof fn lemma_first_walk_remove<U, T>(
    before: &Node<U, T>,
    after: &Node<U, T>,
    less: Tree<U, T>,
)
    requires
        before.children@.len() == before.key@.len() + 1,
        before.children@[0].is_some(),
        after.key@ == before.key@,
        after.children@ == before.children@.update(0, Some(less)),
        before.children@[0].unwrap().contents().len() > 0,
        less.contents() == before.children@[0].unwrap().contents().drop_first(),
    ensures
        before.contents().len() > 0,
        before.contents()[0] == before.children@[0].unwrap().contents()[0],
        after.contents() == before.contents().drop_first(),
{
    let small = before.children@[0].unwrap().contents();
    assert(small.drop_first() =~= small.remove(0));
    lemma_child_walk_remove(before, after, 0, less, 0);
    assert(head(before, 0).len() == 0);
    let s = before.contents();
    assert(s.remove(0) =~= s.drop_first());
}

/// A value that enters a leaf enters the walk at the same place.
pub proof fn lemma_leaf_walk_insert<U, T>(
    before: &Node<U, T>,
    after: &Node<U, T>,
    at: int,
    value: T,
)
    requires
        before.children@.len() == 0,
        after.children@.len() == 0,
        0 <= at <= before.key@.len(),
        after.key@ == before.key@.insert(at, value),
    ensures
        before.contents() == before.key@,
        after.contents() == before.contents().insert(at, value),
{
    lemma_leaf_walk(before, 0);
    lemma_leaf_walk(after, 0);
    assert(before.contents() =~= before.key@);
    assert(after.contents() =~= after.key@);
}

/// A walk through a leaf passes its values, and a value that leaves the
/// leaf leaves the walk.
pub proof fn lemma_leaf_walk_remove<U, T>(before: &Node<U, T>, after: &Node<U, T>, at: int)
    requires
        before.children@.len() == 0,
        after.children@.len() == 0,
        0 <= at < before.key@.len(),
        after.key@ == before.key@.remove(at),
    ensures
        before.contents() == before.key@,
        after.contents() == before.contents().remove(at),
        at == 0 ==> after.contents() == before.contents().drop_first(),
        at == before.key@.len() - 1 ==> after.contents() == before.contents().drop_last(),
{
    lemma_leaf_walk(before, 0);
    lemma_leaf_walk(after, 0);
    assert(before.contents() =~= before.key@);
    assert(after.contents() =~= after.key@);
    if at == 0 {
        assert(before.key@.remove(0) =~= before.key@.drop_first());
    }
    if at == before.key@.len() - 1 {
        assert(before.key@.remove(at) =~= before.key@.drop_last());
    }
}

/// A child exchanged for one with the same walk leaves the walk of the
/// node as it is.
pub proof fn lemma_same_child_walk<U, T>(
    before: &Node<U, T>,
    after: &Node<U, T>,
    at: int,
    same: Tree<U, T>,
)
    requires
        0 <= at < before.children@.len(),
        at <= before.key@.len(),
        before.children@[at].is_some(),
        after.key@ == before.key@,
        after.children@ == before.children@.update(at, Some(same)),
        same.contents() == before.children@[at].unwrap().contents(),
    ensures
        after.contents() == before.contents(),
{
    assert forall|j: int| 0 <= j <= before.key@.len() implies below(before, j) == below(
        after,
        j,
    ) by {
    }
    lemma_walked_alike(before, after, 0, 0);
}

/// A value that leaves the walk of a child leaves the walk of the node.
pub proof fn lemma_child_walk_remove<U, T>(
    before: &Node<U, T>,
    after: &Node<U, T>,
    at: int,
    less: Tree<U, T>,
    place: int,
)
    requires
        0 <= at < before.children@.len(),
        at <= before.key@.len(),
        before.children@[at].is_some(),
        after.key@ == before.key@,
        after.children@ == before.children@.update(at, Some(less)),
        0 <= place < before.children@[at].unwrap().contents().len(),
        less.contents() == before.children@[at].unwrap().contents().remove(place),
    ensures
        head(before, at as nat).len() + place < before.contents().len(),
        after.contents() == before.contents().remove(head(before, at as nat).len() + place),
        before.contents()[head(before, at as nat).len() + place] == before.children@[at].unwrap().contents()[place],
{
    let c = at as nat;
    lemma_head_walked(before, c);
    lemma_head_walked(after, c);
    lemma_head_alike(before, after, c);
    if at < before.key@.len() {
        lemma_walked_alike(before, after, c + 1, 0);
    }
    let h = head(before, c);
    let old = before.children@[at].unwrap().contents();
    assert(below(before, at) == old);
    assert(below(after, at) == less.contents());
    assert(after.walked(c) =~= before.walked(c).remove(place));
    assert(h + before.walked(c).remove(place) =~= (h + before.walked(c)).remove(h.len() + place));
}

/// The walk of a node from the child at the place `at` on, laid out:
/// the walk of that child, the value behind it, the walk of the next
/// child, and the rest.
pub open spec fn rest_behind<U, T>(node: &Node<U, T>, at: int) -> Seq<T> {
    if at + 1 < node.key@.len() {
        seq![node.key@[at + 1]] + node.walked((at + 2) as nat)
    } else {
        Seq::empty()
    }
}

proof fn lemma_laid_out<U, T>(node: &Node<U, T>, at: int)
    requires
        0 <= at < node.key@.len(),
    ensures
        node.contents() == head(node, at as nat) + (below(node, at) + seq![node.key@[at]] + below(
            node,
            at + 1,
        ) + rest_behind(node, at)),
{
    let c = at as nat;
    lemma_head_walked(node, c);
    assert(node.walked(c + 1) =~= below(node, at + 1) + rest_behind(node, at));
    assert(node.walked(c) =~= below(node, at) + seq![node.key@[at]] + below(node, at + 1)
        + rest_behind(node, at));
}

proof fn lemma_same_around<U, T>(before: &Node<U, T>, after: &Node<U, T>, at: int)
    requires
        0 <= at < before.key@.len(),
        before.children@.len() == before.key@.len() + 1,
        after.key@.len() == before.key@.len(),
        after.children@.len() == before.children@.len(),
        forall|j: int| 0 <= j < before.key@.len() && j != at ==> after.key@[j] == before.key@[j],
        forall|j: int|
            0 <= j < before.children@.len() && j != at && j != at + 1 ==> after.children@[j]
                == before.children@[j],
    ensures
        head(after, at as nat) == head(before, at as nat),
        rest_behind(after, at) == rest_behind(before, at),
{
    lemma_head_alike(before, after, at as nat);
    if at + 1 < before.key@.len() {
        lemma_walked_alike(before, after, (at + 2) as nat, 0);
    }
}

proof fn lemma_drop_middle<T>(h: Seq<T>, l: Seq<T>, sep: T, r: Seq<T>, rest: Seq<T>)
    ensures
        (h + (l + seq![sep] + r + rest))[(h.len() + l.len()) as int] == sep,
        (h + (l + seq![sep] + r + rest)).remove((h.len() + l.len()) as int) == h + (l + r + rest),
{
    let old = h + (l + seq![sep] + r + rest);
    let at = (h.len() + l.len()) as int;
    assert(old[at] == sep);
    assert(old.remove(at) =~= h + (l + r + rest));
}

/// A value of the node that is replaced by the last of the walk of the
/// child before it leaves the walk of the node; the rest stays.
pub proof fn lemma_key_from_left_walk<U, T>(
    before: &Node<U, T>,
    after: &Node<U, T>,
    at: int,
    less: Tree<U, T>,
    up: T,
)
    requires
        0 <= at < before.key@.len(),
        before.children@.len() == before.key@.len() + 1,
        before.children@[at].is_some(),
        after.key@ == before.key@.update(at, up),
        after.children@ == before.children@.update(at, Some(less)),
        before.children@[at].unwrap().contents().len() > 0,
        up == before.children@[at].unwrap().contents().last(),
        less.contents() == before.children@[at].unwrap().contents().drop_last(),
    ensures
        ({
            let place = (head(before, at as nat).len() + before.children@[at].unwrap().contents().len()) as int;
            &&& place < before.contents().len()
            &&& before.contents()[place] == before.key@[at]
            &&& after.contents() == before.contents().remove(place)
        }),
{
    lemma_laid_out(before, at);
    lemma_laid_out(after, at);
    lemma_same_around(before, after, at);
    let h = head(before, at as nat);
    let l = before.children@[at].unwrap().contents();
    let r = below(before, at + 1);
    let rest = rest_behind(before, at);
    let sep = before.key@[at];
    assert(below(before, at) == l);
    assert(below(after, at) == l.drop_last());
    assert(below(after, at + 1) == r);
    assert(l.drop_last() + seq![up] =~= l);
    lemma_drop_middle(h, l, sep, r, rest);
    assert(l.drop_last() + seq![up] + r + rest =~= l + r + rest);
}

/// A value of the node that is replaced by the first of the walk of the
/// child behind it leaves the walk of the node; the rest stays.
#[verifier::rlimit(50)]
pub proof fn lemma_key_from_right_walk<U, T>(
    before: &Node<U, T>,
    after: &Node<U, T>,
    at: int,
    less: Tree<U, T>,
    up: T,
)
    requires
        0 <= at < before.key@.len(),
        before.children@.len() == before.key@.len() + 1,
        before.children@[at].is_some(),
        before.children@[at + 1].is_some(),
        after.key@ == before.key@.update(at, up),
        after.children@ == before.children@.update(at + 1, Some(less)),
        before.children@[at + 1].unwrap().contents().len() > 0,
        up == before.children@[at + 1].unwrap().contents()[0],
        less.contents() == before.children@[at + 1].unwrap().contents().drop_first(),
    ensures
        ({
            let place = (head(before, at as nat).len() + before.children@[at].unwrap().contents().len()) as int;
            &&& place < before.contents().len()
            &&& before.contents()[place] == before.key@[at]
            &&& after.contents() == before.contents().remove(place)
        }),
{
    lemma_laid_out(before, at);
    lemma_laid_out(after, at);
    lemma_same_around(before, after, at);
    let h = head(before, at as nat);
    let l = before.children@[at].unwrap().contents();
    let r = before.children@[at + 1].unwrap().contents();
    let rest = rest_behind(before, at);
    let sep = before.key@[at];
    assert(below(before, at) == l);
    assert(below(before, at + 1) == r);
    assert(below(after, at) == l);
    assert(below(after, at + 1) == r.drop_first());
    assert(seq![up] + r.drop_first() =~= r);
    lemma_drop_middle(h, l, sep, r, rest);
    assert(l + seq![up] + r.drop_first() + rest =~= l + r + rest);
}

} // verus!
