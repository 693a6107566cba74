use vstd::prelude::*;
use vstd::multiset::Multiset;
use vstd::seq_lib::{to_multiset_insert, to_multiset_remove};
use crate::order::TotalOrder;
use super::lookup::{lemma_bag_parts, lemma_child_in_bag, lemma_key_in_bag};
use super::node::{bag_of, within, Key, Node, NodeType, Tree};
use super::sums::{lemma_total_insert, lemma_total_update, total};

verus! {

/// A value that takes the place of another leaves the rest as it is.
pub proof fn lemma_update_bag<T>(s: Seq<T>, at: int, v: T)
    requires
        0 <= at < s.len(),
    ensures
        s.update(at, v).to_multiset().insert(s[at]) == s.to_multiset().insert(v),
{
    to_multiset_remove(s, at);
    assert(s.update(at, v) =~= s.remove(at).insert(at, v));
    to_multiset_insert(s.remove(at), at, v);
    s.to_multiset_ensures();
    assert(s.contains(s[at]));
    assert(s.update(at, v).to_multiset().insert(s[at]) =~= s.to_multiset().insert(v));
}

/// The last value of the child before the place `at` went up into the
/// place `at`, the value that stood there went down to the front of the
/// child behind it, and the last child of the one followed to the front
/// of the other.
pub open spec fn lent_right<U, T>(
    before: &Node<U, T>,
    after: &Node<U, T>,
    at: int,
    left: Tree<U, T>,
    right: Tree<U, T>,
) -> bool {
    let l = before.children@[at].unwrap();
    let r = before.children@[at + 1].unwrap();
    &&& 0 <= at < before.key@.len()
    &&& before.children@.len() == before.key@.len() + 1
    &&& before.children@[at].is_some()
    &&& before.children@[at + 1].is_some()
    &&& l.key@.len() > 0
    &&& left.node_type == l.node_type
    &&& right.node_type == r.node_type
    &&& left.key@ == l.key@.drop_last()
    &&& right.key@ == r.key@.insert(0, before.key@[at])
    &&& match l.node_type {
        NodeType::Leaf => left.children@ == l.children@ && right.children@ == r.children@,
        NodeType::Regular => l.children@.len() > 0 && left.children@ == l.children@.drop_last()
            && right.children@ == r.children@.insert(0, l.children@.last()),
    }
    &&& after.node_type == before.node_type
    &&& after.key@ == before.key@.update(at, l.key@.last())
    &&& after.children@ == before.children@.update(at, Some(left)).update(at + 1, Some(right))
}

/// The mirror image: the first value of the child behind the place `at`
/// went up, the value that stood there went down to the end of the child
/// before it, and the first child of the one followed to the end of the
/// other.
pub open spec fn lent_left<U, T>(
    before: &Node<U, T>,
    after: &Node<U, T>,
    at: int,
    left: Tree<U, T>,
    right: Tree<U, T>,
) -> bool {
    let l = before.children@[at].unwrap();
    let r = before.children@[at + 1].unwrap();
    &&& 0 <= at < before.key@.len()
    &&& before.children@.len() == before.key@.len() + 1
    &&& before.children@[at].is_some()
    &&& before.children@[at + 1].is_some()
    &&& r.key@.len() > 0
    &&& left.node_type == l.node_type
    &&& right.node_type == r.node_type
    &&& left.key@ == l.key@.push(before.key@[at])
    &&& right.key@ == r.key@.drop_first()
    &&& match l.node_type {
        NodeType::Leaf => left.children@ == l.children@ && right.children@ == r.children@,
        NodeType::Regular => r.children@.len() > 0 && left.children@ == l.children@.push(
            r.children@[0],
        ) && right.children@ == r.children@.drop_first(),
    }
    &&& after.node_type == before.node_type
    &&& after.key@ == before.key@.update(at, r.key@[0])
    &&& after.children@ == before.children@.update(at, Some(left)).update(at + 1, Some(right))
}

/// What the two children hold after a value went from the one before the
/// place to the one behind it.
proof fn lemma_lent_right_parts<U, T>(
    before: &Node<U, T>,
    after: &Node<U, T>,
    at: int,
    left: Tree<U, T>,
    right: Tree<U, T>,
    height: nat,
    order: nat,
)
    requires
        before.formed(height, order),
        before.node_type == NodeType::Regular,
        lent_right(before, after, at, left, right),
    ensures
        ({
            let l = before.children@[at].unwrap();
            let r = before.children@[at + 1].unwrap();
            let moved = match l.node_type {
                NodeType::Leaf => Multiset::<T>::empty(),
                NodeType::Regular => bag_of(l.children@.last()),
            };
            &&& l.bag() == left.bag().insert(l.key@.last()).add(moved)
            &&& right.bag() == r.bag().insert(before.key@[at]).add(moved)
        }),
{
    let l = before.children@[at].unwrap();
    let r = before.children@[at + 1].unwrap();
    let sep = before.key@[at];
    let up = l.key@.last();
    let sub = (height - 1) as nat;
    assert(l.formed(sub, order));
    assert(r.formed(sub, order));
    assert(l.key@ =~= left.key@.insert(left.key@.len() as int, up));
    to_multiset_insert(left.key@, left.key@.len() as int, up);
    to_multiset_insert(r.key@, 0, sep);
    match l.node_type {
        NodeType::Leaf => {
            assert(left.child_bags() =~= l.child_bags());
            assert(right.child_bags() =~= r.child_bags());
            assert(l.bag() =~= left.bag().insert(up).add(Multiset::<T>::empty()));
            assert(right.bag() =~= r.bag().insert(sep).add(Multiset::<T>::empty()));
        },
        NodeType::Regular => {
            let moved = bag_of(l.children@.last());
            let n = left.children@.len() as int;
            assert(l.child_bags() =~= left.child_bags().insert(n, moved));
            lemma_total_insert(left.child_bags(), n, moved);
            assert(right.child_bags() =~= r.child_bags().insert(0, moved));
            lemma_total_insert(r.child_bags(), 0, moved);
            assert(l.bag() =~= left.bag().insert(up).add(moved));
            assert(right.bag() =~= r.bag().insert(sep).add(moved));
        },
    }
}

proof fn lemma_lent_left_parts<U, T>(
    before: &Node<U, T>,
    after: &Node<U, T>,
    at: int,
    left: Tree<U, T>,
    right: Tree<U, T>,
    height: nat,
    order: nat,
)
    requires
        before.formed(height, order),
        before.node_type == NodeType::Regular,
        lent_left(before, after, at, left, right),
    ensures
        ({
            let l = before.children@[at].unwrap();
            let r = before.children@[at + 1].unwrap();
            let moved = match l.node_type {
                NodeType::Leaf => Multiset::<T>::empty(),
                NodeType::Regular => bag_of(r.children@[0]),
            };
            &&& r.bag() == right.bag().insert(r.key@[0]).add(moved)
            &&& left.bag() == l.bag().insert(before.key@[at]).add(moved)
        }),
{
    let l = before.children@[at].unwrap();
    let r = before.children@[at + 1].unwrap();
    let sep = before.key@[at];
    let up = r.key@[0];
    let sub = (height - 1) as nat;
    assert(l.formed(sub, order));
    assert(r.formed(sub, order));
    assert(r.key@ =~= right.key@.insert(0, up));
    to_multiset_insert(right.key@, 0, up);
    assert(left.key@ =~= l.key@.insert(l.key@.len() as int, sep));
    to_multiset_insert(l.key@, l.key@.len() as int, sep);
    match l.node_type {
        NodeType::Leaf => {
            assert(left.child_bags() =~= l.child_bags());
            assert(right.child_bags() =~= r.child_bags());
            assert(r.bag() =~= right.bag().insert(up).add(Multiset::<T>::empty()));
            assert(left.bag() =~= l.bag().insert(sep).add(Multiset::<T>::empty()));
        },
        NodeType::Regular => {
            let moved = bag_of(r.children@[0]);
            let n = l.children@.len() as int;
            assert(r.child_bags() =~= right.child_bags().insert(0, moved));
            lemma_total_insert(right.child_bags(), 0, moved);
            assert(left.child_bags() =~= l.child_bags().insert(n, moved));
            lemma_total_insert(l.child_bags(), n, moved);
            assert(r.bag() =~= right.bag().insert(up).add(moved));
            assert(left.bag() =~= l.bag().insert(sep).add(moved));
        },
    }
}

/// Two children exchanged for two others that hold the same together
/// with the value between them leave what the node holds as it is.
proof fn lemma_lent_bag<U, T>(
    before: &Node<U, T>,
    after: &Node<U, T>,
    at: int,
    left: Tree<U, T>,
    right: Tree<U, T>,
    up: T,
)
    requires
        0 <= at < before.key@.len(),
        before.children@.len() == before.key@.len() + 1,
        before.children@[at].is_some(),
        before.children@[at + 1].is_some(),
        after.key@ == before.key@.update(at, up),
        after.children@ == before.children@.update(at, Some(left)).update(at + 1, Some(right)),
        left.bag().add(right.bag()).insert(up) == before.children@[at].unwrap().bag().add(
            before.children@[at + 1].unwrap().bag(),
        ).insert(before.key@[at]),
    ensures
        after.bag() == before.bag(),
{
    let l = before.children@[at].unwrap();
    let r = before.children@[at + 1].unwrap();
    let sep = before.key@[at];
    lemma_update_bag(before.key@, at, up);
    let bs = before.child_bags();
    let mid = bs.update(at, left.bag());
    assert(after.child_bags() =~= mid.update(at + 1, right.bag()));
    lemma_total_update(bs, at, left.bag());
    lemma_total_update(mid, at + 1, right.bag());
    assert(bs[at] == l.bag());
    assert(mid[at + 1] == r.bag());
    assert forall|e: T| after.bag().count(e) == before.bag().count(e) by {
        assert(total(mid).add(l.bag()).count(e) == total(bs).add(left.bag()).count(e));
        assert(total(mid.update(at + 1, right.bag())).add(r.bag()).count(e) == total(mid).add(
            right.bag(),
        ).count(e));
        assert(after.key@.to_multiset().insert(sep).count(e) == before.key@.to_multiset().insert(
            up,
        ).count(e));
        assert(left.bag().add(right.bag()).insert(up).count(e) == l.bag().add(r.bag()).insert(
            sep,
        ).count(e));
    }
    assert(after.bag() =~= before.bag());
}

proof fn lemma_lent_right_shape<U, T>(
    before: &Node<U, T>,
    after: &Node<U, T>,
    at: int,
    left: Tree<U, T>,
    right: Tree<U, T>,
    height: nat,
    order: nat,
)
    requires
        order >= 2,
        before.formed(height, order),
        before.filled(order, 0),
        before.node_type == NodeType::Regular,
        lent_right(before, after, at, left, right),
        before.children@[at].unwrap().key@.len() >= order,
        before.children@[at + 1].unwrap().key@.len() < 2 * order - 1,
    ensures
        after.formed(height, order),
        after.filled(order, 0),
        left.formed((height - 1) as nat, order),
        right.formed((height - 1) as nat, order),
        left.filled(order, (order - 1) as nat),
        right.filled(order, (order - 1) as nat),
{
    let l = before.children@[at].unwrap();
    let r = before.children@[at + 1].unwrap();
    let sub = (height - 1) as nat;
    assert(l.formed(sub, order));
    assert(r.formed(sub, order));
    assert(match before.children@[at] {
        Some(c) => c.filled(order, (order - 1) as nat),
        None => true,
    });
    assert(match before.children@[at + 1] {
        Some(c) => c.filled(order, (order - 1) as nat),
        None => true,
    });
    assert forall|j: int| 0 <= j < left.children@.len() implies (
    #[trigger] left.children@[j]).is_some() && left.children@[j].unwrap().formed(
        (sub - 1) as nat,
        order,
    ) && left.children@[j].unwrap().filled(order, (order - 1) as nat) by {
        if j < l.children@.len() {
            assert(left.children@[j] == l.children@[j]);
            assert(match l.children@[j] {
                Some(c) => c.filled(order, (order - 1) as nat),
                None => true,
            });
        } else {
            assert(left.children@[j] == r.children@[0]);
            assert(match r.children@[0] {
                Some(c) => c.filled(order, (order - 1) as nat),
                None => true,
            });
        }
    }
    assert forall|j: int| 0 <= j < right.children@.len() implies (
    #[trigger] right.children@[j]).is_some() && right.children@[j].unwrap().formed(
        (sub - 1) as nat,
        order,
    ) && right.children@[j].unwrap().filled(order, (order - 1) as nat) by {
        let k = j - 1;
        if 0 <= k < r.children@.len() {
            assert(right.children@[j] == r.children@[k]);
            assert(match r.children@[k] {
                Some(c) => c.filled(order, (order - 1) as nat),
                None => true,
            });
        } else {
            let n = l.children@.len() - 1;
            assert(right.children@[j] == l.children@[n]);
            assert(match l.children@[n] {
                Some(c) => c.filled(order, (order - 1) as nat),
                None => true,
            });
        }
    }
    assert(left.formed(sub, order));
    assert(right.formed(sub, order));
    assert forall|j: int| 0 <= j < after.children@.len() implies (
    #[trigger] after.children@[j]).is_some() && after.children@[j].unwrap().formed(sub, order)
        && after.children@[j].unwrap().filled(order, (order - 1) as nat) by {
        if j != at && j != at + 1 {
            assert(after.children@[j] == before.children@[j]);
            assert(match before.children@[j] {
                Some(c) => c.filled(order, (order - 1) as nat),
                None => true,
            });
        }
    }
}

proof fn lemma_lent_left_shape<U, T>(
    before: &Node<U, T>,
    after: &Node<U, T>,
    at: int,
    left: Tree<U, T>,
    right: Tree<U, T>,
    height: nat,
    order: nat,
)
    requires
        order >= 2,
        before.formed(height, order),
        before.filled(order, 0),
        before.node_type == NodeType::Regular,
        lent_left(before, after, at, left, right),
        before.children@[at + 1].unwrap().key@.len() >= order,
        before.children@[at].unwrap().key@.len() < 2 * order - 1,
    ensures
        after.formed(height, order),
        after.filled(order, 0),
        left.formed((height - 1) as nat, order),
        right.formed((height - 1) as nat, order),
        left.filled(order, (order - 1) as nat),
        right.filled(order, (order - 1) as nat),
{
    let l = before.children@[at].unwrap();
    let r = before.children@[at + 1].unwrap();
    let sub = (height - 1) as nat;
    assert(l.formed(sub, order));
    assert(r.formed(sub, order));
    assert(match before.children@[at] {
        Some(c) => c.filled(order, (order - 1) as nat),
        None => true,
    });
    assert(match before.children@[at + 1] {
        Some(c) => c.filled(order, (order - 1) as nat),
        None => true,
    });
    assert forall|j: int| 0 <= j < left.children@.len() implies (
    #[trigger] left.children@[j]).is_some() && left.children@[j].unwrap().formed(
        (sub - 1) as nat,
        order,
    ) && left.children@[j].unwrap().filled(order, (order - 1) as nat) by {
        if j < l.children@.len() {
            assert(left.children@[j] == l.children@[j]);
            assert(match l.children@[j] {
                Some(c) => c.filled(order, (order - 1) as nat),
                None => true,
            });
        } else {
            assert(left.children@[j] == r.children@[0]);
            assert(match r.children@[0] {
                Some(c) => c.filled(order, (order - 1) as nat),
                None => true,
            });
        }
    }
    assert forall|j: int| 0 <= j < right.children@.len() implies (
    #[trigger] right.children@[j]).is_some() && right.children@[j].unwrap().formed(
        (sub - 1) as nat,
        order,
    ) && right.children@[j].unwrap().filled(order, (order - 1) as nat) by {
        let k = j + 1;
        if 0 <= k < r.children@.len() {
            assert(right.children@[j] == r.children@[k]);
            assert(match r.children@[k] {
                Some(c) => c.filled(order, (order - 1) as nat),
                None => true,
            });
        } else {
            let n = l.children@.len() - 1;
            assert(right.children@[j] == l.children@[n]);
            assert(match l.children@[n] {
                Some(c) => c.filled(order, (order - 1) as nat),
                None => true,
            });
        }
    }
    assert(left.formed(sub, order));
    assert(right.formed(sub, order));
    assert forall|j: int| 0 <= j < after.children@.len() implies (
    #[trigger] after.children@[j]).is_some() && after.children@[j].unwrap().formed(sub, order)
        && after.children@[j].unwrap().filled(order, (order - 1) as nat) by {
        if j != at && j != at + 1 {
            assert(after.children@[j] == before.children@[j]);
            assert(match before.children@[j] {
                Some(c) => c.filled(order, (order - 1) as nat),
                None => true,
            });
        }
    }
}

proof fn lemma_lent_right_giver<U: TotalOrder, T: Key<U>>(
    before: &Node<U, T>,
    after: &Node<U, T>,
    at: int,
    left: Tree<U, T>,
    right: Tree<U, T>,
    height: nat,
    order: nat,
)
    requires
        order >= 2,
        before.formed(height, order),
        before.ordered(),
        before.node_type == NodeType::Regular,
        lent_right(before, after, at, left, right),
    ensures
        left.ordered(),
        within(left.bag(), before.key_before(at), Some(before.children@[at].unwrap().key@.last().spec_key())),
        before.key_before(at).is_some() ==> before.key_before(at).unwrap().le(
            before.children@[at].unwrap().key@.last().spec_key(),
        ),
        before.children@[at].unwrap().key@.last().spec_key().le(before.key@[at].spec_key()),
{
    let l = before.children@[at].unwrap();
    let r = before.children@[at + 1].unwrap();
    let sep = before.key@[at];
    let sub = (height - 1) as nat;
    assert(l.formed(sub, order));
    assert(r.formed(sub, order));
    assert(match before.children@[at] {
        Some(c) => c.ordered() && within(c.bag(), before.key_before(at), before.key_behind(at)),
        None => true,
    });
    assert(match before.children@[at + 1] {
        Some(c) => c.ordered() && within(
            c.bag(),
            before.key_before(at + 1),
            before.key_behind(at + 1),
        ),
        None => true,
    });
    let n = l.key@.len() as int;
    let up = l.key@.last();
    lemma_key_in_bag(&*l, n - 1);
    lemma_lent_right_parts(before, after, at, left, right, height, order);
    assert forall|i: int, j: int| 0 <= i <= j < left.key@.len() implies (
    #[trigger] left.key@[i]).spec_key().le((#[trigger] left.key@[j]).spec_key()) by {
        assert(l.key@[i].spec_key().le(l.key@[j].spec_key()));
    }
    assert forall|j: int| 0 <= j < left.children@.len() implies match #[trigger] left.children@[j] {
        Some(c) => c.ordered() && within(c.bag(), left.key_before(j), left.key_behind(j)),
        None => true,
    } by {
        assert(left.children@[j] == l.children@[j]);
        let c = l.children@[j].unwrap();
        assert(within(c.bag(), l.key_before(j), l.key_behind(j)));
    }
    assert forall|e: T| left.bag().count(e) > 0 implies {
        &&& (before.key_before(at).is_some() ==> before.key_before(at).unwrap().le(
            #[trigger] e.spec_key(),
        ))
        &&& e.spec_key().le(up.spec_key())
    } by {
        assert(l.bag().count(e) > 0);
        lemma_bag_parts(&*left, e);
        if exists|i: int| 0 <= i < left.key@.len() && #[trigger] left.key@[i] == e {
            let i = choose|i: int| 0 <= i < left.key@.len() && #[trigger] left.key@[i] == e;
            assert(l.key@[i].spec_key().le(l.key@[n - 1].spec_key()));
        } else {
            let j = choose|j: int|
                0 <= j < left.children@.len() && (#[trigger] bag_of(left.children@[j])).count(e)
                    > 0;
            assert(left.children@[j] == l.children@[j]);
            let c = l.children@[j].unwrap();
            assert(within(c.bag(), l.key_before(j), l.key_behind(j)));
            assert(l.key@[j].spec_key().le(l.key@[n - 1].spec_key()));
            U::le_transitive(e.spec_key(), l.key@[j].spec_key(), up.spec_key());
        }
    }
}

proof fn lemma_lent_right_taker<U: TotalOrder, T: Key<U>>(
    before: &Node<U, T>,
    after: &Node<U, T>,
    at: int,
    left: Tree<U, T>,
    right: Tree<U, T>,
    height: nat,
    order: nat,
)
    requires
        order >= 2,
        before.formed(height, order),
        before.ordered(),
        before.node_type == NodeType::Regular,
        lent_right(before, after, at, left, right),
    ensures
        right.ordered(),
        within(
            right.bag(),
            Some(before.children@[at].unwrap().key@.last().spec_key()),
            before.key_behind(at + 1),
        ),
{
    let l = before.children@[at].unwrap();
    let r = before.children@[at + 1].unwrap();
    let sep = before.key@[at];
    let sub = (height - 1) as nat;
    assert(l.formed(sub, order));
    assert(r.formed(sub, order));
    assert(match before.children@[at] {
        Some(c) => c.ordered() && within(c.bag(), before.key_before(at), before.key_behind(at)),
        None => true,
    });
    assert(match before.children@[at + 1] {
        Some(c) => c.ordered() && within(
            c.bag(),
            before.key_before(at + 1),
            before.key_behind(at + 1),
        ),
        None => true,
    });
    let n = l.key@.len() as int;
    let up = l.key@.last();
    lemma_key_in_bag(&*l, n - 1);
    lemma_lent_right_parts(before, after, at, left, right, height, order);
    assert(up.spec_key().le(sep.spec_key()));
    if at + 1 < before.key@.len() {
        assert(sep.spec_key().le(before.key@[at + 1].spec_key()));
    }
    assert forall|i: int| 0 <= i < r.key@.len() implies sep.spec_key().le(
        (#[trigger] r.key@[i]).spec_key(),
    ) by {
        lemma_key_in_bag(&*r, i);
    }
    assert forall|i: int, j: int| 0 <= i <= j < right.key@.len() implies (
    #[trigger] right.key@[i]).spec_key().le((#[trigger] right.key@[j]).spec_key()) by {
        if i == 0 && j == 0 {
            U::le_reflexive(sep.spec_key());
        } else if i == 0 {
            assert(right.key@[j] == r.key@[j - 1]);
        } else {
            assert(r.key@[i - 1].spec_key().le(r.key@[j - 1].spec_key()));
        }
    }
    assert forall|j: int| 0 <= j < right.children@.len() implies match #[trigger] right.children@[j] {
        Some(c) => c.ordered() && within(c.bag(), right.key_before(j), right.key_behind(j)),
        None => true,
    } by {
        if j == 0 {
            let m = l.children@.len() - 1;
            assert(right.children@[j] == l.children@[m]);
            let c = l.children@[m].unwrap();
            assert(within(c.bag(), l.key_before(m), l.key_behind(m)));
            assert forall|e: T| c.bag().count(e) > 0 implies (#[trigger] e.spec_key()).le(
                sep.spec_key(),
            ) by {
                lemma_child_in_bag(&*l, m, e);
            }
        } else {
            assert(right.children@[j] == r.children@[j - 1]);
            let c = r.children@[j - 1].unwrap();
            assert(within(c.bag(), r.key_before(j - 1), r.key_behind(j - 1)));
            assert(right.key_behind(j) == r.key_behind(j - 1));
            if j == 1 {
                assert(right.key_before(j) == Some(sep.spec_key()));
                assert forall|e: T| c.bag().count(e) > 0 implies sep.spec_key().le(
                    #[trigger] e.spec_key(),
                ) by {
                    lemma_child_in_bag(&*r, j - 1, e);
                }
            } else {
                assert(right.key@[j - 1] == r.key@[j - 2]);
                assert(right.key_before(j) == r.key_before(j - 1));
            }
        }
    }
    let moved = match l.node_type {
        NodeType::Leaf => Multiset::<T>::empty(),
        NodeType::Regular => bag_of(l.children@.last()),
    };
    assert forall|e: T| right.bag().count(e) > 0 implies {
        &&& up.spec_key().le(#[trigger] e.spec_key())
        &&& (before.key_behind(at + 1).is_some() ==> e.spec_key().le(
            before.key_behind(at + 1).unwrap(),
        ))
    } by {
        if r.bag().count(e) > 0 {
            U::le_transitive(up.spec_key(), sep.spec_key(), e.spec_key());
        } else if moved.count(e) > 0 {
            let m = l.children@.len() - 1;
            let c = l.children@[m].unwrap();
            assert(within(c.bag(), l.key_before(m), l.key_behind(m)));
            lemma_child_in_bag(&*l, m, e);
            if at + 1 < before.key@.len() {
                U::le_transitive(e.spec_key(), sep.spec_key(), before.key@[at + 1].spec_key());
            }
        } else {
            assert(e == sep);
        }
    }
}

proof fn lemma_lent_left_giver<U: TotalOrder, T: Key<U>>(
    before: &Node<U, T>,
    after: &Node<U, T>,
    at: int,
    left: Tree<U, T>,
    right: Tree<U, T>,
    height: nat,
    order: nat,
)
    requires
        order >= 2,
        before.formed(height, order),
        before.ordered(),
        before.node_type == NodeType::Regular,
        lent_left(before, after, at, left, right),
    ensures
        right.ordered(),
        within(
            right.bag(),
            Some(before.children@[at + 1].unwrap().key@[0].spec_key()),
            before.key_behind(at + 1),
        ),
        before.key_behind(at + 1).is_some() ==> before.children@[at + 1].unwrap().key@[0].spec_key().le(
            before.key_behind(at + 1).unwrap(),
        ),
        before.key@[at].spec_key().le(before.children@[at + 1].unwrap().key@[0].spec_key()),
{
    let l = before.children@[at].unwrap();
    let r = before.children@[at + 1].unwrap();
    let sep = before.key@[at];
    let sub = (height - 1) as nat;
    assert(l.formed(sub, order));
    assert(r.formed(sub, order));
    assert(match before.children@[at] {
        Some(c) => c.ordered() && within(c.bag(), before.key_before(at), before.key_behind(at)),
        None => true,
    });
    assert(match before.children@[at + 1] {
        Some(c) => c.ordered() && within(
            c.bag(),
            before.key_before(at + 1),
            before.key_behind(at + 1),
        ),
        None => true,
    });
    let up = r.key@[0];
    lemma_key_in_bag(&*r, 0);
    lemma_lent_left_parts(before, after, at, left, right, height, order);
    assert forall|i: int, j: int| 0 <= i <= j < right.key@.len() implies (
    #[trigger] right.key@[i]).spec_key().le((#[trigger] right.key@[j]).spec_key()) by {
        assert(r.key@[i + 1].spec_key().le(r.key@[j + 1].spec_key()));
    }
    assert forall|j: int| 0 <= j < right.children@.len() implies match #[trigger] right.children@[j] {
        Some(c) => c.ordered() && within(c.bag(), right.key_before(j), right.key_behind(j)),
        None => true,
    } by {
        assert(right.children@[j] == r.children@[j + 1]);
        let c = r.children@[j + 1].unwrap();
        assert(within(c.bag(), r.key_before(j + 1), r.key_behind(j + 1)));
        assert(right.key_behind(j) == r.key_behind(j + 1));
        if j > 0 {
            assert(right.key@[j - 1] == r.key@[j]);
        }
    }
    assert forall|e: T| right.bag().count(e) > 0 implies {
        &&& up.spec_key().le(#[trigger] e.spec_key())
        &&& (before.key_behind(at + 1).is_some() ==> e.spec_key().le(
            before.key_behind(at + 1).unwrap(),
        ))
    } by {
        assert(r.bag().count(e) > 0);
        lemma_bag_parts(&*right, e);
        if exists|i: int| 0 <= i < right.key@.len() && #[trigger] right.key@[i] == e {
            let i = choose|i: int| 0 <= i < right.key@.len() && #[trigger] right.key@[i] == e;
            assert(r.key@[0].spec_key().le(r.key@[i + 1].spec_key()));
        } else {
            let j = choose|j: int|
                0 <= j < right.children@.len() && (#[trigger] bag_of(right.children@[j])).count(e)
                    > 0;
            assert(right.children@[j] == r.children@[j + 1]);
            let c = r.children@[j + 1].unwrap();
            assert(within(c.bag(), r.key_before(j + 1), r.key_behind(j + 1)));
            assert(r.key@[0].spec_key().le(r.key@[j].spec_key()));
            U::le_transitive(up.spec_key(), r.key@[j].spec_key(), e.spec_key());
        }
    }
}

proof fn lemma_lent_left_taker<U: TotalOrder, T: Key<U>>(
    before: &Node<U, T>,
    after: &Node<U, T>,
    at: int,
    left: Tree<U, T>,
    right: Tree<U, T>,
    height: nat,
    order: nat,
)
    requires
        order >= 2,
        before.formed(height, order),
        before.ordered(),
        before.node_type == NodeType::Regular,
        lent_left(before, after, at, left, right),
    ensures
        left.ordered(),
        within(
            left.bag(),
            before.key_before(at),
            Some(before.children@[at + 1].unwrap().key@[0].spec_key()),
        ),
{
    let l = before.children@[at].unwrap();
    let r = before.children@[at + 1].unwrap();
    let sep = before.key@[at];
    let sub = (height - 1) as nat;
    assert(l.formed(sub, order));
    assert(r.formed(sub, order));
    assert(match before.children@[at] {
        Some(c) => c.ordered() && within(c.bag(), before.key_before(at), before.key_behind(at)),
        None => true,
    });
    assert(match before.children@[at + 1] {
        Some(c) => c.ordered() && within(
            c.bag(),
            before.key_before(at + 1),
            before.key_behind(at + 1),
        ),
        None => true,
    });
    let n = l.key@.len() as int;
    let up = r.key@[0];
    lemma_key_in_bag(&*r, 0);
    lemma_lent_left_parts(before, after, at, left, right, height, order);
    assert(sep.spec_key().le(up.spec_key()));
    if at > 0 {
        assert(before.key@[at - 1].spec_key().le(sep.spec_key()));
    }
    assert forall|i: int| 0 <= i < l.key@.len() implies (#[trigger] l.key@[i]).spec_key().le(
        sep.spec_key(),
    ) by {
        lemma_key_in_bag(&*l, i);
    }
    assert forall|i: int, j: int| 0 <= i <= j < left.key@.len() implies (
    #[trigger] left.key@[i]).spec_key().le((#[trigger] left.key@[j]).spec_key()) by {
        if i == n && j == n {
            U::le_reflexive(sep.spec_key());
        } else if j == n {
            assert(left.key@[i] == l.key@[i]);
        } else {
            assert(l.key@[i].spec_key().le(l.key@[j].spec_key()));
        }
    }
    assert forall|j: int| 0 <= j < left.children@.len() implies match #[trigger] left.children@[j] {
        Some(c) => c.ordered() && within(c.bag(), left.key_before(j), left.key_behind(j)),
        None => true,
    } by {
        if j == l.children@.len() {
            assert(left.children@[j] == r.children@[0]);
            let c = r.children@[0].unwrap();
            assert(within(c.bag(), r.key_before(0), r.key_behind(0)));
            assert(left.key_before(j) == Some(sep.spec_key()));
            assert forall|e: T| c.bag().count(e) > 0 implies sep.spec_key().le(
                #[trigger] e.spec_key(),
            ) by {
                lemma_child_in_bag(&*r, 0, e);
            }
        } else {
            assert(left.children@[j] == l.children@[j]);
            let c = l.children@[j].unwrap();
            assert(within(c.bag(), l.key_before(j), l.key_behind(j)));
            assert(left.key_before(j) == l.key_before(j));
            if j < n {
                assert(left.key_behind(j) == l.key_behind(j));
            } else {
                assert(left.key_behind(j) == Some(sep.spec_key()));
                assert forall|e: T| c.bag().count(e) > 0 implies (#[trigger] e.spec_key()).le(
                    sep.spec_key(),
                ) by {
                    lemma_child_in_bag(&*l, j, e);
                }
            }
        }
    }
    let moved = match l.node_type {
        NodeType::Leaf => Multiset::<T>::empty(),
        NodeType::Regular => bag_of(r.children@[0]),
    };
    assert forall|e: T| left.bag().count(e) > 0 implies {
        &&& (before.key_before(at).is_some() ==> before.key_before(at).unwrap().le(
            #[trigger] e.spec_key(),
        ))
        &&& e.spec_key().le(up.spec_key())
    } by {
        if l.bag().count(e) > 0 {
            U::le_transitive(e.spec_key(), sep.spec_key(), up.spec_key());
        } else if moved.count(e) > 0 {
            let c = r.children@[0].unwrap();
            assert(within(c.bag(), r.key_before(0), r.key_behind(0)));
            lemma_child_in_bag(&*r, 0, e);
            if at > 0 {
                U::le_transitive(before.key@[at - 1].spec_key(), sep.spec_key(), e.spec_key());
            }
        } else {
            assert(e == sep);
        }
    }
}

/// A node two of whose children were exchanged, with a new value `up`
/// between them that bounds both, is in order if the new children are.
proof fn lemma_lent_parent<U: TotalOrder, T: Key<U>>(
    before: &Node<U, T>,
    after: &Node<U, T>,
    at: int,
    left: Tree<U, T>,
    right: Tree<U, T>,
    up: T,
)
    requires
        before.ordered(),
        0 <= at < before.key@.len(),
        before.children@.len() == before.key@.len() + 1,
        after.key@ == before.key@.update(at, up),
        after.children@ == before.children@.update(at, Some(left)).update(at + 1, Some(right)),
        left.ordered(),
        right.ordered(),
        within(left.bag(), before.key_before(at), Some(up.spec_key())),
        within(right.bag(), Some(up.spec_key()), before.key_behind(at + 1)),
        before.key_before(at).is_some() ==> before.key_before(at).unwrap().le(up.spec_key()),
        before.key_behind(at + 1).is_some() ==> up.spec_key().le(
            before.key_behind(at + 1).unwrap(),
        ),
    ensures
        after.ordered(),
{
    assert forall|i: int, j: int| 0 <= i <= j < after.key@.len() implies (
    #[trigger] after.key@[i]).spec_key().le((#[trigger] after.key@[j]).spec_key()) by {
        if i == at && j == at {
            U::le_reflexive(up.spec_key());
        } else if i == at {
            assert(before.key@[at + 1].spec_key().le(before.key@[j].spec_key()));
            U::le_transitive(up.spec_key(), before.key@[at + 1].spec_key(), before.key@[j].spec_key());
        } else if j == at {
            assert(before.key@[i].spec_key().le(before.key@[at - 1].spec_key()));
            U::le_transitive(before.key@[i].spec_key(), before.key@[at - 1].spec_key(), up.spec_key());
        } else {
            assert(before.key@[i].spec_key().le(before.key@[j].spec_key()));
        }
    }
    assert forall|j: int| 0 <= j < after.children@.len() implies match #[trigger] after.children@[j] {
        Some(c) => c.ordered() && within(c.bag(), after.key_before(j), after.key_behind(j)),
        None => true,
    } by {
        if j == at {
            assert(after.key_before(j) == before.key_before(at));
            assert(after.key_behind(j) == Some(up.spec_key()));
        } else if j == at + 1 {
            assert(after.key_before(j) == Some(up.spec_key()));
            assert(after.key_behind(j) == before.key_behind(at + 1));
        } else {
            assert(after.children@[j] == before.children@[j]);
            match before.children@[j] {
                Some(c) => {
                    assert(within(c.bag(), before.key_before(j), before.key_behind(j)));
                    assert(after.key_before(j) == before.key_before(j));
                    assert(after.key_behind(j) == before.key_behind(j));
                },
                None => {},
            }
        }
    }
}

/// A value lent from the child before a place to the child behind it
/// changes neither what the node holds nor its form nor its order.
pub proof fn lemma_lent_right<U: TotalOrder, T: Key<U>>(
    before: &Node<U, T>,
    after: &Node<U, T>,
    at: int,
    left: Tree<U, T>,
    right: Tree<U, T>,
    height: nat,
    order: nat,
)
    requires
        order >= 2,
        before.formed(height, order),
        before.ordered(),
        before.filled(order, 0),
        before.node_type == NodeType::Regular,
        lent_right(before, after, at, left, right),
        before.children@[at].unwrap().key@.len() >= order,
        before.children@[at + 1].unwrap().key@.len() < 2 * order - 1,
    ensures
        after.formed(height, order),
        after.ordered(),
        after.filled(order, 0),
        after.bag() == before.bag(),
        before.children@[at].unwrap().key@.last().spec_key().le(before.key@[at].spec_key()),
{
    let l = before.children@[at].unwrap();
    let r = before.children@[at + 1].unwrap();
    let up = l.key@.last();
    lemma_lent_right_shape(before, after, at, left, right, height, order);
    lemma_lent_right_parts(before, after, at, left, right, height, order);
    lemma_lent_right_giver(before, after, at, left, right, height, order);
    lemma_lent_right_taker(before, after, at, left, right, height, order);
    assert(left.bag().add(right.bag()).insert(up) =~= l.bag().add(r.bag()).insert(before.key@[at]));
    lemma_lent_bag(before, after, at, left, right, up);
    if at + 1 < before.key@.len() {
        assert(before.key@[at].spec_key().le(before.key@[at + 1].spec_key()));
        U::le_transitive(up.spec_key(), before.key@[at].spec_key(), before.key@[at + 1].spec_key());
    }
    lemma_lent_parent(before, after, at, left, right, up);
}

/// A value lent from the child behind a place to the child before it
/// changes neither what the node holds nor its form nor its order.
pub proof fn lemma_lent_left<U: TotalOrder, T: Key<U>>(
    before: &Node<U, T>,
    after: &Node<U, T>,
    at: int,
    left: Tree<U, T>,
    right: Tree<U, T>,
    height: nat,
    order: nat,
)
    requires
        order >= 2,
        before.formed(height, order),
        before.ordered(),
        before.filled(order, 0),
        before.node_type == NodeType::Regular,
        lent_left(before, after, at, left, right),
        before.children@[at + 1].unwrap().key@.len() >= order,
        before.children@[at].unwrap().key@.len() < 2 * order - 1,
    ensures
        after.formed(height, order),
        after.ordered(),
        after.filled(order, 0),
        after.bag() == before.bag(),
        before.key@[at].spec_key().le(before.children@[at + 1].unwrap().key@[0].spec_key()),
{
    let l = before.children@[at].unwrap();
    let r = before.children@[at + 1].unwrap();
    let up = r.key@[0];
    lemma_lent_left_shape(before, after, at, left, right, height, order);
    lemma_lent_left_parts(before, after, at, left, right, height, order);
    lemma_lent_left_giver(before, after, at, left, right, height, order);
    lemma_lent_left_taker(before, after, at, left, right, height, order);
    assert(left.bag().add(right.bag()).insert(up) =~= l.bag().add(r.bag()).insert(before.key@[at]));
    lemma_lent_bag(before, after, at, left, right, up);
    if at > 0 {
        assert(before.key@[at - 1].spec_key().le(before.key@[at].spec_key()));
        U::le_transitive(before.key@[at - 1].spec_key(), before.key@[at].spec_key(), up.spec_key());
    }
    lemma_lent_parent(before, after, at, left, right, up);
}

} // verus!
