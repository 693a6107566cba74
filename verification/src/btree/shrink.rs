use vstd::prelude::*;

use vstd::seq_lib::{lemma_multiset_commutative, to_multiset_insert, to_multiset_remove};
use crate::order::TotalOrder;
use super::lookup::{lemma_child_in_bag, lemma_key_in_bag};
use super::node::{within, Key, Node, NodeType, Tree};
use super::sums::{lemma_total_concat, lemma_total_insert, lemma_total_update, total};

verus! {

/// `joined` is the two children on either side of the value at the place
/// `at` of `before` put together, with that value between them, and
/// `after` is `before` with `joined` in their stead.
pub open spec fn merged<U, T>(
    before: &Node<U, T>,
    after: &Node<U, T>,
    at: int,
    joined: Tree<U, T>,
) -> bool {
    let left = before.children@[at].unwrap();
    let right = before.children@[at + 1].unwrap();
    &&& 0 <= at < before.key@.len()
    &&& before.children@.len() == before.key@.len() + 1
    &&& before.children@[at].is_some()
    &&& before.children@[at + 1].is_some()
    &&& joined.node_type == left.node_type
    &&& joined.key@ == left.key@.push(before.key@[at]) + right.key@
    &&& joined.children@ == left.children@ + right.children@
    &&& after.node_type == before.node_type
    &&& after.key@ == before.key@.remove(at)
    &&& after.children@ == before.children@.remove(at + 1).update(at, Some(joined))
}

/// What two nodes and a value between them hold, put together.
pub proof fn lemma_joined_bag<U, T>(
    left: &Node<U, T>,
    right: &Node<U, T>,
    sep: T,
    joined: &Node<U, T>,
)
    requires
        joined.key@ == left.key@.push(sep) + right.key@,
        joined.children@ == left.children@ + right.children@,
    ensures
        joined.bag() == left.bag().add(right.bag()).insert(sep),
{
    lemma_multiset_commutative(left.key@.push(sep), right.key@);
    assert(left.key@.push(sep) =~= left.key@.insert(left.key@.len() as int, sep));
    to_multiset_insert(left.key@, left.key@.len() as int, sep);
    assert(joined.child_bags() =~= left.child_bags() + right.child_bags());
    lemma_total_concat(left.child_bags(), right.child_bags());
    assert(joined.bag() =~= left.bag().add(right.bag()).insert(sep));
}

proof fn lemma_merged_formed<U, T>(
    before: &Node<U, T>,
    after: &Node<U, T>,
    at: int,
    joined: Tree<U, T>,
    height: nat,
    order: nat,
)
    requires
        order >= 1,
        before.formed(height, order),
        before.filled(order, 0),
        before.node_type == NodeType::Regular,
        merged(before, after, at, joined),
        joined.key@.len() <= 2 * order - 1,
    ensures
        after.formed(height, order),
        after.filled(order, 0),
        joined.formed((height - 1) as nat, order),
        joined.filled(order, (order - 1) as nat),
{
    let left = before.children@[at].unwrap();
    let right = before.children@[at + 1].unwrap();
    let sub = (height - 1) as nat;
    assert(left.formed(sub, order));
    assert(right.formed(sub, order));
    assert(match before.children@[at] {
        Some(c) => c.filled(order, (order - 1) as nat),
        None => true,
    });
    assert(match before.children@[at + 1] {
        Some(c) => c.filled(order, (order - 1) as nat),
        None => true,
    });
    assert forall|j: int| 0 <= j < joined.children@.len() implies (
    #[trigger] joined.children@[j]).is_some() && joined.children@[j].unwrap().formed(
        (sub - 1) as nat,
        order,
    ) && joined.children@[j].unwrap().filled(order, (order - 1) as nat) by {
        if j < left.children@.len() {
            assert(joined.children@[j] == left.children@[j]);
            assert(match left.children@[j] {
                Some(c) => c.filled(order, (order - 1) as nat),
                None => true,
            });
        } else {
            let k = j - left.children@.len();
            assert(joined.children@[j] == right.children@[k]);
            assert(match right.children@[k] {
                Some(c) => c.filled(order, (order - 1) as nat),
                None => true,
            });
        }
    }
    assert(joined.formed(sub, order));
    assert(joined.filled(order, (order - 1) as nat));
    assert forall|j: int| 0 <= j < after.children@.len() implies (
    #[trigger] after.children@[j]).is_some() && after.children@[j].unwrap().formed(sub, order)
        && after.children@[j].unwrap().filled(order, (order - 1) as nat) by {
        if j < at {
            assert(after.children@[j] == before.children@[j]);
            assert(match before.children@[j] {
                Some(c) => c.filled(order, (order - 1) as nat),
                None => true,
            });
        } else if j > at {
            assert(after.children@[j] == before.children@[j + 1]);
            assert(match before.children@[j + 1] {
                Some(c) => c.filled(order, (order - 1) as nat),
                None => true,
            });
        }
    }
}

proof fn lemma_merged_bag<U, T>(
    before: &Node<U, T>,
    after: &Node<U, T>,
    at: int,
    joined: Tree<U, T>,
)
    requires
        merged(before, after, at, joined),
    ensures
        after.bag() == before.bag(),
{
    let left = before.children@[at].unwrap();
    let right = before.children@[at + 1].unwrap();
    let sep = before.key@[at];
    lemma_joined_bag(&*left, &*right, sep, &*joined);
    to_multiset_remove(before.key@, at);
    let bs = before.child_bags();
    let cut = bs.remove(at + 1);
    assert(after.child_bags() =~= cut.update(at, joined.bag()));
    assert(bs =~= cut.insert(at + 1, right.bag()));
    lemma_total_insert(cut, at + 1, right.bag());
    lemma_total_update(cut, at, joined.bag());
    assert(cut[at] == left.bag());
    before.key@.to_multiset_ensures();
    assert(before.key@.contains(sep));
    assert forall|e: T| after.bag().count(e) == before.bag().count(e) by {
        assert(total(cut.update(at, joined.bag())).add(left.bag()).count(e) == total(cut).add(
            joined.bag(),
        ).count(e));
        assert(total(bs).count(e) == total(cut).add(right.bag()).count(e));
    }
    assert(after.bag() =~= before.bag());
}

proof fn lemma_joined_ordered<U: TotalOrder, T: Key<U>>(
    before: &Node<U, T>,
    after: &Node<U, T>,
    at: int,
    joined: Tree<U, T>,
    height: nat,
    order: nat,
)
    requires
        before.formed(height, order),
        before.ordered(),
        before.node_type == NodeType::Regular,
        merged(before, after, at, joined),
    ensures
        joined.ordered(),
{
    let left = before.children@[at].unwrap();
    let right = before.children@[at + 1].unwrap();
    let sep = before.key@[at];
    let n = left.key@.len() as int;
    let sub = (height - 1) as nat;
    assert(left.formed(sub, order));
    assert(right.formed(sub, order));
    assert(match before.children@[at] {
        Some(c) => c.ordered() && within(c.bag(), before.key_before(at), before.key_behind(at)),
        None => true,
    });
    assert(match before.children@[at + 1] {
        Some(c) => c.ordered() && within(
            c.bag(),
            before.key_before(at + 1),
            before.key_behind(at + 1),
        ),
        None => true,
    });
    assert forall|i: int| 0 <= i < n implies (#[trigger] left.key@[i]).spec_key().le(
        sep.spec_key(),
    ) by {
        lemma_key_in_bag(&*left, i);
    }
    assert forall|i: int| 0 <= i < right.key@.len() implies sep.spec_key().le(
        (#[trigger] right.key@[i]).spec_key(),
    ) by {
        lemma_key_in_bag(&*right, i);
    }
    assert forall|i: int, j: int| 0 <= i <= j < joined.key@.len() implies (
    #[trigger] joined.key@[i]).spec_key().le((#[trigger] joined.key@[j]).spec_key()) by {
        if j < n {
            assert(left.key@[i].spec_key().le(left.key@[j].spec_key()));
        } else if i > n {
            assert(right.key@[i - n - 1].spec_key().le(right.key@[j - n - 1].spec_key()));
        } else if i == n && j == n {
            U::le_reflexive(sep.spec_key());
        } else if i == n {
            assert(joined.key@[j] == right.key@[j - n - 1]);
        } else if j == n {
            assert(joined.key@[i] == left.key@[i]);
        } else {
            assert(joined.key@[i] == left.key@[i]);
            assert(joined.key@[j] == right.key@[j - n - 1]);
            U::le_transitive(left.key@[i].spec_key(), sep.spec_key(), right.key@[j - n - 1].spec_key());
        }
    }
    assert forall|j: int| 0 <= j < joined.children@.len() implies match #[trigger] joined.children@[j] {
        Some(c) => c.ordered() && within(c.bag(), joined.key_before(j), joined.key_behind(j)),
        None => true,
    } by {
        let m = left.children@.len() as int;
        if j < m {
            assert(joined.children@[j] == left.children@[j]);
            let c = left.children@[j].unwrap();
            assert(within(c.bag(), left.key_before(j), left.key_behind(j)));
            assert(joined.key_before(j) == left.key_before(j));
            if j < n {
                assert(joined.key_behind(j) == left.key_behind(j));
            } else {
                assert(joined.key_behind(j) == Some(sep.spec_key()));
                assert forall|e: T| c.bag().count(e) > 0 implies (#[trigger] e.spec_key()).le(
                    sep.spec_key(),
                ) by {
                    lemma_child_in_bag(&*left, j, e);
                }
            }
        } else {
            let k = j - m;
            assert(joined.children@[j] == right.children@[k]);
            let c = right.children@[k].unwrap();
            assert(within(c.bag(), right.key_before(k), right.key_behind(k)));
            assert(joined.key_behind(j) == right.key_behind(k));
            if k > 0 {
                assert(joined.key@[j - 1] == right.key@[k - 1]);
                assert(joined.key_before(j) == right.key_before(k));
            } else {
                assert(joined.key_before(j) == Some(sep.spec_key()));
                assert forall|e: T| c.bag().count(e) > 0 implies sep.spec_key().le(
                    #[trigger] e.spec_key(),
                ) by {
                    lemma_child_in_bag(&*right, k, e);
                }
            }
        }
    }
}

proof fn lemma_merged_ordered<U: TotalOrder, T: Key<U>>(
    before: &Node<U, T>,
    after: &Node<U, T>,
    at: int,
    joined: Tree<U, T>,
    height: nat,
    order: nat,
)
    requires
        before.formed(height, order),
        before.ordered(),
        before.node_type == NodeType::Regular,
        merged(before, after, at, joined),
    ensures
        after.ordered(),
{
    let left = before.children@[at].unwrap();
    let right = before.children@[at + 1].unwrap();
    let sep = before.key@[at];
    lemma_joined_ordered(before, after, at, joined, height, order);
    lemma_joined_bag(&*left, &*right, sep, &*joined);
    assert(match before.children@[at] {
        Some(c) => c.ordered() && within(c.bag(), before.key_before(at), before.key_behind(at)),
        None => true,
    });
    assert(match before.children@[at + 1] {
        Some(c) => c.ordered() && within(
            c.bag(),
            before.key_before(at + 1),
            before.key_behind(at + 1),
        ),
        None => true,
    });
    assert forall|i: int, j: int| 0 <= i <= j < after.key@.len() implies (
    #[trigger] after.key@[i]).spec_key().le((#[trigger] after.key@[j]).spec_key()) by {
        let a = if i < at { i } else { i + 1 };
        let b = if j < at { j } else { j + 1 };
        assert(before.key@[a].spec_key().le(before.key@[b].spec_key()));
    }
    assert forall|j: int| 0 <= j < after.children@.len() implies match #[trigger] after.children@[j] {
        Some(c) => c.ordered() && within(c.bag(), after.key_before(j), after.key_behind(j)),
        None => true,
    } by {
        if j < at {
            assert(after.children@[j] == before.children@[j]);
            let c = before.children@[j].unwrap();
            assert(within(c.bag(), before.key_before(j), before.key_behind(j)));
            assert(after.key_before(j) == before.key_before(j));
            if j < at - 1 {
                assert(after.key_behind(j) == before.key_behind(j));
            } else {
                assert(after.key_behind(j) == before.key_behind(j));
            }
        } else if j > at {
            assert(after.children@[j] == before.children@[j + 1]);
            let c = before.children@[j + 1].unwrap();
            assert(within(c.bag(), before.key_before(j + 1), before.key_behind(j + 1)));
            assert(after.key_before(j) == before.key_before(j + 1));
            assert(after.key_behind(j) == before.key_behind(j + 1));
        } else {
            assert(after.key_before(j) == before.key_before(at));
            assert(after.key_behind(j) == before.key_behind(at + 1));
            assert forall|e: T| joined.bag().count(e) > 0 implies {
                &&& (after.key_before(j).is_some() ==> after.key_before(j).unwrap().le(
                    #[trigger] e.spec_key(),
                ))
                &&& (after.key_behind(j).is_some() ==> e.spec_key().le(
                    after.key_behind(j).unwrap(),
                ))
            } by {
                if at > 0 {
                    assert(before.key@[at - 1].spec_key().le(sep.spec_key()));
                }
                if at + 1 < before.key@.len() {
                    assert(sep.spec_key().le(before.key@[at + 1].spec_key()));
                }
                if left.bag().count(e) > 0 {
                    if at + 1 < before.key@.len() {
                        U::le_transitive(e.spec_key(), sep.spec_key(), before.key@[at + 1].spec_key());
                    }
                } else if right.bag().count(e) > 0 {
                    if at > 0 {
                        U::le_transitive(before.key@[at - 1].spec_key(), sep.spec_key(), e.spec_key());
                    }
                } else {
                    assert(e == sep);
                }
            }
        }
    }
}

/// Two children put together with the value between them change
/// neither what the node holds nor its form nor its order.
pub proof fn lemma_merged<U: TotalOrder, T: Key<U>>(
    before: &Node<U, T>,
    after: &Node<U, T>,
    at: int,
    joined: Tree<U, T>,
    height: nat,
    order: nat,
)
    requires
        order >= 1,
        before.formed(height, order),
        before.ordered(),
        before.filled(order, 0),
        before.node_type == NodeType::Regular,
        merged(before, after, at, joined),
        joined.key@.len() <= 2 * order - 1,
    ensures
        after.formed(height, order),
        after.ordered(),
        after.filled(order, 0),
        after.bag() == before.bag(),
        joined.formed((height - 1) as nat, order),
        joined.ordered(),
        joined.filled(order, (order - 1) as nat),
{
    lemma_merged_formed(before, after, at, joined, height, order);
    lemma_merged_bag(before, after, at, joined);
    lemma_joined_ordered(before, after, at, joined, height, order);
    lemma_merged_ordered(before, after, at, joined, height, order);
}

} // verus!
