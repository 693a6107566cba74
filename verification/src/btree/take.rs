use vstd::prelude::*;
use vstd::multiset::Multiset;
use vstd::seq_lib::to_multiset_remove;
use crate::order::TotalOrder;
use super::lend::lemma_update_bag;
use super::lookup::{lemma_bag_parts, lemma_key_in_bag};
use super::node::{bag_of, within, Key, Node, NodeType, Tree};
use super::sums::{lemma_total_update, total};

verus! {

/// No value of `b` has a greater key than `top`.
pub open spec fn tops<U: TotalOrder, T: Key<U>>(b: Multiset<T>, top: T) -> bool {
    forall|e: T| b.count(e) > 0 ==> (#[trigger] e.spec_key()).le(top.spec_key())
}

/// No value of `b` has a lesser key than `bottom`.
pub open spec fn bottoms<U: TotalOrder, T: Key<U>>(b: Multiset<T>, bottom: T) -> bool {
    forall|e: T| b.count(e) > 0 ==> bottom.spec_key().le(#[trigger] e.spec_key())
}

/// A value taken out of a leaf leaves the leaf in order.
pub proof fn lemma_leaf_take<U: TotalOrder, T: Key<U>>(
    before: &Node<U, T>,
    after: &Node<U, T>,
    at: int,
    order: nat,
)
    requires
        before.formed(0, order),
        before.ordered(),
        0 <= at < before.key@.len(),
        after.node_type == before.node_type,
        after.children@ == before.children@,
        after.key@ == before.key@.remove(at),
    ensures
        after.formed(0, order),
        after.ordered(),
        after.filled(order, 0),
        after.bag() == before.bag().remove(before.key@[at]),
        before.bag().count(before.key@[at]) > 0,
        at == before.key@.len() - 1 ==> tops(before.bag(), before.key@[at]),
        at == 0 ==> bottoms(before.bag(), before.key@[at]),
{
    to_multiset_remove(before.key@, at);
    lemma_key_in_bag(before, at);
    assert(after.child_bags() =~= before.child_bags());
    assert(after.bag() =~= before.bag().remove(before.key@[at]));
    assert forall|i: int, j: int| 0 <= i <= j < after.key@.len() implies (
    #[trigger] after.key@[i]).spec_key().le((#[trigger] after.key@[j]).spec_key()) by {
        let a = if i < at { i } else { i + 1 };
        let b = if j < at { j } else { j + 1 };
        assert(before.key@[a].spec_key().le(before.key@[b].spec_key()));
    }
    assert forall|e: T| before.bag().count(e) > 0 implies {
        &&& (at == before.key@.len() - 1 ==> (#[trigger] e.spec_key()).le(
            before.key@[at].spec_key(),
        ))
        &&& (at == 0 ==> before.key@[at].spec_key().le(e.spec_key()))
    } by {
        lemma_bag_parts(before, e);
        let i = choose|i: int| 0 <= i < before.key@.len() && #[trigger] before.key@[i] == e;
        if at == before.key@.len() - 1 {
            assert(before.key@[i].spec_key().le(before.key@[at].spec_key()));
        }
        if at == 0 {
            assert(before.key@[at].spec_key().le(before.key@[i].spec_key()));
        }
    }
}

/// A child that lost a value is exchanged for the old one.
pub open spec fn child_shrunk<U, T>(
    before: &Node<U, T>,
    after: &Node<U, T>,
    at: int,
    less: Tree<U, T>,
    gone: T,
) -> bool {
    &&& 0 <= at < before.children@.len()
    &&& before.children@[at].is_some()
    &&& before.children@[at].unwrap().bag().count(gone) > 0
    &&& less.bag() == before.children@[at].unwrap().bag().remove(gone)
    &&& after.node_type == before.node_type
    &&& after.children@ == before.children@.update(at, Some(less))
}

proof fn lemma_child_shrunk_shape<U: TotalOrder, T: Key<U>>(
    before: &Node<U, T>,
    after: &Node<U, T>,
    at: int,
    less: Tree<U, T>,
    gone: T,
    height: nat,
    order: nat,
)
    requires
        before.formed(height, order),
        before.ordered(),
        before.filled(order, 0),
        before.node_type == NodeType::Regular,
        child_shrunk(before, after, at, less, gone),
        after.key@.len() == before.key@.len(),
        less.formed((height - 1) as nat, order),
        less.ordered(),
        less.filled(order, (order - 1) as nat),
    ensures
        after.formed(height, order),
        after.filled(order, 0),
        forall|j: int|
            0 <= j < after.children@.len() && j != at ==> match #[trigger] after.children@[j] {
                Some(c) => c.ordered() && within(
                    c.bag(),
                    before.key_before(j),
                    before.key_behind(j),
                ),
                None => true,
            },
        within(less.bag(), before.key_before(at), before.key_behind(at)),
{
    let child = before.children@[at].unwrap();
    assert(match before.children@[at] {
        Some(c) => c.ordered() && within(c.bag(), before.key_before(at), before.key_behind(at)),
        None => true,
    });
    assert forall|j: int| 0 <= j < after.children@.len() implies (
    #[trigger] after.children@[j]).is_some() && after.children@[j].unwrap().formed(
        (height - 1) as nat,
        order,
    ) && after.children@[j].unwrap().filled(order, (order - 1) as nat) by {
        if j != at {
            assert(after.children@[j] == before.children@[j]);
            assert(match before.children@[j] {
                Some(c) => c.filled(order, (order - 1) as nat),
                None => true,
            });
        }
    }
    assert forall|j: int| 0 <= j < after.children@.len() && j != at implies match #[trigger] after.children@[j] {
        Some(c) => c.ordered() && within(c.bag(), before.key_before(j), before.key_behind(j)),
        None => true,
    } by {
        assert(after.children@[j] == before.children@[j]);
        let c = before.children@[j].unwrap();
        assert(within(c.bag(), before.key_before(j), before.key_behind(j)));
    }
    assert forall|e: T| less.bag().count(e) > 0 implies {
        &&& (before.key_before(at).is_some() ==> before.key_before(at).unwrap().le(
            #[trigger] e.spec_key(),
        ))
        &&& (before.key_behind(at).is_some() ==> e.spec_key().le(before.key_behind(at).unwrap()))
    } by {
        assert(child.bag().count(e) > 0);
    }
}

proof fn lemma_child_shrunk_bags<U, T>(
    before: &Node<U, T>,
    after: &Node<U, T>,
    at: int,
    less: Tree<U, T>,
    gone: T,
)
    requires
        child_shrunk(before, after, at, less, gone),
    ensures
        total(after.child_bags()) == total(before.child_bags()).remove(gone),
        total(before.child_bags()).count(gone) > 0,
{
    let child = before.children@[at].unwrap();
    let bs = before.child_bags();
    assert(after.child_bags() =~= bs.update(at, less.bag()));
    lemma_total_update(bs, at, less.bag());
    assert(bs[at] == child.bag());
    assert forall|e: T| total(after.child_bags()).count(e) == total(bs).remove(gone).count(e) by {
        assert(total(bs.update(at, less.bag())).add(child.bag()).count(e) == total(bs).add(
            less.bag(),
        ).count(e));
    }
    assert(total(bs.update(at, less.bag())).add(child.bag()).count(gone) == total(bs).add(
        less.bag(),
    ).count(gone));
    assert(total(after.child_bags()) =~= total(bs).remove(gone));
}

/// A value taken out below a child is taken out of the node, which stays
/// in order.
pub proof fn lemma_child_take<U: TotalOrder, T: Key<U>>(
    before: &Node<U, T>,
    after: &Node<U, T>,
    at: int,
    less: Tree<U, T>,
    gone: T,
    height: nat,
    order: nat,
)
    requires
        before.formed(height, order),
        before.ordered(),
        before.filled(order, 0),
        before.node_type == NodeType::Regular,
        child_shrunk(before, after, at, less, gone),
        after.key@ == before.key@,
        less.formed((height - 1) as nat, order),
        less.ordered(),
        less.filled(order, (order - 1) as nat),
    ensures
        after.formed(height, order),
        after.ordered(),
        after.filled(order, 0),
        after.bag() == before.bag().remove(gone),
        before.bag().count(gone) > 0,
{
    lemma_child_shrunk_shape(before, after, at, less, gone, height, order);
    lemma_child_shrunk_bags(before, after, at, less, gone);
    assert(after.bag() =~= before.bag().remove(gone));
    assert forall|j: int| 0 <= j < after.children@.len() implies match #[trigger] after.children@[j] {
        Some(c) => c.ordered() && within(c.bag(), after.key_before(j), after.key_behind(j)),
        None => true,
    } by {
        assert(after.key_before(j) == before.key_before(j));
        assert(after.key_behind(j) == before.key_behind(j));
    }
}

/// The greatest value below the child before a place takes the place:
/// the value that stood there is gone, and the node stays in order.
pub proof fn lemma_key_from_left<U: TotalOrder, T: Key<U>>(
    before: &Node<U, T>,
    after: &Node<U, T>,
    at: int,
    less: Tree<U, T>,
    up: T,
    height: nat,
    order: nat,
)
    requires
        before.formed(height, order),
        before.ordered(),
        before.filled(order, 0),
        before.node_type == NodeType::Regular,
        0 <= at < before.key@.len(),
        child_shrunk(before, after, at, less, up),
        tops(before.children@[at].unwrap().bag(), up),
        after.key@ == before.key@.update(at, up),
        less.formed((height - 1) as nat, order),
        less.ordered(),
        less.filled(order, (order - 1) as nat),
    ensures
        after.formed(height, order),
        after.ordered(),
        after.filled(order, 0),
        after.bag() == before.bag().remove(before.key@[at]),
        before.bag().count(before.key@[at]) > 0,
{
    let child = before.children@[at].unwrap();
    let old = before.key@[at];
    lemma_child_shrunk_shape(before, after, at, less, up, height, order);
    lemma_child_shrunk_bags(before, after, at, less, up);
    lemma_update_bag(before.key@, at, up);
    lemma_key_in_bag(before, at);
    assert forall|e: T| after.bag().count(e) == before.bag().remove(old).count(e) by {
        assert(after.key@.to_multiset().insert(old).count(e) == before.key@.to_multiset().insert(
            up,
        ).count(e));
    }
    assert(after.bag() =~= before.bag().remove(old));
    assert(match before.children@[at] {
        Some(c) => c.ordered() && within(c.bag(), before.key_before(at), before.key_behind(at)),
        None => true,
    });
    assert(up.spec_key().le(old.spec_key()));
    assert forall|i: int, j: int| 0 <= i <= j < after.key@.len() implies (
    #[trigger] after.key@[i]).spec_key().le((#[trigger] after.key@[j]).spec_key()) by {
        if i == at && j == at {
            U::le_reflexive(up.spec_key());
        } else if i == at {
            assert(old.spec_key().le(before.key@[j].spec_key()));
            U::le_transitive(up.spec_key(), old.spec_key(), before.key@[j].spec_key());
        } else if j == at {
            assert(before.key@[i].spec_key().le(before.key@[at - 1].spec_key()));
            U::le_transitive(before.key@[i].spec_key(), before.key@[at - 1].spec_key(), up.spec_key());
        } else {
            assert(before.key@[i].spec_key().le(before.key@[j].spec_key()));
        }
    }
    assert forall|j: int| 0 <= j < after.children@.len() implies match #[trigger] after.children@[j] {
        Some(c) => c.ordered() && within(c.bag(), after.key_before(j), after.key_behind(j)),
        None => true,
    } by {
        if j == at {
            assert(after.key_before(j) == before.key_before(j));
            assert forall|e: T| less.bag().count(e) > 0 implies (#[trigger] e.spec_key()).le(
                up.spec_key(),
            ) by {
                assert(child.bag().count(e) > 0);
            }
        } else if j == at + 1 {
            assert(after.key_behind(j) == before.key_behind(j));
            let c = before.children@[j].unwrap();
            assert forall|e: T| c.bag().count(e) > 0 implies up.spec_key().le(
                #[trigger] e.spec_key(),
            ) by {
                U::le_transitive(up.spec_key(), old.spec_key(), e.spec_key());
            }
        } else {
            assert(after.key_before(j) == before.key_before(j));
            assert(after.key_behind(j) == before.key_behind(j));
        }
    }
}

/// The least value below the child behind a place takes the place: the
/// value that stood there is gone, and the node stays in order.
pub proof fn lemma_key_from_right<U: TotalOrder, T: Key<U>>(
    before: &Node<U, T>,
    after: &Node<U, T>,
    at: int,
    less: Tree<U, T>,
    up: T,
    height: nat,
    order: nat,
)
    requires
        before.formed(height, order),
        before.ordered(),
        before.filled(order, 0),
        before.node_type == NodeType::Regular,
        0 <= at < before.key@.len(),
        child_shrunk(before, after, at + 1, less, up),
        bottoms(before.children@[at + 1].unwrap().bag(), up),
        after.key@ == before.key@.update(at, up),
        less.formed((height - 1) as nat, order),
        less.ordered(),
        less.filled(order, (order - 1) as nat),
    ensures
        after.formed(height, order),
        after.ordered(),
        after.filled(order, 0),
        after.bag() == before.bag().remove(before.key@[at]),
        before.bag().count(before.key@[at]) > 0,
{
    let child = before.children@[at + 1].unwrap();
    let old = before.key@[at];
    lemma_child_shrunk_shape(before, after, at + 1, less, up, height, order);
    lemma_child_shrunk_bags(before, after, at + 1, less, up);
    lemma_update_bag(before.key@, at, up);
    lemma_key_in_bag(before, at);
    assert forall|e: T| after.bag().count(e) == before.bag().remove(old).count(e) by {
        assert(after.key@.to_multiset().insert(old).count(e) == before.key@.to_multiset().insert(
            up,
        ).count(e));
    }
    assert(after.bag() =~= before.bag().remove(old));
    assert(match before.children@[at + 1] {
        Some(c) => c.ordered() && within(
            c.bag(),
            before.key_before(at + 1),
            before.key_behind(at + 1),
        ),
        None => true,
    });
    assert(old.spec_key().le(up.spec_key()));
    assert forall|i: int, j: int| 0 <= i <= j < after.key@.len() implies (
    #[trigger] after.key@[i]).spec_key().le((#[trigger] after.key@[j]).spec_key()) by {
        if i == at && j == at {
            U::le_reflexive(up.spec_key());
        } else if i == at {
            assert(before.key@[at + 1].spec_key().le(before.key@[j].spec_key()));
            U::le_transitive(up.spec_key(), before.key@[at + 1].spec_key(), before.key@[j].spec_key());
        } else if j == at {
            assert(before.key@[i].spec_key().le(old.spec_key()));
            U::le_transitive(before.key@[i].spec_key(), old.spec_key(), up.spec_key());
        } else {
            assert(before.key@[i].spec_key().le(before.key@[j].spec_key()));
        }
    }
    assert forall|j: int| 0 <= j < after.children@.len() implies match #[trigger] after.children@[j] {
        Some(c) => c.ordered() && within(c.bag(), after.key_before(j), after.key_behind(j)),
        None => true,
    } by {
        if j == at + 1 {
            assert(after.key_behind(j) == before.key_behind(j));
            assert forall|e: T| less.bag().count(e) > 0 implies up.spec_key().le(
                #[trigger] e.spec_key(),
            ) by {
                assert(child.bag().count(e) > 0);
            }
        } else if j == at {
            assert(after.key_before(j) == before.key_before(j));
            let c = before.children@[j].unwrap();
            assert forall|e: T| c.bag().count(e) > 0 implies (#[trigger] e.spec_key()).le(
                up.spec_key(),
            ) by {
                U::le_transitive(e.spec_key(), old.spec_key(), up.spec_key());
            }
        } else {
            assert(after.key_before(j) == before.key_before(j));
            assert(after.key_behind(j) == before.key_behind(j));
        }
    }
}

/// What tops the last child tops the node, and what is least below the
/// first child is least in the node.
pub proof fn lemma_ends<U: TotalOrder, T: Key<U>>(node: &Node<U, T>, height: nat, order: nat, x: T)
    requires
        node.formed(height, order),
        node.ordered(),
        node.node_type == NodeType::Regular,
    ensures
        node.children@.last().unwrap().bag().count(x) > 0 && tops(
            node.children@.last().unwrap().bag(),
            x,
        ) ==> tops(node.bag(), x),
        node.children@[0].unwrap().bag().count(x) > 0 && bottoms(
            node.children@[0].unwrap().bag(),
            x,
        ) ==> bottoms(node.bag(), x),
{
    let n = node.key@.len() as int;
    let last = node.children@[n].unwrap();
    let first = node.children@[0].unwrap();
    assert(node.children@.last() == node.children@[n]);
    assert(match node.children@[n] {
        Some(c) => within(c.bag(), node.key_before(n), node.key_behind(n)),
        None => true,
    });
    assert(match node.children@[0] {
        Some(c) => within(c.bag(), node.key_before(0), node.key_behind(0)),
        None => true,
    });
    if last.bag().count(x) > 0 && tops(last.bag(), x) {
        if n > 0 {
            assert(node.key@[n - 1].spec_key().le(x.spec_key()));
        }
        assert forall|e: T| node.bag().count(e) > 0 implies (#[trigger] e.spec_key()).le(
            x.spec_key(),
        ) by {
            lemma_bag_parts(node, e);
            if exists|i: int| 0 <= i < node.key@.len() && #[trigger] node.key@[i] == e {
                let i = choose|i: int| 0 <= i < node.key@.len() && #[trigger] node.key@[i] == e;
                assert(node.key@[i].spec_key().le(node.key@[n - 1].spec_key()));
                U::le_transitive(e.spec_key(), node.key@[n - 1].spec_key(), x.spec_key());
            } else {
                let j = choose|j: int|
                    0 <= j < node.children@.len() && (#[trigger] bag_of(node.children@[j])).count(
                        e,
                    ) > 0;
                if j < n {
                    let c = node.children@[j].unwrap();
                    assert(within(c.bag(), node.key_before(j), node.key_behind(j)));
                    assert(node.key@[j].spec_key().le(node.key@[n - 1].spec_key()));
                    U::le_transitive(e.spec_key(), node.key@[j].spec_key(), node.key@[n - 1].spec_key());
                    U::le_transitive(e.spec_key(), node.key@[n - 1].spec_key(), x.spec_key());
                }
            }
        }
    }
    if first.bag().count(x) > 0 && bottoms(first.bag(), x) {
        if n > 0 {
            assert(x.spec_key().le(node.key@[0].spec_key()));
        }
        assert forall|e: T| node.bag().count(e) > 0 implies x.spec_key().le(
            #[trigger] e.spec_key(),
        ) by {
            lemma_bag_parts(node, e);
            if exists|i: int| 0 <= i < node.key@.len() && #[trigger] node.key@[i] == e {
                let i = choose|i: int| 0 <= i < node.key@.len() && #[trigger] node.key@[i] == e;
                assert(node.key@[0].spec_key().le(node.key@[i].spec_key()));
                U::le_transitive(x.spec_key(), node.key@[0].spec_key(), e.spec_key());
            } else {
                let j = choose|j: int|
                    0 <= j < node.children@.len() && (#[trigger] bag_of(node.children@[j])).count(
                        e,
                    ) > 0;
                if j > 0 {
                    let c = node.children@[j].unwrap();
                    assert(within(c.bag(), node.key_before(j), node.key_behind(j)));
                    assert(node.key@[0].spec_key().le(node.key@[j - 1].spec_key()));
                    U::le_transitive(x.spec_key(), node.key@[0].spec_key(), node.key@[j - 1].spec_key());
                    U::le_transitive(x.spec_key(), node.key@[j - 1].spec_key(), e.spec_key());
                }
            }
        }
    }
}

} // verus!
