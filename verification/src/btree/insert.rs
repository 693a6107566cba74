use vstd::prelude::*;

use vstd::seq_lib::to_multiset_insert;
use crate::order::TotalOrder;
use super::grow::{halves, lemma_child_split};
use super::lookup::counts;
use super::node::{within, Key, Node, NodeType, Tree};
use super::sums::{lemma_total_update, total};
use super::walks::{
    below, head, lemma_child_split_walk, lemma_child_walk_insert, lemma_leaf_walk_insert,
    lemma_place_before, place_before,
};

verus! {

/// The key `k` may enter the values `keys` at the place `at`: nothing
/// before the place is greater, nothing from the place on is less.
pub open spec fn fits<U: TotalOrder, T: Key<U>>(keys: Seq<T>, k: U, at: int) -> bool {
    &&& 0 <= at <= keys.len()
    &&& forall|j: int| 0 <= j < at ==> (#[trigger] keys[j]).spec_key().le(k)
    &&& forall|j: int| at <= j < keys.len() ==> k.le((#[trigger] keys[j]).spec_key())
}

/// Behind the last value that is strictly less than `k`, `k` fits.
pub proof fn lemma_fits<U: TotalOrder, T: Key<U>>(node: &Node<U, T>, k: U, found: Option<usize>)
    requires
        node.ordered(),
        match found {
            Some(i) => {
                &&& i < node.key@.len()
                &&& counts(node.key@[i as int].spec_key(), k, false)
                &&& forall|j: int|
                    i < j < node.key@.len() ==> !counts((#[trigger] node.key@[j]).spec_key(), k, false)
            },
            None => forall|j: int|
                0 <= j < node.key@.len() ==> !counts((#[trigger] node.key@[j]).spec_key(), k, false),
        },
    ensures
        fits(
            node.key@,
            k,
            match found {
                Some(i) => i + 1,
                None => 0,
            },
        ),
{
    let at: int = match found {
        Some(i) => i + 1,
        None => 0,
    };
    assert forall|j: int| 0 <= j < at implies (#[trigger] node.key@[j]).spec_key().le(k) by {
        let i = at - 1;
        assert(node.key@[j].spec_key().le(node.key@[i].spec_key()));
        U::le_total(node.key@[i].spec_key(), k);
        U::le_transitive(node.key@[j].spec_key(), node.key@[i].spec_key(), k);
    }
}

/// Behind the last value that is strictly less than `k`, `k` has its
/// place before all values that are not.
pub proof fn lemma_strict_place<U: TotalOrder, T: Key<U>>(
    node: &Node<U, T>,
    k: U,
    found: Option<usize>,
)
    requires
        node.ordered(),
        match found {
            Some(i) => {
                &&& i < node.key@.len()
                &&& counts(node.key@[i as int].spec_key(), k, false)
                &&& forall|j: int|
                    i < j < node.key@.len() ==> !counts((#[trigger] node.key@[j]).spec_key(), k, false)
            },
            None => forall|j: int|
                0 <= j < node.key@.len() ==> !counts((#[trigger] node.key@[j]).spec_key(), k, false),
        },
    ensures
        place_before(
            node.key@,
            k,
            match found {
                Some(i) => i + 1,
                None => 0,
            },
        ),
{
    let at: int = match found {
        Some(i) => i + 1,
        None => 0,
    };
    assert forall|j: int| 0 <= j < at implies !k.le((#[trigger] node.key@[j]).spec_key()) by {
        let i = at - 1;
        assert(node.key@[j].spec_key().le(node.key@[i].spec_key()));
        if k.le(node.key@[j].spec_key()) {
            U::le_transitive(k, node.key@[j].spec_key(), node.key@[i].spec_key());
        }
    }
}

/// A key that has its place before its equals at a place fits there.
pub proof fn lemma_before_fits<U: TotalOrder, T: Key<U>>(keys: Seq<T>, k: U, at: int)
    requires
        place_before(keys, k, at),
    ensures
        fits(keys, k, at),
{
    assert forall|j: int| 0 <= j < at implies (#[trigger] keys[j]).spec_key().le(k) by {
        U::le_total(keys[j].spec_key(), k);
    }
}

/// A value that enters a leaf where it fits leaves the leaf in order.
pub proof fn lemma_leaf_insert<U: TotalOrder, T: Key<U>>(
    before: &Node<U, T>,
    after: &Node<U, T>,
    value: T,
    at: int,
    order: nat,
)
    requires
        before.formed(0, order),
        before.ordered(),
        before.key@.len() < 2 * order - 1,
        fits(before.key@, value.spec_key(), at),
        after.node_type == before.node_type,
        after.children@ == before.children@,
        after.key@ == before.key@.insert(at, value),
    ensures
        after.formed(0, order),
        after.ordered(),
        after.bag() == before.bag().insert(value),
        after.filled(order, 0),
{
    to_multiset_insert(before.key@, at, value);
    assert(after.child_bags() =~= before.child_bags());
    assert(after.bag() =~= before.bag().insert(value));
    assert forall|i: int, j: int| 0 <= i <= j < after.key@.len() implies (
    #[trigger] after.key@[i]).spec_key().le((#[trigger] after.key@[j]).spec_key()) by {
        let a = if i < at { i } else { i - 1 };
        let b = if j < at { j } else { j - 1 };
        if i == at && j == at {
            U::le_reflexive(value.spec_key());
        } else if i == at {
            assert(after.key@[j] == before.key@[j - 1]);
        } else if j == at {
            assert(after.key@[i] == before.key@[i]);
        } else {
            assert(after.key@[i] == before.key@[a]);
            assert(after.key@[j] == before.key@[b]);
            assert(before.key@[a].spec_key().le(before.key@[b].spec_key()));
        }
    }
}

/// A value that enters the child at the place where it fits leaves the
/// node in order.
pub proof fn lemma_child_insert<U: TotalOrder, T: Key<U>>(
    before: &Node<U, T>,
    after: &Node<U, T>,
    value: T,
    at: int,
    grown: Tree<U, T>,
    height: nat,
    order: nat,
    stock: nat,
)
    requires
        before.formed(height, order),
        before.ordered(),
        before.node_type == NodeType::Regular,
        fits(before.key@, value.spec_key(), at),
        after.node_type == before.node_type,
        after.key@ == before.key@,
        after.children@ == before.children@.update(at, Some(grown)),
        grown.formed((height - 1) as nat, order),
        grown.ordered(),
        grown.bag() == before.children@[at].unwrap().bag().insert(value),
        before.filled(stock, 0),
        grown.filled(stock, (stock - 1) as nat),
    ensures
        after.formed(height, order),
        after.ordered(),
        after.bag() == before.bag().insert(value),
        after.filled(stock, 0),
{
    assert forall|j: int| 0 <= j < after.children@.len() implies match #[trigger] after.children@[j] {
        Some(c) => c.filled(stock, (stock - 1) as nat),
        None => true,
    } by {
        if j != at {
            assert(after.children@[j] == before.children@[j]);
        }
    }
    let child = before.children@[at].unwrap();
    assert(match before.children@[at] {
        Some(c) => c.ordered() && within(c.bag(), before.key_before(at), before.key_behind(at)),
        None => true,
    });
    assert forall|j: int| 0 <= j < after.children@.len() implies (
    #[trigger] after.children@[j]).is_some() && after.children@[j].unwrap().formed(
        (height - 1) as nat,
        order,
    ) by {
        if j != at {
            assert(after.children@[j] == before.children@[j]);
        }
    }
    let bs = before.child_bags();
    assert(after.child_bags() =~= bs.update(at, grown.bag()));
    lemma_total_update(bs, at, grown.bag());
    assert(bs[at] == child.bag());
    assert(after.bag() =~= before.bag().insert(value)) by {
        let a = total(bs.update(at, grown.bag()));
        assert forall|e: T| after.bag().count(e) == before.bag().insert(value).count(e) by {
            assert(a.add(child.bag()).count(e) == total(bs).add(grown.bag()).count(e));
        }
    }
    assert forall|j: int| 0 <= j < after.children@.len() implies match #[trigger] after.children@[j] {
        Some(c) => c.ordered() && within(c.bag(), after.key_before(j), after.key_behind(j)),
        None => true,
    } by {
        if j != at {
            assert(after.children@[j] == before.children@[j]);
            let c = before.children@[j].unwrap();
            assert(within(c.bag(), before.key_before(j), before.key_behind(j)));
        } else {
            assert forall|e: T| grown.bag().count(e) > 0 implies {
                &&& (after.key_before(j).is_some() ==> after.key_before(j).unwrap().le(
                    #[trigger] e.spec_key(),
                ))
                &&& (after.key_behind(j).is_some() ==> e.spec_key().le(
                    after.key_behind(j).unwrap(),
                ))
            } by {
                if e != value {
                    assert(child.bag().count(e) > 0);
                } else {
                    if at > 0 {
                        assert(before.key@[at - 1].spec_key().le(value.spec_key()));
                    }
                    if at < before.key@.len() {
                        assert(value.spec_key().le(before.key@[at].spec_key()));
                    }
                }
            }
        }
    }
}

impl<U: TotalOrder, T: Key<U>> Node<U, T> {
    /// Cuts the full child at the place `i` in two: its middle value
    /// moves up into the node, and what stood behind it moves into a new
    /// child at the place `i + 1`.
    #[verifier::rlimit(50)]
    pub(crate) fn split_child(&mut self, i: usize, order: &usize, Ghost(height): Ghost<nat>)
        requires
            1 <= *order <= usize::MAX / 2,
            old(self).formed(height, *order as nat),
            old(self).ordered(),
            old(self).filled(*order as nat, 0),
            old(self).node_type == NodeType::Regular,
            old(self).key@.len() < 2 * *order - 1,
            i < old(self).children@.len(),
            old(self).children@[i as int].unwrap().key@.len() == 2 * *order - 1,
        ensures
            final(self).formed(height, *order as nat),
            final(self).ordered(),
            final(self).filled(*order as nat, 0),
            final(self).bag() == old(self).bag(),
            final(self).node_type == old(self).node_type,
            final(self).key@ == old(self).key@.insert(
                i as int,
                old(self).children@[i as int].unwrap().key@[*order - 1],
            ),
            final(self).children@.len() == old(self).children@.len() + 1,
            final(self).children@[i as int].unwrap().key@.len() == *order - 1,
            final(self).children@[i + 1].unwrap().key@.len() == *order - 1,
            final(self).contents() == old(self).contents(),
    {
        let ghost before = *self;
        let ghost whole = self.children@[i as int].unwrap();
        assert(whole.formed((height - 1) as nat, *order as nat));
        let mut child = self.children[i].take().unwrap();
        let mut sibling = Node::new(child.get_type());
        sibling.key = child.key.split_off(*order);
        let median = child.key.remove(*order - 1);
        self.key.insert(i, median);
        if !child.is_leaf() {
            sibling.children = child.children.split_off(*order);
        }
        proof {
            assert(child.key@ =~= whole.key@.subrange(0, *order - 1));
            assert(halves(&*whole, &*child, &*sibling, *order - 1));
        }
        let ghost left = child;
        let ghost right = sibling;
        self.children[i] = Some(child);
        self.children.insert(i + 1, Some(sibling));
        proof {
            assert(self.children@ =~= before.children@.update(i as int, Some(left)).insert(
                i + 1,
                Some(right),
            ));
            lemma_child_split(
                &before,
                &*self,
                i as int,
                left,
                right,
                height,
                *order as nat,
                *order - 1,
                *order as nat,
            );
            lemma_child_split_walk(&before, &*self, i as int, left, right, *order - 1);
        }
    }

    /// Makes sure that the child at the place `pos`, where the key `key`
    /// fits, has room: a full child is cut in two, and the half on whose
    /// side of the middle value the key fits is taken. Where the key
    /// equals the middle value, that is the half before it.
    #[verifier::rlimit(50)]
    pub(crate) fn make_room(
        &mut self,
        pos: usize,
        key: &U,
        order: &usize,
        Ghost(height): Ghost<nat>,
    ) -> (r: usize)
        requires
            1 <= *order <= usize::MAX / 2,
            old(self).formed(height, *order as nat),
            old(self).ordered(),
            old(self).filled(*order as nat, 0),
            old(self).node_type == NodeType::Regular,
            old(self).key@.len() < 2 * *order - 1,
            place_before(old(self).key@, *key, pos as int),
        ensures
            final(self).formed(height, *order as nat),
            final(self).ordered(),
            final(self).filled(*order as nat, 0),
            final(self).key@.len() >= old(self).key@.len(),
            final(self).bag() == old(self).bag(),
            final(self).contents() == old(self).contents(),
            final(self).node_type == old(self).node_type,
            place_before(final(self).key@, *key, r as int),
            r < final(self).children@.len(),
            final(self).children@[r as int].is_some(),
            final(self).children@[r as int].unwrap().key@.len() < 2 * *order - 1,
    {
        let ghost before = *self;
        assert(self.children@[pos as int].is_some());
        assert(self.children@[pos as int].unwrap().formed((height - 1) as nat, *order as nat));
        if self.ref_child(&pos).is_full(order) {
            self.split_child(pos, order, Ghost(height));
            if self.key[pos].key().less(key) {
                proof {
                    assert forall|j: int| pos + 1 <= j < self.key@.len() implies key.le(
                        (#[trigger] self.key@[j]).spec_key(),
                    ) by {
                        assert(self.key@[j] == before.key@[j - 1]);
                    }
                    assert forall|j: int| 0 <= j < pos + 1 implies !key.le(
                        (#[trigger] self.key@[j]).spec_key(),
                    ) by {
                        if j < pos {
                            assert(self.key@[j] == before.key@[j]);
                        }
                    }
                }
                pos + 1
            } else {
                proof {
                    U::le_total(self.key@[pos as int].spec_key(), *key);
                    assert forall|j: int| pos <= j < self.key@.len() implies key.le(
                        (#[trigger] self.key@[j]).spec_key(),
                    ) by {
                        if j > pos {
                            assert(self.key@[j] == before.key@[j - 1]);
                        }
                    }
                    assert forall|j: int| 0 <= j < pos implies !key.le(
                        (#[trigger] self.key@[j]).spec_key(),
                    ) by {
                        assert(self.key@[j] == before.key@[j]);
                    }
                }
                pos
            }
        } else {
            pos
        }
    }

    /// Puts `value` into the node or below it, at the place where its key
    /// fits before all values with the same key. The node must have room
    /// for a value; below it room is made on the way down, by cutting
    /// every full child that the way passes.
    #[verifier::rlimit(50)]
    pub(crate) fn insert_nonfull(&mut self, value: T, order: &usize, Ghost(height): Ghost<nat>)
        requires
            1 <= *order <= usize::MAX / 2,
            old(self).formed(height, *order as nat),
            old(self).ordered(),
            old(self).filled(*order as nat, 0),
            old(self).key@.len() < 2 * *order - 1,
        ensures
            final(self).formed(height, *order as nat),
            final(self).ordered(),
            final(self).filled(*order as nat, 0),
            final(self).key@.len() >= old(self).key@.len(),
            final(self).bag() == old(self).bag().insert(value),
            final(self).node_type == old(self).node_type,
            exists|place: int|
                #[trigger] place_before(old(self).contents(), value.spec_key(), place)
                    && final(self).contents() == old(self).contents().insert(place, value),
        decreases height,
    {
        let ghost before = *self;
        let key = value.key();
        let found = Self::key_position(self.key.as_slice(), &key, false);
        proof {
            lemma_fits(&*self, value.spec_key(), found);
            lemma_strict_place(&*self, value.spec_key(), found);
        }
        let pos: usize = match found {
            Some(p) => p + 1,
            None => 0,
        };
        if self.is_leaf() {
            self.key.insert(pos, value);
            proof {
                lemma_leaf_insert(&before, &*self, value, pos as int, *order as nat);
                lemma_leaf_walk_insert(&before, &*self, pos as int, value);
                assert(place_before(before.contents(), value.spec_key(), pos as int)
                    && self.contents() == before.contents().insert(pos as int, value));
            }
        } else {
            let pos = self.make_room(pos, &key, order, Ghost(height));
            let ghost middle = *self;
            assert(middle.children@[pos as int].unwrap().formed(
                (height - 1) as nat,
                *order as nat,
            ));
            assert(match middle.children@[pos as int] {
                Some(c) => c.ordered() && c.filled(*order as nat, (*order - 1) as nat),
                None => true,
            });
            proof {
                lemma_before_fits(middle.key@, value.spec_key(), pos as int);
            }
            let child = self.mut_child(&pos);
            child.insert_nonfull(value, order, Ghost((height - 1) as nat));
            proof {
                let grown = self.children@[pos as int].unwrap();
                let small = middle.children@[pos as int].unwrap();
                let inner = choose|place: int|
                    #[trigger] place_before(small.contents(), value.spec_key(), place)
                        && grown.contents() == small.contents().insert(place, value);
                assert(below(&middle, pos as int) == small.contents());
                lemma_place_before(
                    &middle,
                    height,
                    *order as nat,
                    value.spec_key(),
                    pos as int,
                    inner,
                );
                lemma_child_walk_insert(&middle, &*self, pos as int, grown, inner, value);
                let place = head(&middle, pos as nat).len() + inner;
                assert(place_before(before.contents(), value.spec_key(), place)
                    && self.contents() == before.contents().insert(place, value));
                lemma_child_insert(
                    &middle,
                    &*self,
                    value,
                    pos as int,
                    grown,
                    height,
                    *order as nat,
                    *order as nat,
                );
            }
        }
    }
}

} // verus!
