use vstd::prelude::*;

use crate::order::TotalOrder;
use super::lend::{lemma_lent_left, lemma_lent_right, lent_left, lent_right};
use super::lookup::{lemma_bag_parts, lemma_key_in_bag};
use super::node::{bag_of, within, Key, Node, NodeType, Tree};
use super::shrink::{lemma_merged, merged};
use super::take::{
    bottoms,
    lemma_child_take,
    lemma_ends,
    lemma_key_from_left,
    lemma_key_from_right,
    lemma_leaf_take,
    tops,
};

use super::walks::{
    head, lemma_child_walk_remove, lemma_first_walk_remove, lemma_key_from_left_walk,
    lemma_key_from_right_walk, lemma_last_walk_remove, lemma_leaf_walk_remove,
    lemma_lent_left_walk, lemma_lent_right_walk, lemma_merged_walk,
};

verus! {

/// The key `k` lies strictly between the values before the place `at`
/// and those from the place on: none of them holds it.
pub open spec fn strictly_at<U: TotalOrder, T: Key<U>>(keys: Seq<T>, k: U, at: int) -> bool {
    &&& 0 <= at <= keys.len()
    &&& forall|j: int| 0 <= j < at ==> !k.le((#[trigger] keys[j]).spec_key())
    &&& forall|j: int| at <= j < keys.len() ==> !(#[trigger] keys[j]).spec_key().le(k)
}

/// The place `at` is where the key `k` is to be looked for: the value
/// there holds it, or it lies strictly on one side of that value.
pub open spec fn aimed<U: TotalOrder, T: Key<U>>(keys: Seq<T>, k: U, at: int) -> bool {
    &&& 0 <= at < keys.len()
    &&& (keys[at].spec_key() == k || strictly_at(keys, k, at) || strictly_at(keys, k, at + 1))
}

/// The walk `after` is the walk `before` without the value `gone` at
/// some place.
pub open spec fn left_out<T>(before: Seq<T>, after: Seq<T>, gone: T) -> bool {
    exists|i: int| 0 <= i < before.len() && #[trigger] before[i] == gone && after == before.remove(i)
}

/// The place of the child into which a removal descends once room is
/// made around the value at the place `pos`: the place `child_pos` where
/// that child or the one beside it can spare a value, else the place
/// `pos` of the two put together.
pub open spec fn room_at<U, T>(before: &Node<U, T>, pos: int, child_pos: int, order: nat) -> int {
    let other = if child_pos == pos {
        pos + 1
    } else {
        pos
    };
    if before.children@[child_pos].unwrap().key@.len() >= order || before.children@[other].unwrap().key@.len()
        >= order {
        child_pos
    } else {
        pos
    }
}

/// How room is made around the value at the place `pos` for a removal
/// below the child at the place `child_pos`. A child that holds at least
/// `order` values is left as it is. Else, where the child beside it
/// holds as many, that child lends it a value through the place `pos`.
/// Else the two are put together around the value at the place `pos`.
pub open spec fn made_room<U, T>(
    before: &Node<U, T>,
    after: &Node<U, T>,
    pos: int,
    child_pos: int,
    order: nat,
) -> bool {
    let other = if child_pos == pos {
        pos + 1
    } else {
        pos
    };
    if before.children@[child_pos].unwrap().key@.len() >= order {
        after.key@ == before.key@ && after.children@ == before.children@ && after.node_type
            == before.node_type
    } else if before.children@[other].unwrap().key@.len() >= order {
        if child_pos == pos {
            lent_left(
                before,
                after,
                pos,
                after.children@[pos].unwrap(),
                after.children@[pos + 1].unwrap(),
            )
        } else {
            lent_right(
                before,
                after,
                pos,
                after.children@[pos].unwrap(),
                after.children@[pos + 1].unwrap(),
            )
        }
    } else {
        merged(before, after, pos, after.children@[pos].unwrap())
    }
}

/// The node `after` is the node `before` but for the child at the place
/// `at`, out of whose walk the value `gone` has left, if there is one.
pub open spec fn taken_below<U, T>(
    before: &Node<U, T>,
    after: &Node<U, T>,
    at: int,
    gone: Option<T>,
) -> bool {
    &&& after.node_type == before.node_type
    &&& after.key@ == before.key@
    &&& after.children@.len() == before.children@.len()
    &&& forall|j: int|
        0 <= j < before.children@.len() && j != at ==> after.children@[j]
            == #[trigger] before.children@[j]
    &&& 0 <= at < before.children@.len()
    &&& before.children@[at].is_some()
    &&& after.children@[at].is_some()
    &&& match gone {
        Some(v) => left_out(
            before.children@[at].unwrap().contents(),
            after.children@[at].unwrap().contents(),
            v,
        ),
        None => after.children@[at].unwrap().contents() == before.children@[at].unwrap().contents(),
    }
}

/// The two children beside the place `pos` were put together, and the
/// value `gone` was taken out below.
pub open spec fn took_joined<U, T>(
    before: &Node<U, T>,
    after: &Node<U, T>,
    pos: int,
    gone: Option<T>,
) -> bool {
    exists|mid: Node<U, T>|
        #[trigger] merged(before, &mid, pos, mid.children@[pos].unwrap()) && taken_below(
            &mid,
            after,
            pos,
            gone,
        )
}

/// Room was made for the child at the place `child_pos` beside the
/// place `pos`, and the value `gone`, if there is one, was taken out
/// below it.
pub open spec fn took_aside<U, T>(
    before: &Node<U, T>,
    after: &Node<U, T>,
    pos: int,
    child_pos: int,
    order: nat,
    gone: Option<T>,
) -> bool {
    exists|mid: Node<U, T>|
        #[trigger] made_room(before, &mid, pos, child_pos, order) && taken_below(
            &mid,
            after,
            room_at(before, pos, child_pos, order),
            gone,
        )
}

/// What the removal of a value with the key `value` does to a node,
/// the place `pos` being where the key is looked for.
///
/// A value of a leaf with that key is taken out. A value of a regular
/// node with that key is replaced by the greatest value below the child
/// before it, if that child holds at least `order` values, else by the
/// least below the child behind it, if that one does; else the two are
/// put together around it and it is taken out below. Where the value at
/// the place does not hold the key, a leaf is left as it is, and in a
/// regular node room is made for the child on whose side the key lies,
/// and the value is taken out below it.
pub open spec fn took<U: TotalOrder, T: Key<U>>(
    before: &Node<U, T>,
    after: &Node<U, T>,
    value: U,
    pos: int,
    order: nat,
    gone: Option<T>,
) -> bool {
    let here = before.key@[pos];
    let l = before.children@[pos].unwrap();
    let r = before.children@[pos + 1].unwrap();
    if here.spec_key() == value {
        match before.node_type {
            NodeType::Leaf => gone == Some(here) && after.key@ == before.key@.remove(pos)
                && after.children@ == before.children@,
            NodeType::Regular => if l.key@.len() >= order {
                &&& gone == Some(here)
                &&& after.key@ == before.key@.update(pos, l.contents().last())
                &&& after.children@ == before.children@.update(pos, after.children@[pos])
                &&& after.children@[pos].is_some()
                &&& after.children@[pos].unwrap().contents() == l.contents().drop_last()
            } else if r.key@.len() >= order {
                &&& gone == Some(here)
                &&& after.key@ == before.key@.update(pos, r.contents()[0])
                &&& after.children@ == before.children@.update(pos + 1, after.children@[pos + 1])
                &&& after.children@[pos + 1].is_some()
                &&& after.children@[pos + 1].unwrap().contents() == r.contents().drop_first()
            } else {
                gone.is_some() && took_joined(before, after, pos, gone)
            },
        }
    } else {
        match before.node_type {
            NodeType::Leaf => gone.is_none() && after.key@ == before.key@ && after.children@
                == before.children@,
            NodeType::Regular => {
                let child_pos = if !value.le(here.spec_key()) {
                    pos + 1
                } else {
                    pos
                };
                took_aside(before, after, pos, child_pos, order, gone)
            },
        }
    }
}

/// The node is in full order for a tree of the order `order`.
pub open spec fn sound<U: TotalOrder, T: Key<U>>(node: &Node<U, T>, height: nat, order: nat) -> bool {
    &&& node.formed(height, order)
    &&& node.ordered()
    &&& node.filled(order, 0)
}

impl<U: TotalOrder, T: Key<U>> Node<U, T> {
    /// Puts the children on either side of the value at the place `pos`
    /// together into the one before it, with that value between them.
    #[verifier::rlimit(50)]
    pub(crate) fn merge_children(&mut self, pos: usize, order: &usize, Ghost(height): Ghost<nat>)
        requires
            2 <= *order <= usize::MAX / 2,
            sound(old(self), height, *order as nat),
            old(self).node_type == NodeType::Regular,
            pos < old(self).key@.len(),
            old(self).children@[pos as int].unwrap().key@.len() < *order,
            old(self).children@[pos + 1].unwrap().key@.len() < *order,
        ensures
            sound(final(self), height, *order as nat),
            final(self).bag() == old(self).bag(),
            final(self).node_type == old(self).node_type,
            final(self).key@ == old(self).key@.remove(pos as int),
            final(self).children@.len() == old(self).children@.len() - 1,
            final(self).children@[pos as int].is_some(),
            final(self).children@[pos as int].unwrap().key@ == old(self).children@[pos as int].unwrap().key@.push(
                old(self).key@[pos as int],
            ) + old(self).children@[pos + 1].unwrap().key@,
            final(self).contents() == old(self).contents(),
            merged(old(self), final(self), pos as int, final(self).children@[pos as int].unwrap()),
    {
        let ghost before = *self;
        assert(self.children@[pos as int].is_some() && self.children@[pos + 1].is_some());
        let taken = self.children.remove(pos + 1);
        let mut right = match taken {
            Some(r) => r,
            None => { return ; },
        };
        let sep = self.key.remove(pos);
        let left = self.mut_child(&pos);
        left.key.push(sep);
        left.key.append(&mut right.key);
        left.children.append(&mut right.children);
        proof {
            let joined = self.children@[pos as int].unwrap();
            assert(merged(&before, &*self, pos as int, joined));
            lemma_merged(&before, &*self, pos as int, joined, height, *order as nat);
            assert(before.children@[pos as int].unwrap().formed((height - 1) as nat, *order as nat));
            assert(before.children@[pos + 1].unwrap().formed((height - 1) as nat, *order as nat));
            lemma_merged_walk(&before, &*self, pos as int, joined);
        }
    }

    /// Lends the child behind the place `pos` the value at that place,
    /// which the last value of the child before it replaces; the last
    /// child of the one moves to the front of the other.
    #[verifier::rlimit(50)]
    pub(crate) fn borrow_from_left(&mut self, pos: usize, order: &usize, Ghost(height): Ghost<nat>)
        requires
            2 <= *order <= usize::MAX / 2,
            sound(old(self), height, *order as nat),
            old(self).node_type == NodeType::Regular,
            pos < old(self).key@.len(),
            old(self).children@[pos as int].unwrap().key@.len() >= *order,
            old(self).children@[pos + 1].unwrap().key@.len() < *order,
        ensures
            sound(final(self), height, *order as nat),
            final(self).bag() == old(self).bag(),
            final(self).node_type == old(self).node_type,
            final(self).key@.len() == old(self).key@.len(),
            final(self).key@ == old(self).key@.update(pos as int, final(self).key@[pos as int]),
            final(self).key@[pos as int].spec_key().le(old(self).key@[pos as int].spec_key()),
            final(self).children@.len() == old(self).children@.len(),
            final(self).children@[pos + 1].is_some(),
            final(self).children@[pos + 1].unwrap().key@.len() == old(self).children@[pos + 1].unwrap().key@.len()
                + 1,
            final(self).contents() == old(self).contents(),
            lent_right(
                old(self),
                final(self),
                pos as int,
                final(self).children@[pos as int].unwrap(),
                final(self).children@[pos + 1].unwrap(),
            ),
    {
        let ghost before = *self;
        assert(self.children@[pos as int].is_some() && self.children@[pos + 1].is_some());
        assert(self.children@[pos as int].unwrap().formed((height - 1) as nat, *order as nat));
        assert(self.children@[pos + 1].unwrap().formed((height - 1) as nat, *order as nat));
        let giver = self.mut_child(&pos);
        let up = match giver.key.pop() {
            Some(v) => v,
            None => { return ; },
        };
        let moved = giver.children.pop();
        self.key.push(up);
        let sep = self.key.swap_remove(pos);
        let taker = self.mut_child(&(pos + 1));
        taker.key.insert(0, sep);
        match moved {
            Some(c) => taker.children.insert(0, c),
            None => {},
        }
        proof {
            let left = self.children@[pos as int].unwrap();
            let right = self.children@[pos + 1].unwrap();
            assert(self.key@ =~= before.key@.update(pos as int, up));
            assert(left.key@ =~= before.children@[pos as int].unwrap().key@.drop_last());
            assert(self.children@ =~= before.children@.update(pos as int, Some(left)).update(
                pos + 1,
                Some(right),
            ));
            assert(lent_right(&before, &*self, pos as int, left, right));
            lemma_lent_right(&before, &*self, pos as int, left, right, height, *order as nat);
            lemma_lent_right_walk(&before, &*self, pos as int, left, right);
        }
    }

    /// Lends the child before the place `pos` the value at that place,
    /// which the first value of the child behind it replaces; the first
    /// child of the one moves to the end of the other.
    #[verifier::rlimit(50)]
    pub(crate) fn borrow_from_right(&mut self, pos: usize, order: &usize, Ghost(height): Ghost<nat>)
        requires
            2 <= *order <= usize::MAX / 2,
            sound(old(self), height, *order as nat),
            old(self).node_type == NodeType::Regular,
            pos < old(self).key@.len(),
            old(self).children@[pos + 1].unwrap().key@.len() >= *order,
            old(self).children@[pos as int].unwrap().key@.len() < *order,
        ensures
            sound(final(self), height, *order as nat),
            final(self).bag() == old(self).bag(),
            final(self).node_type == old(self).node_type,
            final(self).key@.len() == old(self).key@.len(),
            final(self).key@ == old(self).key@.update(pos as int, final(self).key@[pos as int]),
            old(self).key@[pos as int].spec_key().le(final(self).key@[pos as int].spec_key()),
            final(self).children@.len() == old(self).children@.len(),
            final(self).children@[pos as int].is_some(),
            final(self).children@[pos as int].unwrap().key@.len() == old(self).children@[pos as int].unwrap().key@.len()
                + 1,
            final(self).contents() == old(self).contents(),
            lent_left(
                old(self),
                final(self),
                pos as int,
                final(self).children@[pos as int].unwrap(),
                final(self).children@[pos + 1].unwrap(),
            ),
    {
        let ghost before = *self;
        assert(self.children@[pos as int].is_some() && self.children@[pos + 1].is_some());
        assert(self.children@[pos + 1].unwrap().formed((height - 1) as nat, *order as nat));
        assert(self.children@[pos as int].unwrap().formed((height - 1) as nat, *order as nat));
        let giver = self.mut_child(&(pos + 1));
        let up = giver.key.remove(0);
        let moved = if giver.children.len() > 0 {
            Some(giver.children.remove(0))
        } else {
            None
        };
        self.key.push(up);
        let sep = self.key.swap_remove(pos);
        let taker = self.mut_child(&pos);
        taker.key.push(sep);
        match moved {
            Some(c) => taker.children.push(c),
            None => {},
        }
        proof {
            let left = self.children@[pos as int].unwrap();
            let right = self.children@[pos + 1].unwrap();
            assert(self.key@ =~= before.key@.update(pos as int, up));
            let r = before.children@[pos + 1].unwrap();
            assert(right.key@ =~= r.key@.drop_first());
            if r.node_type == NodeType::Regular {
                assert(right.children@ =~= r.children@.drop_first());
            }
            assert(self.children@ =~= before.children@.update(pos as int, Some(left)).update(
                pos + 1,
                Some(right),
            ));
            assert(lent_left(&before, &*self, pos as int, left, right));
            lemma_lent_left(&before, &*self, pos as int, left, right, height, *order as nat);
            lemma_lent_left_walk(&before, &*self, pos as int, left, right);
        }
    }

    /// Makes sure that one of the two children on either side of the
    /// value at the place `pos` holds at least `order` values: the child
    /// at the place `child_pos`, where it or the other one has enough, in
    /// which case the other one lends it a value; else both put
    /// together. The place of that child is returned.
    #[verifier::rlimit(50)]
    pub(crate) fn fill_child(
        &mut self,
        pos: usize,
        child_pos: usize,
        order: &usize,
        Ghost(height): Ghost<nat>,
    ) -> (c: usize)
        requires
            2 <= *order <= usize::MAX / 2,
            sound(old(self), height, *order as nat),
            old(self).node_type == NodeType::Regular,
            pos < old(self).key@.len(),
            child_pos == pos || child_pos == pos + 1,
        ensures
            sound(final(self), height, *order as nat),
            final(self).bag() == old(self).bag(),
            final(self).contents() == old(self).contents(),
            final(self).node_type == old(self).node_type,
            made_room(old(self), final(self), pos as int, child_pos as int, *order as nat),
            c == room_at(old(self), pos as int, child_pos as int, *order as nat),
            c < final(self).children@.len(),
            final(self).children@[c as int].is_some(),
            final(self).children@[c as int].unwrap().key@.len() >= *order,
            final(self).key@.len() >= old(self).key@.len() - 1,
            child_pos == old(self).children@.len() - 1 ==> c == final(self).children@.len() - 1,
            child_pos == 0 ==> c == 0,
            forall|k: U|
                strictly_at(old(self).key@, k, child_pos as int) ==> #[trigger] strictly_at(
                    final(self).key@,
                    k,
                    c as int,
                ),
    {
        let ghost before = *self;
        assert(self.children@[pos as int].is_some() && self.children@[pos + 1].is_some());
        assert(match self.children@[pos as int] {
            Some(c) => c.filled(*order as nat, (*order - 1) as nat),
            None => true,
        });
        assert(match self.children@[pos + 1] {
            Some(c) => c.filled(*order as nat, (*order - 1) as nat),
            None => true,
        });
        if self.ref_child(&child_pos).at_least_order(order) {
            return child_pos;
        }
        let sibling_pos = if child_pos == pos {
            pos + 1
        } else {
            pos
        };
        if self.ref_child(&sibling_pos).at_least_order(order) {
            if child_pos > sibling_pos {
                self.borrow_from_left(pos, order, Ghost(height));
                proof {
                    let up = self.key@[pos as int].spec_key();
                    let sep = before.key@[pos as int].spec_key();
                    assert forall|k: U| strictly_at(before.key@, k, child_pos as int) implies #[trigger] strictly_at(
                        self.key@,
                        k,
                        child_pos as int,
                    ) by {
                        assert(!k.le(before.key@[pos as int].spec_key()));
                        if k.le(up) {
                            U::le_transitive(k, up, sep);
                        }
                        assert forall|j: int| 0 <= j < child_pos implies !k.le(
                            (#[trigger] self.key@[j]).spec_key(),
                        ) by {
                            if j != pos {
                                assert(self.key@[j] == before.key@[j]);
                            }
                        }
                        assert forall|j: int| child_pos <= j < self.key@.len() implies !(
                        #[trigger] self.key@[j]).spec_key().le(k) by {
                            assert(self.key@[j] == before.key@[j]);
                        }
                    }
                }
            } else {
                self.borrow_from_right(pos, order, Ghost(height));
                proof {
                    let up = self.key@[pos as int].spec_key();
                    let sep = before.key@[pos as int].spec_key();
                    assert forall|k: U| strictly_at(before.key@, k, child_pos as int) implies #[trigger] strictly_at(
                        self.key@,
                        k,
                        child_pos as int,
                    ) by {
                        assert(!before.key@[pos as int].spec_key().le(k));
                        if up.le(k) {
                            U::le_transitive(sep, up, k);
                        }
                        assert forall|j: int| 0 <= j < child_pos implies !k.le(
                            (#[trigger] self.key@[j]).spec_key(),
                        ) by {
                            assert(self.key@[j] == before.key@[j]);
                        }
                        assert forall|j: int| child_pos <= j < self.key@.len() implies !(
                        #[trigger] self.key@[j]).spec_key().le(k) by {
                            if j != pos {
                                assert(self.key@[j] == before.key@[j]);
                            }
                        }
                    }
                }
            }
            child_pos
        } else {
            self.merge_children(pos, order, Ghost(height));
            proof {
                assert forall|k: U| strictly_at(before.key@, k, child_pos as int) implies #[trigger] strictly_at(
                    self.key@,
                    k,
                    pos as int,
                ) by {
                    assert forall|j: int| 0 <= j < pos implies !k.le(
                        (#[trigger] self.key@[j]).spec_key(),
                    ) by {
                        assert(self.key@[j] == before.key@[j]);
                    }
                    assert forall|j: int| pos <= j < self.key@.len() implies !(
                    #[trigger] self.key@[j]).spec_key().le(k) by {
                        assert(self.key@[j] == before.key@[j + 1]);
                    }
                }
            }
            pos
        }
    }

    /// Takes the greatest value out of the node or from below it. Every
    /// child on the way gets enough values first, so that no node is
    /// left with less than `order - 1`.
    #[verifier::rlimit(50)]
    pub(crate) fn remove_last(&mut self, order: &usize, Ghost(height): Ghost<nat>) -> (r: T)
        requires
            2 <= *order <= usize::MAX / 2,
            sound(old(self), height, *order as nat),
            old(self).key@.len() >= *order,
        ensures
            sound(final(self), height, *order as nat),
            final(self).node_type == old(self).node_type,
            final(self).key@.len() >= old(self).key@.len() - 1,
            old(self).bag().count(r) > 0,
            final(self).bag() == old(self).bag().remove(r),
            tops(old(self).bag(), r),
            old(self).contents().len() > 0,
            r == old(self).contents().last(),
            final(self).contents() == old(self).contents().drop_last(),
        decreases height,
    {
        let ghost before = *self;
        if self.is_leaf() {
            let n = self.key.len();
            let r = self.key.remove(n - 1);
            proof {
                lemma_leaf_take(&before, &*self, n - 1, *order as nat);
                lemma_leaf_walk_remove(&before, &*self, n - 1);
            }
            r
        } else {
            let n = self.key.len();
            let c = self.fill_child(n - 1, n, order, Ghost(height));
            let ghost middle = *self;
            proof {
                assert(middle.children@[c as int].unwrap().formed(
                    (height - 1) as nat,
                    *order as nat,
                ));
                assert(match middle.children@[c as int] {
                    Some(ch) => ch.ordered() && ch.filled(*order as nat, (*order - 1) as nat),
                    None => true,
                });
            }
            let child = self.mut_child(&c);
            let r = child.remove_last(order, Ghost((height - 1) as nat));
            proof {
                let less = self.children@[c as int].unwrap();
                assert(self.key@ == middle.key@);
                lemma_child_take(&middle, &*self, c as int, less, r, height, *order as nat);
                assert(middle.children@.last() == middle.children@[c as int]);
                lemma_ends(&middle, height, *order as nat, r);
                lemma_last_walk_remove(&middle, &*self, less);
            }
            r
        }
    }

    /// Takes the least value out of the node or from below it. Every
    /// child on the way gets enough values first, so that no node is
    /// left with less than `order - 1`.
    #[verifier::rlimit(50)]
    pub(crate) fn remove_first(&mut self, order: &usize, Ghost(height): Ghost<nat>) -> (r: T)
        requires
            2 <= *order <= usize::MAX / 2,
            sound(old(self), height, *order as nat),
            old(self).key@.len() >= *order,
        ensures
            sound(final(self), height, *order as nat),
            final(self).node_type == old(self).node_type,
            final(self).key@.len() >= old(self).key@.len() - 1,
            old(self).bag().count(r) > 0,
            final(self).bag() == old(self).bag().remove(r),
            bottoms(old(self).bag(), r),
            old(self).contents().len() > 0,
            r == old(self).contents()[0],
            final(self).contents() == old(self).contents().drop_first(),
        decreases height,
    {
        let ghost before = *self;
        if self.is_leaf() {
            let r = self.key.remove(0);
            proof {
                lemma_leaf_take(&before, &*self, 0, *order as nat);
                lemma_leaf_walk_remove(&before, &*self, 0);
            }
            r
        } else {
            let c = self.fill_child(0, 0, order, Ghost(height));
            let ghost middle = *self;
            proof {
                assert(middle.children@[c as int].unwrap().formed(
                    (height - 1) as nat,
                    *order as nat,
                ));
                assert(match middle.children@[c as int] {
                    Some(ch) => ch.ordered() && ch.filled(*order as nat, (*order - 1) as nat),
                    None => true,
                });
            }
            let child = self.mut_child(&c);
            let r = child.remove_first(order, Ghost((height - 1) as nat));
            proof {
                let less = self.children@[c as int].unwrap();
                assert(self.key@ == middle.key@);
                lemma_child_take(&middle, &*self, c as int, less, r, height, *order as nat);
                lemma_ends(&middle, height, *order as nat, r);
                lemma_first_walk_remove(&middle, &*self, less);
            }
            r
        }
    }

    /// Takes a value from one end of the node, the greatest where `last`
    /// and else the least, if the node can spare one: if it holds at
    /// least `order` values.
    pub(crate) fn remove_from(
        &mut self,
        last: bool,
        order: &usize,
        Ghost(height): Ghost<nat>,
    ) -> (r: Option<T>)
        requires
            2 <= *order <= usize::MAX / 2,
            sound(old(self), height, *order as nat),
        ensures
            sound(final(self), height, *order as nat),
            final(self).node_type == old(self).node_type,
            match r {
                Some(v) => {
                    &&& old(self).key@.len() >= *order
                    &&& final(self).key@.len() >= old(self).key@.len() - 1
                    &&& old(self).bag().count(v) > 0
                    &&& final(self).bag() == old(self).bag().remove(v)
                    &&& (last ==> tops(old(self).bag(), v))
                    &&& (!last ==> bottoms(old(self).bag(), v))
                    &&& old(self).contents().len() > 0
                    &&& (last ==> v == old(self).contents().last() && final(self).contents()
                        == old(self).contents().drop_last())
                    &&& (!last ==> v == old(self).contents()[0] && final(self).contents()
                        == old(self).contents().drop_first())
                },
                None => *final(self) == *old(self) && old(self).key@.len() < *order,
            },
    {
        if self.at_least_order(order) {
            if last {
                Some(self.remove_last(order, Ghost(height)))
            } else {
                Some(self.remove_first(order, Ghost(height)))
            }
        } else {
            None
        }
    }

    /// Replaces the value at the place `pos` by a neighbour from below
    /// and hands the replaced value out: by the greatest value below the
    /// child before it, or else by the least below the child behind it,
    /// whichever child can spare a value. Where neither can, nothing
    /// changes.
    #[verifier::rlimit(50)]
    pub(crate) fn remove_child_key(
        &mut self,
        pos: &usize,
        order: &usize,
        Ghost(height): Ghost<nat>,
    ) -> (r: Option<T>)
        requires
            2 <= *order <= usize::MAX / 2,
            sound(old(self), height, *order as nat),
            old(self).node_type == NodeType::Regular,
            *pos < old(self).key@.len(),
        ensures
            sound(final(self), height, *order as nat),
            final(self).node_type == old(self).node_type,
            final(self).key@.len() == old(self).key@.len(),
            match r {
                Some(v) => {
                    &&& v == old(self).key@[*pos as int]
                    &&& old(self).bag().count(v) > 0
                    &&& final(self).bag() == old(self).bag().remove(v)
                    &&& left_out(old(self).contents(), final(self).contents(), v)
                    &&& took(old(self), final(self), v.spec_key(), *pos as int, *order as nat, r)
                },
                None => {
                    &&& final(self).key@ == old(self).key@
                    &&& final(self).children@ == old(self).children@
                    &&& final(self).contents() == old(self).contents()
                    &&& old(self).children@[*pos as int].unwrap().key@.len() < *order
                    &&& old(self).children@[*pos + 1].unwrap().key@.len() < *order
                },
            },
    {
        let ghost before = *self;
        let at = *pos;
        proof {
            assert(before.children@[at as int].is_some() && before.children@[at + 1].is_some());
            assert(before.children@[at as int].unwrap().formed((height - 1) as nat, *order as nat));
            assert(before.children@[at + 1].unwrap().formed((height - 1) as nat, *order as nat));
            assert(match before.children@[at as int] {
                Some(ch) => ch.ordered() && ch.filled(*order as nat, (*order - 1) as nat),
                None => true,
            });
            assert(match before.children@[at + 1] {
                Some(ch) => ch.ordered() && ch.filled(*order as nat, (*order - 1) as nat),
                None => true,
            });
        }
        let child = self.mut_child(&at);
        let from_left = child.remove_from(true, order, Ghost((height - 1) as nat));
        match from_left {
            Some(up) => {
                let ghost less = self.children@[at as int].unwrap();
                self.key.push(up);
                let gone = self.key.swap_remove(at);
                proof {
                    assert(self.key@ =~= before.key@.update(at as int, up));
                    lemma_key_from_left(
                        &before,
                        &*self,
                        at as int,
                        less,
                        up,
                        height,
                        *order as nat,
                    );
                    lemma_key_from_left_walk(&before, &*self, at as int, less, up);
                    let place = (head(&before, at as nat).len() + before.children@[at as int].unwrap().contents().len()) as int;
                    assert(before.contents()[place] == gone && self.contents()
                        == before.contents().remove(place));
                    assert(self.children@ =~= before.children@.update(
                        at as int,
                        self.children@[at as int],
                    ));
                    assert(took(
                        &before,
                        &*self,
                        gone.spec_key(),
                        at as int,
                        *order as nat,
                        Some(gone),
                    ));
                }
                return Some(gone);
            },
            None => {},
        }
        assert(self.children@ =~= before.children@);
        let child = self.mut_child(&(at + 1));
        let from_right = child.remove_from(false, order, Ghost((height - 1) as nat));
        match from_right {
            Some(up) => {
                let ghost less = self.children@[at + 1].unwrap();
                self.key.push(up);
                let gone = self.key.swap_remove(at);
                proof {
                    assert(self.key@ =~= before.key@.update(at as int, up));
                    lemma_key_from_right(
                        &before,
                        &*self,
                        at as int,
                        less,
                        up,
                        height,
                        *order as nat,
                    );
                    lemma_key_from_right_walk(&before, &*self, at as int, less, up);
                    let place = (head(&before, at as nat).len() + before.children@[at as int].unwrap().contents().len()) as int;
                    assert(before.contents()[place] == gone && self.contents()
                        == before.contents().remove(place));
                    assert(self.children@ =~= before.children@.update(
                        at + 1,
                        self.children@[at + 1],
                    ));
                    assert(took(
                        &before,
                        &*self,
                        gone.spec_key(),
                        at as int,
                        *order as nat,
                        Some(gone),
                    ));
                }
                Some(gone)
            },
            None => {
                assert(self.children@ =~= before.children@);
                proof {
                    super::walks::lemma_walked_alike(&before, &*self, 0, 0);
                }
                None
            },
        }
    }

    /// Takes a value with the key `value` out of the node or from below
    /// it, if one is there, and hands it out.
    pub(crate) fn delete(&mut self, value: &U, order: &usize, Ghost(height): Ghost<nat>) -> (r:
        Option<T>)
        requires
            2 <= *order <= usize::MAX / 2,
            sound(old(self), height, *order as nat),
            old(self).key@.len() >= 1,
        ensures
            exists|pos: int|
                #[trigger] aimed(old(self).key@, *value, pos) && took(
                    old(self),
                    final(self),
                    *value,
                    pos,
                    *order as nat,
                    r,
                ),
            sound(final(self), height, *order as nat),
            final(self).node_type == old(self).node_type,
            final(self).key@.len() >= old(self).key@.len() - 1,
            match r {
                Some(v) => {
                    &&& v.spec_key() == *value
                    &&& old(self).bag().count(v) > 0
                    &&& final(self).bag() == old(self).bag().remove(v)
                    &&& left_out(old(self).contents(), final(self).contents(), v)
                },
                None => {
                    &&& final(self).bag() == old(self).bag()
                    &&& final(self).contents() == old(self).contents()
                    &&& forall|e: T|
                        old(self).bag().count(e) > 0 ==> #[trigger] e.spec_key() != *value
                },
            },
        decreases height, 3nat,
    {
        let found = Self::key_position(self.key.as_slice(), value, true);
        let key_pos = match found {
            Some(i) => i,
            None => 0,
        };
        proof {
            let ks = self.key@;
            match found {
                Some(i) => {
                    if ks[i as int].spec_key() != *value {
                        assert forall|j: int| 0 <= j < i + 1 implies !value.le(
                            (#[trigger] ks[j]).spec_key(),
                        ) by {
                            assert(ks[j].spec_key().le(ks[i as int].spec_key()));
                            if value.le(ks[j].spec_key()) {
                                U::le_transitive(*value, ks[j].spec_key(), ks[i as int].spec_key());
                                U::le_antisymmetric(*value, ks[i as int].spec_key());
                            }
                        }
                        assert(strictly_at(ks, *value, i + 1));
                    }
                },
                None => {
                    assert(strictly_at(ks, *value, 0));
                },
            }
        }
        let ghost before = *self;
        let r = self.delete_subtree(value, &key_pos, order, Ghost(height));
        proof {
            assert(aimed(before.key@, *value, key_pos as int) && took(
                &before,
                &*self,
                *value,
                key_pos as int,
                *order as nat,
                r,
            ));
        }
        r
    }

    /// Puts the two children beside the value at the place `pos`, which
    /// holds the key `value`, together around it, neither of them being
    /// able to spare a value, and takes the value out below.
    #[verifier::rlimit(50)]
    pub(crate) fn delete_joined(
        &mut self,
        value: &U,
        pos: &usize,
        order: &usize,
        Ghost(height): Ghost<nat>,
    ) -> (r: Option<T>)
        requires
            2 <= *order <= usize::MAX / 2,
            sound(old(self), height, *order as nat),
            old(self).node_type == NodeType::Regular,
            *pos < old(self).key@.len(),
            old(self).key@[*pos as int].spec_key() == *value,
            old(self).children@[*pos as int].unwrap().key@.len() < *order,
            old(self).children@[*pos + 1].unwrap().key@.len() < *order,
        ensures
            took(old(self), final(self), *value, *pos as int, *order as nat, r),
            sound(final(self), height, *order as nat),
            final(self).node_type == old(self).node_type,
            final(self).key@.len() >= old(self).key@.len() - 1,
            match r {
                Some(v) => {
                    &&& v.spec_key() == *value
                    &&& old(self).bag().count(v) > 0
                    &&& final(self).bag() == old(self).bag().remove(v)
                    &&& left_out(old(self).contents(), final(self).contents(), v)
                },
                None => {
                    &&& final(self).bag() == old(self).bag()
                    &&& final(self).contents() == old(self).contents()
                    &&& forall|e: T|
                        old(self).bag().count(e) > 0 ==> #[trigger] e.spec_key() != *value
                },
            },
        decreases height, 1nat,
    {
        let ghost before = *self;
        let at = *pos;
            let ghost same = *self;
            proof {
                assert(same.children@[at as int].is_some());
                assert(match same.children@[at as int] {
                    Some(ch) => ch.filled(*order as nat, (*order - 1) as nat),
                    None => true,
                });
                assert(same.bag() == before.bag());
            }
            let key_pos = self.ref_child(&at).key_len();
            self.merge_children(at, order, Ghost(height));
            let ghost middle = *self;
            proof {
                assert(middle.children@[at as int].unwrap().formed(
                    (height - 1) as nat,
                    *order as nat,
                ));
                assert(match middle.children@[at as int] {
                    Some(ch) => ch.ordered() && ch.filled(
                        *order as nat,
                        (*order - 1) as nat,
                    ),
                    None => true,
                });
                let joined = middle.children@[at as int].unwrap();
                assert(joined.key@[key_pos as int] == same.key@[at as int]);
            }
            let child = self.mut_child(&at);
            let r = child.delete_subtree(
                value,
                &key_pos,
                order,
                Ghost((height - 1) as nat),
            );
            proof {
                let less = self.children@[at as int].unwrap();
                let joined = middle.children@[at as int].unwrap();
                lemma_key_in_bag(&*joined, key_pos as int);
                if r.is_some() {
                    lemma_child_take(
                        &middle,
                        &*self,
                        at as int,
                        less,
                        r.unwrap(),
                        height,
                        *order as nat,
                    );
                    lemma_left_out(&middle, &*self, at as int, less, r.unwrap());
                    assert(taken_below(&middle, &*self, at as int, r));
                    assert(merged(
                        &before,
                        &middle,
                        at as int,
                        middle.children@[at as int].unwrap(),
                    ));
                    assert(took(&before, &*self, *value, at as int, *order as nat, r));
                }
            }
            r
    }

    /// Takes a value with the key `value` out below the child on whose
    /// side of the value at the place `pos` the key lies, that value not
    /// holding it. The child gets enough values first.
    #[verifier::rlimit(50)]
    pub(crate) fn delete_aside(
        &mut self,
        value: &U,
        pos: &usize,
        order: &usize,
        Ghost(height): Ghost<nat>,
    ) -> (r: Option<T>)
        requires
            2 <= *order <= usize::MAX / 2,
            sound(old(self), height, *order as nat),
            old(self).node_type == NodeType::Regular,
            *pos < old(self).key@.len(),
            old(self).key@[*pos as int].spec_key() != *value,
            aimed(old(self).key@, *value, *pos as int),
        ensures
            took(old(self), final(self), *value, *pos as int, *order as nat, r),
            sound(final(self), height, *order as nat),
            final(self).node_type == old(self).node_type,
            final(self).key@.len() >= old(self).key@.len() - 1,
            match r {
                Some(v) => {
                    &&& v.spec_key() == *value
                    &&& old(self).bag().count(v) > 0
                    &&& final(self).bag() == old(self).bag().remove(v)
                    &&& left_out(old(self).contents(), final(self).contents(), v)
                },
                None => {
                    &&& final(self).bag() == old(self).bag()
                    &&& final(self).contents() == old(self).contents()
                    &&& forall|e: T|
                        old(self).bag().count(e) > 0 ==> #[trigger] e.spec_key() != *value
                },
            },
        decreases height, 1nat,
    {
        let ghost before = *self;
        let at = *pos;
        let child_pos = if self.key[at].key().less(value) {
            at + 1
        } else {
            at
        };
        proof {
            U::le_reflexive(*value);
            U::le_total(*value, before.key@[at as int].spec_key());
            assert(strictly_at(before.key@, *value, child_pos as int));
        }
        let c = self.fill_child(at, child_pos, order, Ghost(height));
        let ghost middle = *self;
        proof {
            assert(strictly_at(middle.key@, *value, c as int));
            assert(middle.children@[c as int].unwrap().formed(
                (height - 1) as nat,
                *order as nat,
            ));
            assert(match middle.children@[c as int] {
                Some(ch) => ch.ordered() && ch.filled(*order as nat, (*order - 1) as nat),
                None => true,
            });
        }
        let child = self.mut_child(&c);
        let r = child.delete(value, order, Ghost((height - 1) as nat));
        proof {
            let less = self.children@[c as int].unwrap();
            if r.is_some() {
                lemma_child_take(
                    &middle,
                    &*self,
                    c as int,
                    less,
                    r.unwrap(),
                    height,
                    *order as nat,
                );
                lemma_left_out(&middle, &*self, c as int, less, r.unwrap());
            } else {
                lemma_untouched(&middle, &*self, c as int, less, *value, height, *order as nat);
                super::walks::lemma_same_child_walk(&middle, &*self, c as int, less);
            }
            assert(taken_below(&middle, &*self, c as int, r));
            assert(made_room(&before, &middle, at as int, child_pos as int, *order as nat));
            assert(took(&before, &*self, *value, at as int, *order as nat, r));
        }
        r
    }

    /// Takes a value with the key `value` out of the node or from below
    /// it, the place `pos` being where the key is to be looked for. A
    /// value of a leaf is simply taken out. A value of a regular node is
    /// replaced by a neighbour from below; where neither child beside it
    /// can spare one, the two are put together around it and it is taken
    /// out below. On the way down every child gets enough values first.
    #[verifier::rlimit(50)]
    pub(crate) fn delete_subtree(
        &mut self,
        value: &U,
        pos: &usize,
        order: &usize,
        Ghost(height): Ghost<nat>,
    ) -> (r: Option<T>)
        requires
            2 <= *order <= usize::MAX / 2,
            sound(old(self), height, *order as nat),
            aimed(old(self).key@, *value, *pos as int),
        ensures
            took(old(self), final(self), *value, *pos as int, *order as nat, r),
            sound(final(self), height, *order as nat),
            final(self).node_type == old(self).node_type,
            final(self).key@.len() >= old(self).key@.len() - 1,
            match r {
                Some(v) => {
                    &&& v.spec_key() == *value
                    &&& old(self).bag().count(v) > 0
                    &&& final(self).bag() == old(self).bag().remove(v)
                    &&& left_out(old(self).contents(), final(self).contents(), v)
                },
                None => {
                    &&& final(self).bag() == old(self).bag()
                    &&& final(self).contents() == old(self).contents()
                    &&& forall|e: T|
                        old(self).bag().count(e) > 0 ==> #[trigger] e.spec_key() != *value
                },
            },
        decreases height, 2nat,
    {
        let ghost before = *self;
        let at = *pos;
        if self.key_is_equal(&at, value) {
            if self.is_leaf() {
                let r = self.key.remove(at);
                proof {
                    lemma_leaf_take(&before, &*self, at as int, *order as nat);
                    lemma_leaf_walk_remove(&before, &*self, at as int);
                    assert(before.contents()[at as int] == r && self.contents()
                        == before.contents().remove(at as int));
                    assert(took(&before, &*self, *value, at as int, *order as nat, Some(r)));
                }
                Some(r)
            } else {
                match self.remove_child_key(&at, order, Ghost(height)) {
                    Some(v) => Some(v),
                    None => {
                        proof {
                            super::walks::lemma_walked_alike(&before, &*self, 0, 0);
                            super::walks::lemma_walked_alike(&*self, &before, 0, 0);
                        }
                        let ghost same = *self;
                        let r = self.delete_joined(value, pos, order, Ghost(height));
                        proof {
                            lemma_same_views(&before, &same, &*self, *value, at as int, *order as nat, r);
                        }
                        r
                    },
                }
            }
        } else if self.is_leaf() {
            proof {
                assert forall|e: T| before.bag().count(e) > 0 implies #[trigger] e.spec_key()
                    != *value by {
                    lemma_bag_parts(&before, e);
                    let i = choose|i: int| 0 <= i < before.key@.len() && #[trigger] before.key@[i] == e;
                    U::le_reflexive(*value);
                    if e.spec_key() == *value {
                        assert(!value.le(before.key@[i].spec_key()) || !before.key@[i].spec_key().le(
                            *value,
                        ));
                    }
                }
            }
            None
        } else {
            self.delete_aside(value, pos, order, Ghost(height))
        }
    }
}

/// What is said of a removal from a node holds of every node with the
/// same values and children.
pub proof fn lemma_same_views<U: TotalOrder, T: Key<U>>(
    a: &Node<U, T>,
    b: &Node<U, T>,
    after: &Node<U, T>,
    value: U,
    pos: int,
    order: nat,
    gone: Option<T>,
)
    requires
        a.key@ == b.key@,
        a.children@ == b.children@,
        a.node_type == b.node_type,
        took(b, after, value, pos, order, gone),
    ensures
        took(a, after, value, pos, order, gone),
{
    if a.key@[pos].spec_key() == value {
        if a.node_type == NodeType::Regular && a.children@[pos].unwrap().key@.len() < order
            && a.children@[pos + 1].unwrap().key@.len() < order {
            assert(took_joined(b, after, pos, gone));
            let mid = choose|mid: Node<U, T>|
                #[trigger] merged(b, &mid, pos, mid.children@[pos].unwrap()) && taken_below(
                    &mid,
                    after,
                    pos,
                    gone,
                );
            assert(merged(a, &mid, pos, mid.children@[pos].unwrap()));
            assert(took_joined(a, after, pos, gone));
        }
    } else if a.node_type == NodeType::Regular {
        let child_pos = if !value.le(a.key@[pos].spec_key()) {
            pos + 1
        } else {
            pos
        };
        assert(took_aside(b, after, pos, child_pos, order, gone));
        let mid = choose|mid: Node<U, T>|
            #[trigger] made_room(b, &mid, pos, child_pos, order) && taken_below(
                &mid,
                after,
                room_at(b, pos, child_pos, order),
                gone,
            );
        assert(made_room(a, &mid, pos, child_pos, order));
        assert(room_at(a, pos, child_pos, order) == room_at(b, pos, child_pos, order));
        assert(took_aside(a, after, pos, child_pos, order, gone));
    }
}

/// A value that left the walk of a child has left the walk of the node.
pub proof fn lemma_left_out<U, T>(
    before: &Node<U, T>,
    after: &Node<U, T>,
    at: int,
    less: Tree<U, T>,
    gone: T,
)
    requires
        0 <= at < before.children@.len(),
        at <= before.key@.len(),
        before.children@[at].is_some(),
        after.key@ == before.key@,
        after.children@ == before.children@.update(at, Some(less)),
        left_out(before.children@[at].unwrap().contents(), less.contents(), gone),
    ensures
        left_out(before.contents(), after.contents(), gone),
{
    let small = before.children@[at].unwrap().contents();
    let i = choose|i: int| 0 <= i < small.len() && #[trigger] small[i] == gone && less.contents()
        == small.remove(i);
    lemma_child_walk_remove(before, after, at, less, i);
    let place = head(before, at as nat).len() + i;
    assert(before.contents()[place] == gone && after.contents() == before.contents().remove(place));
}

/// A search that found nothing below the child where the key would have
/// to be has shown that the node does not hold the key.
pub proof fn lemma_untouched<U: TotalOrder, T: Key<U>>(
    before: &Node<U, T>,
    after: &Node<U, T>,
    at: int,
    same: Tree<U, T>,
    value: U,
    height: nat,
    order: nat,
)
    requires
        sound(before, height, order),
        before.node_type == NodeType::Regular,
        0 <= at < before.children@.len(),
        strictly_at(before.key@, value, at),
        after.node_type == before.node_type,
        after.key@ == before.key@,
        after.children@ == before.children@.update(at, Some(same)),
        same.bag() == before.children@[at].unwrap().bag(),
        sound(&*same, (height - 1) as nat, order),
        same.key@.len() >= order - 1,
        forall|e: T| same.bag().count(e) > 0 ==> #[trigger] e.spec_key() != value,
    ensures
        sound(after, height, order),
        after.bag() == before.bag(),
        forall|e: T| before.bag().count(e) > 0 ==> #[trigger] e.spec_key() != value,
{
    assert(after.child_bags() =~= before.child_bags());
    assert forall|j: int| 0 <= j < after.children@.len() implies (
    #[trigger] after.children@[j]).is_some() && after.children@[j].unwrap().formed(
        (height - 1) as nat,
        order,
    ) && after.children@[j].unwrap().filled(order, (order - 1) as nat) && after.children@[j].unwrap().ordered()
        && within(after.children@[j].unwrap().bag(), after.key_before(j), after.key_behind(j)) by {
        assert(match before.children@[j] {
            Some(c) => c.ordered() && within(c.bag(), before.key_before(j), before.key_behind(j))
                && c.filled(order, (order - 1) as nat),
            None => true,
        });
        if j != at {
            assert(after.children@[j] == before.children@[j]);
        }
    }
    assert forall|e: T| before.bag().count(e) > 0 implies #[trigger] e.spec_key() != value by {
        if e.spec_key() == value {
            U::le_reflexive(value);
            lemma_bag_parts(before, e);
            if exists|i: int| 0 <= i < before.key@.len() && #[trigger] before.key@[i] == e {
                let i = choose|i: int| 0 <= i < before.key@.len() && #[trigger] before.key@[i] == e;
                assert(!value.le(before.key@[i].spec_key()) || !before.key@[i].spec_key().le(value));
            } else {
                let j = choose|j: int|
                    0 <= j < before.children@.len() && (#[trigger] bag_of(
                        before.children@[j],
                    )).count(e) > 0;
                let c = before.children@[j].unwrap();
                assert(match before.children@[j] {
                    Some(c) => within(c.bag(), before.key_before(j), before.key_behind(j)),
                    None => true,
                });
                if j < at {
                    assert(!value.le(before.key@[j].spec_key()));
                } else if j > at {
                    assert(!before.key@[j - 1].spec_key().le(value));
                }
            }
        }
    }
}

} // verus!
