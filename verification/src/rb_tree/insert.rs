use vstd::prelude::*;
use vstd::seq_lib::to_multiset_insert;
use crate::node::{Color, NodeView, Operations};
use crate::order::{lemma_placed_at, placed, sorted, TotalOrder};
use crate::repo::{parent_of, Repository};
use super::grow::{grown, lemma_grow, lemma_insert_sorted, place_under, spread};
use super::inv::{heights, inv, keys_of, links_ok, red_ok, reds, root_black, shape, Labels, Store};
use super::mend::{
    climbing,
    lemma_grandparent,
    lemma_inner,
    lemma_outer,
    lemma_push_up,
    lemma_shape_frame,
    leveled,
    painted,
    pushed,
    pushed_labels,
};
use super::query::{insert_way, next_on_way};
use super::rotate::child_of;
use super::shrink::side_of;
use super::steps::{blackened, lifting, mend_next, mend_root, mend_step, mended, to_mend};
use super::{Child, NodeColor, RedBlackTree};

verus! {

/// The other child of the parent of the parent of `node`.
pub open spec fn uncle_of<T>(m: Store<T>, node: u32) -> Option<u32> {
    match parent_of(m, node) {
        Some(p) => match parent_of(m, p) {
            Some(g) => if m[g].left == Some(p) {
                m[g].right
            } else {
                m[g].left
            },
            None => None,
        },
        None => None,
    }
}

/// The side of `p` on which the key `value` descends: left where it is
/// strictly less than the key of `p`, else right.
pub open spec fn side_for<T: TotalOrder>(m: Store<T>, p: u32, value: T) -> Child {
    if !m[p].key.le(value) {
        Child::Left
    } else {
        Child::Right
    }
}

/// The store once the fresh red record `id` with the key `value` is in
/// it: under the node `p` on the side on which the key descends, or
/// alone where there is no node to hang it under.
pub open spec fn attached<T: TotalOrder>(m: Store<T>, id: u32, value: T, p: Option<u32>) -> Store<
    T,
> {
    match p {
        Some(p) => grown(m, p, side_for(m, p, value), id, value),
        None => m.insert(id, NodeView::fresh(id, value)),
    }
}

/// The place `at` of the sorted `keys` is behind every key that is not
/// greater than `value` and before every key that is.
pub open spec fn place_in<T: TotalOrder>(keys: Seq<T>, value: T, at: int) -> bool {
    &&& 0 <= at <= keys.len()
    &&& forall|j: int| 0 <= j < at ==> (#[trigger] keys[j]).le(value)
    &&& forall|j: int| at <= j < keys.len() ==> !(#[trigger] keys[j]).le(value)
}

/// The span of the climbing node, as far as it still has to climb.
pub open spec fn climb_left<T>(m: Store<T>, lab: Labels, ord: Seq<u32>, cur: u32) -> int {
    if m[cur].color == Color::Red {
        ord.len() - (lab(cur).hi - lab(cur).lo) + 1
    } else {
        0
    }
}

/// Once the climbing node is black, or has no red parent, no red node has
/// a red child.
pub proof fn lemma_climb_done<T>(
    m: Store<T>,
    lab: Labels,
    ord: Seq<u32>,
    root: Option<u32>,
    cur: u32,
)
    requires
        climbing(m, lab, ord, root, cur),
        m[cur].color == Color::Black || m[cur].parent.is_none() || m[m[cur].parent.unwrap()].color
            == Color::Black,
    ensures
        reds(m, None),
{
    assert forall|n: u32| m.contains_key(n) implies #[trigger] red_ok(m, n, None) by {
        assert(red_ok(m, n, Some(cur)));
        assert(links_ok(m, lab, ord, root, n));
    }
}

/// Painting the root black restores the last of the balance rules.
pub proof fn lemma_blacken_root<T>(
    m: Store<T>,
    lab: Labels,
    ord: Seq<u32>,
    root: Option<u32>,
)
    requires
        shape(m, lab, ord, root),
        heights(m, lab),
        reds(m, None),
        root.is_some(),
    ensures
        ({
            let r = root.unwrap();
            let m2 = painted(m, r, Color::Black);
            let lab2 = leveled(lab, r, bhc_left(m, lab, r) + 1);
            &&& shape(m2, lab2, ord, root)
            &&& heights(m2, lab2)
            &&& reds(m2, None)
            &&& root_black(m2, root)
            &&& keys_of(m2, ord) == keys_of(m, ord)
        }),
{
    let r = root.unwrap();
    let m2 = painted(m, r, Color::Black);
    let lab2 = leveled(lab, r, bhc_left(m, lab, r) + 1);
    assert(m2.dom() =~= m.dom());
    lemma_shape_frame(m, lab, m2, lab2, ord, root);
    assert(links_ok(m, lab, ord, root, r));
    assert forall|n: u32| m2.contains_key(n) implies #[trigger] super::inv::height_ok(
        m2,
        lab2,
        n,
    ) by {
        assert(super::inv::height_ok(m, lab, n));
        assert(links_ok(m, lab, ord, root, n));
    }
    assert forall|n: u32| m2.contains_key(n) implies #[trigger] red_ok(m2, n, None) by {
        assert(red_ok(m, n, None));
        assert(links_ok(m, lab, ord, root, n));
    }
}

/// Any node may stand for the climbing node of a tree in full order.
pub proof fn lemma_climb_any<T>(m: Store<T>, lab: Labels, ord: Seq<u32>, root: Option<u32>, n: u32)
    requires
        shape(m, lab, ord, root),
        heights(m, lab),
        reds(m, None),
        root_black(m, root),
        m.contains_key(n),
    ensures
        climbing(m, lab, ord, root, n),
{
    assert forall|k: u32| m.contains_key(k) implies #[trigger] red_ok(m, k, Some(n)) by {
        assert(red_ok(m, k, None));
    }
}

/// The first node of a tree: a red root alone in the store.
pub proof fn lemma_first_node<T>(m: Store<T>, lab: Labels, ord: Seq<u32>, id: u32, key: T)
    requires
        shape(m, lab, ord, None),
    ensures
        ({
            let m2 = m.insert(id, NodeView::fresh(id, key));
            let lab2 = spread(lab, 0, Child::Left, id);
            let ord2 = ord.insert(0, id);
            &&& ord.len() == 0
            &&& m.dom() == Set::<u32>::empty()
            &&& climbing(m2, lab2, ord2, Some(id), id)
            &&& keys_of(m2, ord2) == keys_of(m, ord).insert(0, key)
        }),
{
    let m2 = m.insert(id, NodeView::fresh(id, key));
    let lab2 = spread(lab, 0, Child::Left, id);
    let ord2 = ord.insert(0, id);
    assert forall|n: u32| !m.contains_key(n) by {
        if m.contains_key(n) {
            assert(links_ok(m, lab, ord, None, n));
        }
    }
    assert(m.dom() =~= Set::<u32>::empty());
    assert(links_ok(m2, lab2, ord2, Some(id), id));
    assert(super::inv::height_ok(m2, lab2, id));
    assert(red_ok(m2, id, Some(id)));
    assert(keys_of(m2, ord2) =~= keys_of(m, ord).insert(0, key));
}

pub open spec fn bhc_left<T>(m: Store<T>, lab: Labels, n: u32) -> nat {
    super::inv::bhc(lab, m[n].left)
}

impl<R: Repository<T>, T: TotalOrder> RedBlackTree<R, T> {
    /// The next identifier. Identifiers are never handed out twice.
    pub(super) fn get_id(&mut self) -> (id: u32)
        requires
            old(self).id_counter < u32::MAX,
        ensures
            id == old(self).id_counter + 1,
            final(self).id_counter == id,
            final(self).root == old(self).root,
            final(self).length == old(self).length,
            final(self).order == old(self).order,
            final(self).labels == old(self).labels,
    {
        self.id_counter += 1;
        self.id_counter
    }

    pub(super) fn inc_len(&mut self)
        requires
            old(self).length < usize::MAX,
        ensures
            final(self).length == old(self).length + 1,
            final(self).id_counter == old(self).id_counter,
            final(self).root == old(self).root,
            final(self).order == old(self).order,
            final(self).labels == old(self).labels,
    {
        self.length += 1;
    }

    pub(super) fn dec_len(&mut self)
        requires
            old(self).length > 0,
        ensures
            final(self).length == old(self).length - 1,
            final(self).id_counter == old(self).id_counter,
            final(self).root == old(self).root,
            final(self).order == old(self).order,
            final(self).labels == old(self).labels,
    {
        self.length -= 1;
    }

    /// The node under which a new key hangs: the last node on the way
    /// down from the root, going left where the key is strictly less.
    pub(super) fn find_parent(&self, repo: &R, current: &Option<u32>, value: &T) -> (r: Option<u32>)
        requires
            self.wf(repo),
            *current == self.root,
        ensures
            match r {
                None => self.root.is_none(),
                Some(p) => {
                    let m = repo.view();
                    let ks = keys_of(m, self.order@);
                    let s = side_for(m, p, *value);
                    let at = place_under(self.labels@, p, s);
                    &&& m.contains_key(p)
                    &&& child_of(m[p], s).is_none()
                    &&& exists|way: Seq<u32>|
                        #[trigger] insert_way(m, self.root, *value, way) && way.last() == p
                    &&& 0 <= at <= ks.len()
                    &&& forall|j: int| 0 <= j < at ==> (#[trigger] ks[j]).le(*value)
                    &&& forall|j: int| at <= j < ks.len() ==> !(#[trigger] ks[j]).le(*value)
                },
            },
    {
        let ghost m = repo.view();
        let ghost lab = self.labels@;
        let ghost ord = self.order@;
        let ghost ks = keys_of(m, ord);
        let ghost mut a: int = 0;
        let ghost mut b: int = ord.len() as int;
        let mut current = *current;
        let mut parent: Option<u32> = None;
        let ghost mut way: Seq<u32> = Seq::empty();
        while current.is_some()
            invariant
                self.wf(repo),
                forall|i: int| 0 <= i < way.len() ==> m.contains_key(#[trigger] way[i]),
                forall|i: int|
                    0 <= i < way.len() - 1 ==> next_on_way(m, *value, #[trigger] way[i]) == Some(
                        way[i + 1],
                    ),
                way.len() == 0 ==> parent.is_none(),
                way.len() > 0 ==> self.root == Some(way[0]) && parent == Some(way.last())
                    && next_on_way(m, *value, way.last()) == current,
                m == repo.view(),
                lab == self.labels@,
                ord == self.order@,
                ks == keys_of(m, ord),
                0 <= a <= b <= ord.len(),
                forall|j: int| 0 <= j < a ==> (#[trigger] ks[j]).le(*value),
                forall|j: int| b <= j < ord.len() ==> !(#[trigger] ks[j]).le(*value),
                match current {
                    Some(c) => m.contains_key(c) && lab(c).lo == a && lab(c).hi == b,
                    None => a == b,
                },
                match parent {
                    Some(p) => {
                        &&& m.contains_key(p)
                        &&& current == child_of(m[p], side_for(m, p, *value))
                        &&& (current.is_none() ==> a == place_under(lab, p, side_for(m, p, *value)))
                    },
                    None => current == self.root,
                },
            decreases b - a,
        {
            let node_id = current.unwrap();
            assert(links_ok(m, lab, ord, self.root, node_id));
            let node = match repo.get(&node_id) {
                Some(n) => n,
                None => { return None; },
            };
            let ghost i = lab(node_id).idx;
            assert(ks[i] == m[node_id].key);
            parent = Some(node_id);
            proof {
                way = way.push(node_id);
            }
            let key = node.key();
            if value.less(&key) {
                proof {
                    assert forall|j: int| i <= j < ord.len() implies !(#[trigger] ks[j]).le(
                        *value,
                    ) by {
                        assert(ks[i].le(ks[j]));
                        if ks[j].le(*value) {
                            T::le_transitive(ks[i], ks[j], *value);
                        }
                    }
                    b = i;
                }
                current = node.left_child();
            } else {
                proof {
                    assert forall|j: int| 0 <= j < i + 1 implies (#[trigger] ks[j]).le(*value) by {
                        assert(ks[j].le(ks[i]));
                        T::le_transitive(ks[j], ks[i], *value);
                    }
                    a = i + 1;
                }
                current = node.right_child();
            }
        }
        proof {
            if parent.is_some() {
                assert(insert_way(m, self.root, *value, way) && way.last() == parent.unwrap());
            }
        }
        parent
    }

    /// The other child of the grandparent of `node`, if there is a
    /// grandparent.
    pub(super) fn find_uncle(repo: &R, node: &u32) -> (r: Option<u32>)
        ensures
            r == uncle_of(repo.view(), *node),
    {
        let parent = match repo.get(node) {
            Some(n) => n.parent(),
            None => None,
        };
        match parent {
            Some(p) => {
                match repo.get_parent(&p) {
                    Some(gp) => {
                        match Self::node_is_child(repo, &p) {
                            Some(Child::Right) => gp.left_child(),
                            Some(Child::Left) => gp.right_child(),
                            None => None,
                        }
                    },
                    None => None,
                }
            },
            None => None,
        }
    }

    pub(super) fn uncle_is_red(repo: &R, uncle: &Option<u32>) -> (b: bool)
        ensures
            b == (match *uncle {
                Some(u) => repo.view().contains_key(u) && repo.view()[u].color == Color::Red,
                None => false,
            }),
    {
        match uncle {
            Some(n) => match repo.get(n) {
                Some(rec) => *rec.color() == Color::Red,
                None => false,
            },
            None => false,
        }
    }

    /// One step of the repair after an insertion, for a red node
    /// `current_id` under a red parent, `child` being its side there.
    /// With a red uncle the fault moves to the grandparent, which is
    /// returned red. With a black uncle one or two rotations end the
    /// repair, and the black node now on top is returned.
    pub(super) fn insert_fixup_subtree(
        &mut self,
        repo: &mut R,
        current_id: &u32,
        child: &Child,
    ) -> (r: Option<NodeColor>)
        requires
            climbing(
                old(repo).view(),
                old(self).labels@,
                old(self).order@,
                old(self).root,
                *current_id,
            ),
            old(repo).view()[*current_id].color == Color::Red,
            old(repo).view()[*current_id].parent.is_some(),
            old(repo).view()[old(repo).view()[*current_id].parent.unwrap()].color == Color::Red,
            child_of(old(repo).view()[old(repo).view()[*current_id].parent.unwrap()], *child)
                == Some(*current_id),
        ensures
            r.is_some(),
            final(repo).view() == mend_step(old(repo).view(), *current_id),
            final(self).root == mend_root(old(repo).view(), old(self).root, *current_id),
            r.unwrap().id == mend_next(old(repo).view(), *current_id),
            climbing(
                final(repo).view(),
                final(self).labels@,
                final(self).order@,
                final(self).root,
                r.unwrap().id,
            ),
            r.unwrap().color == final(repo).view()[r.unwrap().id].color,
            climb_left(final(repo).view(), final(self).labels@, final(self).order@, r.unwrap().id)
                < climb_left(
                old(repo).view(),
                old(self).labels@,
                old(self).order@,
                *current_id,
            ),
            keys_of(final(repo).view(), final(self).order@) == keys_of(
                old(repo).view(),
                old(self).order@,
            ),
            final(repo).view().dom() == old(repo).view().dom(),
            final(self).order@ == old(self).order@,
            final(self).length == old(self).length,
            final(self).id_counter == old(self).id_counter,
    {
        let ghost m = repo.view();
        let ghost lab = self.labels@;
        let ghost ord = self.order@;
        let ghost root = self.root;
        proof {
            lemma_grandparent(m, lab, ord, root, *current_id);
            assert(links_ok(m, lab, ord, root, *current_id));
            assert(links_ok(m, lab, ord, root, m[*current_id].parent.unwrap()));
            assert(links_ok(m, lab, ord, root, m[m[*current_id].parent.unwrap()].parent.unwrap()));
        }
        let parent_id = match repo.get_parent(current_id) {
            Some(p) => *p.id(),
            None => { return None; },
        };
        let grandparent_id = match repo.get_parent(&parent_id) {
            Some(g) => *g.id(),
            None => { return None; },
        };
        let uncle = Self::find_uncle(repo, current_id);
        proof {
            assert(side_of(m, *current_id) == *child);
            if uncle.is_some() {
                assert(m.contains_key(uncle.unwrap()));
            }
        }
        if Self::uncle_is_red(repo, &uncle) {
            let uncle_id = uncle.unwrap();
            proof {
                lemma_push_up(m, lab, ord, root, *current_id, uncle_id);
            }
            Self::paint(repo, &parent_id, &Color::Black);
            Self::paint(repo, &uncle_id, &Color::Black);
            Self::paint(repo, &grandparent_id, &Color::Red);
            proof {
                self.labels@ = pushed_labels(lab, parent_id, uncle_id);
                assert(repo.view() =~= pushed(m, parent_id, uncle_id, grandparent_id));
            }
            Some(NodeColor::new(&grandparent_id, &Color::Red))
        } else {
            let rotation = Self::get_rotation(child);
            let parent_is_child = Self::node_is_child(repo, &parent_id);
            let outer = match parent_is_child {
                Some(side) => *child == side,
                None => false,
            };
            proof {
                assert(parent_is_child == Some(side_of(m, parent_id)));
                assert(rotation == lifting(*child));
            }
            if outer {
                proof {
                    lemma_outer(m, lab, ord, root, *current_id, rotation);
                }
                Self::paint(repo, &parent_id, &Color::Black);
                Self::paint(repo, &grandparent_id, &Color::Red);
                proof {
                    self.labels@ = leveled(
                        leveled(lab, parent_id, lab(parent_id).bh + 1),
                        grandparent_id,
                        (lab(grandparent_id).bh - 1) as nat,
                    );
                    assert(repo.view() =~= painted(
                        painted(m, parent_id, Color::Black),
                        grandparent_id,
                        Color::Red,
                    ));
                }
                self.rotate(repo, &grandparent_id, &rotation);
                proof {
                    lemma_climb_any(repo.view(), self.labels@, ord, self.root, parent_id);
                }
                Some(NodeColor::new(&parent_id, &Color::Black))
            } else {
                proof {
                    lemma_inner(m, lab, ord, root, *current_id, rotation);
                }
                self.rotate(repo, &parent_id, &rotation);
                let ghost m1 = repo.view();
                let ghost lab1 = self.labels@;
                let turn = rotation.not();
                proof {
                    assert(links_ok(m1, lab1, ord, root, grandparent_id));
                    lemma_outer(m1, lab1, ord, root, parent_id, turn);
                }
                Self::paint(repo, current_id, &Color::Black);
                Self::paint(repo, &grandparent_id, &Color::Red);
                proof {
                    self.labels@ = leveled(
                        leveled(lab1, *current_id, lab1(*current_id).bh + 1),
                        grandparent_id,
                        (lab1(grandparent_id).bh - 1) as nat,
                    );
                    assert(repo.view() =~= painted(
                        painted(m1, *current_id, Color::Black),
                        grandparent_id,
                        Color::Red,
                    ));
                }
                self.rotate(repo, &grandparent_id, &turn);
                proof {
                    lemma_climb_any(repo.view(), self.labels@, ord, self.root, *current_id);
                }
                Some(NodeColor::new(current_id, &Color::Black))
            }
        }
    }

    /// Restores the balance rules after the red leaf `inserted` was hung
    /// into the tree.
    pub(super) fn insert_fixup(&mut self, repo: &mut R, inserted: &u32)
        requires
            climbing(
                old(repo).view(),
                old(self).labels@,
                old(self).order@,
                old(self).root,
                *inserted,
            ),
        ensures
            (final(repo).view(), final(self).root) == mended(
                old(repo).view(),
                old(self).root,
                *inserted,
                old(self).order@.len(),
            ),
            shape(final(repo).view(), final(self).labels@, final(self).order@, final(self).root),
            heights(final(repo).view(), final(self).labels@),
            reds(final(repo).view(), None),
            root_black(final(repo).view(), final(self).root),
            keys_of(final(repo).view(), final(self).order@) == keys_of(
                old(repo).view(),
                old(self).order@,
            ),
            final(repo).view().dom() == old(repo).view().dom(),
            final(self).order@ == old(self).order@,
            final(self).length == old(self).length,
            final(self).id_counter == old(self).id_counter,
    {
        let mut current = match repo.get(inserted) {
            Some(node) => Some(NodeColor::new(inserted, node.color())),
            None => None,
        };
        let ghost mut cur: u32 = *inserted;
        let ghost mut fuel: nat = self.order@.len();
        let ghost goal = mended(repo.view(), self.root, *inserted, fuel);
        proof {
            assert(links_ok(repo.view(), self.labels@, self.order@, self.root, cur));
        }
        while current.is_some()
            invariant
                climbing(repo.view(), self.labels@, self.order@, self.root, cur),
                match current {
                    Some(c) => mended(repo.view(), self.root, cur, fuel) == goal && fuel
                        >= climb_left(repo.view(), self.labels@, self.order@, cur),
                    None => (blackened(repo.view(), self.root), self.root) == goal,
                },
                match current {
                    Some(c) => c.id == cur && c.color == repo.view()[cur].color,
                    None => reds(repo.view(), None),
                },
                keys_of(repo.view(), self.order@) == keys_of(old(repo).view(), old(self).order@),
                repo.view().dom() == old(repo).view().dom(),
                self.order@ == old(self).order@,
                self.length == old(self).length,
                self.id_counter == old(self).id_counter,
            decreases
                    (match current {
                        Some(c) => climb_left(repo.view(), self.labels@, self.order@, cur) + 1,
                        None => 0,
                    }),
        {
            let NodeColor { id: node_id, color } = current.unwrap();
            proof {
                assert(links_ok(repo.view(), self.labels@, self.order@, self.root, node_id));
            }
            let ghost before = climb_left(repo.view(), self.labels@, self.order@, cur);
            if color == Color::Black {
                proof {
                    lemma_climb_done(repo.view(), self.labels@, self.order@, self.root, cur);
                    assert(!to_mend(repo.view(), cur));
                }
                current = None;
            } else {
                let parent_color = match repo.get_parent(&node_id) {
                    Some(p) => Some(*p.color()),
                    None => None,
                };
                match parent_color {
                    Some(Color::Red) => {
                        let child = Self::node_is_child(repo, &node_id);
                        match child {
                            Some(side) => {
                                proof {
                                    assert(to_mend(repo.view(), cur));
                                    assert(fuel >= 1);
                                }
                                current = self.insert_fixup_subtree(repo, &node_id, &side);
                                proof {
                                    fuel = (fuel - 1) as nat;
                                    cur = current.unwrap().id;
                                    assert(links_ok(repo.view(), self.labels@, self.order@, self.root, cur));
                                    assert(climb_left(repo.view(), self.labels@, self.order@, cur) < before);
                                }
                            },
                            None => {
                                current = None;
                            },
                        }
                    },
                    _ => {
                        proof {
                            lemma_climb_done(repo.view(), self.labels@, self.order@, self.root, cur);
                            assert(!to_mend(repo.view(), cur));
                        }
                        current = None;
                    },
                }
            }
        }
        if let Some(root) = self.root {
            proof {
                lemma_blacken_root(repo.view(), self.labels@, self.order@, self.root);
                self.labels@ = leveled(
                    self.labels@,
                    root,
                    bhc_left(repo.view(), self.labels@, root) + 1,
                );
            }
            Self::paint(repo, &root, &Color::Black);
        }
    }

    /// Creates the record of a new node with the key `value` and hangs
    /// it, red, where the key descends to: under the last node of the way
    /// down, or at the root of an empty tree. Handed out are its
    /// identifier, its place in the traversal and the node it hangs under.
    #[verifier::rlimit(50)]
    pub(super) fn attach(&mut self, repo: &mut R, value: T) -> (res: (
        u32,
        Ghost<int>,
        Ghost<Option<u32>>,
    ))
        requires
            old(self).wf(old(repo)),
            old(self).id_counter < u32::MAX,
        ensures
            ({
                let m = old(repo).view();
                let ks = keys_of(m, old(self).order@);
                let id = res.0;
                let at = res.1@;
                let p = res.2@;
                &&& id == old(self).id_counter + 1
                &&& final(self).id_counter == id
                &&& final(self).length == old(self).length
                &&& !m.contains_key(id)
                &&& place_in(ks, value, at)
                &&& final(self).order@ == old(self).order@.insert(at, id)
                &&& keys_of(final(repo).view(), final(self).order@) == ks.insert(at, value)
                &&& sorted(ks.insert(at, value))
                &&& final(repo).view() == attached(m, id, value, p)
                &&& final(repo).view().dom() == m.dom().insert(id)
                &&& (match p {
                    Some(p) => old(self).root.is_some() && final(self).root == old(self).root
                        && exists|way: Seq<u32>|
                        #[trigger] insert_way(m, old(self).root, value, way) && way.last() == p,
                    None => old(self).root.is_none() && final(self).root == Some(id),
                })
                &&& climbing(
                    final(repo).view(),
                    final(self).labels@,
                    final(self).order@,
                    final(self).root,
                    id,
                )
            }),
    {
        let ghost m = repo.view();
        let ghost lab = self.labels@;
        let ghost ord = self.order@;
        let ghost ks = keys_of(m, ord);
        let ghost mut at0: int = 0;
        let root = self.root;
        let parent = self.find_parent(repo, &root, &value);
        let new_id = self.get_id();
        repo.add(&new_id, value);
        match parent {
            None => {
                self.root = Some(new_id);
                proof {
                    self.order@ = ord.insert(0, new_id);
                    self.labels@ = spread(lab, 0, Child::Left, new_id);
                    lemma_first_node(m, lab, ord, new_id, value);
                    lemma_insert_sorted(ks, value, 0);
                    at0 = 0;
                }
            },
            Some(p) => {
                let ghost s = side_for(m, p, value);
                let ghost at = place_under(lab, p, s);
                proof {
                    lemma_grow(m, lab, ord, root, p, s, new_id, value);
                    lemma_insert_sorted(ks, value, at);
                }
                Self::link_parent(repo, &new_id, &Some(p));
                let parent_key = match repo.get(&p) {
                    Some(rec) => rec.key(),
                    None => value,
                };
                if value.less(&parent_key) {
                    Self::link_child(repo, &p, &Child::Left, &Some(new_id));
                } else {
                    Self::link_child(repo, &p, &Child::Right, &Some(new_id));
                }
                proof {
                    self.order@ = ord.insert(at, new_id);
                    self.labels@ = spread(lab, at, s, new_id);
                    assert(repo.view() =~= grown(m, p, s, new_id, value));
                    at0 = at;
                }
            },
        }
        proof {
            assert(repo.view().dom() =~= m.dom().insert(new_id));
        }
        (new_id, Ghost(at0), Ghost(parent))
    }

    /// Adds a node with the key `value` and hands out its identifier.
    /// Equal keys are kept: the new one comes behind those already there.
    /// The new node is hung, red, under the last node of the way down,
    /// and the tree is then repaired from it upwards.
    #[verifier::rlimit(50)]
    pub fn insert(&mut self, repo: &mut R, value: T) -> (id: u32)
        requires
            old(self).wf(old(repo)),
            old(self).ids_issued() < u32::MAX,
        ensures
            final(self).wf(final(repo)),
            final(self).keys(final(repo)) == placed(old(self).keys(old(repo)), value),
            final(self).keys(final(repo)).to_multiset() == old(self).keys(
                old(repo),
            ).to_multiset().insert(value),
            final(self).spec_len() == old(self).spec_len() + 1,
            final(self).ids_issued() == old(self).ids_issued() + 1,
            id == final(self).ids_issued(),
            !old(repo).view().contains_key(id),
            final(repo).view().dom() == old(repo).view().dom().insert(id),
            final(repo).view()[id].key == value,
            exists|at: int|
                #[trigger] place_in(old(self).keys(old(repo)), value, at) && old(self).ids().insert(
                    at,
                    id,
                ) == final(self).ids() && final(self).keys(final(repo)) == old(self).keys(
                    old(repo),
                ).insert(at, value),
            old(self).root_id().is_none() ==> (final(repo).view(), final(self).root_id()) == mended(
                attached(old(repo).view(), id, value, None),
                Some(id),
                id,
                old(self).ids().len() + 1,
            ),
            old(self).root_id().is_some() ==> exists|way: Seq<u32>|
                #[trigger] insert_way(old(repo).view(), old(self).root_id(), value, way) && (
                    final(repo).view(),
                    final(self).root_id(),
                ) == mended(
                    attached(old(repo).view(), id, value, Some(way.last())),
                    old(self).root_id(),
                    id,
                    old(self).ids().len() + 1,
                ),
    {
        let ghost m = repo.view();
        let ghost ord = self.order@;
        let ghost ks = keys_of(m, ord);
        let (new_id, Ghost(at0), Ghost(parent)) = self.attach(repo, value);
        let ghost m1 = repo.view();
        let ghost root1 = self.root;
        proof {
            lemma_placed_at(ks, value, at0);
            to_multiset_insert(ks, at0, value);
            assert(self.order@[at0] == new_id);
        }
        self.insert_fixup(repo, &new_id);
        self.inc_len();
        proof {
            let m2 = repo.view();
            assert(keys_of(m2, self.order@)[at0] == value);
            assert(m2[new_id].key == value);
            assert(place_in(old(self).keys(old(repo)), value, at0) && old(self).ids().insert(
                at0,
                new_id,
            ) == self.ids() && self.keys(repo) == old(self).keys(old(repo)).insert(at0, value));
            assert((m2, self.root) == mended(m1, root1, new_id, ord.len() + 1));
            if parent.is_some() {
                let way = choose|way: Seq<u32>|
                    #[trigger] insert_way(m, old(self).root, value, way) && way.last()
                        == parent.unwrap();
                assert(insert_way(old(repo).view(), old(self).root_id(), value, way) && (
                    m2,
                    self.root_id(),
                ) == mended(
                    attached(m, new_id, value, Some(way.last())),
                    old(self).root_id(),
                    new_id,
                    old(self).ids().len() + 1,
                ));
            }
        }
        new_id
    }
}

} // verus!
