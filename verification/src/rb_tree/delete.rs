use vstd::prelude::*;
use vstd::seq_lib::to_multiset_remove;
use crate::node::{Color, NodeView, Operations};
use crate::order::{lemma_remove_any_occurrence, lemma_remove_keeps_sorted, TotalOrder};
use crate::repo::{left_of, right_of, Repository};
use super::query::search_way;
use super::inv::{
    bhc,
    height_ok,
    heights,
    is_red,
    keys_of,
    links_ok,
    red_ok,
    reds,
    root_black,
    shape,
    Labels,
    Store,
};
use super::mend::{leveled, painted};
use super::rotate::{child_of, lifted_side, rotated, rotated_root};
use super::steps::{
    absorbed, blackened, past_near_nephew, past_red_sibling, settle_rest, settle_step, settled,
    to_settle, toward,
};
use super::settle::{
    far_red,
    near_red,
    sib_red,
    far_red_labels,
    lemma_far_red,
    lemma_near_red,
    lemma_settled,
    lemma_sib_red,
    lemma_sibling,
    lemma_sink_up,
    near_red_labels,
    sib_red_labels,
    span_of,
    sunk_labels,
};
use super::shrink::{closed_up, lacking, lemma_splice, only_child, replaced, replaced_root, side_of};
use super::{Child, NodeColor, RedBlackTree, Rotation};

verus! {

/// The identifier that the record behind a link holds.
pub open spec fn id_at<T>(m: Store<T>, t: Option<u32>) -> Option<u32> {
    match t {
        Some(i) => Some(m[i].id),
        None => None,
    }
}

/// The child of `node` where it has at most one, judged from the left:
/// without a left child the right one, without a right child the left
/// one, and nothing where it has both or none.
pub open spec fn lone_child<T>(m: Store<T>, node: u32) -> Option<u32> {
    if left_of(m, node).is_none() {
        id_at(m, right_of(m, node))
    } else if right_of(m, node).is_none() {
        id_at(m, left_of(m, node))
    } else {
        None
    }
}

/// The node whose record leaves the store when the node `z` is deleted:
/// `z` itself where it has at most one child, else the node that
/// follows it in the traversal `ids`, whose key `z` takes over.
pub open spec fn unlinked<T>(m: Store<T>, ids: Seq<u32>, z: u32) -> u32 {
    if m[z].left.is_some() && m[z].right.is_some() {
        ids[ids.index_of(z) + 1]
    } else {
        z
    }
}

/// The store once the node `z` that is to be deleted has taken over the
/// key of the node that is unlinked in its stead, where that is another.
pub open spec fn rekeyed<T>(m: Store<T>, ids: Seq<u32>, z: u32) -> Store<T> {
    let y = unlinked(m, ids, z);
    if y == z {
        m
    } else {
        m.insert(z, NodeView { key: m[y].key, ..m[z] })
    }
}

/// The store once the node `y`, which has at most one child, is taken
/// out: its child, if it has one, stands where it stood, and its record
/// is gone.
pub open spec fn spliced<T>(m: Store<T>, y: u32) -> Store<T> {
    replaced(m, y, only_child(m, y)).remove(y)
}

/// Store and root after the deletion of the node `z`: the node takes
/// over the key of its successor where it has two children, the node
/// that is unlinked is spliced out, and where that node was black the
/// place it left is repaired.
pub open spec fn deleted_at<T>(m: Store<T>, ids: Seq<u32>, root: Option<u32>, z: u32) -> (
    Store<T>,
    Option<u32>,
) {
    let y = unlinked(m, ids, z);
    let m1 = rekeyed(m, ids, z);
    let x = only_child(m1, y);
    let m2 = spliced(m1, y);
    let root2 = replaced_root(m1, root, y, x);
    if m[y].color == Color::Red {
        (m2, root2)
    } else {
        settled(m2, root2, x, m1[y].parent, side_of(m1, y), ids.len())
    }
}

/// Whether some link of `nodes` leads to a record of the colour `color`.
pub open spec fn some_colored<T>(m: Store<T>, nodes: Seq<Option<u32>>, color: Color) -> bool {
    exists|i: int|
        0 <= i < nodes.len() && (#[trigger] nodes[i]).is_some() && m.contains_key(
            nodes[i].unwrap(),
        ) && m[nodes[i].unwrap()].color == color
}

/// A key written into a record changes that place of the traversal and
/// nothing else.
pub proof fn lemma_write_key<T>(
    m: Store<T>,
    lab: Labels,
    ord: Seq<u32>,
    root: Option<u32>,
    z: u32,
    key: T,
)
    requires
        shape(m, lab, ord, root),
        heights(m, lab),
        reds(m, None),
        root_black(m, root),
        m.contains_key(z),
    ensures
        ({
            let m1 = m.insert(z, NodeView { key, ..m[z] });
            &&& shape(m1, lab, ord, root)
            &&& heights(m1, lab)
            &&& reds(m1, None)
            &&& root_black(m1, root)
            &&& 0 <= lab(z).idx < ord.len()
            &&& keys_of(m1, ord) == keys_of(m, ord).update(lab(z).idx, key)
        }),
{
    let m1 = m.insert(z, NodeView { key, ..m[z] });
    assert(links_ok(m, lab, ord, root, z));
    assert forall|n: u32| m1.contains_key(n) implies #[trigger] links_ok(m1, lab, ord, root, n) by {
        assert(links_ok(m, lab, ord, root, n));
    }
    assert forall|n: u32| m1.contains_key(n) implies #[trigger] height_ok(m1, lab, n) by {
        assert(height_ok(m, lab, n));
    }
    assert forall|n: u32| m1.contains_key(n) implies #[trigger] red_ok(m1, n, None) by {
        assert(red_ok(m, n, None));
    }
    assert forall|i: int| 0 <= i < ord.len() implies m1.contains_key(#[trigger] ord[i]) by {
        assert(m.contains_key(ord[i]));
    }
    assert(keys_of(m1, ord) =~= keys_of(m, ord).update(lab(z).idx, key)) by {
        assert forall|i: int| 0 <= i < ord.len() implies keys_of(m1, ord)[i] == keys_of(
            m,
            ord,
        ).update(lab(z).idx, key)[i] by {
            assert(m.contains_key(ord[i]));
        }
    }
}

/// A node stands in the traversal at its place and nowhere else.
pub proof fn lemma_place<T>(m: Store<T>, lab: Labels, ord: Seq<u32>, root: Option<u32>, n: u32)
    requires
        shape(m, lab, ord, root),
        m.contains_key(n),
    ensures
        0 <= lab(n).idx < ord.len(),
        ord[lab(n).idx] == n,
        ord.index_of(n) == lab(n).idx,
        ord.index_of_first(n) == Some(lab(n).idx),
{
    assert(links_ok(m, lab, ord, root, n));
    let i = ord.index_of(n);
    assert(0 <= i < ord.len() && ord[i] == n);
    assert(lab(ord[i]).idx == i);
    ord.index_of_first_ensures(n);
    let f = ord.index_of_first(n).unwrap();
    assert(lab(ord[f]).idx == f);
}

/// In a tree in full order nothing lacks at the root.
pub proof fn lemma_lacking_at_root<T>(
    m: Store<T>,
    lab: Labels,
    ord: Seq<u32>,
    root: Option<u32>,
    side: Child,
)
    requires
        shape(m, lab, ord, root),
        heights(m, lab),
        reds(m, None),
        root_black(m, root),
    ensures
        lacking(m, lab, ord, root, root, None, side),
{
    assert forall|n: u32| m.contains_key(n) && Some(n) != root implies #[trigger] red_ok(
        m,
        n,
        root,
    ) by {
        assert(red_ok(m, n, None));
    }
}

impl<R: Repository<T>, T: TotalOrder> RedBlackTree<R, T> {
    /// The child of `node` where it has at most one, judged from the left.
    pub(super) fn get_if_one_child(repo: &R, node: &u32) -> (r: Option<u32>)
        ensures
            r == lone_child(repo.view(), *node),
    {
        let child = if repo.get_left(node).is_none() {
            repo.get_right(node)
        } else if repo.get_right(node).is_none() {
            repo.get_left(node)
        } else {
            None
        };
        match child {
            Some(n) => Some(*n.id()),
            None => None,
        }
    }

    /// The leftmost node below `node`, itself included: the first of its
    /// stretch of the traversal.
    pub(super) fn tree_minimum(&self, repo: &R, node: Option<u32>) -> (r: Option<u32>)
        requires
            shape(repo.view(), self.labels@, self.order@, self.root),
            match node {
                Some(c) => repo.view().contains_key(c),
                None => true,
            },
        ensures
            match node {
                Some(c) => {
                    &&& r.is_some()
                    &&& repo.view().contains_key(r.unwrap())
                    &&& repo.view()[r.unwrap()].left.is_none()
                    &&& (self.labels@)(r.unwrap()).idx == (self.labels@)(c).lo
                },
                None => r.is_none(),
            },
    {
        let ghost m = repo.view();
        let ghost lab = self.labels@;
        let mut current = node;
        let mut result: Option<u32> = None;
        while current.is_some()
            invariant
                m == repo.view(),
                lab == self.labels@,
                shape(m, lab, self.order@, self.root),
                match current {
                    Some(c) => m.contains_key(c) && node.is_some() && lab(c).lo == lab(
                        node.unwrap(),
                    ).lo,
                    None => match node {
                        Some(c) => {
                            &&& result.is_some()
                            &&& m.contains_key(result.unwrap())
                            &&& m[result.unwrap()].left.is_none()
                            &&& lab(result.unwrap()).idx == lab(c).lo
                        },
                        None => result.is_none(),
                    },
                },
            decreases span_of(lab, current),
        {
            let id = current.unwrap();
            proof {
                assert(links_ok(m, lab, self.order@, self.root, id));
            }
            result = Some(id);
            current = match repo.get(&id) {
                Some(n) => n.left_child(),
                None => None,
            };
        }
        result
    }

    /// Puts `replacement` where `removable` stands: under its parent, or
    /// at the root. The record of `removable` itself stays as it is.
    pub(super) fn replace(&mut self, repo: &mut R, removable: &u32, replacement: &Option<u32>)
        requires
            shape(old(repo).view(), old(self).labels@, old(self).order@, old(self).root),
            old(repo).view().contains_key(*removable),
            *replacement == only_child(old(repo).view(), *removable),
        ensures
            final(repo).view() == replaced(old(repo).view(), *removable, *replacement),
            final(self).root == replaced_root(
                old(repo).view(),
                old(self).root,
                *removable,
                *replacement,
            ),
            final(self).labels == old(self).labels,
            final(self).order == old(self).order,
            final(self).length == old(self).length,
            final(self).id_counter == old(self).id_counter,
    {
        let ghost m = repo.view();
        proof {
            assert(links_ok(m, self.labels@, self.order@, self.root, *removable));
            if m[*removable].parent.is_some() {
                assert(links_ok(m, self.labels@, self.order@, self.root, m[*removable].parent.unwrap()));
            }
            if replacement.is_some() {
                assert(links_ok(m, self.labels@, self.order@, self.root, replacement.unwrap()));
            }
        }
        let parent_id = match repo.get_parent(removable) {
            Some(p) => Some(*p.id()),
            None => None,
        };
        match parent_id {
            None => {
                self.root = *replacement;
            },
            Some(p) => {
                let removable_left = match repo.get(&p) {
                    Some(rec) => Self::node_is(removable, &rec.left_child()),
                    None => false,
                };
                if removable_left {
                    Self::link_child(repo, &p, &Child::Left, replacement);
                } else {
                    Self::link_child(repo, &p, &Child::Right, replacement);
                }
            },
        }
        match replacement {
            Some(r) => Self::link_parent(repo, r, &parent_id),
            None => {},
        }
        proof {
            assert(repo.view() =~= replaced(m, *removable, *replacement));
        }
    }

    /// The two children of `node`, the one on the side `first_child`
    /// first.
    pub(super) fn childrens(repo: &R, node: &Option<u32>, first_child: &Child) -> (v: Vec<Option<u32>>)
        requires
            match *node {
                Some(n) => repo.view().contains_key(n),
                None => true,
            },
        ensures
            v@.len() == 2,
            match *node {
                Some(n) => v@[0] == child_of(repo.view()[n], *first_child) && v@[1] == child_of(
                    repo.view()[n],
                    first_child.flipped(),
                ),
                None => v@[0].is_none() && v@[1].is_none(),
            },
    {
        let (left, right) = match node {
            Some(n) => match repo.get(n) {
                Some(rec) => (rec.left_child(), rec.right_child()),
                None => (None, None),
            },
            None => (None, None),
        };
        let mut v: Vec<Option<u32>> = Vec::new();
        match first_child {
            Child::Left => {
                v.push(left);
                v.push(right);
            },
            Child::Right => {
                v.push(right);
                v.push(left);
            },
        }
        v
    }

    /// Whether one of `nodes` is there and has the colour `color`.
    pub(super) fn any_colors(repo: &R, nodes: &[Option<u32>], color: &Color) -> (b: bool)
        ensures
            b == some_colored(repo.view(), nodes@, *color),
    {
        let mut i: usize = 0;
        while i < nodes.len()
            invariant
                i <= nodes.len(),
                forall|j: int|
                    0 <= j < i ==> !((#[trigger] nodes@[j]).is_some() && repo.view().contains_key(
                        nodes@[j].unwrap(),
                    ) && repo.view()[nodes@[j].unwrap()].color == *color),
            decreases nodes.len() - i,
        {
            let hit = match nodes[i] {
                Some(n) => match repo.get(&n) {
                    Some(rec) => *rec.color() == *color,
                    None => false,
                },
                None => false,
            };
            if hit {
                return true;
            }
            i += 1;
        }
        false
    }

    /// The first case of the repair: a red sibling. It is painted black
    /// and the parent red, and the parent is rotated towards the lacking
    /// side. The new sibling, which is black, is returned.
    pub(super) fn settle_red_sibling(
        &mut self,
        repo: &mut R,
        parent: &u32,
        sibling: &u32,
        rotation: &Rotation,
        node_is_child: &Child,
    ) -> (r: u32)
        requires
            lacking(
                old(repo).view(),
                old(self).labels@,
                old(self).order@,
                old(self).root,
                child_of(old(repo).view()[*parent], *node_is_child),
                Some(*parent),
                *node_is_child,
            ),
            !is_red(old(repo).view(), child_of(old(repo).view()[*parent], *node_is_child)),
            lifted_side(*rotation) == node_is_child.flipped(),
            Some(*sibling) == child_of(old(repo).view()[*parent], node_is_child.flipped()),
            old(repo).view()[*sibling].color == Color::Red,
        ensures
            final(repo).view() == rotated(
                sib_red(old(repo).view(), *parent, *sibling),
                *parent,
                *rotation,
            ),
            final(self).root == rotated_root(
                sib_red(old(repo).view(), *parent, *sibling),
                old(self).root,
                *parent,
                *rotation,
            ),
            lacking(
                final(repo).view(),
                final(self).labels@,
                final(self).order@,
                final(self).root,
                child_of(old(repo).view()[*parent], *node_is_child),
                Some(*parent),
                *node_is_child,
            ),
            child_of(final(repo).view()[*parent], *node_is_child) == child_of(
                old(repo).view()[*parent],
                *node_is_child,
            ),
            !is_red(final(repo).view(), child_of(old(repo).view()[*parent], *node_is_child)),
            span_of(final(self).labels@, child_of(old(repo).view()[*parent], *node_is_child))
                == span_of(
                old(self).labels@,
                child_of(old(repo).view()[*parent], *node_is_child),
            ),
            Some(r) == child_of(final(repo).view()[*parent], node_is_child.flipped()),
            final(repo).view().contains_key(r),
            final(repo).view()[r].color == Color::Black,
            keys_of(final(repo).view(), final(self).order@) == keys_of(
                old(repo).view(),
                old(self).order@,
            ),
            final(repo).view().dom() == old(repo).view().dom(),
            final(self).order@ == old(self).order@,
            final(self).length == old(self).length,
            final(self).id_counter == old(self).id_counter,
    {
        let ghost m0 = repo.view();
        let ghost lab0 = self.labels@;
        let ghost ord = self.order@;
        let ghost root0 = self.root;
        let ghost side = *node_is_child;
        let ghost cur = child_of(m0[*parent], side);
        let p = *parent;
        proof {
            lemma_sibling(m0, lab0, ord, root0, cur, p, side);
            lemma_sib_red(m0, lab0, ord, root0, cur, p, side, *rotation);
        }
        Self::paint(repo, sibling, &Color::Black);
        Self::paint(repo, &p, &Color::Red);
        proof {
            self.labels@ = sib_red_labels(lab0, p, *sibling);
        }
        self.rotate(repo, &p, rotation);
        proof {
            lemma_sibling(repo.view(), self.labels@, ord, self.root, cur, p, side);
        }
        let link = match repo.get(&p) {
            Some(rec) => match node_is_child {
                Child::Left => rec.right_child(),
                Child::Right => rec.left_child(),
            },
            None => None,
        };
        match link {
            Some(s) => s,
            None => *sibling,
        }
    }

    /// The case of a black sibling whose near child is red and whose far
    /// child is not: the nephew is painted black and the sibling red, and
    /// the sibling is rotated away from the lacking side. The new
    /// sibling, the former nephew, is returned: its far child is red.
    pub(super) fn settle_near_nephew(
        &mut self,
        repo: &mut R,
        parent: &u32,
        sibling: &u32,
        near: &u32,
        rotation: &Rotation,
        node_is_child: &Child,
    ) -> (r: u32)
        requires
            lacking(
                old(repo).view(),
                old(self).labels@,
                old(self).order@,
                old(self).root,
                child_of(old(repo).view()[*parent], *node_is_child),
                Some(*parent),
                *node_is_child,
            ),
            !is_red(old(repo).view(), child_of(old(repo).view()[*parent], *node_is_child)),
            lifted_side(*rotation) == *node_is_child,
            Some(*sibling) == child_of(old(repo).view()[*parent], node_is_child.flipped()),
            old(repo).view()[*sibling].color == Color::Black,
            Some(*near) == child_of(old(repo).view()[*sibling], *node_is_child),
            old(repo).view()[*near].color == Color::Red,
            !is_red(
                old(repo).view(),
                child_of(old(repo).view()[*sibling], node_is_child.flipped()),
            ),
        ensures
            final(repo).view() == rotated(
                near_red(old(repo).view(), *sibling, *near),
                *sibling,
                *rotation,
            ),
            final(self).root == old(self).root,
            lacking(
                final(repo).view(),
                final(self).labels@,
                final(self).order@,
                final(self).root,
                child_of(old(repo).view()[*parent], *node_is_child),
                Some(*parent),
                *node_is_child,
            ),
            child_of(final(repo).view()[*parent], *node_is_child) == child_of(
                old(repo).view()[*parent],
                *node_is_child,
            ),
            !is_red(final(repo).view(), child_of(old(repo).view()[*parent], *node_is_child)),
            span_of(final(self).labels@, child_of(old(repo).view()[*parent], *node_is_child))
                == span_of(
                old(self).labels@,
                child_of(old(repo).view()[*parent], *node_is_child),
            ),
            Some(r) == child_of(final(repo).view()[*parent], node_is_child.flipped()),
            final(repo).view().contains_key(r),
            final(repo).view()[r].color == Color::Black,
            is_red(
                final(repo).view(),
                child_of(final(repo).view()[r], node_is_child.flipped()),
            ),
            keys_of(final(repo).view(), final(self).order@) == keys_of(
                old(repo).view(),
                old(self).order@,
            ),
            final(repo).view().dom() == old(repo).view().dom(),
            final(self).order@ == old(self).order@,
            final(self).length == old(self).length,
            final(self).id_counter == old(self).id_counter,
    {
        let ghost m0 = repo.view();
        let ghost lab0 = self.labels@;
        let ghost ord = self.order@;
        let ghost root0 = self.root;
        let ghost side = *node_is_child;
        let ghost cur = child_of(m0[*parent], side);
        proof {
            lemma_sibling(m0, lab0, ord, root0, cur, *parent, side);
            assert(links_ok(m0, lab0, ord, root0, *sibling));
            lemma_near_red(m0, lab0, ord, root0, cur, *parent, side, *rotation);
        }
        Self::paint(repo, near, &Color::Black);
        Self::paint(repo, sibling, &Color::Red);
        proof {
            self.labels@ = near_red_labels(lab0, *sibling, *near);
            assert(repo.view().dom() =~= m0.dom());
        }
        self.rotate(repo, sibling, rotation);
        proof {
            lemma_sibling(repo.view(), self.labels@, ord, self.root, cur, *parent, side);
        }
        *near
    }

    /// The last case of the repair: a black sibling whose far child is
    /// red. The sibling takes the parent's colour, parent and far nephew
    /// become black, and the parent is rotated towards the lacking side.
    /// The tree is then in full order.
    pub(super) fn settle_far_nephew(
        &mut self,
        repo: &mut R,
        parent: &u32,
        sibling: &u32,
        rotation: &Rotation,
        node_is_child: &Child,
    )
        requires
            lacking(
                old(repo).view(),
                old(self).labels@,
                old(self).order@,
                old(self).root,
                child_of(old(repo).view()[*parent], *node_is_child),
                Some(*parent),
                *node_is_child,
            ),
            !is_red(old(repo).view(), child_of(old(repo).view()[*parent], *node_is_child)),
            lifted_side(*rotation) == node_is_child.flipped(),
            Some(*sibling) == child_of(old(repo).view()[*parent], node_is_child.flipped()),
            old(repo).view()[*sibling].color == Color::Black,
            is_red(
                old(repo).view(),
                child_of(old(repo).view()[*sibling], node_is_child.flipped()),
            ),
        ensures
            final(repo).view() == rotated(
                far_red(
                    old(repo).view(),
                    *parent,
                    *sibling,
                    child_of(old(repo).view()[*sibling], node_is_child.flipped()).unwrap(),
                ),
                *parent,
                *rotation,
            ),
            final(self).root == rotated_root(
                far_red(
                    old(repo).view(),
                    *parent,
                    *sibling,
                    child_of(old(repo).view()[*sibling], node_is_child.flipped()).unwrap(),
                ),
                old(self).root,
                *parent,
                *rotation,
            ),
            shape(final(repo).view(), final(self).labels@, final(self).order@, final(self).root),
            heights(final(repo).view(), final(self).labels@),
            reds(final(repo).view(), None),
            root_black(final(repo).view(), final(self).root),
            final(self).root.is_some(),
            keys_of(final(repo).view(), final(self).order@) == keys_of(
                old(repo).view(),
                old(self).order@,
            ),
            final(repo).view().dom() == old(repo).view().dom(),
            final(self).order@ == old(self).order@,
            final(self).length == old(self).length,
            final(self).id_counter == old(self).id_counter,
    {
        let ghost m2 = repo.view();
        let ghost lab2 = self.labels@;
        let ghost ord = self.order@;
        let ghost root2 = self.root;
        let ghost side = *node_is_child;
        let ghost cur = child_of(m2[*parent], side);
        let p = *parent;
        proof {
            lemma_far_red(m2, lab2, ord, root2, cur, p, side, *rotation);
            lemma_sibling(m2, lab2, ord, root2, cur, p, side);
        }
        let far_link = match repo.get(sibling) {
            Some(rec) => match node_is_child {
                Child::Left => rec.right_child(),
                Child::Right => rec.left_child(),
            },
            None => None,
        };
        let far_id = match far_link {
            Some(f) => f,
            None => { return ; },
        };
        let parent_color = match repo.get(&p) {
            Some(rec) => *rec.color(),
            None => Color::Black,
        };
        Self::paint(repo, sibling, &parent_color);
        Self::paint(repo, &p, &Color::Black);
        Self::paint(repo, &far_id, &Color::Black);
        proof {
            self.labels@ = far_red_labels(m2, lab2, cur, p, *sibling, far_id);
            assert(repo.view() == far_red(m2, p, *sibling, far_id));
        }
        self.rotate(repo, &p, rotation);
    }

    /// The step of the repair beside a black sibling. Where the sibling
    /// has no red child, it is painted red and the parent is returned:
    /// it is the parent that may lack now. Otherwise one or two rotations
    /// give the black node back, and the root is returned.
    #[verifier::rlimit(50)]
    pub(super) fn settle_black_sibling(
        &mut self,
        repo: &mut R,
        parent: &u32,
        sibling: &u32,
        rotation: &Rotation,
        node_is_child: &Child,
    ) -> (r: Option<NodeColor>)
        requires
            lacking(
                old(repo).view(),
                old(self).labels@,
                old(self).order@,
                old(self).root,
                child_of(old(repo).view()[*parent], *node_is_child),
                Some(*parent),
                *node_is_child,
            ),
            !is_red(old(repo).view(), child_of(old(repo).view()[*parent], *node_is_child)),
            *rotation == toward(*node_is_child),
            Some(*sibling) == child_of(old(repo).view()[*parent], node_is_child.flipped()),
            old(repo).view()[*sibling].color == Color::Black,
        ensures
            (final(repo).view(), final(self).root, r.unwrap().id) == settle_rest(
                old(repo).view(),
                old(self).root,
                *parent,
                *node_is_child,
            ),
            r.is_some(),
            lacking(
                final(repo).view(),
                final(self).labels@,
                final(self).order@,
                final(self).root,
                Some(r.unwrap().id),
                final(repo).view()[r.unwrap().id].parent,
                side_of(final(repo).view(), r.unwrap().id),
            ),
            r.unwrap().color == final(repo).view()[r.unwrap().id].color,
            span_of(final(self).labels@, Some(r.unwrap().id)) > span_of(
                old(self).labels@,
                child_of(old(repo).view()[*parent], *node_is_child),
            ),
            keys_of(final(repo).view(), final(self).order@) == keys_of(
                old(repo).view(),
                old(self).order@,
            ),
            final(repo).view().dom() == old(repo).view().dom(),
            final(self).order@ == old(self).order@,
            final(self).length == old(self).length,
            final(self).id_counter == old(self).id_counter,
    {
        let ghost ord = self.order@;
        let ghost side = *node_is_child;
        let ghost m1 = repo.view();
        let ghost lab1 = self.labels@;
        let ghost root1 = self.root;
        let ghost cur = child_of(m1[*parent], side);
        let p = *parent;
        let sibling_id = *sibling;
        proof {
            lemma_sibling(m1, lab1, ord, root1, cur, p, side);
            assert(links_ok(m1, lab1, ord, root1, sibling_id));
            assert(links_ok(m1, lab1, ord, root1, p));
        }
        let nephews = Self::childrens(repo, &Some(sibling_id), node_is_child);
        let ghost near = nephews@[0];
        let ghost far = nephews@[1];
        let red_nephews = Self::any_colors(repo, nephews.as_slice(), &Color::Red);
        proof {
            if is_red(m1, near) {
                assert(nephews@[0].is_some() && m1.contains_key(nephews@[0].unwrap()));
            }
            if is_red(m1, far) {
                assert(nephews@[1].is_some() && m1.contains_key(nephews@[1].unwrap()));
            }
            assert(red_nephews == (is_red(m1, near) || is_red(m1, far)));
            assert(red_nephews == (is_red(m1, m1[sibling_id].left) || is_red(
                m1,
                m1[sibling_id].right,
            )));
        }
        if !red_nephews {
            proof {
                lemma_sink_up(m1, lab1, ord, root1, cur, p, side);
                self.labels@ = sunk_labels(lab1, p, sibling_id);
            }
            Self::paint(repo, &sibling_id, &Color::Red);
            let parent_color = match repo.get(&p) {
                Some(rec) => *rec.color(),
                None => Color::Black,
            };
            Some(NodeColor::new(&p, &parent_color))
        } else {
            let far_is_red = match nephews[1] {
                Some(f) => match repo.get(&f) {
                    Some(rec) => *rec.color() == Color::Red,
                    None => false,
                },
                None => false,
            };
            proof {
                assert(far_is_red == is_red(m1, far));
            }
            let last_sibling = if !far_is_red {
                let turn = rotation.not();
                let near_id = match nephews[0] {
                    Some(n) => n,
                    None => { return None; },
                };
                self.settle_near_nephew(repo, parent, &sibling_id, &near_id, &turn, node_is_child)
            } else {
                sibling_id
            };
            let ghost m2 = repo.view();
            proof {
                assert((m2, last_sibling) == past_near_nephew(m1, p, side));
                assert(self.root == root1);
                lemma_sibling(m2, self.labels@, ord, self.root, cur, p, side);
            }
            self.settle_far_nephew(repo, parent, &last_sibling, rotation, node_is_child);
            proof {
                lemma_lacking_at_root(repo.view(), self.labels@, ord, self.root, Child::Left);
                assert(links_ok(repo.view(), self.labels@, ord, self.root, self.root.unwrap()));
            }
            let top = match self.root {
                Some(t) => t,
                None => { return None; },
            };
            let top_color = match repo.get(&top) {
                Some(rec) => *rec.color(),
                None => Color::Black,
            };
            Some(NodeColor::new(&top, &top_color))
        }
    }

    /// One step of the repair after a deletion, at the child of `parent`
    /// on the side `node_is_child`, which lacks one black node and is not
    /// red. `sibling` is the other child of `parent`, and `rotation`
    /// turns towards the lacking side. A red sibling is first replaced by
    /// a black one. Then, where the sibling has no red child, it is
    /// painted red and the parent is returned: it is the parent that may
    /// lack now. Otherwise one or two rotations give the black node back,
    /// and the root is returned.
    pub(super) fn delete_fixup_subtree(
        &mut self,
        repo: &mut R,
        parent: &u32,
        sibling: &Option<NodeColor>,
        rotation: &Rotation,
        node_is_child: &Child,
    ) -> (r: Option<NodeColor>)
        requires
            lacking(
                old(repo).view(),
                old(self).labels@,
                old(self).order@,
                old(self).root,
                child_of(old(repo).view()[*parent], *node_is_child),
                Some(*parent),
                *node_is_child,
            ),
            !is_red(old(repo).view(), child_of(old(repo).view()[*parent], *node_is_child)),
            lifted_side(*rotation) == node_is_child.flipped(),
            match *sibling {
                Some(s) => Some(s.id) == child_of(
                    old(repo).view()[*parent],
                    node_is_child.flipped(),
                ) && s.color == old(repo).view()[s.id].color,
                None => false,
            },
        ensures
            (final(repo).view(), final(self).root, r.unwrap().id) == settle_step(
                old(repo).view(),
                old(self).root,
                *parent,
                *node_is_child,
            ),
            r.is_some(),
            lacking(
                final(repo).view(),
                final(self).labels@,
                final(self).order@,
                final(self).root,
                Some(r.unwrap().id),
                final(repo).view()[r.unwrap().id].parent,
                side_of(final(repo).view(), r.unwrap().id),
            ),
            r.unwrap().color == final(repo).view()[r.unwrap().id].color,
            span_of(final(self).labels@, Some(r.unwrap().id)) > span_of(
                old(self).labels@,
                child_of(old(repo).view()[*parent], *node_is_child),
            ),
            keys_of(final(repo).view(), final(self).order@) == keys_of(
                old(repo).view(),
                old(self).order@,
            ),
            final(repo).view().dom() == old(repo).view().dom(),
            final(self).order@ == old(self).order@,
            final(self).length == old(self).length,
            final(self).id_counter == old(self).id_counter,
    {
        let ghost m0 = repo.view();
        let ghost root0 = self.root;
        let ghost side = *node_is_child;
        let first = match sibling {
            Some(s) => *s,
            None => { return None; },
        };
        proof {
            assert(*rotation == toward(side));
        }
        let sibling_id = if first.color == Color::Red {
            self.settle_red_sibling(repo, parent, &first.id, rotation, node_is_child)
        } else {
            first.id
        };
        proof {
            assert((repo.view(), self.root) == past_red_sibling(m0, root0, *parent, side));
        }
        self.settle_black_sibling(repo, parent, &sibling_id, rotation, node_is_child)
    }

    /// Restores the balance rules after a black node was taken out from
    /// under `parent` on the side `side`, where `node` now stands (it may
    /// be absent).
    pub(super) fn delete_fixup(
        &mut self,
        repo: &mut R,
        node: &Option<u32>,
        parent: &Option<u32>,
        side: &Child,
    )
        requires
            lacking(
                old(repo).view(),
                old(self).labels@,
                old(self).order@,
                old(self).root,
                *node,
                *parent,
                *side,
            ),
        ensures
            (final(repo).view(), final(self).root) == settled(
                old(repo).view(),
                old(self).root,
                *node,
                *parent,
                *side,
                old(self).order@.len() + 1,
            ),
            is_red(old(repo).view(), *node) ==> final(repo).view() == painted(
                old(repo).view(),
                node.unwrap(),
                Color::Black,
            ) && final(self).root == old(self).root,
            shape(final(repo).view(), final(self).labels@, final(self).order@, final(self).root),
            heights(final(repo).view(), final(self).labels@),
            reds(final(repo).view(), None),
            root_black(final(repo).view(), final(self).root),
            keys_of(final(repo).view(), final(self).order@) == keys_of(
                old(repo).view(),
                old(self).order@,
            ),
            final(repo).view().dom() == old(repo).view().dom(),
            final(self).order@ == old(self).order@,
            final(self).length == old(self).length,
            final(self).id_counter == old(self).id_counter,
    {
        let mut cur: Option<u32> = *node;
        let mut par: Option<u32> = *parent;
        let mut sd: Child = *side;
        let mut climbing: bool = true;
        let ghost mut fuel: nat = self.order@.len() + 1;
        let ghost goal = settled(repo.view(), self.root, cur, par, sd, fuel);
        proof {
            if cur.is_some() {
                assert(links_ok(repo.view(), self.labels@, self.order@, self.root, cur.unwrap()));
            }
        }
        while climbing
            invariant
                lacking(repo.view(), self.labels@, self.order@, self.root, cur, par, sd),
                !climbing ==> is_red(repo.view(), cur) || self.root == cur,
                climbing ==> settled(repo.view(), self.root, cur, par, sd, fuel) == goal && fuel
                    >= self.order@.len() - span_of(self.labels@, cur) + 1,
                !climbing ==> (blackened(absorbed(repo.view(), cur), self.root), self.root) == goal,
                goal == settled(
                    old(repo).view(),
                    old(self).root,
                    *node,
                    *parent,
                    *side,
                    old(self).order@.len() + 1,
                ),
                is_red(old(repo).view(), *node) ==> repo.view() == old(repo).view() && cur == *node
                    && self.root == old(self).root,
                keys_of(repo.view(), self.order@) == keys_of(old(repo).view(), old(self).order@),
                repo.view().dom() == old(repo).view().dom(),
                self.order@ == old(self).order@,
                self.length == old(self).length,
                self.id_counter == old(self).id_counter,
            decreases
                    (if climbing {
                        self.order@.len() - span_of(self.labels@, cur) + 1
                    } else {
                        0
                    }),
        {
            let ghost m = repo.view();
            let ghost lab = self.labels@;
            proof {
                if cur.is_some() {
                    assert(links_ok(m, lab, self.order@, self.root, cur.unwrap()));
                }
            }
            let cur_red = match cur {
                Some(c) => match repo.get(&c) {
                    Some(rec) => *rec.color() == Color::Red,
                    None => false,
                },
                None => false,
            };
            let at_root = match cur {
                Some(c) => Self::node_is(&c, &self.root),
                None => self.root.is_none(),
            };
            if cur_red || at_root {
                proof {
                    assert(!to_settle(m, self.root, cur, par));
                }
                climbing = false;
            } else {
                let p = match par {
                    Some(p) => p,
                    None => { return ; },
                };
                proof {
                    lemma_sibling(m, lab, self.order@, self.root, cur, p, sd);
                    assert(links_ok(m, lab, self.order@, self.root, p));
                }
                let (link, rotation) = match repo.get(&p) {
                    Some(rec) => match sd {
                        Child::Left => (rec.right_child(), Rotation::Left),
                        Child::Right => (rec.left_child(), Rotation::Right),
                    },
                    None => (None, Rotation::Left),
                };
                let sibling = match link {
                    Some(s) => match repo.get(&s) {
                        Some(rec) => Some(NodeColor::new(&s, rec.color())),
                        None => None,
                    },
                    None => None,
                };
                proof {
                    assert(to_settle(m, self.root, cur, par));
                    assert(child_of(m[p], sd) == cur);
                }
                let next = self.delete_fixup_subtree(repo, &p, &sibling, &rotation, &sd);
                proof {
                    fuel = (fuel - 1) as nat;
                }
                let next_id = match next {
                    Some(n) => n.id,
                    None => { return ; },
                };
                proof {
                    assert(links_ok(repo.view(), self.labels@, self.order@, self.root, next_id));
                }
                cur = Some(next_id);
                par = match repo.get(&next_id) {
                    Some(rec) => rec.parent(),
                    None => None,
                };
                sd = match Self::node_is_child(repo, &next_id) {
                    Some(s) => s,
                    None => Child::Left,
                };
            }
        }
        let ghost last = repo.view();
        proof {
            lemma_settled(last, self.labels@, self.order@, self.root, cur, par, sd);
        }
        match cur {
            Some(c) => {
                proof {
                    self.labels@ = leveled(
                        self.labels@,
                        c,
                        bhc(self.labels@, repo.view()[c].left) + 1,
                    );
                }
                Self::paint(repo, &c, &Color::Black);
            },
            None => {},
        }
        if let Some(root) = self.root {
            let ghost before = repo.view();
            Self::paint(repo, &root, &Color::Black);
            proof {
                assert(repo.view() =~= before);
            }
        }
        proof {
            assert(repo.view() == absorbed(last, cur));
            assert(blackened(absorbed(last, cur), self.root) =~= absorbed(last, cur));
        }
    }

    /// Unlinks the node that leaves the tree when `target` is deleted
    /// and takes its record out of the store: `target` itself where it
    /// has at most one child, else the node that follows it in the
    /// traversal, whose key `target` takes over. Handed out are the
    /// unlinked node with its colour, the child that took its place, and
    /// the parent and the side under which it hung.
    #[verifier::rlimit(50)]
    pub(super) fn unlink(&mut self, repo: &mut R, target: &u32) -> (res: (
        NodeColor,
        Option<u32>,
        Option<u32>,
        Child,
    ))
        requires
            shape(old(repo).view(), old(self).labels@, old(self).order@, old(self).root),
            heights(old(repo).view(), old(self).labels@),
            reds(old(repo).view(), None),
            root_black(old(repo).view(), old(self).root),
            old(repo).view().contains_key(*target),
        ensures
            ({
                let m = old(repo).view();
                let lab = old(self).labels@;
                let ord = old(self).order@;
                let y = unlinked(m, ord, *target);
                let m1 = rekeyed(m, ord, *target);
                let x = only_child(m1, y);
                &&& res.0.id == y
                &&& res.0.color == m[y].color
                &&& res.1 == x
                &&& res.2 == m1[y].parent
                &&& res.3 == side_of(m1, y)
                &&& m.contains_key(y)
                &&& ord.remove_value(y) == ord.remove(lab(y).idx)
                &&& final(repo).view() == spliced(m1, y)
                &&& final(repo).view().dom() == m.dom().remove(y)
                &&& final(self).root == replaced_root(m1, old(self).root, y, x)
                &&& final(self).order@ == ord.remove(lab(y).idx)
                &&& final(self).labels@ == closed_up(lab, lab(y).idx)
                &&& 0 <= lab(*target).idx < ord.len()
                &&& keys_of(final(repo).view(), final(self).order@) == keys_of(m, ord).remove(
                    lab(*target).idx,
                )
                &&& shape(
                    final(repo).view(),
                    final(self).labels@,
                    final(self).order@,
                    final(self).root,
                )
                &&& (m[y].color == Color::Red ==> heights(final(repo).view(), final(self).labels@)
                    && reds(final(repo).view(), None) && root_black(
                    final(repo).view(),
                    final(self).root,
                ))
                &&& (m[y].color == Color::Black ==> lacking(
                    final(repo).view(),
                    final(self).labels@,
                    final(self).order@,
                    final(self).root,
                    x,
                    m1[y].parent,
                    side_of(m1, y),
                ))
            }),
            final(self).length == old(self).length,
            final(self).id_counter == old(self).id_counter,
    {
        let ghost m = repo.view();
        let ghost lab = self.labels@;
        let ghost ord = self.order@;
        let ghost root = self.root;
        let ghost ks = keys_of(m, ord);
        let target = *target;
        let ghost q = lab(target).idx;
        proof {
            assert(links_ok(m, lab, ord, root, target));
            lemma_place(m, lab, ord, root, target);
            if m[target].left.is_some() {
                assert(links_ok(m, lab, ord, root, m[target].left.unwrap()));
            }
            if m[target].right.is_some() {
                assert(links_ok(m, lab, ord, root, m[target].right.unwrap()));
            }
        }
        let target_color = match repo.get(&target) {
            Some(rec) => *rec.color(),
            None => Color::Black,
        };
        let mut deleted = NodeColor::new(&target, &target_color);
        let replacement: Option<u32>;
        match Self::get_if_one_child(repo, &target) {
            Some(child_id) => {
                replacement = Some(child_id);
            },
            None => {
                let right_child = match repo.get(&target) {
                    Some(rec) => rec.right_child(),
                    None => None,
                };
                match self.tree_minimum(repo, right_child) {
                    Some(next_id) => {
                        let got = match repo.get(&next_id) {
                            Some(rec) => Some((rec.key(), *rec.color(), rec.right_child())),
                            None => None,
                        };
                        match got {
                            Some((next_key, next_color, next_child)) => {
                                proof {
                                    assert(links_ok(m, lab, ord, root, next_id));
                                    lemma_write_key(m, lab, ord, root, target, next_key);
                                    assert(ks[q + 1] == next_key);
                                    assert(ord[q + 1] == next_id);
                                }
                                match repo.get_mut(&target) {
                                    Some(rec) => rec.set_key(&next_key),
                                    None => {},
                                }
                                deleted = NodeColor::new(&next_id, &next_color);
                                replacement = next_child;
                            },
                            None => {
                                replacement = None;
                            },
                        }
                    },
                    None => {
                        replacement = None;
                    },
                }
            },
        }
        let ghost m1 = repo.view();
        let ghost y = deleted.id;
        let ghost at = lab(y).idx;
        proof {
            assert(y == unlinked(m, ord, target));
            assert(m1 == rekeyed(m, ord, target));
            assert(m1.contains_key(y));
            assert(replacement == only_child(m1, y));
            assert(m1[y].left.is_none() || m1[y].right.is_none());
            assert(shape(m1, lab, ord, root));
            lemma_splice(m1, lab, ord, root, y);
            assert(keys_of(m1, ord).remove(at) =~= ks.remove(q));
            assert(links_ok(m1, lab, ord, root, y));
            if m1[y].parent.is_some() {
                assert(links_ok(m1, lab, ord, root, m1[y].parent.unwrap()));
            }
            lemma_place(m, lab, ord, root, y);
            ord.index_of_first_ensures(y);
        }
        let fix_parent = match repo.get(&deleted.id) {
            Some(rec) => rec.parent(),
            None => None,
        };
        let fix_side = match Self::node_is_child(repo, &deleted.id) {
            Some(s) => s,
            None => Child::Left,
        };
        self.replace(repo, &deleted.id, &replacement);
        repo.remove(&deleted.id);
        proof {
            self.order@ = ord.remove(at);
            self.labels@ = closed_up(lab, at);
        }
        (deleted, replacement, fix_parent, fix_side)
    }

    /// Takes out one node with the key `value`, if there is one, and says
    /// whether there was. A node with two children is not unlinked
    /// itself: it takes over the key of the node that follows it in the
    /// traversal, and that node is unlinked in its stead.
    #[verifier::rlimit(50)]
    pub fn delete(&mut self, repo: &mut R, value: T) -> (found: bool)
        requires
            old(self).wf(old(repo)),
        ensures
            final(self).wf(final(repo)),
            found == old(self).keys(old(repo)).contains(value),
            final(self).keys(final(repo)) == old(self).keys(old(repo)).remove_value(value),
            final(self).ids_issued() == old(self).ids_issued(),
            found ==> final(self).spec_len() == old(self).spec_len() - 1,
            found ==> final(self).keys(final(repo)).to_multiset() == old(self).keys(
                old(repo),
            ).to_multiset().remove(value),
            found ==> exists|way: Seq<u32>|
                {
                    let gone = unlinked(old(repo).view(), old(self).ids(), way.last());
                    &&& #[trigger] search_way(old(repo).view(), old(self).root_id(), value, way)
                    &&& old(repo).view()[way.last()].key == value
                    &&& old(repo).view().contains_key(gone)
                    &&& final(repo).view().dom() == old(repo).view().dom().remove(gone)
                    &&& final(self).ids() == old(self).ids().remove_value(gone)
                    &&& (final(repo).view(), final(self).root_id()) == deleted_at(
                        old(repo).view(),
                        old(self).ids(),
                        old(self).root_id(),
                        way.last(),
                    )
                },
            !found ==> *final(self) == *old(self) && final(repo).view() == old(repo).view()
                && final(self).keys(final(repo)) == old(self).keys(old(repo)),
    {
        let ghost m = repo.view();
        let ghost lab = self.labels@;
        let ghost ord = self.order@;
        let ghost root = self.root;
        let ghost ks = keys_of(m, ord);
        let target = match self.find_node(repo, value) {
            Some(node) => *node.id(),
            None => {
                proof {
                    ks.index_of_first_ensures(value);
                }
                return false;
            },
        };
        let ghost way = choose|way: Seq<u32>|
            #[trigger] search_way(m, root, value, way) && way.last() == target;
        let ghost q = lab(target).idx;
        proof {
            assert(links_ok(m, lab, ord, root, target));
            assert(ks[q] == value);
            lemma_remove_any_occurrence(ks, value, q);
            lemma_remove_keeps_sorted(ks, q);
            to_multiset_remove(ks, q);
        }
        let (deleted, replacement, fix_parent, fix_side) = self.unlink(repo, &target);
        if deleted.color == Color::Black {
            self.delete_fixup(repo, &replacement, &fix_parent, &fix_side);
        }
        self.dec_len();
        proof {
            let y = deleted.id;
            assert forall|n: u32| #[trigger] repo.view().contains_key(n) implies 1 <= n
                <= self.id_counter by {
                assert(m.contains_key(n));
            }
            assert(m.contains_key(y) && repo.view().dom() == m.dom().remove(y));
            assert(y == unlinked(m, ord, way.last()));
            assert((repo.view(), self.root) == deleted_at(m, ord, root, target));
        }
        true
    }
}

} // verus!
