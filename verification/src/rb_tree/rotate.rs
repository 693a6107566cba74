use vstd::prelude::*;
use crate::node::{Color, NodeView, Operations};
use crate::order::TotalOrder;
use crate::repo::{parent_of, Repository};
use super::inv::{keys_of, links_ok, shape, Label, Labels, Store};
use super::{Child, RedBlackTree, Rotation};

verus! {

pub open spec fn child_of<T>(v: NodeView<T>, s: Child) -> Option<u32> {
    match s {
        Child::Left => v.left,
        Child::Right => v.right,
    }
}

pub open spec fn with_child<T>(v: NodeView<T>, s: Child, c: Option<u32>) -> NodeView<T> {
    match s {
        Child::Left => NodeView { left: c, ..v },
        Child::Right => NodeView { right: c, ..v },
    }
}

/// The side of the child that a rotation lifts over its parent.
pub open spec fn lifted_side(d: Rotation) -> Child {
    match d {
        Rotation::Left => Child::Right,
        Rotation::Right => Child::Left,
    }
}

pub open spec fn can_rotate<T>(m: Store<T>, x: u32, d: Rotation) -> bool {
    m.contains_key(x) && child_of(m[x], lifted_side(d)).is_some()
}

/// The child that the rotation of `x` lifts into the place of `x`.
pub open spec fn lifted<T>(m: Store<T>, x: u32, d: Rotation) -> u32 {
    child_of(m[x], lifted_side(d)).unwrap()
}

/// The store after the rotation of `x`: the lifted child takes the place
/// of `x` under the parent of `x`, `x` becomes its child on the side that
/// `d` names, and its former child on that side moves under `x`.
pub open spec fn rotated<T>(m: Store<T>, x: u32, d: Rotation) -> Store<T> {
    let s = lifted_side(d);
    let y = lifted(m, x, d);
    let b = child_of(m[y], s.flipped());
    let p = m[x].parent;
    Map::new(
        |n: u32| m.contains_key(n),
        |n: u32|
            if n == x {
                NodeView { parent: Some(y), ..with_child(m[x], s, b) }
            } else if n == y {
                NodeView { parent: p, ..with_child(m[y], s.flipped(), Some(x)) }
            } else if Some(n) == b {
                NodeView { parent: Some(x), ..m[n] }
            } else if Some(n) == p {
                if m[n].left == Some(x) {
                    NodeView { left: Some(y), ..m[n] }
                } else {
                    NodeView { right: Some(y), ..m[n] }
                }
            } else {
                m[n]
            },
    )
}

/// The stretches of the traversal after the rotation of `x`: the lifted
/// child takes over the stretch of `x`, and `x` keeps what lies on its own
/// side of the lifted child. No place in the traversal changes.
pub open spec fn rotated_labels<T>(m: Store<T>, lab: Labels, x: u32, d: Rotation) -> Labels {
    let y = lifted(m, x, d);
    |n: u32|
        if n == x {
            match d {
                Rotation::Left => Label { hi: lab(y).idx, ..lab(x) },
                Rotation::Right => Label { lo: lab(y).idx + 1, ..lab(x) },
            }
        } else if n == y {
            match d {
                Rotation::Left => Label { lo: lab(x).lo, ..lab(y) },
                Rotation::Right => Label { hi: lab(x).hi, ..lab(y) },
            }
        } else {
            lab(n)
        }
}

pub open spec fn rotated_root<T>(m: Store<T>, root: Option<u32>, x: u32, d: Rotation) -> Option<u32> {
    if m[x].parent.is_none() {
        Some(lifted(m, x, d))
    } else {
        root
    }
}

/// The nodes that a rotation touches are four different ones.
pub proof fn lemma_rotate_distinct<T>(
    m: Store<T>,
    lab: Labels,
    ord: Seq<u32>,
    root: Option<u32>,
    x: u32,
    d: Rotation,
)
    requires
        shape(m, lab, ord, root),
        can_rotate(m, x, d),
    ensures
        ({
            let y = lifted(m, x, d);
            let b = child_of(m[y], lifted_side(d).flipped());
            let p = m[x].parent;
            &&& m.contains_key(y)
            &&& y != x
            &&& m[y].parent == Some(x)
            &&& b != Some(x)
            &&& b != Some(y)
            &&& p != Some(x)
            &&& p != Some(y)
            &&& (b.is_some() ==> p != b && m.contains_key(b.unwrap()) && m[b.unwrap()].parent
                == Some(y))
            &&& (p.is_some() ==> m.contains_key(p.unwrap()) && (m[p.unwrap()].left == Some(x)
                || m[p.unwrap()].right == Some(x)) && m[p.unwrap()].left != Some(y)
                && m[p.unwrap()].right != Some(y))
            &&& (p.is_none() ==> root == Some(x))
        }),
{
    let s = lifted_side(d);
    let y = lifted(m, x, d);
    let b = child_of(m[y], s.flipped());
    let p = m[x].parent;
    assert(links_ok(m, lab, ord, root, x));
    assert(links_ok(m, lab, ord, root, y));
    if b.is_some() {
        assert(links_ok(m, lab, ord, root, b.unwrap()));
    }
    if p.is_some() {
        assert(links_ok(m, lab, ord, root, p.unwrap()));
    }
}

#[verifier::rlimit(50)]
proof fn lemma_rotate_node<T>(
    m: Store<T>,
    lab: Labels,
    ord: Seq<u32>,
    root: Option<u32>,
    x: u32,
    d: Rotation,
    n: u32,
)
    requires
        shape(m, lab, ord, root),
        can_rotate(m, x, d),
        m.contains_key(n),
    ensures
        links_ok(rotated(m, x, d), rotated_labels(m, lab, x, d), ord, rotated_root(m, root, x, d), n),
{
    let s = lifted_side(d);
    let y = lifted(m, x, d);
    let b = child_of(m[y], s.flipped());
    let p = m[x].parent;
    let m2 = rotated(m, x, d);
    let lab2 = rotated_labels(m, lab, x, d);
    let root2 = rotated_root(m, root, x, d);
    lemma_rotate_distinct(m, lab, ord, root, x, d);
    assert(links_ok(m, lab, ord, root, x));
    assert(links_ok(m, lab, ord, root, y));
    assert(links_ok(m, lab, ord, root, n));
    if b.is_some() {
        assert(links_ok(m, lab, ord, root, b.unwrap()));
    }
    if p.is_some() {
        assert(links_ok(m, lab, ord, root, p.unwrap()));
    }
    if n == x {
        assert(links_ok(m2, lab2, ord, root2, n));
    } else if n == y {
        assert(links_ok(m2, lab2, ord, root2, n));
    } else if Some(n) == b {
        assert(links_ok(m2, lab2, ord, root2, n));
    } else if Some(n) == p {
        assert(links_ok(m2, lab2, ord, root2, n));
    } else {
        assert(m2[n] == m[n]);
        assert(lab2(n) == lab(n));
        match m[n].left {
            Some(c) => {
                assert(c != x && c != y && Some(c) != b);
                assert(m2[c].parent == m[c].parent);
            },
            None => {},
        }
        match m[n].right {
            Some(c) => {
                assert(c != x && c != y && Some(c) != b);
                assert(m2[c].parent == m[c].parent);
            },
            None => {},
        }
        match m[n].parent {
            Some(q) => {
                assert(m2[q].left == Some(n) || m2[q].right == Some(n));
            },
            None => {},
        }
        assert(links_ok(m2, lab2, ord, root2, n));
    }
}

/// A rotation keeps the shape of the tree and the traversal.
pub proof fn lemma_rotate_shape<T>(
    m: Store<T>,
    lab: Labels,
    ord: Seq<u32>,
    root: Option<u32>,
    x: u32,
    d: Rotation,
)
    requires
        shape(m, lab, ord, root),
        can_rotate(m, x, d),
    ensures
        shape(rotated(m, x, d), rotated_labels(m, lab, x, d), ord, rotated_root(m, root, x, d)),
        keys_of(rotated(m, x, d), ord) == keys_of(m, ord),
        rotated(m, x, d).dom() == m.dom(),
{
    let m2 = rotated(m, x, d);
    let lab2 = rotated_labels(m, lab, x, d);
    let root2 = rotated_root(m, root, x, d);
    lemma_rotate_distinct(m, lab, ord, root, x, d);
    assert(m2.dom() =~= m.dom());
    assert forall|n: u32| m2.contains_key(n) implies #[trigger] links_ok(m2, lab2, ord, root2, n) by {
        lemma_rotate_node(m, lab, ord, root, x, d, n);
    }
    assert forall|i: int| 0 <= i < ord.len() implies m2.contains_key(#[trigger] ord[i]) && lab2(
        ord[i],
    ).idx == i by {
        assert(m.contains_key(ord[i]));
    }
    assert(keys_of(m2, ord) =~= keys_of(m, ord)) by {
        assert forall|i: int| 0 <= i < ord.len() implies m2[ord[i]].key == m[ord[i]].key by {
            assert(m.contains_key(ord[i]));
        }
    }
    assert(links_ok(m, lab, ord, root, x));
    assert(links_ok(m, lab, ord, root, lifted(m, x, d)));
}

/// The three relatives that a rotation relinks.
pub struct Relative {
    pub parent: Option<u32>,
    pub child: u32,
    pub grandchild: Option<u32>,
}

impl<R: Repository<T>, T: TotalOrder> RedBlackTree<R, T> {
    /// Recolours the record `id`.
    pub(super) fn paint(repo: &mut R, id: &u32, color: &Color)
        requires
            old(repo).view().contains_key(*id),
        ensures
            final(repo).view() == old(repo).view().insert(
                *id,
                NodeView { color: *color, ..old(repo).view()[*id] },
            ),
    {
        match repo.get_mut(id) {
            Some(n) => n.set_color(color),
            None => {},
        }
    }

    /// Points the record `id` at another parent.
    pub(super) fn link_parent(repo: &mut R, id: &u32, parent: &Option<u32>)
        requires
            old(repo).view().contains_key(*id),
        ensures
            final(repo).view() == old(repo).view().insert(
                *id,
                NodeView { parent: *parent, ..old(repo).view()[*id] },
            ),
    {
        match repo.get_mut(id) {
            Some(n) => n.set_parent(parent),
            None => {},
        }
    }

    /// Points the record `id` at another child on the side `side`.
    pub(super) fn link_child(repo: &mut R, id: &u32, side: &Child, child: &Option<u32>)
        requires
            old(repo).view().contains_key(*id),
        ensures
            final(repo).view() == old(repo).view().insert(
                *id,
                with_child(old(repo).view()[*id], *side, *child),
            ),
    {
        match repo.get_mut(id) {
            Some(n) => {
                match side {
                    Child::Left => n.set_left_child(child),
                    Child::Right => n.set_right_child(child),
                }
            },
            None => {},
        }
    }

    /// Whether `other` names `node`.
    pub(super) fn node_is(node: &u32, other: &Option<u32>) -> (b: bool)
        ensures
            b == (*other == Some(*node)),
    {
        match other {
            Some(n) => *n == *node,
            None => false,
        }
    }

    /// The side of its parent on which `node` hangs: left where the
    /// parent's left link names it, else right; nothing without a parent.
    pub(super) fn node_is_child(repo: &R, node: &u32) -> (r: Option<Child>)
        ensures
            r == (match parent_of(repo.view(), *node) {
                Some(p) => Some(
                    if repo.view()[p].left == Some(*node) {
                        Child::Left
                    } else {
                        Child::Right
                    },
                ),
                None => None,
            }),
    {
        match repo.get_parent(node) {
            Some(p) => {
                if Self::node_is(node, &p.left_child()) {
                    Some(Child::Left)
                } else {
                    Some(Child::Right)
                }
            },
            None => None,
        }
    }

    /// The rotation that lifts a child on the side `child`.
    pub(super) fn get_rotation(child: &Child) -> (r: Rotation)
        ensures
            lifted_side(r) == *child,
    {
        match child {
            Child::Left => Rotation::Right,
            Child::Right => Rotation::Left,
        }
    }

    pub(super) fn get_relatives(&self, repo: &R, node: &u32, rot: &Rotation) -> (r: Relative)
        requires
            shape(repo.view(), self.labels@, self.order@, self.root),
            can_rotate(repo.view(), *node, *rot),
        ensures
            r.parent == repo.view()[*node].parent,
            r.child == lifted(repo.view(), *node, *rot),
            r.grandchild == child_of(repo.view()[r.child], lifted_side(*rot).flipped()),
    {
        proof {
            lemma_rotate_distinct(repo.view(), self.labels@, self.order@, self.root, *node, *rot);
            assert(links_ok(repo.view(), self.labels@, self.order@, self.root, lifted(repo.view(), *node, *rot)));
        }
        let rec = repo.get(node).unwrap();
        let parent = rec.parent();
        match rot {
            Rotation::Left => {
                let child = rec.right_child().unwrap();
                let grandchild = match repo.get(&child) {
                    Some(n) => n.left_child(),
                    None => None,
                };
                Relative { parent, child, grandchild }
            },
            Rotation::Right => {
                let child = rec.left_child().unwrap();
                let grandchild = match repo.get(&child) {
                    Some(n) => n.right_child(),
                    None => None,
                };
                Relative { parent, child, grandchild }
            },
        }
    }

    /// Rotates `current` down in the direction `rotation`: its child on
    /// the other side takes its place. Colours and keys stay as they are.
    pub(super) fn rotate(&mut self, repo: &mut R, current: &u32, rotation: &Rotation)
        requires
            shape(old(repo).view(), old(self).labels@, old(self).order@, old(self).root),
            can_rotate(old(repo).view(), *current, *rotation),
        ensures
            final(repo).view() == rotated(old(repo).view(), *current, *rotation),
            final(self).labels@ == rotated_labels(
                old(repo).view(),
                old(self).labels@,
                *current,
                *rotation,
            ),
            final(self).root == rotated_root(old(repo).view(), old(self).root, *current, *rotation),
            final(self).order@ == old(self).order@,
            final(self).length == old(self).length,
            final(self).id_counter == old(self).id_counter,
            shape(final(repo).view(), final(self).labels@, final(self).order@, final(self).root),
            keys_of(final(repo).view(), final(self).order@) == keys_of(
                old(repo).view(),
                old(self).order@,
            ),
            final(repo).view().dom() == old(repo).view().dom(),
    {
        let ghost m = repo.view();
        let ghost lab = self.labels@;
        proof {
            lemma_rotate_distinct(m, lab, self.order@, self.root, *current, *rotation);
            lemma_rotate_shape(m, lab, self.order@, self.root, *current, *rotation);
        }
        let relative = self.get_relatives(repo, current, rotation);
        let side = match rotation {
            Rotation::Left => Child::Right,
            Rotation::Right => Child::Left,
        };
        let down = side.not();
        Self::link_child(repo, current, &side, &relative.grandchild);
        match relative.grandchild {
            Some(g) => Self::link_parent(repo, &g, &Some(*current)),
            None => {},
        }
        Self::link_parent(repo, &relative.child, &relative.parent);
        match relative.parent {
            None => {
                self.root = Some(relative.child);
            },
            Some(parent) => {
                let node_is = Self::node_is_child(repo, current);
                match node_is {
                    Some(Child::Left) => Self::link_child(
                        repo,
                        &parent,
                        &Child::Left,
                        &Some(relative.child),
                    ),
                    _ => Self::link_child(repo, &parent, &Child::Right, &Some(relative.child)),
                }
            },
        }
        Self::link_child(repo, &relative.child, &down, &Some(*current));
        Self::link_parent(repo, current, &Some(relative.child));
        proof {
            self.labels@ = rotated_labels(m, lab, *current, *rotation);
            assert(repo.view() =~= rotated(m, *current, *rotation));
        }
    }
}

} // verus!
