use vstd::prelude::*;
use crate::node::Color;
use super::insert::uncle_of;
use super::inv::{is_red, Store};
use super::mend::{lifted_over, painted, pushed};
use super::rotate::{child_of, rotated};
use super::settle::{far_red, near_red, sib_red};
use super::shrink::side_of;
use super::{Child, Rotation};

verus! {

/// The rotation that lifts a child on the side `side` over its parent.
pub open spec fn lifting(side: Child) -> Rotation {
    match side {
        Child::Left => Rotation::Right,
        Child::Right => Rotation::Left,
    }
}

/// The rotation that turns a parent down towards its child on the side
/// `side`.
pub open spec fn toward(side: Child) -> Rotation {
    match side {
        Child::Left => Rotation::Left,
        Child::Right => Rotation::Right,
    }
}

/// The store with the root painted black.
pub open spec fn blackened<T>(m: Store<T>, root: Option<u32>) -> Store<T> {
    match root {
        Some(r) => painted(m, r, Color::Black),
        None => m,
    }
}

/// The three ways in which one step repairs a red node `cur` under a red
/// parent.
pub enum Mend {
    /// The uncle is red: parent and uncle turn black, the grandparent red.
    Recolor,
    /// The uncle is not red and `cur` hangs on the same side as its
    /// parent: the parent turns black, the grandparent red and is rotated
    /// under the parent.
    Outer,
    /// The uncle is not red and `cur` hangs on the other side: the parent
    /// is first rotated under `cur`, which then takes the parent's part.
    Inner,
}

/// Which of the three ways applies to `cur`.
pub open spec fn mend_case<T>(m: Store<T>, cur: u32) -> Mend {
    let p = m[cur].parent.unwrap();
    if is_red(m, uncle_of(m, cur)) {
        Mend::Recolor
    } else if side_of(m, p) == side_of(m, cur) {
        Mend::Outer
    } else {
        Mend::Inner
    }
}

/// The store after one step of the repair of the red node `cur` under a
/// red parent.
pub open spec fn mend_step<T>(m: Store<T>, cur: u32) -> Store<T> {
    let p = m[cur].parent.unwrap();
    let g = m[p].parent.unwrap();
    let d = lifting(side_of(m, cur));
    match mend_case(m, cur) {
        Mend::Recolor => pushed(m, p, uncle_of(m, cur).unwrap(), g),
        Mend::Outer => lifted_over(m, p, g, d),
        Mend::Inner => lifted_over(rotated(m, p, d), cur, g, d.flipped()),
    }
}

/// The node at which the repair goes on after the step: the grandparent,
/// or the node on top of the rotated three.
pub open spec fn mend_next<T>(m: Store<T>, cur: u32) -> u32 {
    let p = m[cur].parent.unwrap();
    match mend_case(m, cur) {
        Mend::Recolor => m[p].parent.unwrap(),
        Mend::Outer => p,
        Mend::Inner => cur,
    }
}

/// The root after the step: the node on top of the rotated three where
/// the grandparent was the root.
pub open spec fn mend_root<T>(m: Store<T>, root: Option<u32>, cur: u32) -> Option<u32> {
    let p = m[cur].parent.unwrap();
    let g = m[p].parent.unwrap();
    match mend_case(m, cur) {
        Mend::Recolor => root,
        _ => if m[g].parent.is_none() {
            Some(mend_next(m, cur))
        } else {
            root
        },
    }
}

/// Whether the repair after an insertion goes on at `cur`: it is red
/// under a red parent.
pub open spec fn to_mend<T>(m: Store<T>, cur: u32) -> bool {
    &&& m[cur].color == Color::Red
    &&& m[cur].parent.is_some()
    &&& m[m[cur].parent.unwrap()].color == Color::Red
}

/// Store and root after the whole repair that starts at the red node
/// `cur`: steps as long as `cur` is red under a red parent, at most
/// `fuel` of them, and then the root painted black.
pub open spec fn mended<T>(m: Store<T>, root: Option<u32>, cur: u32, fuel: nat) -> (
    Store<T>,
    Option<u32>,
)
    decreases fuel,
{
    if fuel == 0 || !to_mend(m, cur) {
        (blackened(m, root), root)
    } else {
        mended(mend_step(m, cur), mend_root(m, root, cur), mend_next(m, cur), (fuel - 1) as nat)
    }
}

/// Store and root once the sibling of the lacking child of `p` on the
/// side `side` is black: a red sibling is made black, the parent red and
/// rotated towards the lacking side; a black one is left as it is.
pub open spec fn past_red_sibling<T>(m: Store<T>, root: Option<u32>, p: u32, side: Child) -> (
    Store<T>,
    Option<u32>,
) {
    let s = child_of(m[p], side.flipped()).unwrap();
    if m[s].color == Color::Red {
        (
            rotated(sib_red(m, p, s), p, toward(side)),
            if m[p].parent.is_none() {
                Some(s)
            } else {
                root
            },
        )
    } else {
        (m, root)
    }
}

/// Store and sibling once the far child of the black sibling is red: a
/// red near nephew beside a far one that is not red is made black, the
/// sibling red and rotated under it, so that the nephew is the sibling.
pub open spec fn past_near_nephew<T>(m: Store<T>, p: u32, side: Child) -> (Store<T>, u32) {
    let s = child_of(m[p], side.flipped()).unwrap();
    let near = child_of(m[s], side);
    if !is_red(m, child_of(m[s], side.flipped())) {
        (rotated(near_red(m, s, near.unwrap()), s, toward(side).flipped()), near.unwrap())
    } else {
        (m, s)
    }
}

/// Store, root and next position after the step at the child of `p` on
/// the side `side` beside a black sibling. Where the sibling has no red
/// child, it turns red and the parent is the next position. Otherwise,
/// the far nephew being red or made so, the sibling takes the parent's
/// colour, parent and far nephew turn black, the parent is rotated
/// towards the lacking side, and the root is the next position.
pub open spec fn settle_rest<T>(m: Store<T>, root: Option<u32>, p: u32, side: Child) -> (
    Store<T>,
    Option<u32>,
    u32,
) {
    let s = child_of(m[p], side.flipped()).unwrap();
    if !is_red(m, m[s].left) && !is_red(m, m[s].right) {
        (painted(m, s, Color::Red), root, p)
    } else {
        let (m2, s2) = past_near_nephew(m, p, side);
        let far = child_of(m2[s2], side.flipped()).unwrap();
        let top = if m2[p].parent.is_none() {
            Some(s2)
        } else {
            root
        };
        (rotated(far_red(m2, p, s2, far), p, toward(side)), top, top.unwrap())
    }
}

/// Store, root and next position after one step of the repair at the
/// child of `p` on the side `side`, which lacks a black node and is not
/// red: first the sibling is made black, then the step beside a black
/// sibling is taken.
pub open spec fn settle_step<T>(m: Store<T>, root: Option<u32>, p: u32, side: Child) -> (
    Store<T>,
    Option<u32>,
    u32,
) {
    let (m1, root1) = past_red_sibling(m, root, p, side);
    settle_rest(m1, root1, p, side)
}

/// Whether the repair after a deletion goes on at the position `cur`
/// under `par`: it is not the root and not red.
pub open spec fn to_settle<T>(
    m: Store<T>,
    root: Option<u32>,
    cur: Option<u32>,
    par: Option<u32>,
) -> bool {
    &&& !is_red(m, cur)
    &&& cur != root
    &&& par.is_some()
}

/// The store with the node at the position `cur`, if there is one,
/// painted black.
pub open spec fn absorbed<T>(m: Store<T>, cur: Option<u32>) -> Store<T> {
    match cur {
        Some(c) => painted(m, c, Color::Black),
        None => m,
    }
}

/// Store and root after the whole repair that starts at the position
/// `cur`, the child of `par` on the side `side`: steps as long as the
/// position is neither the root nor red, at most `fuel` of them; then
/// the node at the position and the root are painted black.
pub open spec fn settled<T>(
    m: Store<T>,
    root: Option<u32>,
    cur: Option<u32>,
    par: Option<u32>,
    side: Child,
    fuel: nat,
) -> (Store<T>, Option<u32>)
    decreases fuel,
{
    if fuel == 0 || !to_settle(m, root, cur, par) {
        (blackened(absorbed(m, cur), root), root)
    } else {
        let (m2, root2, next) = settle_step(m, root, par.unwrap(), side);
        settled(m2, root2, Some(next), m2[next].parent, side_of(m2, next), (fuel - 1) as nat)
    }
}

} // verus!
