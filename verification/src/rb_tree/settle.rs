use vstd::prelude::*;
use crate::node::Color;
use super::inv::{
    bhc,
    height_ok,
    heights,
    is_red,
    keys_of,
    links_ok,
    red_ok,
    reds,
    root_black,
    shape,
    Labels,
    Store,
};
use super::mend::{lemma_shape_frame, leveled, painted};
use super::rotate::{
    can_rotate,
    child_of,
    lemma_rotate_distinct,
    lemma_rotate_shape,
    lifted_side,
    rotated,
    rotated_labels,
    rotated_root,
};
use super::shrink::{lacking, side_of};
use super::{Child, Rotation};

verus! {

/// The length of the stretch of the traversal below a link.
pub open spec fn span_of(lab: Labels, c: Option<u32>) -> int {
    match c {
        Some(i) => lab(i).hi - lab(i).lo,
        None => 0,
    }
}

/// The sibling of a position that lacks a black node is there.
pub proof fn lemma_sibling<T>(
    m: Store<T>,
    lab: Labels,
    ord: Seq<u32>,
    root: Option<u32>,
    cur: Option<u32>,
    p: u32,
    side: Child,
)
    requires
        lacking(m, lab, ord, root, cur, Some(p), side),
    ensures
        ({
            let s = child_of(m[p], side.flipped());
            &&& s.is_some()
            &&& s != cur
            &&& m.contains_key(s.unwrap())
            &&& s.unwrap() != p
            &&& m[s.unwrap()].parent == Some(p)
            &&& cur != Some(p)
            &&& span_of(lab, cur) < span_of(lab, Some(p))
            &&& span_of(lab, Some(p)) <= ord.len()
            &&& root != cur
        }),
{
    assert(links_ok(m, lab, ord, root, p));
    let s = child_of(m[p], side.flipped());
    assert(links_ok(m, lab, ord, root, s.unwrap()));
    if cur.is_some() {
        assert(links_ok(m, lab, ord, root, cur.unwrap()));
    }
    if root.is_some() {
        assert(links_ok(m, lab, ord, root, root.unwrap()));
    }
}

/// The store after the case of a red sibling: the sibling black, the
/// parent red and rotated down towards the lacking side.
pub open spec fn sib_red<T>(m: Store<T>, p: u32, s: u32) -> Store<T> {
    painted(painted(m, s, Color::Black), p, Color::Red)
}

pub open spec fn sib_red_labels(lab: Labels, p: u32, s: u32) -> Labels {
    leveled(leveled(lab, s, lab(s).bh + 1), p, (lab(p).bh - 1) as nat)
}

proof fn lemma_sib_red_heights<T>(
    m: Store<T>,
    lab: Labels,
    ord: Seq<u32>,
    root: Option<u32>,
    cur: Option<u32>,
    p: u32,
    side: Child,
    d: Rotation,
)
    requires
        lacking(m, lab, ord, root, cur, Some(p), side),
        !is_red(m, cur),
        lifted_side(d) == side.flipped(),
        is_red(m, child_of(m[p], side.flipped())),
    ensures
        ({
            let s = child_of(m[p], side.flipped()).unwrap();
            let m1 = sib_red(m, p, s);
            let lab1 = sib_red_labels(lab, p, s);
            let m2 = rotated(m1, p, d);
            let lab2 = rotated_labels(m1, lab1, p, d);
            let root2 = rotated_root(m1, root, p, d);
            forall|n: u32| m2.contains_key(n) && n != p ==> #[trigger] height_ok(
                m2,
                lab2,
                n,
            )
        }),
{
    let s = child_of(m[p], side.flipped()).unwrap();
    let m1 = sib_red(m, p, s);
    let lab1 = sib_red_labels(lab, p, s);
    let m2 = rotated(m1, p, d);
    let lab2 = rotated_labels(m1, lab1, p, d);
    let root2 = rotated_root(m1, root, p, d);
    lemma_sibling(m, lab, ord, root, cur, p, side);
    let near = child_of(m[s], side);
    let far = child_of(m[s], side.flipped());
    assert(links_ok(m, lab, ord, root, p));
    assert(links_ok(m, lab, ord, root, s));
    assert(height_ok(m, lab, s));
    assert(red_ok(m, s, cur));
    assert(red_ok(m, p, cur));
    if cur.is_some() {
        assert(links_ok(m, lab, ord, root, cur.unwrap()));
    }
    if near.is_some() {
        assert(links_ok(m, lab, ord, root, near.unwrap()));
        assert(height_ok(m, lab, near.unwrap()));
    }
    if far.is_some() {
        assert(links_ok(m, lab, ord, root, far.unwrap()));
    }
    if m[p].parent.is_some() {
        assert(links_ok(m, lab, ord, root, m[p].parent.unwrap()));
    }
    assert(m1.dom() =~= m.dom());
    lemma_shape_frame(m, lab, m1, lab1, ord, root);
    lemma_rotate_distinct(m1, lab1, ord, root, p, d);
    lemma_rotate_shape(m1, lab1, ord, root, p, d);
    assert forall|n: u32| m2.contains_key(n) && n != p implies #[trigger] height_ok(
        m2,
        lab2,
        n,
    ) by {
        assert(links_ok(m, lab, ord, root, n));
        if n == s {
        } else {
            assert(height_ok(m, lab, n));
        }
    }
}

proof fn lemma_sib_red_reds<T>(
    m: Store<T>,
    lab: Labels,
    ord: Seq<u32>,
    root: Option<u32>,
    cur: Option<u32>,
    p: u32,
    side: Child,
    d: Rotation,
)
    requires
        lacking(m, lab, ord, root, cur, Some(p), side),
        !is_red(m, cur),
        lifted_side(d) == side.flipped(),
        is_red(m, child_of(m[p], side.flipped())),
    ensures
        ({
            let s = child_of(m[p], side.flipped()).unwrap();
            let m1 = sib_red(m, p, s);
            let lab1 = sib_red_labels(lab, p, s);
            let m2 = rotated(m1, p, d);
            let lab2 = rotated_labels(m1, lab1, p, d);
            let root2 = rotated_root(m1, root, p, d);
            forall|n: u32| m2.contains_key(n) && Some(n) != cur ==> #[trigger] red_ok(
                m2,
                n,
                cur,
            )
        }),
{
    let s = child_of(m[p], side.flipped()).unwrap();
    let m1 = sib_red(m, p, s);
    let lab1 = sib_red_labels(lab, p, s);
    let m2 = rotated(m1, p, d);
    let lab2 = rotated_labels(m1, lab1, p, d);
    let root2 = rotated_root(m1, root, p, d);
    lemma_sibling(m, lab, ord, root, cur, p, side);
    let near = child_of(m[s], side);
    let far = child_of(m[s], side.flipped());
    assert(links_ok(m, lab, ord, root, p));
    assert(links_ok(m, lab, ord, root, s));
    assert(height_ok(m, lab, s));
    assert(red_ok(m, s, cur));
    assert(red_ok(m, p, cur));
    if cur.is_some() {
        assert(links_ok(m, lab, ord, root, cur.unwrap()));
    }
    if near.is_some() {
        assert(links_ok(m, lab, ord, root, near.unwrap()));
        assert(height_ok(m, lab, near.unwrap()));
    }
    if far.is_some() {
        assert(links_ok(m, lab, ord, root, far.unwrap()));
    }
    if m[p].parent.is_some() {
        assert(links_ok(m, lab, ord, root, m[p].parent.unwrap()));
    }
    assert(m1.dom() =~= m.dom());
    lemma_shape_frame(m, lab, m1, lab1, ord, root);
    lemma_rotate_distinct(m1, lab1, ord, root, p, d);
    lemma_rotate_shape(m1, lab1, ord, root, p, d);
    assert forall|n: u32| m2.contains_key(n) && Some(n) != cur implies #[trigger] red_ok(
        m2,
        n,
        cur,
    ) by {
        assert(red_ok(m, n, cur));
        assert(links_ok(m, lab, ord, root, n));
    }
}

/// A red sibling is turned into a black one: after recolouring and a
/// rotation of the parent the same position lacks, under a red parent and
/// beside a black sibling.
pub proof fn lemma_sib_red<T>(
    m: Store<T>,
    lab: Labels,
    ord: Seq<u32>,
    root: Option<u32>,
    cur: Option<u32>,
    p: u32,
    side: Child,
    d: Rotation,
)
    requires
        lacking(m, lab, ord, root, cur, Some(p), side),
        !is_red(m, cur),
        lifted_side(d) == side.flipped(),
        is_red(m, child_of(m[p], side.flipped())),
    ensures
        ({
            let s = child_of(m[p], side.flipped()).unwrap();
            let m1 = sib_red(m, p, s);
            let lab1 = sib_red_labels(lab, p, s);
            let m2 = rotated(m1, p, d);
            let lab2 = rotated_labels(m1, lab1, p, d);
            let root2 = rotated_root(m1, root, p, d);
            &&& shape(m1, lab1, ord, root)
            &&& can_rotate(m1, p, d)
            &&& lacking(m2, lab2, ord, root2, cur, Some(p), side)
            &&& keys_of(m2, ord) == keys_of(m, ord)
            &&& !is_red(m2, cur)
            &&& !is_red(m2, child_of(m2[p], side.flipped()))
            &&& span_of(lab2, cur) == span_of(lab, cur)
        }),
{
    let s = child_of(m[p], side.flipped()).unwrap();
    let m1 = sib_red(m, p, s);
    let lab1 = sib_red_labels(lab, p, s);
    let m2 = rotated(m1, p, d);
    let lab2 = rotated_labels(m1, lab1, p, d);
    let root2 = rotated_root(m1, root, p, d);
    lemma_sibling(m, lab, ord, root, cur, p, side);
    let near = child_of(m[s], side);
    let far = child_of(m[s], side.flipped());
    assert(links_ok(m, lab, ord, root, p));
    assert(links_ok(m, lab, ord, root, s));
    assert(height_ok(m, lab, s));
    assert(red_ok(m, s, cur));
    assert(red_ok(m, p, cur));
    if cur.is_some() {
        assert(links_ok(m, lab, ord, root, cur.unwrap()));
    }
    if near.is_some() {
        assert(links_ok(m, lab, ord, root, near.unwrap()));
        assert(height_ok(m, lab, near.unwrap()));
    }
    if far.is_some() {
        assert(links_ok(m, lab, ord, root, far.unwrap()));
    }
    if m[p].parent.is_some() {
        assert(links_ok(m, lab, ord, root, m[p].parent.unwrap()));
    }
    assert(m1.dom() =~= m.dom());
    lemma_shape_frame(m, lab, m1, lab1, ord, root);
    lemma_rotate_distinct(m1, lab1, ord, root, p, d);
    lemma_rotate_shape(m1, lab1, ord, root, p, d);
    lemma_sib_red_heights(m, lab, ord, root, cur, p, side, d);
    lemma_sib_red_reds(m, lab, ord, root, cur, p, side, d);
}

/// The store after the case of a black sibling without a red child: the
/// sibling red.
pub open spec fn sunk_labels(lab: Labels, p: u32, s: u32) -> Labels {
    leveled(leveled(lab, s, (lab(s).bh - 1) as nat), p, (lab(p).bh - 1) as nat)
}

proof fn lemma_sink_up_heights<T>(
    m: Store<T>,
    lab: Labels,
    ord: Seq<u32>,
    root: Option<u32>,
    cur: Option<u32>,
    p: u32,
    side: Child,
)
    requires
        lacking(m, lab, ord, root, cur, Some(p), side),
        !is_red(m, cur),
        !is_red(m, child_of(m[p], side.flipped())),
        ({
            let s = child_of(m[p], side.flipped()).unwrap();
            !is_red(m, m[s].left) && !is_red(m, m[s].right)
        }),
    ensures
        ({
            let s = child_of(m[p], side.flipped()).unwrap();
            let m2 = painted(m, s, Color::Red);
            let lab2 = sunk_labels(lab, p, s);
            forall|n: u32| m2.contains_key(n) && Some(n) != m[p].parent ==> #[trigger] height_ok(
                m2,
                lab2,
                n,
            )
        }),
{
    let s = child_of(m[p], side.flipped()).unwrap();
    let m2 = painted(m, s, Color::Red);
    let lab2 = sunk_labels(lab, p, s);
    lemma_sibling(m, lab, ord, root, cur, p, side);
    assert(links_ok(m, lab, ord, root, p));
    assert(links_ok(m, lab, ord, root, s));
    assert(height_ok(m, lab, s));
    if cur.is_some() {
        assert(links_ok(m, lab, ord, root, cur.unwrap()));
    }
    let pp = m[p].parent;
    if pp.is_some() {
        assert(links_ok(m, lab, ord, root, pp.unwrap()));
        assert(height_ok(m, lab, pp.unwrap()));
    }
    assert(m2.dom() =~= m.dom());
    lemma_shape_frame(m, lab, m2, lab2, ord, root);
    assert forall|n: u32| m2.contains_key(n) && Some(n) != pp implies #[trigger] height_ok(
        m2,
        lab2,
        n,
    ) by {
        assert(links_ok(m, lab, ord, root, n));
        if n == p {
        } else {
            assert(height_ok(m, lab, n));
        }
    }
}

proof fn lemma_sink_up_reds<T>(
    m: Store<T>,
    lab: Labels,
    ord: Seq<u32>,
    root: Option<u32>,
    cur: Option<u32>,
    p: u32,
    side: Child,
)
    requires
        lacking(m, lab, ord, root, cur, Some(p), side),
        !is_red(m, cur),
        !is_red(m, child_of(m[p], side.flipped())),
        ({
            let s = child_of(m[p], side.flipped()).unwrap();
            !is_red(m, m[s].left) && !is_red(m, m[s].right)
        }),
    ensures
        ({
            let s = child_of(m[p], side.flipped()).unwrap();
            let m2 = painted(m, s, Color::Red);
            let lab2 = sunk_labels(lab, p, s);
            forall|n: u32| m2.contains_key(n) && n != p ==> #[trigger] red_ok(
                m2,
                n,
                Some(p),
            )
        }),
{
    let s = child_of(m[p], side.flipped()).unwrap();
    let m2 = painted(m, s, Color::Red);
    let lab2 = sunk_labels(lab, p, s);
    lemma_sibling(m, lab, ord, root, cur, p, side);
    assert(links_ok(m, lab, ord, root, p));
    assert(links_ok(m, lab, ord, root, s));
    assert(height_ok(m, lab, s));
    if cur.is_some() {
        assert(links_ok(m, lab, ord, root, cur.unwrap()));
    }
    let pp = m[p].parent;
    if pp.is_some() {
        assert(links_ok(m, lab, ord, root, pp.unwrap()));
        assert(height_ok(m, lab, pp.unwrap()));
    }
    assert(m2.dom() =~= m.dom());
    lemma_shape_frame(m, lab, m2, lab2, ord, root);
    assert forall|n: u32| m2.contains_key(n) && n != p implies #[trigger] red_ok(
        m2,
        n,
        Some(p),
    ) by {
        assert(links_ok(m, lab, ord, root, n));
        if Some(n) == cur {
        } else {
            assert(red_ok(m, n, cur));
        }
    }
}

/// With a black sibling that has no red child, painting the sibling red
/// evens out the two sides; it is then the parent that lacks.
pub proof fn lemma_sink_up<T>(
    m: Store<T>,
    lab: Labels,
    ord: Seq<u32>,
    root: Option<u32>,
    cur: Option<u32>,
    p: u32,
    side: Child,
)
    requires
        lacking(m, lab, ord, root, cur, Some(p), side),
        !is_red(m, cur),
        !is_red(m, child_of(m[p], side.flipped())),
        ({
            let s = child_of(m[p], side.flipped()).unwrap();
            !is_red(m, m[s].left) && !is_red(m, m[s].right)
        }),
    ensures
        ({
            let s = child_of(m[p], side.flipped()).unwrap();
            let m2 = painted(m, s, Color::Red);
            let lab2 = sunk_labels(lab, p, s);
            &&& lacking(m2, lab2, ord, root, Some(p), m[p].parent, side_of(m, p))
            &&& keys_of(m2, ord) == keys_of(m, ord)
            &&& m2[p] == m[p]
            &&& span_of(lab2, Some(p)) > span_of(lab, cur)
        }),
{
    let s = child_of(m[p], side.flipped()).unwrap();
    let m2 = painted(m, s, Color::Red);
    let lab2 = sunk_labels(lab, p, s);
    lemma_sibling(m, lab, ord, root, cur, p, side);
    assert(links_ok(m, lab, ord, root, p));
    assert(links_ok(m, lab, ord, root, s));
    assert(height_ok(m, lab, s));
    if cur.is_some() {
        assert(links_ok(m, lab, ord, root, cur.unwrap()));
    }
    let pp = m[p].parent;
    if pp.is_some() {
        assert(links_ok(m, lab, ord, root, pp.unwrap()));
        assert(height_ok(m, lab, pp.unwrap()));
    }
    assert(m2.dom() =~= m.dom());
    lemma_shape_frame(m, lab, m2, lab2, ord, root);
    lemma_sink_up_heights(m, lab, ord, root, cur, p, side);
    lemma_sink_up_reds(m, lab, ord, root, cur, p, side);
}

/// The store after the case of a red near nephew beside a black far one:
/// the nephew black, the sibling red and rotated under the nephew.
pub open spec fn near_red<T>(m: Store<T>, s: u32, near: u32) -> Store<T> {
    painted(painted(m, near, Color::Black), s, Color::Red)
}

pub open spec fn near_red_labels(lab: Labels, s: u32, near: u32) -> Labels {
    leveled(leveled(lab, near, lab(near).bh + 1), s, (lab(s).bh - 1) as nat)
}

proof fn lemma_near_red_heights<T>(
    m: Store<T>,
    lab: Labels,
    ord: Seq<u32>,
    root: Option<u32>,
    cur: Option<u32>,
    p: u32,
    side: Child,
    d: Rotation,
)
    requires
        lacking(m, lab, ord, root, cur, Some(p), side),
        !is_red(m, cur),
        lifted_side(d) == side,
        !is_red(m, child_of(m[p], side.flipped())),
        ({
            let s = child_of(m[p], side.flipped()).unwrap();
            is_red(m, child_of(m[s], side)) && !is_red(m, child_of(m[s], side.flipped()))
        }),
    ensures
        ({
            let s = child_of(m[p], side.flipped()).unwrap();
            let near = child_of(m[s], side).unwrap();
            let m1 = near_red(m, s, near);
            let lab1 = near_red_labels(lab, s, near);
            let m2 = rotated(m1, s, d);
            let lab2 = rotated_labels(m1, lab1, s, d);
            forall|n: u32| m2.contains_key(n) && n != p ==> #[trigger] height_ok(
                m2,
                lab2,
                n,
            )
        }),
{
    let s = child_of(m[p], side.flipped()).unwrap();
    let near = child_of(m[s], side).unwrap();
    let far = child_of(m[s], side.flipped());
    let m1 = near_red(m, s, near);
    let lab1 = near_red_labels(lab, s, near);
    let m2 = rotated(m1, s, d);
    let lab2 = rotated_labels(m1, lab1, s, d);
    lemma_sibling(m, lab, ord, root, cur, p, side);
    assert(links_ok(m, lab, ord, root, p));
    assert(links_ok(m, lab, ord, root, s));
    assert(links_ok(m, lab, ord, root, near));
    assert(height_ok(m, lab, s));
    assert(height_ok(m, lab, near));
    assert(red_ok(m, near, cur));
    if cur.is_some() {
        assert(links_ok(m, lab, ord, root, cur.unwrap()));
    }
    if far.is_some() {
        assert(links_ok(m, lab, ord, root, far.unwrap()));
    }
    let inner = child_of(m[near], side.flipped());
    if inner.is_some() {
        assert(links_ok(m, lab, ord, root, inner.unwrap()));
    }
    assert(m1.dom() =~= m.dom());
    lemma_shape_frame(m, lab, m1, lab1, ord, root);
    lemma_rotate_distinct(m1, lab1, ord, root, s, d);
    lemma_rotate_shape(m1, lab1, ord, root, s, d);
    assert forall|n: u32| m2.contains_key(n) && n != p implies #[trigger] height_ok(
        m2,
        lab2,
        n,
    ) by {
        assert(links_ok(m, lab, ord, root, n));
        assert(height_ok(m, lab, n));
    }
}

proof fn lemma_near_red_reds<T>(
    m: Store<T>,
    lab: Labels,
    ord: Seq<u32>,
    root: Option<u32>,
    cur: Option<u32>,
    p: u32,
    side: Child,
    d: Rotation,
)
    requires
        lacking(m, lab, ord, root, cur, Some(p), side),
        !is_red(m, cur),
        lifted_side(d) == side,
        !is_red(m, child_of(m[p], side.flipped())),
        ({
            let s = child_of(m[p], side.flipped()).unwrap();
            is_red(m, child_of(m[s], side)) && !is_red(m, child_of(m[s], side.flipped()))
        }),
    ensures
        ({
            let s = child_of(m[p], side.flipped()).unwrap();
            let near = child_of(m[s], side).unwrap();
            let m1 = near_red(m, s, near);
            let lab1 = near_red_labels(lab, s, near);
            let m2 = rotated(m1, s, d);
            let lab2 = rotated_labels(m1, lab1, s, d);
            forall|n: u32| m2.contains_key(n) && Some(n) != cur ==> #[trigger] red_ok(
                m2,
                n,
                cur,
            )
        }),
{
    let s = child_of(m[p], side.flipped()).unwrap();
    let near = child_of(m[s], side).unwrap();
    let far = child_of(m[s], side.flipped());
    let m1 = near_red(m, s, near);
    let lab1 = near_red_labels(lab, s, near);
    let m2 = rotated(m1, s, d);
    let lab2 = rotated_labels(m1, lab1, s, d);
    lemma_sibling(m, lab, ord, root, cur, p, side);
    assert(links_ok(m, lab, ord, root, p));
    assert(links_ok(m, lab, ord, root, s));
    assert(links_ok(m, lab, ord, root, near));
    assert(height_ok(m, lab, s));
    assert(height_ok(m, lab, near));
    assert(red_ok(m, near, cur));
    if cur.is_some() {
        assert(links_ok(m, lab, ord, root, cur.unwrap()));
    }
    if far.is_some() {
        assert(links_ok(m, lab, ord, root, far.unwrap()));
    }
    let inner = child_of(m[near], side.flipped());
    if inner.is_some() {
        assert(links_ok(m, lab, ord, root, inner.unwrap()));
    }
    assert(m1.dom() =~= m.dom());
    lemma_shape_frame(m, lab, m1, lab1, ord, root);
    lemma_rotate_distinct(m1, lab1, ord, root, s, d);
    lemma_rotate_shape(m1, lab1, ord, root, s, d);
    assert forall|n: u32| m2.contains_key(n) && Some(n) != cur implies #[trigger] red_ok(
        m2,
        n,
        cur,
    ) by {
        assert(red_ok(m, n, cur));
        assert(links_ok(m, lab, ord, root, n));
    }
}

/// A red near nephew is turned into a red far one: after recolouring and
/// a rotation of the sibling the same position lacks, beside a black
/// sibling whose far child is red.
pub proof fn lemma_near_red<T>(
    m: Store<T>,
    lab: Labels,
    ord: Seq<u32>,
    root: Option<u32>,
    cur: Option<u32>,
    p: u32,
    side: Child,
    d: Rotation,
)
    requires
        lacking(m, lab, ord, root, cur, Some(p), side),
        !is_red(m, cur),
        lifted_side(d) == side,
        !is_red(m, child_of(m[p], side.flipped())),
        ({
            let s = child_of(m[p], side.flipped()).unwrap();
            is_red(m, child_of(m[s], side)) && !is_red(m, child_of(m[s], side.flipped()))
        }),
    ensures
        ({
            let s = child_of(m[p], side.flipped()).unwrap();
            let near = child_of(m[s], side).unwrap();
            let m1 = near_red(m, s, near);
            let lab1 = near_red_labels(lab, s, near);
            let m2 = rotated(m1, s, d);
            let lab2 = rotated_labels(m1, lab1, s, d);
            &&& shape(m1, lab1, ord, root)
            &&& can_rotate(m1, s, d)
            &&& rotated_root(m1, root, s, d) == root
            &&& lacking(m2, lab2, ord, root, cur, Some(p), side)
            &&& keys_of(m2, ord) == keys_of(m, ord)
            &&& !is_red(m2, cur)
            &&& child_of(m2[p], side.flipped()) == Some(near)
            &&& m2[near].color == Color::Black
            &&& child_of(m2[near], side.flipped()) == Some(s)
            &&& m2[s].color == Color::Red
            &&& m2[p].color == m[p].color
            &&& (root == cur || root_black(m2, root))
        }),
{
    let s = child_of(m[p], side.flipped()).unwrap();
    let near = child_of(m[s], side).unwrap();
    let far = child_of(m[s], side.flipped());
    let m1 = near_red(m, s, near);
    let lab1 = near_red_labels(lab, s, near);
    let m2 = rotated(m1, s, d);
    let lab2 = rotated_labels(m1, lab1, s, d);
    lemma_sibling(m, lab, ord, root, cur, p, side);
    assert(links_ok(m, lab, ord, root, p));
    assert(links_ok(m, lab, ord, root, s));
    assert(links_ok(m, lab, ord, root, near));
    assert(height_ok(m, lab, s));
    assert(height_ok(m, lab, near));
    assert(red_ok(m, near, cur));
    if cur.is_some() {
        assert(links_ok(m, lab, ord, root, cur.unwrap()));
    }
    if far.is_some() {
        assert(links_ok(m, lab, ord, root, far.unwrap()));
    }
    let inner = child_of(m[near], side.flipped());
    if inner.is_some() {
        assert(links_ok(m, lab, ord, root, inner.unwrap()));
    }
    assert(m1.dom() =~= m.dom());
    lemma_shape_frame(m, lab, m1, lab1, ord, root);
    lemma_rotate_distinct(m1, lab1, ord, root, s, d);
    lemma_rotate_shape(m1, lab1, ord, root, s, d);
    lemma_near_red_heights(m, lab, ord, root, cur, p, side, d);
    lemma_near_red_reds(m, lab, ord, root, cur, p, side, d);
}

/// The store after the last case: the sibling in the parent's colour,
/// parent and far nephew black, the parent rotated down towards the
/// lacking side.
pub open spec fn far_red<T>(m: Store<T>, p: u32, s: u32, far: u32) -> Store<T> {
    painted(painted(painted(m, s, m[p].color), p, Color::Black), far, Color::Black)
}

pub open spec fn far_red_labels<T>(m: Store<T>, lab: Labels, cur: Option<u32>, p: u32, s: u32, far: u32) -> Labels {
    leveled(
        leveled(leveled(lab, s, lab(p).bh), p, bhc(lab, cur) + 1),
        far,
        lab(far).bh + 1,
    )
}

#[verifier::rlimit(50)]
proof fn lemma_far_red_heights<T>(
    m: Store<T>,
    lab: Labels,
    ord: Seq<u32>,
    root: Option<u32>,
    cur: Option<u32>,
    p: u32,
    side: Child,
    d: Rotation,
)
    requires
        lacking(m, lab, ord, root, cur, Some(p), side),
        !is_red(m, cur),
        lifted_side(d) == side.flipped(),
        !is_red(m, child_of(m[p], side.flipped())),
        is_red(m, child_of(m[child_of(m[p], side.flipped()).unwrap()], side.flipped())),
    ensures
        ({
            let s = child_of(m[p], side.flipped()).unwrap();
            let far = child_of(m[s], side.flipped()).unwrap();
            let m1 = far_red(m, p, s, far);
            let lab1 = far_red_labels(m, lab, cur, p, s, far);
            let m2 = rotated(m1, p, d);
            let lab2 = rotated_labels(m1, lab1, p, d);
            let root2 = rotated_root(m1, root, p, d);
            forall|n: u32| m2.contains_key(n) ==> #[trigger] height_ok(m2, lab2, n)
        }),
{
    let s = child_of(m[p], side.flipped()).unwrap();
    let far = child_of(m[s], side.flipped()).unwrap();
    let near = child_of(m[s], side);
    let m1 = far_red(m, p, s, far);
    let lab1 = far_red_labels(m, lab, cur, p, s, far);
    let m2 = rotated(m1, p, d);
    let lab2 = rotated_labels(m1, lab1, p, d);
    let root2 = rotated_root(m1, root, p, d);
    lemma_sibling(m, lab, ord, root, cur, p, side);
    assert(links_ok(m, lab, ord, root, p));
    assert(links_ok(m, lab, ord, root, s));
    assert(links_ok(m, lab, ord, root, far));
    assert(height_ok(m, lab, s));
    assert(height_ok(m, lab, far));
    assert(red_ok(m, far, cur));
    if cur.is_some() {
        assert(links_ok(m, lab, ord, root, cur.unwrap()));
    }
    if near.is_some() {
        assert(links_ok(m, lab, ord, root, near.unwrap()));
    }
    let pp = m[p].parent;
    if pp.is_some() {
        assert(links_ok(m, lab, ord, root, pp.unwrap()));
        assert(red_ok(m, pp.unwrap(), cur));
        assert(height_ok(m, lab, pp.unwrap()));
    }
    assert(m1.dom() =~= m.dom());
    lemma_shape_frame(m, lab, m1, lab1, ord, root);
    lemma_rotate_distinct(m1, lab1, ord, root, p, d);
    lemma_rotate_shape(m1, lab1, ord, root, p, d);
    assert forall|n: u32| m2.contains_key(n) implies #[trigger] height_ok(m2, lab2, n) by {
        assert(links_ok(m, lab, ord, root, n));
        if n == p {
        } else {
            assert(height_ok(m, lab, n));
        }
    }
}

proof fn lemma_far_red_reds<T>(
    m: Store<T>,
    lab: Labels,
    ord: Seq<u32>,
    root: Option<u32>,
    cur: Option<u32>,
    p: u32,
    side: Child,
    d: Rotation,
)
    requires
        lacking(m, lab, ord, root, cur, Some(p), side),
        !is_red(m, cur),
        lifted_side(d) == side.flipped(),
        !is_red(m, child_of(m[p], side.flipped())),
        is_red(m, child_of(m[child_of(m[p], side.flipped()).unwrap()], side.flipped())),
    ensures
        ({
            let s = child_of(m[p], side.flipped()).unwrap();
            let far = child_of(m[s], side.flipped()).unwrap();
            let m1 = far_red(m, p, s, far);
            let lab1 = far_red_labels(m, lab, cur, p, s, far);
            let m2 = rotated(m1, p, d);
            let lab2 = rotated_labels(m1, lab1, p, d);
            let root2 = rotated_root(m1, root, p, d);
            forall|n: u32| m2.contains_key(n) ==> #[trigger] red_ok(m2, n, None)
        }),
{
    let s = child_of(m[p], side.flipped()).unwrap();
    let far = child_of(m[s], side.flipped()).unwrap();
    let near = child_of(m[s], side);
    let m1 = far_red(m, p, s, far);
    let lab1 = far_red_labels(m, lab, cur, p, s, far);
    let m2 = rotated(m1, p, d);
    let lab2 = rotated_labels(m1, lab1, p, d);
    let root2 = rotated_root(m1, root, p, d);
    lemma_sibling(m, lab, ord, root, cur, p, side);
    assert(links_ok(m, lab, ord, root, p));
    assert(links_ok(m, lab, ord, root, s));
    assert(links_ok(m, lab, ord, root, far));
    assert(height_ok(m, lab, s));
    assert(height_ok(m, lab, far));
    assert(red_ok(m, far, cur));
    if cur.is_some() {
        assert(links_ok(m, lab, ord, root, cur.unwrap()));
    }
    if near.is_some() {
        assert(links_ok(m, lab, ord, root, near.unwrap()));
    }
    let pp = m[p].parent;
    if pp.is_some() {
        assert(links_ok(m, lab, ord, root, pp.unwrap()));
        assert(red_ok(m, pp.unwrap(), cur));
        assert(height_ok(m, lab, pp.unwrap()));
    }
    assert(m1.dom() =~= m.dom());
    lemma_shape_frame(m, lab, m1, lab1, ord, root);
    lemma_rotate_distinct(m1, lab1, ord, root, p, d);
    lemma_rotate_shape(m1, lab1, ord, root, p, d);
    assert forall|n: u32| m2.contains_key(n) implies #[trigger] red_ok(m2, n, None) by {
        assert(links_ok(m, lab, ord, root, n));
        if Some(n) == cur {
        } else {
            assert(red_ok(m, n, cur));
        }
    }
}

/// With a black sibling whose far child is red, recolouring and a
/// rotation of the parent give the lacking side its black node back: the
/// tree is in full order.
pub proof fn lemma_far_red<T>(
    m: Store<T>,
    lab: Labels,
    ord: Seq<u32>,
    root: Option<u32>,
    cur: Option<u32>,
    p: u32,
    side: Child,
    d: Rotation,
)
    requires
        lacking(m, lab, ord, root, cur, Some(p), side),
        !is_red(m, cur),
        lifted_side(d) == side.flipped(),
        !is_red(m, child_of(m[p], side.flipped())),
        is_red(m, child_of(m[child_of(m[p], side.flipped()).unwrap()], side.flipped())),
    ensures
        ({
            let s = child_of(m[p], side.flipped()).unwrap();
            let far = child_of(m[s], side.flipped()).unwrap();
            let m1 = far_red(m, p, s, far);
            let lab1 = far_red_labels(m, lab, cur, p, s, far);
            let m2 = rotated(m1, p, d);
            let lab2 = rotated_labels(m1, lab1, p, d);
            let root2 = rotated_root(m1, root, p, d);
            &&& m.contains_key(far)
            &&& far != s
            &&& far != p
            &&& shape(m1, lab1, ord, root)
            &&& can_rotate(m1, p, d)
            &&& shape(m2, lab2, ord, root2)
            &&& heights(m2, lab2)
            &&& reds(m2, None)
            &&& root_black(m2, root2)
            &&& root2.is_some()
            &&& keys_of(m2, ord) == keys_of(m, ord)
        }),
{
    let s = child_of(m[p], side.flipped()).unwrap();
    let far = child_of(m[s], side.flipped()).unwrap();
    let near = child_of(m[s], side);
    let m1 = far_red(m, p, s, far);
    let lab1 = far_red_labels(m, lab, cur, p, s, far);
    let m2 = rotated(m1, p, d);
    let lab2 = rotated_labels(m1, lab1, p, d);
    let root2 = rotated_root(m1, root, p, d);
    lemma_sibling(m, lab, ord, root, cur, p, side);
    assert(links_ok(m, lab, ord, root, p));
    assert(links_ok(m, lab, ord, root, s));
    assert(links_ok(m, lab, ord, root, far));
    assert(height_ok(m, lab, s));
    assert(height_ok(m, lab, far));
    assert(red_ok(m, far, cur));
    if cur.is_some() {
        assert(links_ok(m, lab, ord, root, cur.unwrap()));
    }
    if near.is_some() {
        assert(links_ok(m, lab, ord, root, near.unwrap()));
    }
    let pp = m[p].parent;
    if pp.is_some() {
        assert(links_ok(m, lab, ord, root, pp.unwrap()));
        assert(red_ok(m, pp.unwrap(), cur));
        assert(height_ok(m, lab, pp.unwrap()));
    }
    assert(m1.dom() =~= m.dom());
    lemma_shape_frame(m, lab, m1, lab1, ord, root);
    lemma_rotate_distinct(m1, lab1, ord, root, p, d);
    lemma_rotate_shape(m1, lab1, ord, root, p, d);
    lemma_far_red_heights(m, lab, ord, root, cur, p, side, d);
    lemma_far_red_reds(m, lab, ord, root, cur, p, side, d);
}

/// The end of the repair: a red node at the lacking position is painted
/// black, which gives the position its black node; at the root nothing
/// lacks.
pub proof fn lemma_settled<T>(
    m: Store<T>,
    lab: Labels,
    ord: Seq<u32>,
    root: Option<u32>,
    cur: Option<u32>,
    par: Option<u32>,
    side: Child,
)
    requires
        lacking(m, lab, ord, root, cur, par, side),
        is_red(m, cur) || root == cur,
    ensures
        ({
            let m2 = match cur {
                Some(c) => painted(m, c, Color::Black),
                None => m,
            };
            let lab2 = match cur {
                Some(c) => leveled(lab, c, bhc(lab, m[c].left) + 1),
                None => lab,
            };
            &&& shape(m2, lab2, ord, root)
            &&& heights(m2, lab2)
            &&& reds(m2, None)
            &&& root_black(m2, root)
            &&& keys_of(m2, ord) == keys_of(m, ord)
        }),
{
    let m2 = match cur {
        Some(c) => painted(m, c, Color::Black),
        None => m,
    };
    let lab2 = match cur {
        Some(c) => leveled(lab, c, bhc(lab, m[c].left) + 1),
        None => lab,
    };
    if cur.is_some() {
        assert(links_ok(m, lab, ord, root, cur.unwrap()));
        if par.is_some() {
            assert(height_ok(m, lab, cur.unwrap()));
        }
    }
    if par.is_some() {
        assert(links_ok(m, lab, ord, root, par.unwrap()));
    }
    if root.is_some() {
        assert(links_ok(m, lab, ord, root, root.unwrap()));
    }
    assert(m2.dom() =~= m.dom());
    lemma_shape_frame(m, lab, m2, lab2, ord, root);
    assert forall|n: u32| m2.contains_key(n) implies #[trigger] height_ok(m2, lab2, n) by {
        assert(links_ok(m, lab, ord, root, n));
        if Some(n) == par {
        } else {
            assert(height_ok(m, lab, n));
        }
    }
    assert forall|n: u32| m2.contains_key(n) implies #[trigger] red_ok(m2, n, None) by {
        assert(links_ok(m, lab, ord, root, n));
        if Some(n) == cur {
        } else {
            assert(red_ok(m, n, cur));
        }
    }
}

} // verus!
