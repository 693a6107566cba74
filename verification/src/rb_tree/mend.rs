use vstd::prelude::*;
use crate::node::{Color, NodeView};
use super::inv::{
    height_ok,
    heights,
    is_red,
    keys_of,
    links_ok,
    red_ok,
    reds,
    root_black,
    shape,
    Label,
    Labels,
    Store,
};
use super::rotate::{
    can_rotate,
    child_of,
    lemma_rotate_distinct,
    lemma_rotate_shape,
    lifted,
    lifted_side,
    rotated,
    rotated_labels,
    rotated_root,
};
use super::Rotation;

verus! {

/// `m2` differs from `m` in colours at most.
pub open spec fn same_but_colors<T>(m: Store<T>, m2: Store<T>) -> bool {
    &&& m2.dom() == m.dom()
    &&& forall|n: u32|
        m.contains_key(n) ==> (#[trigger] m2[n]) == (NodeView { color: m2[n].color, ..m[n] })
}

/// `lab2` differs from `lab` in black heights at most.
pub open spec fn same_but_heights(lab: Labels, lab2: Labels) -> bool {
    forall|n: u32| (#[trigger] lab2(n)) == (Label { bh: lab2(n).bh, ..lab(n) })
}

pub open spec fn painted<T>(m: Store<T>, n: u32, c: Color) -> Store<T> {
    m.insert(n, NodeView { color: c, ..m[n] })
}

/// The labels with the black height of `n` set to `h`.
pub open spec fn leveled(lab: Labels, n: u32, h: nat) -> Labels {
    |k: u32|
        if k == n {
            Label { bh: h, ..lab(n) }
        } else {
            lab(k)
        }
}

/// Colours and black heights have no part in the shape of the tree.
pub proof fn lemma_shape_frame<T>(
    m: Store<T>,
    lab: Labels,
    m2: Store<T>,
    lab2: Labels,
    ord: Seq<u32>,
    root: Option<u32>,
)
    requires
        shape(m, lab, ord, root),
        same_but_colors(m, m2),
        same_but_heights(lab, lab2),
    ensures
        shape(m2, lab2, ord, root),
        keys_of(m2, ord) == keys_of(m, ord),
{
    assert forall|n: u32| m2.contains_key(n) implies #[trigger] links_ok(m2, lab2, ord, root, n) by {
        assert(links_ok(m, lab, ord, root, n));
        let v = m[n];
        assert(m2[n] == (NodeView { color: m2[n].color, ..m[n] }));
        assert(lab2(n) == (Label { bh: lab2(n).bh, ..lab(n) }));
        match v.left {
            Some(c) => {
                assert(m2[c] == (NodeView { color: m2[c].color, ..m[c] }));
                assert(lab2(c) == (Label { bh: lab2(c).bh, ..lab(c) }));
            },
            None => {},
        }
        match v.right {
            Some(c) => {
                assert(m2[c] == (NodeView { color: m2[c].color, ..m[c] }));
                assert(lab2(c) == (Label { bh: lab2(c).bh, ..lab(c) }));
            },
            None => {},
        }
        match v.parent {
            Some(q) => {
                assert(m2[q] == (NodeView { color: m2[q].color, ..m[q] }));
            },
            None => {},
        }
    }
    assert forall|i: int| 0 <= i < ord.len() implies m2.contains_key(#[trigger] ord[i]) && lab2(
        ord[i],
    ).idx == i by {
        assert(m.contains_key(ord[i]));
        assert(lab2(ord[i]) == (Label { bh: lab2(ord[i]).bh, ..lab(ord[i]) }));
    }
    match root {
        Some(r) => {
            assert(m2[r] == (NodeView { color: m2[r].color, ..m[r] }));
            assert(lab2(r) == (Label { bh: lab2(r).bh, ..lab(r) }));
        },
        None => {},
    }
    assert(keys_of(m2, ord) =~= keys_of(m, ord)) by {
        assert forall|i: int| 0 <= i < ord.len() implies m2[ord[i]].key == m[ord[i]].key by {
            assert(m.contains_key(ord[i]));
            assert(m2[ord[i]] == (NodeView { color: m2[ord[i]].color, ..m[ord[i]] }));
        }
    }
}

/// What holds while a red node `cur` climbs after an insertion: the tree
/// is in order but that the parent of `cur` may be red too, and the root
/// may be red where `cur` is the root.
pub open spec fn climbing<T>(
    m: Store<T>,
    lab: Labels,
    ord: Seq<u32>,
    root: Option<u32>,
    cur: u32,
) -> bool {
    &&& shape(m, lab, ord, root)
    &&& heights(m, lab)
    &&& reds(m, Some(cur))
    &&& m.contains_key(cur)
    &&& (root == Some(cur) || root_black(m, root))
}

/// A red parent of the climbing node has a black parent of its own.
pub proof fn lemma_grandparent<T>(
    m: Store<T>,
    lab: Labels,
    ord: Seq<u32>,
    root: Option<u32>,
    cur: u32,
)
    requires
        climbing(m, lab, ord, root, cur),
        m[cur].parent.is_some(),
        m[m[cur].parent.unwrap()].color == Color::Red,
    ensures
        ({
            let p = m[cur].parent.unwrap();
            &&& m.contains_key(p)
            &&& p != cur
            &&& m[p].parent.is_some()
            &&& m.contains_key(m[p].parent.unwrap())
            &&& m[p].parent.unwrap() != p
            &&& m[p].parent.unwrap() != cur
            &&& m[m[p].parent.unwrap()].color == Color::Black
            &&& (m[m[p].parent.unwrap()].left == Some(p) || m[m[p].parent.unwrap()].right == Some(p))
            &&& (m[p].left == Some(cur) || m[p].right == Some(cur))
        }),
{
    let p = m[cur].parent.unwrap();
    assert(links_ok(m, lab, ord, root, cur));
    assert(links_ok(m, lab, ord, root, p));
    let g = m[p].parent.unwrap();
    assert(links_ok(m, lab, ord, root, g));
    assert(red_ok(m, g, Some(cur)));
}

/// The store after a red uncle's case: parent and uncle black, the
/// grandparent red.
pub open spec fn pushed<T>(m: Store<T>, p: u32, u: u32, g: u32) -> Store<T> {
    painted(painted(painted(m, p, Color::Black), u, Color::Black), g, Color::Red)
}

pub open spec fn pushed_labels(lab: Labels, p: u32, u: u32) -> Labels {
    leveled(leveled(lab, p, lab(p).bh + 1), u, lab(u).bh + 1)
}

/// With a red uncle, recolouring hands the red-red fault to the grandparent.
pub proof fn lemma_push_up<T>(
    m: Store<T>,
    lab: Labels,
    ord: Seq<u32>,
    root: Option<u32>,
    cur: u32,
    u: u32,
)
    requires
        climbing(m, lab, ord, root, cur),
        m[cur].color == Color::Red,
        m[cur].parent.is_some(),
        m[m[cur].parent.unwrap()].color == Color::Red,
        ({
            let p = m[cur].parent.unwrap();
            let g = m[p].parent.unwrap();
            &&& u != p
            &&& (m[g].left == Some(u) || m[g].right == Some(u))
            &&& m[u].color == Color::Red
        }),
    ensures
        ({
            let p = m[cur].parent.unwrap();
            let g = m[p].parent.unwrap();
            let m2 = pushed(m, p, u, g);
            let lab2 = pushed_labels(lab, p, u);
            &&& climbing(m2, lab2, ord, root, g)
            &&& keys_of(m2, ord) == keys_of(m, ord)
            &&& m2[g].color == Color::Red
            &&& lab2(g).hi - lab2(g).lo > lab(cur).hi - lab(cur).lo
        }),
{
    let p = m[cur].parent.unwrap();
    let g = m[p].parent.unwrap();
    let m2 = pushed(m, p, u, g);
    let lab2 = pushed_labels(lab, p, u);
    lemma_grandparent(m, lab, ord, root, cur);
    assert(links_ok(m, lab, ord, root, cur));
    assert(links_ok(m, lab, ord, root, p));
    assert(links_ok(m, lab, ord, root, g));
    assert(links_ok(m, lab, ord, root, u));
    assert(height_ok(m, lab, p));
    assert(height_ok(m, lab, u));
    assert(height_ok(m, lab, g));
    assert(m2.dom() =~= m.dom());
    lemma_shape_frame(m, lab, m2, lab2, ord, root);
    assert forall|n: u32| m2.contains_key(n) implies #[trigger] height_ok(m2, lab2, n) by {
        assert(height_ok(m, lab, n));
        assert(links_ok(m, lab, ord, root, n));
    }
    assert forall|n: u32| m2.contains_key(n) implies #[trigger] red_ok(m2, n, Some(g)) by {
        assert(red_ok(m, n, Some(cur)));
        assert(links_ok(m, lab, ord, root, n));
    }
}

/// Rotating a red parent under its red inner child keeps heights, and
/// leaves the former parent as the red child of a red node on the outside.
pub proof fn lemma_inner<T>(
    m: Store<T>,
    lab: Labels,
    ord: Seq<u32>,
    root: Option<u32>,
    cur: u32,
    d: Rotation,
)
    requires
        climbing(m, lab, ord, root, cur),
        m[cur].color == Color::Red,
        m[cur].parent.is_some(),
        m[m[cur].parent.unwrap()].color == Color::Red,
        child_of(m[m[cur].parent.unwrap()], lifted_side(d)) == Some(cur),
    ensures
        ({
            let p = m[cur].parent.unwrap();
            let g = m[p].parent.unwrap();
            let m2 = rotated(m, p, d);
            let lab2 = rotated_labels(m, lab, p, d);
            &&& can_rotate(m, p, d)
            &&& rotated_root(m, root, p, d) == root
            &&& climbing(m2, lab2, ord, root, p)
            &&& keys_of(m2, ord) == keys_of(m, ord)
            &&& m2[p].color == Color::Red
            &&& m2[p].parent == Some(cur)
            &&& m2[cur].color == Color::Red
            &&& m2[cur].parent == Some(g)
            &&& m2[g] == with_child_swapped(m[g], p, cur)
            &&& child_of(m2[cur], lifted_side(d).flipped()) == Some(p)
            &&& forall|n: u32| m.contains_key(n) ==> (#[trigger] m2[n]).color == m[n].color
        }),
{
    let p = m[cur].parent.unwrap();
    let g = m[p].parent.unwrap();
    let m2 = rotated(m, p, d);
    let lab2 = rotated_labels(m, lab, p, d);
    lemma_grandparent(m, lab, ord, root, cur);
    lemma_rotate_distinct(m, lab, ord, root, p, d);
    lemma_rotate_shape(m, lab, ord, root, p, d);
    let b = child_of(m[cur], lifted_side(d).flipped());
    assert(links_ok(m, lab, ord, root, cur));
    assert(links_ok(m, lab, ord, root, p));
    assert(links_ok(m, lab, ord, root, g));
    assert(height_ok(m, lab, p));
    assert(height_ok(m, lab, cur));
    assert(red_ok(m, p, Some(cur)));
    assert(red_ok(m, cur, Some(cur)));
    assert forall|n: u32| m2.contains_key(n) implies #[trigger] height_ok(m2, lab2, n) by {
        assert(height_ok(m, lab, n));
        assert(links_ok(m, lab, ord, root, n));
        if n == p {
        } else if n == cur {
        } else if Some(n) == b {
        } else if n == g {
        } else {
        }
    }
    assert forall|n: u32| m2.contains_key(n) implies #[trigger] red_ok(m2, n, Some(p)) by {
        assert(red_ok(m, n, Some(cur)));
        assert(links_ok(m, lab, ord, root, n));
        if n == p {
        } else if n == cur {
        } else if Some(n) == b {
        } else if n == g {
        } else {
        }
    }
}

/// The record `v` with the link that named `a` naming `b` instead.
pub open spec fn with_child_swapped<T>(v: NodeView<T>, a: u32, b: u32) -> NodeView<T> {
    if v.left == Some(a) {
        NodeView { left: Some(b), ..v }
    } else {
        NodeView { right: Some(b), ..v }
    }
}

/// The store after the last step of a repair with a black uncle: the
/// parent black, the grandparent red and rotated under the parent.
pub open spec fn lifted_over<T>(m: Store<T>, p: u32, g: u32, d: Rotation) -> Store<T> {
    rotated(painted(painted(m, p, Color::Black), g, Color::Red), g, d)
}

pub open spec fn lifted_over_labels<T>(m: Store<T>, lab: Labels, p: u32, g: u32, d: Rotation) -> Labels {
    rotated_labels(
        painted(painted(m, p, Color::Black), g, Color::Red),
        leveled(leveled(lab, p, lab(p).bh + 1), g, (lab(g).bh - 1) as nat),
        g,
        d,
    )
}

/// With a black uncle and the climbing node on the outside, recolouring
/// parent and grandparent and rotating the grandparent ends the repair.
pub proof fn lemma_outer<T>(
    m: Store<T>,
    lab: Labels,
    ord: Seq<u32>,
    root: Option<u32>,
    cur: u32,
    d: Rotation,
)
    requires
        climbing(m, lab, ord, root, cur),
        m[cur].color == Color::Red,
        m[cur].parent.is_some(),
        m[m[cur].parent.unwrap()].color == Color::Red,
        ({
            let p = m[cur].parent.unwrap();
            let g = m[p].parent.unwrap();
            &&& child_of(m[p], lifted_side(d)) == Some(cur)
            &&& child_of(m[g], lifted_side(d)) == Some(p)
            &&& !is_red(m, child_of(m[g], lifted_side(d).flipped()))
        }),
    ensures
        ({
            let p = m[cur].parent.unwrap();
            let g = m[p].parent.unwrap();
            let m1 = painted(painted(m, p, Color::Black), g, Color::Red);
            let lab1 = leveled(leveled(lab, p, lab(p).bh + 1), g, (lab(g).bh - 1) as nat);
            let m2 = lifted_over(m, p, g, d);
            let lab2 = lifted_over_labels(m, lab, p, g, d);
            let root2 = rotated_root(m1, root, g, d);
            &&& shape(m1, lab1, ord, root)
            &&& can_rotate(m1, g, d)
            &&& shape(m2, lab2, ord, root2)
            &&& heights(m2, lab2)
            &&& reds(m2, None)
            &&& root_black(m2, root2)
            &&& keys_of(m2, ord) == keys_of(m, ord)
        }),
{
    let p = m[cur].parent.unwrap();
    let g = m[p].parent.unwrap();
    let m1 = painted(painted(m, p, Color::Black), g, Color::Red);
    let lab1 = leveled(leveled(lab, p, lab(p).bh + 1), g, (lab(g).bh - 1) as nat);
    let m2 = lifted_over(m, p, g, d);
    let lab2 = lifted_over_labels(m, lab, p, g, d);
    let root2 = rotated_root(m1, root, g, d);
    let u = child_of(m[g], lifted_side(d).flipped());
    let b = child_of(m[p], lifted_side(d).flipped());
    lemma_grandparent(m, lab, ord, root, cur);
    assert(links_ok(m, lab, ord, root, cur));
    assert(links_ok(m, lab, ord, root, p));
    assert(links_ok(m, lab, ord, root, g));
    assert(height_ok(m, lab, p));
    assert(height_ok(m, lab, cur));
    assert(height_ok(m, lab, g));
    assert(red_ok(m, p, Some(cur)));
    assert(red_ok(m, cur, Some(cur)));
    assert(m1.dom() =~= m.dom());
    lemma_shape_frame(m, lab, m1, lab1, ord, root);
    assert(can_rotate(m1, g, d));
    lemma_rotate_distinct(m1, lab1, ord, root, g, d);
    lemma_rotate_shape(m1, lab1, ord, root, g, d);
    assert(lifted(m1, g, d) == p);
    if m[g].parent.is_some() {
        assert(links_ok(m, lab, ord, root, m[g].parent.unwrap()));
    }
    assert forall|n: u32| m2.contains_key(n) implies #[trigger] height_ok(m2, lab2, n) by {
        assert(height_ok(m, lab, n));
        assert(links_ok(m, lab, ord, root, n));
        if n == p {
        } else if n == g {
        } else if Some(n) == b {
        } else if Some(n) == m[g].parent {
        } else {
        }
    }
    assert forall|n: u32| m2.contains_key(n) implies #[trigger] red_ok(m2, n, None) by {
        assert(red_ok(m, n, Some(cur)));
        assert(links_ok(m, lab, ord, root, n));
        if n == p {
        } else if n == g {
        } else if Some(n) == b {
        } else if Some(n) == m[g].parent {
        } else {
        }
    }
}

} // verus!
