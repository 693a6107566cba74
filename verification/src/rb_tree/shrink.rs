use vstd::prelude::*;
use crate::node::{Color, NodeView};
use super::inv::{
    bhc,
    blackness,
    height_ok,
    heights,
    keys_of,
    links_ok,
    red_ok,
    reds,
    root_black,
    shape,
    Label,
    Labels,
    Store,
};
use super::rotate::child_of;
use super::Child;

verus! {

/// The side of its parent on which `n` hangs.
pub open spec fn side_of<T>(m: Store<T>, n: u32) -> Child {
    match m[n].parent {
        Some(p) => if m[p].left == Some(n) {
            Child::Left
        } else {
            Child::Right
        },
        None => Child::Left,
    }
}

/// The store once `x` stands where `y` stood: the parent of `y` names `x`
/// in place of `y`, and `x`, if there is one, names that parent.
pub open spec fn replaced<T>(m: Store<T>, y: u32, x: Option<u32>) -> Store<T> {
    let py = m[y].parent;
    Map::new(
        |n: u32| m.contains_key(n),
        |n: u32|
            if Some(n) == x {
                NodeView { parent: py, ..m[n] }
            } else if Some(n) == py {
                if m[n].left == Some(y) {
                    NodeView { left: x, ..m[n] }
                } else {
                    NodeView { right: x, ..m[n] }
                }
            } else {
                m[n]
            },
    )
}

pub open spec fn replaced_root<T>(m: Store<T>, root: Option<u32>, y: u32, x: Option<u32>) -> Option<u32> {
    if m[y].parent.is_none() {
        x
    } else {
        root
    }
}

/// Closes the gap that the node at the place `at` leaves in the traversal.
pub open spec fn closed_up(lab: Labels, at: int) -> Labels {
    |n: u32|
        {
            let l = lab(n);
            Label {
                lo: if l.lo <= at { l.lo } else { l.lo - 1 },
                idx: if l.idx < at { l.idx } else { l.idx - 1 },
                hi: if l.hi <= at { l.hi } else { l.hi - 1 },
                bh: l.bh,
            }
        }
}

/// The only child of `y`, if it has one.
pub open spec fn only_child<T>(m: Store<T>, y: u32) -> Option<u32> {
    if m[y].left.is_none() {
        m[y].right
    } else {
        m[y].left
    }
}

/// What holds while a position that lacks one black node climbs after a
/// deletion. The position is the child `cur` (it may be absent) of `par`
/// on the side `side`: below it every way down passes one black node less
/// than below its sibling. `cur` itself may be red, also under a red
/// parent; otherwise the tree is in order.
pub open spec fn lacking<T>(
    m: Store<T>,
    lab: Labels,
    ord: Seq<u32>,
    root: Option<u32>,
    cur: Option<u32>,
    par: Option<u32>,
    side: Child,
) -> bool {
    &&& shape(m, lab, ord, root)
    &&& match cur {
        Some(c) => m.contains_key(c) && m[c].parent == par,
        None => true,
    }
    &&& match par {
        Some(p) => {
            &&& m.contains_key(p)
            &&& child_of(m[p], side) == cur
            &&& bhc(lab, cur) + 1 == bhc(lab, child_of(m[p], side.flipped()))
            &&& lab(p).bh == bhc(lab, child_of(m[p], side.flipped())) + blackness(m[p].color)
        },
        None => root == cur,
    }
    &&& forall|n: u32| m.contains_key(n) && Some(n) != par ==> #[trigger] height_ok(m, lab, n)
    &&& forall|n: u32| m.contains_key(n) && Some(n) != cur ==> #[trigger] red_ok(m, n, cur)
    &&& (root == cur || root_black(m, root))
}

/// A node with an absent child has at most a red leaf as its other child,
/// and none if it is red itself.
pub proof fn lemma_one_child<T>(m: Store<T>, lab: Labels, ord: Seq<u32>, root: Option<u32>, y: u32)
    requires
        shape(m, lab, ord, root),
        heights(m, lab),
        reds(m, None),
        m.contains_key(y),
        m[y].left.is_none() || m[y].right.is_none(),
    ensures
        bhc(lab, only_child(m, y)) == 0,
        lab(y).bh == blackness(m[y].color),
        m[y].color == Color::Red ==> only_child(m, y).is_none(),
        only_child(m, y).is_some() ==> m[only_child(m, y).unwrap()].color == Color::Red,
{
    assert(links_ok(m, lab, ord, root, y));
    assert(height_ok(m, lab, y));
    assert(red_ok(m, y, None));
    match only_child(m, y) {
        Some(c) => {
            assert(height_ok(m, lab, c));
        },
        None => {},
    }
}

proof fn lemma_splice_node<T>(
    m: Store<T>,
    lab: Labels,
    ord: Seq<u32>,
    root: Option<u32>,
    y: u32,
    n: u32,
)
    requires
        shape(m, lab, ord, root),
        m.contains_key(y),
        m[y].left.is_none() || m[y].right.is_none(),
        m.contains_key(n),
        n != y,
    ensures
        links_ok(
            replaced(m, y, only_child(m, y)).remove(y),
            closed_up(lab, lab(y).idx),
            ord.remove(lab(y).idx),
            replaced_root(m, root, y, only_child(m, y)),
            n,
        ),
{
    let x = only_child(m, y);
    let py = m[y].parent;
    let at = lab(y).idx;
    let m2 = replaced(m, y, x).remove(y);
    let lab2 = closed_up(lab, at);
    let ord2 = ord.remove(at);
    let root2 = replaced_root(m, root, y, x);
    assert(links_ok(m, lab, ord, root, y));
    assert(links_ok(m, lab, ord, root, n));
    if x.is_some() {
        assert(links_ok(m, lab, ord, root, x.unwrap()));
    }
    if py.is_some() {
        assert(links_ok(m, lab, ord, root, py.unwrap()));
    }
    assert(lab(n).idx != at);
    assert(ord2[lab2(n).idx] == n);
    if Some(n) == x {
        assert(links_ok(m2, lab2, ord2, root2, n));
    } else if Some(n) == py {
        assert(links_ok(m2, lab2, ord2, root2, n));
    } else {
        match m[n].left {
            Some(c) => {
                assert(c != y);
                assert(m2[c].parent == m[c].parent);
            },
            None => {},
        }
        match m[n].right {
            Some(c) => {
                assert(c != y);
                assert(m2[c].parent == m[c].parent);
            },
            None => {},
        }
        match m[n].parent {
            Some(q) => {
                assert(q != y);
                assert(m2[q].left == Some(n) || m2[q].right == Some(n));
            },
            None => {},
        }
        assert(links_ok(m2, lab2, ord2, root2, n));
    }
}

/// Taking out a node with at most one child, its child moving up into
/// its place, keeps the shape; the traversal loses the node's key. Where
/// the node was red the tree stays in full order; where it was black, the
/// place it left lacks one black node.
pub proof fn lemma_splice<T>(
    m: Store<T>,
    lab: Labels,
    ord: Seq<u32>,
    root: Option<u32>,
    y: u32,
)
    requires
        shape(m, lab, ord, root),
        heights(m, lab),
        reds(m, None),
        root_black(m, root),
        m.contains_key(y),
        m[y].left.is_none() || m[y].right.is_none(),
    ensures
        ({
            let x = only_child(m, y);
            let at = lab(y).idx;
            let m2 = replaced(m, y, x).remove(y);
            let lab2 = closed_up(lab, at);
            let ord2 = ord.remove(at);
            let root2 = replaced_root(m, root, y, x);
            &&& 0 <= at < ord.len()
            &&& ord[at] == y
            &&& m2.dom() == m.dom().remove(y)
            &&& shape(m2, lab2, ord2, root2)
            &&& keys_of(m2, ord2) == keys_of(m, ord).remove(at)
            &&& (m[y].color == Color::Red ==> heights(m2, lab2) && reds(m2, None) && root_black(
                m2,
                root2,
            ))
            &&& (m[y].color == Color::Black ==> lacking(
                m2,
                lab2,
                ord2,
                root2,
                x,
                m[y].parent,
                side_of(m, y),
            ))
        }),
{
    let x = only_child(m, y);
    let py = m[y].parent;
    let at = lab(y).idx;
    let m2 = replaced(m, y, x).remove(y);
    let lab2 = closed_up(lab, at);
    let ord2 = ord.remove(at);
    let root2 = replaced_root(m, root, y, x);
    lemma_one_child(m, lab, ord, root, y);
    assert(links_ok(m, lab, ord, root, y));
    if x.is_some() {
        assert(links_ok(m, lab, ord, root, x.unwrap()));
    }
    if py.is_some() {
        assert(links_ok(m, lab, ord, root, py.unwrap()));
        assert(height_ok(m, lab, py.unwrap()));
        assert(red_ok(m, py.unwrap(), None));
    }
    assert(m2.dom() =~= m.dom().remove(y));
    assert forall|n: u32| m2.contains_key(n) implies #[trigger] links_ok(
        m2,
        lab2,
        ord2,
        root2,
        n,
    ) by {
        lemma_splice_node(m, lab, ord, root, y, n);
    }
    assert forall|i: int| 0 <= i < ord2.len() implies m2.contains_key(#[trigger] ord2[i]) && lab2(
        ord2[i],
    ).idx == i by {
        if i < at {
            assert(ord2[i] == ord[i]);
            assert(m.contains_key(ord[i]));
        } else {
            assert(ord2[i] == ord[i + 1]);
            assert(m.contains_key(ord[i + 1]));
        }
    }
    match root {
        Some(r) => {
            assert(links_ok(m, lab, ord, root, r));
        },
        None => {},
    }
    assert(keys_of(m2, ord2) =~= keys_of(m, ord).remove(at)) by {
        assert forall|i: int| 0 <= i < ord2.len() implies keys_of(m2, ord2)[i] == keys_of(
            m,
            ord,
        ).remove(at)[i] by {
            if i < at {
                assert(m.contains_key(ord[i]));
            } else {
                assert(m.contains_key(ord[i + 1]));
            }
        }
    }
    assert forall|n: u32| m2.contains_key(n) && Some(n) != py implies #[trigger] height_ok(
        m2,
        lab2,
        n,
    ) by {
        assert(height_ok(m, lab, n));
        assert(links_ok(m, lab, ord, root, n));
    }
    assert forall|n: u32| m2.contains_key(n) implies #[trigger] red_ok(m2, n, x) by {
        assert(red_ok(m, n, None));
        assert(links_ok(m, lab, ord, root, n));
    }
    if m[y].color == Color::Red {
        assert forall|n: u32| m2.contains_key(n) implies #[trigger] height_ok(m2, lab2, n) by {
            assert(height_ok(m, lab, n));
            assert(links_ok(m, lab, ord, root, n));
        }
        assert forall|n: u32| m2.contains_key(n) implies #[trigger] red_ok(m2, n, None) by {
            assert(red_ok(m, n, None));
            assert(links_ok(m, lab, ord, root, n));
        }
    }
}

} // verus!
