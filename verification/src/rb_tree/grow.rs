use vstd::prelude::*;
use crate::node::NodeView;
use crate::order::{sorted, TotalOrder};
use super::inv::{height_ok, heights, keys_of, links_ok, red_ok, reds, shape, Label, Labels, Store};
use super::rotate::{child_of, with_child};
use super::Child;

verus! {

/// The place in the traversal of a new child of `p` on the side `s`.
pub open spec fn place_under(lab: Labels, p: u32, s: Child) -> int {
    match s {
        Child::Left => lab(p).idx,
        Child::Right => lab(p).idx + 1,
    }
}

/// The store once the fresh record `id` hangs under `p` on the side `s`.
pub open spec fn grown<T>(m: Store<T>, p: u32, s: Child, id: u32, key: T) -> Store<T> {
    m.insert(id, NodeView { parent: Some(p), ..NodeView::fresh(id, key) }).insert(
        p,
        with_child(m[p], s, Some(id)),
    )
}

/// Makes room at the place `at` of the traversal for the new leaf `id`
/// under a parent on whose side `s` it hangs: what lies behind moves up by
/// one, and every stretch that reaches over the place grows by one.
pub open spec fn spread(lab: Labels, at: int, s: Child, id: u32) -> Labels {
    |n: u32|
        if n == id {
            Label { lo: at, idx: at, hi: at + 1, bh: 0 }
        } else {
            let l = lab(n);
            match s {
                Child::Left => Label {
                    lo: if l.lo <= at { l.lo } else { l.lo + 1 },
                    idx: if l.idx < at { l.idx } else { l.idx + 1 },
                    hi: if l.hi <= at { l.hi } else { l.hi + 1 },
                    bh: l.bh,
                },
                Child::Right => Label {
                    lo: if l.lo < at { l.lo } else { l.lo + 1 },
                    idx: if l.idx < at { l.idx } else { l.idx + 1 },
                    hi: if l.hi < at { l.hi } else { l.hi + 1 },
                    bh: l.bh,
                },
            }
        }
}

proof fn lemma_grow_node<T>(
    m: Store<T>,
    lab: Labels,
    ord: Seq<u32>,
    root: Option<u32>,
    p: u32,
    s: Child,
    id: u32,
    key: T,
    n: u32,
)
    requires
        shape(m, lab, ord, root),
        m.contains_key(p),
        child_of(m[p], s).is_none(),
        !m.contains_key(id),
        grown(m, p, s, id, key).contains_key(n),
    ensures
        links_ok(
            grown(m, p, s, id, key),
            spread(lab, place_under(lab, p, s), s, id),
            ord.insert(place_under(lab, p, s), id),
            root,
            n,
        ),
{
    let at = place_under(lab, p, s);
    let m2 = grown(m, p, s, id, key);
    let lab2 = spread(lab, at, s, id);
    let ord2 = ord.insert(at, id);
    assert(links_ok(m, lab, ord, root, p));
    if n == id {
        assert(links_ok(m2, lab2, ord2, root, n));
    } else if n == p {
        match m[p].left {
            Some(c) => {
                assert(c != id && c != p);
            },
            None => {},
        }
        match m[p].right {
            Some(c) => {
                assert(c != id && c != p);
            },
            None => {},
        }
        match m[p].parent {
            Some(q) => {
                assert(q != id);
                assert(links_ok(m, lab, ord, root, q));
            },
            None => {},
        }
        assert(links_ok(m2, lab2, ord2, root, n));
    } else {
        assert(links_ok(m, lab, ord, root, n));
        assert(m2[n] == m[n]);
        assert(lab(n).idx != lab(p).idx);
        match m[n].left {
            Some(c) => {
                assert(c != id);
                assert(m2[c].parent == m[c].parent);
            },
            None => {},
        }
        match m[n].right {
            Some(c) => {
                assert(c != id);
                assert(m2[c].parent == m[c].parent);
            },
            None => {},
        }
        match m[n].parent {
            Some(q) => {
                assert(q != id);
                assert(m2[q].left == Some(n) || m2[q].right == Some(n));
            },
            None => {},
        }
        assert(ord2[lab2(n).idx] == n);
        assert(links_ok(m2, lab2, ord2, root, n));
    }
}

/// Hanging a fresh red leaf into an empty place keeps the shape and the
/// black heights; the traversal gains the new key at that place, and the
/// only red node that may now have a red child is the leaf's parent.
pub proof fn lemma_grow<T>(
    m: Store<T>,
    lab: Labels,
    ord: Seq<u32>,
    root: Option<u32>,
    p: u32,
    s: Child,
    id: u32,
    key: T,
)
    requires
        shape(m, lab, ord, root),
        heights(m, lab),
        reds(m, None),
        m.contains_key(p),
        child_of(m[p], s).is_none(),
        !m.contains_key(id),
    ensures
        ({
            let at = place_under(lab, p, s);
            let m2 = grown(m, p, s, id, key);
            let lab2 = spread(lab, at, s, id);
            let ord2 = ord.insert(at, id);
            &&& 0 <= at <= ord.len()
            &&& shape(m2, lab2, ord2, root)
            &&& heights(m2, lab2)
            &&& reds(m2, Some(id))
            &&& keys_of(m2, ord2) == keys_of(m, ord).insert(at, key)
        }),
{
    let at = place_under(lab, p, s);
    let m2 = grown(m, p, s, id, key);
    let lab2 = spread(lab, at, s, id);
    let ord2 = ord.insert(at, id);
    assert(links_ok(m, lab, ord, root, p));
    assert forall|n: u32| m2.contains_key(n) implies #[trigger] links_ok(m2, lab2, ord2, root, n) by {
        lemma_grow_node(m, lab, ord, root, p, s, id, key, n);
    }
    assert forall|i: int| 0 <= i < ord2.len() implies m2.contains_key(#[trigger] ord2[i]) && lab2(
        ord2[i],
    ).idx == i by {
        if i < at {
            assert(ord2[i] == ord[i]);
            assert(m.contains_key(ord[i]));
        } else if i > at {
            assert(ord2[i] == ord[i - 1]);
            assert(m.contains_key(ord[i - 1]));
        }
    }
    match root {
        Some(r) => {
            assert(r != id);
        },
        None => {},
    }
    assert forall|n: u32| m2.contains_key(n) implies #[trigger] height_ok(m2, lab2, n) by {
        if n != id {
            assert(height_ok(m, lab, n));
            assert(links_ok(m, lab, ord, root, n));
        }
    }
    assert forall|n: u32| m2.contains_key(n) implies #[trigger] red_ok(m2, n, Some(id)) by {
        if n != id {
            assert(red_ok(m, n, None));
            assert(links_ok(m, lab, ord, root, n));
        }
    }
    assert(keys_of(m2, ord2) =~= keys_of(m, ord).insert(at, key)) by {
        assert forall|i: int| 0 <= i < ord2.len() implies keys_of(m2, ord2)[i] == keys_of(
            m,
            ord,
        ).insert(at, key)[i] by {
            if i < at {
                assert(m.contains_key(ord[i]));
            } else if i > at {
                assert(m.contains_key(ord[i - 1]));
            }
        }
    }
}

/// A key that enters a sorted sequence between what is not greater and
/// what is greater leaves it sorted.
pub proof fn lemma_insert_sorted<T: TotalOrder>(s: Seq<T>, v: T, at: int)
    requires
        sorted(s),
        0 <= at <= s.len(),
        forall|j: int| 0 <= j < at ==> (#[trigger] s[j]).le(v),
        forall|j: int| at <= j < s.len() ==> !(#[trigger] s[j]).le(v),
    ensures
        sorted(s.insert(at, v)),
{
    let r = s.insert(at, v);
    assert forall|i: int, j: int| 0 <= i <= j < r.len() implies (#[trigger] r[i]).le(
        #[trigger] r[j],
    ) by {
        if i == at {
            if j == at {
                T::le_reflexive(v);
            } else {
                assert(r[j] == s[j - 1]);
                T::le_total(v, s[j - 1]);
            }
        } else if j == at {
            assert(r[i] == s[i]);
        } else {
            let a = if i < at { i } else { i - 1 };
            let b = if j < at { j } else { j - 1 };
            assert(r[i] == s[a]);
            assert(r[j] == s[b]);
            assert(s[a].le(s[b]));
        }
    }
}

} // verus!
