use vstd::prelude::*;
use crate::node::{Color, NodeView};
use crate::order::{sorted, TotalOrder};

verus! {

/// The store as the engine sees it.
pub type Store<T> = Map<u32, NodeView<T>>;

/// What the engine remembers of a node beyond its record: the stretch
/// `lo..hi` of the traversal that its subtree fills, its own place `idx`
/// in it, and the number `bh` of black nodes on every way down from it,
/// itself included.
pub ghost struct Label {
    pub lo: int,
    pub idx: int,
    pub hi: int,
    pub bh: nat,
}

pub type Labels = spec_fn(u32) -> Label;

pub open spec fn blackness(c: Color) -> nat {
    if c == Color::Black {
        1
    } else {
        0
    }
}

/// An absent child counts as black.
pub open spec fn is_red<T>(m: Store<T>, c: Option<u32>) -> bool {
    match c {
        Some(i) => m[i].color == Color::Red,
        None => false,
    }
}

/// The black height below a link.
pub open spec fn bhc(lab: Labels, c: Option<u32>) -> nat {
    match c {
        Some(i) => lab(i).bh,
        None => 0,
    }
}

/// The keys in traversal order.
pub open spec fn keys_of<T>(m: Store<T>, ord: Seq<u32>) -> Seq<T> {
    Seq::new(ord.len(), |i: int| m[ord[i]].key)
}

/// The links of `n` agree with its neighbours' and with the traversal:
/// the left subtree fills `lo..idx`, the right one `idx + 1..hi`.
pub open spec fn links_ok<T>(m: Store<T>, lab: Labels, ord: Seq<u32>, root: Option<u32>, n: u32) -> bool {
    let v = m[n];
    let l = lab(n);
    &&& v.id == n
    &&& 0 <= l.lo <= l.idx < l.hi <= ord.len()
    &&& ord[l.idx] == n
    &&& match v.left {
        None => l.lo == l.idx,
        Some(c) => m.contains_key(c) && m[c].parent == Some(n) && lab(c).lo == l.lo && lab(c).hi
            == l.idx,
    }
    &&& match v.right {
        None => l.hi == l.idx + 1,
        Some(c) => m.contains_key(c) && m[c].parent == Some(n) && lab(c).lo == l.idx + 1 && lab(
            c,
        ).hi == l.hi,
    }
    &&& match v.parent {
        None => root == Some(n),
        Some(p) => m.contains_key(p) && (m[p].left == Some(n) || m[p].right == Some(n)),
    }
}

/// Both ways down from `n` pass the same number of black nodes.
pub open spec fn height_ok<T>(m: Store<T>, lab: Labels, n: u32) -> bool {
    &&& lab(n).bh == bhc(lab, m[n].left) + blackness(m[n].color)
    &&& bhc(lab, m[n].left) == bhc(lab, m[n].right)
}

/// A red `n` has no red child, but for the child `except`.
pub open spec fn red_ok<T>(m: Store<T>, n: u32, except: Option<u32>) -> bool {
    m[n].color == Color::Red ==> {
        &&& (m[n].left == except || !is_red(m, m[n].left))
        &&& (m[n].right == except || !is_red(m, m[n].right))
    }
}

/// The shape of the tree: every record is linked consistently, the
/// traversal lists every record once, and the root spans all of it.
pub open spec fn shape<T>(m: Store<T>, lab: Labels, ord: Seq<u32>, root: Option<u32>) -> bool {
    &&& forall|n: u32| m.contains_key(n) ==> #[trigger] links_ok(m, lab, ord, root, n)
    &&& forall|i: int|
        0 <= i < ord.len() ==> m.contains_key(#[trigger] ord[i]) && lab(ord[i]).idx == i
    &&& match root {
        None => ord.len() == 0,
        Some(r) => m.contains_key(r) && m[r].parent.is_none() && lab(r).lo == 0 && lab(r).hi
            == ord.len(),
    }
}

pub open spec fn heights<T>(m: Store<T>, lab: Labels) -> bool {
    forall|n: u32| m.contains_key(n) ==> #[trigger] height_ok(m, lab, n)
}

pub open spec fn reds<T>(m: Store<T>, except: Option<u32>) -> bool {
    forall|n: u32| m.contains_key(n) ==> #[trigger] red_ok(m, n, except)
}

pub open spec fn root_black<T>(m: Store<T>, root: Option<u32>) -> bool {
    match root {
        Some(r) => m[r].color == Color::Black,
        None => true,
    }
}

/// No identifier in use is beyond the last one handed out.
pub open spec fn ids_bounded<T>(m: Store<T>, counter: u32) -> bool {
    forall|n: u32| #[trigger] m.contains_key(n) ==> 1 <= n <= counter
}

/// Everything that holds of store and engine between two operations.
pub open spec fn inv<T: TotalOrder>(
    m: Store<T>,
    lab: Labels,
    ord: Seq<u32>,
    root: Option<u32>,
    length: usize,
    counter: u32,
) -> bool {
    &&& shape(m, lab, ord, root)
    &&& heights(m, lab)
    &&& reds(m, None)
    &&& root_black(m, root)
    &&& sorted(keys_of(m, ord))
    &&& length == ord.len()
    &&& length <= counter
    &&& ids_bounded(m, counter)
}

} // verus!
