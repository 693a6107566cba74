use vstd::prelude::*;
use vstd::seq_lib::{to_multiset_insert, to_multiset_remove};
use crate::node::Color;
use crate::order::{placed, sorted, TotalOrder};
use crate::repo::Repository;
use super::inv::{
    blackness,
    height_ok,
    heights,
    is_red,
    keys_of,
    links_ok,
    red_ok,
    shape,
    Labels,
    Store,
};
use super::RedBlackTree;

verus! {

/// A way down the tree: each node a child of the one before it.
pub open spec fn is_descent<T>(m: Store<T>, path: Seq<u32>) -> bool {
    &&& path.len() > 0
    &&& forall|i: int| 0 <= i < path.len() ==> m.contains_key(#[trigger] path[i])
    &&& forall|i: int|
        0 <= i < path.len() - 1 ==> m[#[trigger] path[i]].left == Some(path[i + 1]) || m[path[i]].right
            == Some(path[i + 1])
}

/// A way from `top` down to an absent position.
pub open spec fn reaches_leaf<T>(m: Store<T>, top: u32, path: Seq<u32>) -> bool {
    &&& is_descent(m, path)
    &&& path[0] == top
    &&& (m[path.last()].left.is_none() || m[path.last()].right.is_none())
}

/// The number of black nodes on a way down.
pub open spec fn blacks_on<T>(m: Store<T>, path: Seq<u32>) -> nat
    decreases path.len(),
{
    if path.len() == 0 {
        0
    } else {
        blackness(m[path[0]].color) + blacks_on(m, path.drop_first())
    }
}

/// Every way from the root down to an absent position passes the same
/// number of black nodes.
pub open spec fn even_black_height<T>(m: Store<T>, root: Option<u32>) -> bool {
    match root {
        Some(r) => forall|p: Seq<u32>, q: Seq<u32>|
            #![trigger reaches_leaf(m, r, p), reaches_leaf(m, r, q)]
            reaches_leaf(m, r, p) && reaches_leaf(m, r, q) ==> blacks_on(m, p) == blacks_on(m, q),
        None => true,
    }
}

/// No red node has a red child.
pub open spec fn no_red_red<T>(m: Store<T>) -> bool {
    forall|n: u32|
        #![trigger m[n]]
        m.contains_key(n) && m[n].color == Color::Red ==> !is_red(m, m[n].left) && !is_red(
            m,
            m[n].right,
        )
}

/// The balance rules of a red-black tree.
pub open spec fn red_black<T>(m: Store<T>, root: Option<u32>) -> bool {
    &&& match root {
        Some(r) => m.contains_key(r) && m[r].color == Color::Black,
        None => true,
    }
    &&& no_red_red(m)
    &&& even_black_height(m, root)
}

/// The links of the store agree: every link leads to a stored record,
/// a node and its child name each other, no node is both children of
/// another, and the root is the one node without a parent.
pub open spec fn linked<T>(m: Store<T>, root: Option<u32>) -> bool {
    &&& forall|n: u32| #[trigger]
        m.contains_key(n) ==> {
            &&& m[n].id == n
            &&& match m[n].left {
                Some(c) => m.contains_key(c) && m[c].parent == Some(n) && c != n,
                None => true,
            }
            &&& match m[n].right {
                Some(c) => m.contains_key(c) && m[c].parent == Some(n) && c != n,
                None => true,
            }
            &&& (m[n].left.is_some() ==> m[n].left != m[n].right)
            &&& match m[n].parent {
                Some(p) => m.contains_key(p) && (m[p].left == Some(n) || m[p].right == Some(n)),
                None => root == Some(n),
            }
        }
    &&& match root {
        Some(r) => m.contains_key(r) && m[r].parent.is_none(),
        None => m.dom() == Set::<u32>::empty(),
    }
}

/// The keys below `top` in the order of a walk through at most `depth`
/// levels: left subtree, node, right subtree.
pub open spec fn traversal<T>(m: Store<T>, top: Option<u32>, depth: nat) -> Seq<T>
    decreases depth,
{
    match top {
        Some(n) => if depth == 0 {
            Seq::empty()
        } else {
            traversal(m, m[n].left, (depth - 1) as nat) + seq![m[n].key] + traversal(
                m,
                m[n].right,
                (depth - 1) as nat,
            )
        },
        None => Seq::empty(),
    }
}

/// Every sequence of deletions, one after the other.
pub open spec fn removed_all<T>(s: Seq<T>, gone: Seq<T>) -> Seq<T>
    decreases gone.len(),
{
    if gone.len() == 0 {
        s
    } else {
        removed_all(s.remove_value(gone[0]), gone.drop_first())
    }
}

proof fn lemma_blacks_on<T>(m: Store<T>, lab: Labels, ord: Seq<u32>, root: Option<u32>, path: Seq<u32>)
    requires
        shape(m, lab, ord, root),
        heights(m, lab),
        is_descent(m, path),
        m[path.last()].left.is_none() || m[path.last()].right.is_none(),
    ensures
        blacks_on(m, path) == lab(path[0]).bh,
    decreases path.len(),
{
    let n = path[0];
    assert(m.contains_key(n));
    assert(height_ok(m, lab, n));
    if path.len() == 1 {
        assert(path.drop_first().len() == 0);
        assert(path.last() == n);
        assert(blacks_on(m, path.drop_first()) == 0);
    } else {
        let rest = path.drop_first();
        assert(m[path[0]].left == Some(path[1]) || m[path[0]].right == Some(path[1]));
        assert(rest[0] == path[1]);
        assert(rest.last() == path.last());
        assert forall|i: int| 0 <= i < rest.len() implies m.contains_key(#[trigger] rest[i]) by {
            assert(rest[i] == path[i + 1]);
        }
        assert forall|i: int| 0 <= i < rest.len() - 1 implies m[#[trigger] rest[i]].left == Some(
            rest[i + 1],
        ) || m[rest[i]].right == Some(rest[i + 1]) by {
            assert(rest[i] == path[i + 1]);
            assert(rest[i + 1] == path[i + 2]);
        }
        lemma_blacks_on(m, lab, ord, root, rest);
    }
}

proof fn lemma_traversal<T>(
    m: Store<T>,
    lab: Labels,
    ord: Seq<u32>,
    root: Option<u32>,
    top: Option<u32>,
    depth: nat,
)
    requires
        shape(m, lab, ord, root),
        match top {
            Some(n) => m.contains_key(n) && lab(n).hi - lab(n).lo <= depth,
            None => true,
        },
    ensures
        traversal(m, top, depth) == (match top {
            Some(n) => keys_of(m, ord).subrange(lab(n).lo, lab(n).hi),
            None => Seq::<T>::empty(),
        }),
    decreases depth,
{
    match top {
        Some(n) => {
            assert(links_ok(m, lab, ord, root, n));
            let l = lab(n);
            let ks = keys_of(m, ord);
            if m[n].left.is_some() {
                assert(links_ok(m, lab, ord, root, m[n].left.unwrap()));
            }
            if m[n].right.is_some() {
                assert(links_ok(m, lab, ord, root, m[n].right.unwrap()));
            }
            lemma_traversal(m, lab, ord, root, m[n].left, (depth - 1) as nat);
            lemma_traversal(m, lab, ord, root, m[n].right, (depth - 1) as nat);
            assert(traversal(m, m[n].left, (depth - 1) as nat) =~= ks.subrange(l.lo, l.idx));
            assert(traversal(m, m[n].right, (depth - 1) as nat) =~= ks.subrange(l.idx + 1, l.hi));
            assert(ks[l.idx] == m[n].key);
            assert(traversal(m, top, depth) =~= ks.subrange(l.lo, l.hi));
        },
        None => {},
    }
}

/// A key that is put into a sequence is in it once more than before, and
/// every other key as often as before.
pub proof fn law_placed_multiset<T: TotalOrder>(s: Seq<T>, v: T)
    ensures
        placed(s, v).to_multiset() == s.to_multiset().insert(v),
        placed(s, v).len() == s.len() + 1,
    decreases s.len(),
{
    if s.len() == 0 {
        assert(placed(s, v) =~= s.insert(0, v));
        to_multiset_insert(s, 0, v);
    } else if s.last().le(v) {
        assert(s.push(v) =~= s.insert(s.len() as int, v));
        to_multiset_insert(s, s.len() as int, v);
    } else {
        let front = s.drop_last();
        law_placed_multiset(front, v);
        let mid = placed(front, v);
        assert(mid.push(s.last()) =~= mid.insert(mid.len() as int, s.last()));
        to_multiset_insert(mid, mid.len() as int, s.last());
        assert(front.push(s.last()) =~= s);
        assert(front.push(s.last()) =~= front.insert(front.len() as int, s.last()));
        to_multiset_insert(front, front.len() as int, s.last());
        assert(mid.push(s.last()).to_multiset() =~= s.to_multiset().insert(v));
    }
}

/// A key that is taken out of a sequence is in it once less than before,
/// if it was in it at all, and every other key as often as before.
pub proof fn law_removed_multiset<T>(s: Seq<T>, v: T)
    ensures
        s.remove_value(v).to_multiset() == s.to_multiset().remove(v),
        s.contains(v) ==> s.remove_value(v).len() == s.len() - 1,
        !s.contains(v) ==> s.remove_value(v) == s,
{
    s.index_of_first_ensures(v);
    match s.index_of_first(v) {
        Some(i) => {
            to_multiset_remove(s, i);
        },
        None => {
            s.to_multiset_ensures();
            assert(s.to_multiset().count(v) == 0);
            assert(s.to_multiset().remove(v) =~= s.to_multiset());
        },
    }
}

/// Deleting each of the keys once, in any order, leaves nothing.
pub proof fn law_total_clearance<T>(s: Seq<T>, gone: Seq<T>)
    requires
        gone.to_multiset() == s.to_multiset(),
    ensures
        removed_all(s, gone) == Seq::<T>::empty(),
    decreases gone.len(),
{
    s.to_multiset_ensures();
    gone.to_multiset_ensures();
    if gone.len() == 0 {
        assert(s.len() == 0);
        assert(s =~= Seq::<T>::empty());
    } else {
        let v = gone[0];
        law_removed_multiset(s, v);
        to_multiset_remove(gone, 0);
        assert(gone.remove(0) =~= gone.drop_first());
        law_total_clearance(s.remove_value(v), gone.drop_first());
    }
}

impl<R: Repository<T>, T: TotalOrder> RedBlackTree<R, T> {
    /// Between operations the keys stand in ascending order.
    pub proof fn law_sorted(&self, repo: &R)
        requires
            self.wf(repo),
        ensures
            sorted(self.keys(repo)),
    {
    }

    /// Between operations the balance rules hold: the root is black, no
    /// red node has a red child, and every way from the root down to an
    /// absent position passes the same number of black nodes.
    pub proof fn law_balanced(&self, repo: &R)
        requires
            self.wf(repo),
        ensures
            red_black(repo.view(), self.root_id()),
    {
        let m = repo.view();
        let lab = self.labels@;
        let ord = self.order@;
        assert forall|n: u32|
            #![trigger m[n]]
            m.contains_key(n) && m[n].color == Color::Red implies !is_red(m, m[n].left) && !is_red(
            m,
            m[n].right,
        ) by {
            assert(red_ok(m, n, None));
        }
        match self.root {
            Some(r) => {
                assert forall|p: Seq<u32>, q: Seq<u32>|
                    #![trigger reaches_leaf(m, r, p), reaches_leaf(m, r, q)]
                    reaches_leaf(m, r, p) && reaches_leaf(m, r, q) implies blacks_on(m, p)
                    == blacks_on(m, q) by {
                    lemma_blacks_on(m, lab, ord, self.root, p);
                    lemma_blacks_on(m, lab, ord, self.root, q);
                }
            },
            None => {},
        }
    }

    /// The keys are what a walk from the root yields: left subtree, node,
    /// right subtree.
    pub proof fn law_traversal(&self, repo: &R, depth: nat)
        requires
            self.wf(repo),
            depth >= self.spec_len(),
        ensures
            self.keys(repo) == traversal(repo.view(), self.root_id(), depth),
    {
        let m = repo.view();
        let ks = keys_of(m, self.order@);
        lemma_traversal(m, self.labels@, self.order@, self.root, self.root, depth);
        match self.root {
            Some(r) => {
                assert(ks.subrange(0, ks.len() as int) =~= ks);
            },
            None => {
                assert(ks =~= Seq::<T>::empty());
            },
        }
    }

    /// The length is the number of live nodes, and no more than the
    /// number of identifiers handed out.
    pub proof fn law_count(&self, repo: &R)
        requires
            self.wf(repo),
        ensures
            self.spec_len() == self.keys(repo).len(),
            self.spec_len() == self.ids().len(),
            self.spec_len() <= self.ids_issued(),
            self.ids_issued() <= u32::MAX,
    {
    }

    /// Between operations the links of the store agree with each other
    /// and with the root.
    pub proof fn law_links(&self, repo: &R)
        requires
            self.wf(repo),
        ensures
            linked(repo.view(), self.root_id()),
    {
        let m = repo.view();
        let lab = self.labels@;
        let ord = self.order@;
        assert forall|n: u32| #[trigger] m.contains_key(n) implies {
            &&& m[n].id == n
            &&& match m[n].left {
                Some(c) => m.contains_key(c) && m[c].parent == Some(n) && c != n,
                None => true,
            }
            &&& match m[n].right {
                Some(c) => m.contains_key(c) && m[c].parent == Some(n) && c != n,
                None => true,
            }
            &&& (m[n].left.is_some() ==> m[n].left != m[n].right)
            &&& match m[n].parent {
                Some(p) => m.contains_key(p) && (m[p].left == Some(n) || m[p].right == Some(n)),
                None => self.root == Some(n),
            }
        } by {
            assert(links_ok(m, lab, ord, self.root, n));
        }
        if self.root.is_none() {
            assert forall|n: u32| !m.contains_key(n) by {
                if m.contains_key(n) {
                    assert(links_ok(m, lab, ord, self.root, n));
                }
            }
            assert(m.dom() =~= Set::<u32>::empty());
        }
    }

    /// The store holds the live nodes and nothing else, each under its
    /// own identifier, and each identifier once.
    pub proof fn law_store(&self, repo: &R)
        requires
            self.wf(repo),
        ensures
            forall|n: u32| repo.view().contains_key(n) <==> self.ids().contains(n),
            forall|n: u32|
                #[trigger] repo.view().contains_key(n) ==> repo.view()[n].id == n && 1 <= n
                    <= self.ids_issued(),
            self.ids().no_duplicates(),
            self.keys(repo) == self.ids().map_values(|n: u32| repo.view()[n].key),
            self.nodes(repo) == self.ids().map_values(|n: u32| repo.view()[n]),
            self.root_id().is_none() <==> self.ids().len() == 0,
    {
        let m = repo.view();
        let lab = self.labels@;
        let ord = self.order@;
        assert forall|n: u32| m.contains_key(n) <==> ord.contains(n) by {
            if m.contains_key(n) {
                assert(links_ok(m, lab, ord, self.root, n));
                assert(ord[lab(n).idx] == n);
            }
            if ord.contains(n) {
                let i = choose|i: int| 0 <= i < ord.len() && ord[i] == n;
                assert(m.contains_key(ord[i]));
            }
        }
        assert forall|n: u32| #[trigger] m.contains_key(n) implies m[n].id == n && 1 <= n
            <= self.ids_issued() by {
            assert(links_ok(m, lab, ord, self.root, n));
        }
        assert(self.nodes(repo) =~= ord.map_values(|n: u32| m[n]));
        assert forall|i: int, j: int| 0 <= i < ord.len() && 0 <= j < ord.len() && i != j implies ord[i]
            != ord[j] by {
            assert(lab(ord[i]).idx == i);
            assert(lab(ord[j]).idx == j);
        }
        assert(self.keys(repo) =~= ord.map_values(|n: u32| m[n].key));
        match self.root {
            Some(r) => {
                assert(links_ok(m, lab, ord, self.root, r));
            },
            None => {},
        }
    }
}

} // verus!
