use vstd::prelude::*;
use crate::node::{NodeView, Operations};
use crate::order::{sorted, TotalOrder};
use crate::repo::Repository;
use super::inv::{keys_of, links_ok, Store};
use super::RedBlackTree;

verus! {

/// The records in traversal order.
pub open spec fn nodes_of<T>(m: Store<T>, ord: Seq<u32>) -> Seq<NodeView<T>> {
    Seq::new(ord.len(), |i: int| m[ord[i]])
}

/// What the borrowed records of `s` hold.
pub open spec fn records<T, N: Operations<T>>(s: Seq<&N>) -> Seq<NodeView<T>> {
    Seq::new(s.len(), |i: int| s[i].view())
}

/// The link that a search for `value` follows out of the node `n`: the
/// left one where `value` is strictly less than the key of `n`, else the
/// right one.
pub open spec fn next_on_way<T: TotalOrder>(m: Store<T>, value: T, n: u32) -> Option<u32> {
    if !m[n].key.le(value) {
        m[n].left
    } else {
        m[n].right
    }
}

/// `way` is the way that a search for `value` takes from `top`, as far
/// as it has not met the key: no node on it but the last may hold it.
pub open spec fn search_way<T: TotalOrder>(
    m: Store<T>,
    top: Option<u32>,
    value: T,
    way: Seq<u32>,
) -> bool {
    &&& way.len() > 0
    &&& top == Some(way[0])
    &&& forall|i: int| 0 <= i < way.len() ==> m.contains_key(#[trigger] way[i])
    &&& forall|i: int|
        0 <= i < way.len() - 1 ==> m[#[trigger] way[i]].key != value && next_on_way(
            m,
            value,
            way[i],
        ) == Some(way[i + 1])
}

/// `way` is the way that a new node with the key `value` takes from
/// `top` down to the node under which it hangs: it goes on past equal
/// keys, and ends where the link that it would follow is absent.
pub open spec fn insert_way<T: TotalOrder>(
    m: Store<T>,
    top: Option<u32>,
    value: T,
    way: Seq<u32>,
) -> bool {
    &&& way.len() > 0
    &&& top == Some(way[0])
    &&& forall|i: int| 0 <= i < way.len() ==> m.contains_key(#[trigger] way[i])
    &&& forall|i: int|
        0 <= i < way.len() - 1 ==> next_on_way(m, value, #[trigger] way[i]) == Some(way[i + 1])
    &&& next_on_way(m, value, way.last()).is_none()
}

impl<R: Repository<T>, T: TotalOrder> RedBlackTree<R, T> {
    /// The first node on the way down from the root whose key is `value`.
    pub fn find<'a>(&self, repo: &'a R, value: T) -> (r: Option<&'a R::Output>)
        requires
            self.wf(repo),
        ensures
            r.is_some() <==> self.keys(repo).contains(value),
            match r {
                Some(n) => {
                    &&& n.view().key == value
                    &&& repo.view().contains_key(n.view().id)
                    &&& repo.view()[n.view().id] == n.view()
                    &&& exists|way: Seq<u32>|
                        #[trigger] search_way(repo.view(), self.root_id(), value, way)
                            && way.last() == n.view().id
                },
                None => true,
            },
    {
        self.find_node(repo, value)
    }

    pub(super) fn find_node<'a>(&self, repo: &'a R, value: T) -> (r: Option<&'a R::Output>)
        requires
            self.wf(repo),
        ensures
            r.is_some() <==> self.keys(repo).contains(value),
            match r {
                Some(n) => {
                    &&& n.view().key == value
                    &&& repo.view().contains_key(n.view().id)
                    &&& repo.view()[n.view().id] == n.view()
                    &&& exists|way: Seq<u32>|
                        #[trigger] search_way(repo.view(), self.root, value, way) && way.last()
                            == n.view().id
                },
                None => true,
            },
    {
        let ghost m = repo.view();
        let ghost mut way: Seq<u32> = Seq::empty();
        let ghost lab = self.labels@;
        let ghost ord = self.order@;
        let ghost ks = keys_of(m, ord);
        let ghost mut a: int = 0;
        let ghost mut b: int = ord.len() as int;
        let mut current = self.root;
        while current.is_some()
            invariant
                self.wf(repo),
                m == repo.view(),
                lab == self.labels@,
                ord == self.order@,
                ks == keys_of(m, ord),
                0 <= a <= b <= ord.len(),
                forall|j: int| 0 <= j < a ==> (#[trigger] ks[j]) != value,
                forall|j: int| b <= j < ord.len() ==> (#[trigger] ks[j]) != value,
                match current {
                    Some(c) => m.contains_key(c) && lab(c).lo == a && lab(c).hi == b,
                    None => a == b,
                },
                forall|i: int| 0 <= i < way.len() ==> m.contains_key(#[trigger] way[i]),
                forall|i: int|
                    0 <= i < way.len() - 1 ==> m[#[trigger] way[i]].key != value && next_on_way(
                        m,
                        value,
                        way[i],
                    ) == Some(way[i + 1]),
                way.len() == 0 ==> current == self.root,
                way.len() > 0 ==> self.root == Some(way[0]) && m[way.last()].key != value
                    && next_on_way(m, value, way.last()) == current,
            decreases b - a,
        {
            let node_id = current.unwrap();
            assert(links_ok(m, lab, ord, self.root, node_id));
            let node = match repo.get(&node_id) {
                Some(n) => n,
                None => { return None; },
            };
            let ghost i = lab(node_id).idx;
            assert(ks[i] == m[node_id].key);
            let key = node.key();
            proof {
                way = way.push(node_id);
            }
            if key.same(&value) {
                assert(ks.contains(value));
                assert(search_way(m, self.root, value, way) && way.last() == node_id);
                return Some(node);
            }
            if value.less(&key) {
                proof {
                    assert forall|j: int| i <= j < ord.len() implies (#[trigger] ks[j]) != value by {
                        assert(ks[i].le(ks[j]));
                    }
                    b = i;
                }
                current = node.left_child();
            } else {
                proof {
                    assert forall|j: int| 0 <= j < i + 1 implies (#[trigger] ks[j]) != value by {
                        if j < i {
                            assert(ks[j].le(ks[i]));
                            if ks[j] == value {
                                T::le_total(value, key);
                                T::le_antisymmetric(value, key);
                            }
                        }
                    }
                    a = i + 1;
                }
                current = node.right_child();
            }
        }
        proof {
            if ks.contains(value) {
                let j = choose|j: int| 0 <= j < ks.len() && ks[j] == value;
                assert(ks[j] == value);
            }
        }
        None
    }

    /// Every live node once, in traversal order: left subtree, node,
    /// right subtree. The keys come in ascending order.
    pub fn walk_in_order<'a>(&self, repo: &'a R) -> (out: Vec<&'a R::Output>)
        requires
            self.wf(repo),
        ensures
            records(out@) == self.nodes(repo),
            records(out@).map_values(|v: NodeView<T>| v.key) == self.keys(repo),
            out@.len() == self.spec_len(),
            sorted(self.keys(repo)),
    {
        let mut out: Vec<&'a R::Output> = Vec::new();
        proof {
            let all = nodes_of(repo.view(), self.order@);
            assert(records(out@) =~= Seq::<NodeView<T>>::empty());
            if self.root.is_some() {
                assert(all.subrange(0, self.order@.len() as int) =~= all);
            } else {
                assert(all =~= Seq::<NodeView<T>>::empty());
            }
        }
        self.go_walk_in_order(repo, &self.root, &mut out);
        proof {
            assert(records(out@) =~= nodes_of(repo.view(), self.order@));
            assert(records(out@).map_values(|v: NodeView<T>| v.key) =~= keys_of(
                repo.view(),
                self.order@,
            ));
        }
        out
    }

    pub(super) fn go_walk_in_order<'a>(
        &self,
        repo: &'a R,
        node: &Option<u32>,
        out: &mut Vec<&'a R::Output>,
    )
        requires
            self.wf(repo),
            match *node {
                Some(n) => repo.view().contains_key(n),
                None => true,
            },
        ensures
            records(final(out)@) == records(old(out)@) + (match *node {
                Some(n) => nodes_of(repo.view(), self.order@).subrange(
                    (self.labels@)(n).lo,
                    (self.labels@)(n).hi,
                ),
                None => Seq::<NodeView<T>>::empty(),
            }),
        decreases
            (match *node {
                Some(n) => (self.labels@)(n).hi - (self.labels@)(n).lo,
                None => 0,
            }),
    {
        if let Some(n) = node {
            let ghost m = repo.view();
            let ghost lab = self.labels@;
            let ghost ord = self.order@;
            let ghost all = nodes_of(m, ord);
            assert(links_ok(m, lab, ord, self.root, *n));
            let rec = match repo.get(n) {
                Some(r) => r,
                None => { return ; },
            };
            let left = rec.left_child();
            let right = rec.right_child();
            self.go_walk_in_order(repo, &left, out);
            let ghost mid = records(out@);
            out.push(rec);
            proof {
                assert(records(out@) =~= mid.push(m[*n]));
            }
            self.go_walk_in_order(repo, &right, out);
            proof {
                let l = lab(*n);
                let lpart = match left {
                    Some(c) => all.subrange(l.lo, l.idx),
                    None => Seq::<NodeView<T>>::empty(),
                };
                let rpart = match right {
                    Some(c) => all.subrange(l.idx + 1, l.hi),
                    None => Seq::<NodeView<T>>::empty(),
                };
                assert(lpart =~= all.subrange(l.lo, l.idx));
                assert(rpart =~= all.subrange(l.idx + 1, l.hi));
                assert(all[l.idx] == m[*n]);
                assert(records(out@) =~= records(old(out)@) + all.subrange(l.lo, l.hi));
            }
        } else {
            assert(records(out@) =~= records(old(out)@) + Seq::<NodeView<T>>::empty());
        }
    }
}

} // verus!
