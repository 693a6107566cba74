use vstd::prelude::*;

use crate::order::TotalOrder;
use super::node::{bag_of, contents_of, within, Key, Node, NodeType, Tree};
use super::sums::lemma_total_member;

verus! {

/// What the references of `refs` refer to.
pub open spec fn referents<T>(refs: Seq<&T>) -> Seq<T> {
    refs.map_values(|r: &T| *r)
}

/// Whether a key counts for a bound: not above it where `inclusive`,
/// strictly below it where not.
pub open spec fn counts<U: TotalOrder>(k: U, bound: U, inclusive: bool) -> bool {
    if inclusive {
        k.le(bound)
    } else {
        !bound.le(k)
    }
}

/// What is held below a child is held below the node.
pub proof fn lemma_child_in_bag<U, T>(node: &Node<U, T>, j: int, e: T)
    requires
        0 <= j < node.children@.len(),
        bag_of(node.children@[j]).count(e) > 0,
    ensures
        node.bag().count(e) > 0,
{
    assert(node.child_bags()[j] == bag_of(node.children@[j]));
    lemma_total_member(node.child_bags(), e);
}

/// A value of the node is held by the node.
pub proof fn lemma_key_in_bag<U, T>(node: &Node<U, T>, i: int)
    requires
        0 <= i < node.key@.len(),
    ensures
        node.bag().count(node.key@[i]) > 0,
{
    node.key@.to_multiset_ensures();
    assert(node.key@.contains(node.key@[i]));
}

/// What the node holds is one of its values or held below a child.
pub proof fn lemma_bag_parts<U, T>(node: &Node<U, T>, e: T)
    requires
        node.bag().count(e) > 0,
    ensures
        (exists|i: int| 0 <= i < node.key@.len() && #[trigger] node.key@[i] == e) || (exists|j: int|
            0 <= j < node.children@.len() && (#[trigger] bag_of(node.children@[j])).count(e) > 0),
{
    node.key@.to_multiset_ensures();
    if node.key@.to_multiset().count(e) > 0 {
        assert(node.key@.contains(e));
        let i = choose|i: int| 0 <= i < node.key@.len() && node.key@[i] == e;
        assert(node.key@[i] == e);
    } else {
        lemma_total_member(node.child_bags(), e);
        let j = choose|j: int|
            0 <= j < node.child_bags().len() && (#[trigger] node.child_bags()[j]).count(e) > 0;
        assert(bag_of(node.children@[j]).count(e) > 0);
    }
}

impl<U: TotalOrder, T: Key<U>> Node<U, T> {
    /// The last place whose key counts for `bound`.
    pub(crate) fn key_position(key: &[T], bound: &U, inclusive: bool) -> (r: Option<usize>)
        ensures
            match r {
                Some(i) => {
                    &&& i < key@.len()
                    &&& counts(key@[i as int].spec_key(), *bound, inclusive)
                    &&& forall|j: int|
                        i < j < key@.len() ==> !counts(
                            (#[trigger] key@[j]).spec_key(),
                            *bound,
                            inclusive,
                        )
                },
                None => forall|j: int|
                    0 <= j < key@.len() ==> !counts(
                        (#[trigger] key@[j]).spec_key(),
                        *bound,
                        inclusive,
                    ),
            },
    {
        let mut i: usize = key.len();
        while i > 0
            invariant
                i <= key@.len(),
                forall|j: int|
                    i <= j < key@.len() ==> !counts(
                        (#[trigger] key@[j]).spec_key(),
                        *bound,
                        inclusive,
                    ),
            decreases i,
        {
            i -= 1;
            let k = key[i].key();
            let hit = if inclusive {
                !bound.less(&k)
            } else {
                k.less(bound)
            };
            if hit {
                return Some(i);
            }
        }
        None
    }

    pub(crate) fn key_is_equal(&self, pos: &usize, key: &U) -> (b: bool)
        requires
            *pos < self.key@.len(),
        ensures
            b == (self.key@[*pos as int].spec_key() == *key),
    {
        self.key[*pos].key().same(key)
    }

    /// A value with the key `key` in the node or below it.
    pub(crate) fn search(
        &self,
        key: &U,
        Ghost(height): Ghost<nat>,
        Ghost(order): Ghost<nat>,
    ) -> (r: Option<&T>)
        requires
            self.formed(height, order),
            self.ordered(),
        ensures
            match r {
                Some(v) => v.spec_key() == *key && self.bag().count(*v) > 0,
                None => forall|e: T| self.bag().count(e) > 0 ==> #[trigger] e.spec_key() != *key,
            },
        decreases self,
    {
        let pos = Self::key_position(self.key.as_slice(), key, true);
        let r = match pos {
            Some(i) => {
                if self.key_is_equal(&i, key) {
                    proof {
                        lemma_key_in_bag(self, i as int);
                    }
                    self.get_key(&i)
                } else if self.is_leaf() {
                    None
                } else {
                    assert(self.children@.len() == self.key@.len() + 1);
                    assert(self.children.len() <= usize::MAX);
                    assert(self.children@[i + 1].is_some());
                    let below = self.ref_child(&(i + 1)).search(
                        key,
                        Ghost((height - 1) as nat),
                        Ghost(order),
                    );
                    proof {
                        if below.is_some() {
                            lemma_child_in_bag(self, i + 1, *below.unwrap());
                        }
                    }
                    below
                }
            },
            None => {
                if self.is_leaf() {
                    None
                } else {
                    assert(self.children@[0].is_some());
                    let below = self.ref_child(&0).search(
                        key,
                        Ghost((height - 1) as nat),
                        Ghost(order),
                    );
                    proof {
                        if below.is_some() {
                            lemma_child_in_bag(self, 0, *below.unwrap());
                        }
                    }
                    below
                }
            },
        };
        proof {
            if r.is_none() {
                let down: int = match pos {
                    Some(i) => i + 1,
                    None => 0,
                };
                assert forall|e: T| self.bag().count(e) > 0 implies #[trigger] e.spec_key()
                    != *key by {
                    if e.spec_key() == *key {
                        lemma_bag_parts(self, e);
                        U::le_reflexive(*key);
                        if exists|i: int| 0 <= i < self.key@.len() && #[trigger] self.key@[i] == e {
                            let m = choose|i: int|
                                0 <= i < self.key@.len() && #[trigger] self.key@[i] == e;
                            if m < down {
                                let i = down - 1;
                                assert(self.key@[m].spec_key().le(self.key@[i].spec_key()));
                                U::le_antisymmetric(self.key@[i].spec_key(), *key);
                            } else {
                                assert(!counts(self.key@[m].spec_key(), *key, true));
                            }
                        } else {
                            let j = choose|j: int|
                                0 <= j < self.children@.len() && (#[trigger] bag_of(
                                    self.children@[j],
                                )).count(e) > 0;
                            let c = self.children@[j].unwrap();
                            assert(within(c.bag(), self.key_before(j), self.key_behind(j)));
                            if j < down {
                                let i = down - 1;
                                assert(self.key@[j].spec_key().le(self.key@[i].spec_key()));
                                U::le_transitive(*key, self.key@[j].spec_key(), self.key@[i].spec_key());
                                U::le_antisymmetric(self.key@[i].spec_key(), *key);
                            } else if j > down {
                                assert(!counts(self.key@[j - 1].spec_key(), *key, true));
                            } else {
                            }
                        }
                    }
                }
            }
        }
        r
    }

    /// Appends references to the values in the node and below it, in
    /// the order of a walk.
    pub(crate) fn walk_in_order<'a>(
        node: &'a Tree<U, T>,
        out: &mut Vec<&'a T>,
        Ghost(height): Ghost<nat>,
        Ghost(order): Ghost<nat>,
    )
        requires
            node.formed(height, order),
        ensures
            referents(final(out)@) == referents(old(out)@) + node.contents(),
        decreases node,
    {
        let n = node.key_len();
        let leaf = node.is_leaf();
        let mut i: usize = 0;
        while i < n
            invariant
                i <= n,
                n == node.key@.len(),
                leaf == (node.node_type == NodeType::Leaf),
                node.formed(height, order),
                referents(out@) + node.walked(i as nat) == referents(old(out)@) + node.walked(0),
            decreases n - i,
        {
            let ghost before = referents(out@);
            if !leaf {
                assert(node.children@[i as int].is_some());
                Self::walk_in_order(
                    node.ref_child(&i),
                    out,
                    Ghost((height - 1) as nat),
                    Ghost(order),
                );
            }
            let ghost mid = referents(out@);
            out.push(&node.key[i]);
            proof {
                assert(referents(out@) =~= mid.push(node.key@[i as int]));
                let below = if (i as nat) < node.children@.len() {
                    contents_of(node.children@[i as int])
                } else {
                    Seq::<T>::empty()
                };
                assert(mid =~= before + below);
                assert(referents(out@) + node.walked((i + 1) as nat) =~= before + node.walked(
                    i as nat,
                ));
            }
            i += 1;
        }
        if !leaf {
            assert(node.children@[n as int].is_some());
            let ghost before = referents(out@);
            Self::walk_in_order(node.ref_child(&n), out, Ghost((height - 1) as nat), Ghost(order));
            proof {
                let last = node.children@[n as int].unwrap();
                assert(contents_of(node.children@[n as int]) == last.contents());
                assert(node.walked(n as nat) == last.contents());
            }
        } else {
            assert(node.walked(n as nat) =~= Seq::<T>::empty());
            assert(referents(out@) + Seq::<T>::empty() =~= referents(out@));
        }
    }
}

} // verus!
