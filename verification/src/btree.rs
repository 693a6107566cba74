use vstd::prelude::*;
use vstd::multiset::Multiset;
use crate::order::TotalOrder;

pub mod node;
pub mod sums;
pub mod lookup;
pub mod grow;
pub mod insert;
pub mod laws;
pub mod shrink;
pub mod lend;
pub mod take;
pub mod delete;
pub mod bottom_up;
pub mod walks;

use lookup::referents;
use node::{contents_of, Key, Node, Tree};
use laws::{law_contents_bag, law_contents_sorted, sorted_by_key};
use delete::left_out;
use walks::{lemma_put_before, place_before, put_before};

verus! {

/// A B-tree of values of type `T` that are ordered by keys of type `U`.
/// Every node but the root holds at least `order - 1` values, and no node
/// holds more than `2 * order - 1`.
pub struct BTree<U, T> {
    root: Option<Tree<U, T>>,
    order: usize,
    length: usize,
}

impl<U: TotalOrder, T: Key<U>> BTree<U, T> {
    /// The number of levels below the root.
    pub closed spec fn spec_length(&self) -> usize {
        self.length
    }

    pub closed spec fn spec_order(&self) -> usize {
        self.order
    }

    /// The values that the tree holds, each as often as it was put in.
    pub closed spec fn bag(&self) -> Multiset<T> {
        match self.root {
            Some(r) => r.bag(),
            None => Multiset::empty(),
        }
    }

    /// Whether the tree holds a value with the key `key`.
    pub open spec fn holds(&self, key: U) -> bool {
        exists|e: T| self.bag().count(e) > 0 && #[trigger] e.spec_key() == key
    }

    /// The values of the tree in the order of a walk.
    pub closed spec fn contents(&self) -> Seq<T> {
        contents_of(self.root)
    }

    /// The tree is balanced, `spec_length()` levels deep below its root,
    /// its nodes hold as many values as the order asks for, and the
    /// values stand in ascending order of their keys.
    pub closed spec fn wf(&self) -> bool {
        &&& 2 <= self.order <= usize::MAX / 2
        &&& match self.root {
            Some(r) => {
                &&& r.formed(self.length as nat, self.order as nat)
                &&& r.ordered()
                &&& r.filled(self.order as nat, 0)
                &&& (self.length > 0 ==> r.key@.len() >= 1)
            },
            None => false,
        }
    }

    /// A tree of one empty leaf. An order below 2 makes no tree.
    pub fn new(order: usize) -> (t: Self)
        ensures
            t.spec_order() == order,
            t.spec_length() == 0,
            t.bag() == Multiset::<T>::empty(),
            t.contents() == Seq::<T>::empty(),
            t.wf() <==> 2 <= order <= usize::MAX / 2,
    {
        let t = Self { root: Some(Node::new_leaf()), order, length: 0 };
        proof {
            let r = t.root.unwrap();
            sums::lemma_empty_bag(r.key@);
            assert(r.child_bags() =~= Seq::<Multiset<T>>::empty());
            assert(r.bag() =~= Multiset::<T>::empty());
            assert(r.contents() =~= Seq::<T>::empty());
        }
        t
    }

    /// A value with the key `key`, if the tree holds one.
    pub fn search(&self, key: &U) -> (r: Option<&T>)
        requires
            self.wf(),
        ensures
            r.is_some() <==> self.holds(*key),
            match r {
                Some(v) => v.spec_key() == *key && self.bag().count(*v) > 0,
                None => forall|e: T| self.bag().count(e) > 0 ==> #[trigger] e.spec_key() != *key,
            },
    {
        match &self.root {
            Some(root) => {
                let r = root.search(key, Ghost(self.length as nat), Ghost(self.order as nat));
                proof {
                    if r.is_some() {
                        assert(self.bag().count(*r.unwrap()) > 0 && r.unwrap().spec_key() == *key);
                    }
                }
                r
            },
            None => None,
        }
    }

    /// Puts `value` into the tree, before all values with the same key.
    /// A full root is first cut in two under a new root, which makes the
    /// tree one level deeper.
    #[verifier::rlimit(50)]
    pub fn insert(&mut self, value: T)
        requires
            old(self).wf(),
            old(self).spec_length() < usize::MAX,
        ensures
            final(self).wf(),
            final(self).bag() == old(self).bag().insert(value),
            final(self).contents() == put_before(old(self).contents(), value),
            final(self).spec_order() == old(self).spec_order(),
            final(self).spec_length() == old(self).spec_length() || final(self).spec_length()
                == old(self).spec_length() + 1,
    {
        let ghost was = self.contents();
        let taken = self.root.take();
        match taken {
            Some(mut root) => {
                if root.is_full(&self.order) {
                    let mut node = Node::new_regular();
                    node.add_child(root);
                    let ghost height = (self.length + 1) as nat;
                    proof {
                        let n = *node;
                        assert(n.children@[0] == Some(root));
                        assert(n.formed(height, self.order as nat));
                        assert(n.ordered());
                        assert(root.filled(self.order as nat, (self.order - 1) as nat));
                        assert(n.filled(self.order as nat, 0));
                        assert(n.child_bags() =~= seq![root.bag()]);
                        sums::lemma_total_one(root.bag());
                        sums::lemma_empty_bag(n.key@);
                        assert(n.bag() =~= root.bag());
                    }
                    proof {
                        assert(node.walked(0) == root.contents());
                    }
                    node.split_child(0, &self.order, Ghost(height));
                    let ghost halved = *node;
                    node.insert_nonfull(value, &self.order, Ghost(height));
                    proof {
                        let place = choose|place: int|
                            #[trigger] place_before(halved.contents(), value.spec_key(), place)
                                && node.contents() == halved.contents().insert(place, value);
                        lemma_put_before(was, value, place);
                    }
                    self.inc_length();
                    self.root = Some(node);
                } else {
                    let ghost first = *root;
                    root.insert_nonfull(value, &self.order, Ghost(self.length as nat));
                    proof {
                        let place = choose|place: int|
                            #[trigger] place_before(first.contents(), value.spec_key(), place)
                                && root.contents() == first.contents().insert(place, value);
                        lemma_put_before(was, value, place);
                    }
                    self.root = Some(root);
                }
            },
            None => {},
        }
    }

    /// Takes a value with the key `key` out of the tree, if it holds one,
    /// and hands it out. A root that is left without a value hands its
    /// place to its only child, which makes the tree one level less deep.
    #[verifier::rlimit(50)]
    pub fn delete(&mut self, value: &U) -> (r: Option<T>)
        requires
            old(self).wf(),
        ensures
            final(self).wf(),
            final(self).spec_order() == old(self).spec_order(),
            final(self).spec_length() == old(self).spec_length() || final(self).spec_length() + 1
                == old(self).spec_length(),
            r.is_some() <==> old(self).holds(*value),
            match r {
                Some(v) => {
                    &&& v.spec_key() == *value
                    &&& old(self).bag().count(v) > 0
                    &&& final(self).bag() == old(self).bag().remove(v)
                    &&& left_out(old(self).contents(), final(self).contents(), v)
                },
                None => {
                    &&& final(self).bag() == old(self).bag()
                    &&& final(self).contents() == old(self).contents()
                    &&& forall|e: T|
                        old(self).bag().count(e) > 0 ==> #[trigger] e.spec_key() != *value
                },
            },
    {
        let taken = self.root.take();
        let mut root = match taken {
            Some(root) => root,
            None => { return None; },
        };
        if root.is_empty() {
            proof {
                let n = *root;
                n.key@.to_multiset_ensures();
                assert forall|e: T| n.bag().count(e) > 0 implies #[trigger] e.spec_key()
                    != *value by {
                    lookup::lemma_bag_parts(&n, e);
                }
            }
            self.root = Some(root);
            return None;
        }
        let deleted = root.delete(value, &self.order, Ghost(self.length as nat));
        proof {
            if deleted.is_some() {
                assert(old(self).bag().count(deleted.unwrap()) > 0 && deleted.unwrap().spec_key()
                    == *value);
            }
        }
        if root.is_empty() && root.children_len() > 0 {
            let ghost top = *root;
            let first = root.children.remove(0);
            match first {
                Some(child) => {
                    proof {
                        assert(top.children@[0] == Some(child));
                        assert(top.child_bags() =~= seq![child.bag()]);
                        sums::lemma_total_one(child.bag());
                        sums::lemma_empty_bag(top.key@);
                        assert(top.bag() =~= child.bag());
                        assert(top.key@.len() == 0 && top.children@.len() == 1);
                        assert(contents_of(top.children@[0]) == child.contents());
                        assert(top.walked(0) == child.contents());
                        assert(child.formed((self.length - 1) as nat, self.order as nat));
                        assert(match top.children@[0] {
                            Some(c) => c.ordered() && c.filled(
                                self.order as nat,
                                (self.order - 1) as nat,
                            ),
                            None => true,
                        });
                    }
                    self.dec_length();
                    self.root = Some(child);
                },
                None => {
                    self.root = Some(root);
                },
            }
        } else {
            self.root = Some(root);
        }
        deleted
    }

    /// A walk passes every value that the tree holds, once for each time
    /// it is held, in ascending order of the keys.
    pub proof fn law_walk(&self)
        requires
            self.wf(),
        ensures
            self.contents().to_multiset() == self.bag(),
            sorted_by_key(self.contents()),
    {
        let root = self.root.unwrap();
        law_contents_bag(&*root, self.length as nat, self.order as nat);
        law_contents_sorted(&*root, self.length as nat, self.order as nat);
    }

    /// References to the values of the tree in the order of a walk:
    /// each child's values before the value that follows the child.
    pub fn walk<'a>(&'a self) -> (out: Vec<&'a T>)
        requires
            self.wf(),
        ensures
            referents(out@) == self.contents(),
            self.contents().to_multiset() == self.bag(),
            sorted_by_key(self.contents()),
    {
        let mut out: Vec<&'a T> = Vec::new();
        proof {
            self.law_walk();
        }
        match &self.root {
            Some(root) => {
                assert(referents(out@) =~= Seq::<T>::empty());
                Node::walk_in_order(root, &mut out, Ghost(self.length as nat), Ghost(self.order as nat));
                assert(Seq::<T>::empty() + root.contents() =~= root.contents());
            },
            None => {},
        }
        out
    }

    fn inc_length(&mut self)
        requires
            old(self).length < usize::MAX,
        ensures
            final(self).length == old(self).length + 1,
            final(self).order == old(self).order,
            final(self).root == old(self).root,
    {
        self.length += 1;
    }

    fn dec_length(&mut self)
        requires
            old(self).length > 0,
        ensures
            final(self).length == old(self).length - 1,
            final(self).order == old(self).order,
            final(self).root == old(self).root,
    {
        self.length -= 1;
    }

    /// The number of levels below the root: how often the root was cut.
    #[verifier::when_used_as_spec(spec_length)]
    pub fn length(&self) -> (n: usize)
        ensures
            n == self.spec_length(),
    {
        self.length
    }
}

} // verus!
