use vstd::prelude::*;
use vstd::multiset::Multiset;
use crate::order::TotalOrder;
use super::grow::{halves, lemma_child_split};
use super::insert::{fits, lemma_child_insert, lemma_leaf_insert};
use super::laws::{law_contents_bag, law_contents_sorted, sorted_by_key};
use super::lookup::{counts, referents};
use super::node::{contents_of, Key, Node, NodeType, Tree};
use super::sums::{lemma_empty_bag, lemma_total_one};
use super::walks::{
    below, head, lemma_child_split_walk, lemma_child_walk_insert, lemma_leaf_walk_insert,
    lemma_place_behind, lemma_put_behind, place_behind, put_behind,
};

verus! {

/// Where a key belongs among the values of a node: before all of them,
/// or behind the value at a place.
#[derive(Clone, Copy, PartialEq, Eq, Structural)]
pub enum Direction {
    Left,
    Right(usize),
}

/// The least number of values that a node but the root holds in a tree
/// whose nodes have at most `order` children, and one more.
pub open spec fn stock(order: nat) -> nat {
    ((order - 1) / 2 + 1) as nat
}

impl<U: TotalOrder, T: Key<U>> Node<U, T> {
    /// No node below this one holds more than `most` values.
    pub open spec fn capped(&self, most: nat) -> bool
        decreases self,
    {
        forall|j: int|
            0 <= j < self.children@.len() ==> match #[trigger] self.children@[j] {
                Some(c) => c.key@.len() <= most && c.capped(most),
                None => true,
            }
    }

    /// The node is in full order for a tree whose nodes have at most
    /// `order` children, but that it may itself hold one value too many.
    pub open spec fn grown_ok(&self, height: nat, order: nat) -> bool {
        &&& self.formed(height, order)
        &&& self.ordered()
        &&& self.capped((order - 1) as nat)
        &&& self.key@.len() <= order
        &&& self.filled(stock(order), 0)
    }

    /// The number of places for children: one more than there are values.
    pub(crate) fn len(&self) -> (n: usize)
        requires
            self.key@.len() < usize::MAX,
        ensures
            n == self.key@.len() + 1,
    {
        self.key.len() + 1
    }

    /// The place of the last of the leading values whose keys are not
    /// above `key`.
    pub(crate) fn find_closest_index(&self, key: &U) -> (d: Direction)
        ensures
            match d {
                Direction::Left => self.key@.len() > 0 ==> !counts(
                    self.key@[0].spec_key(),
                    *key,
                    true,
                ),
                Direction::Right(i) => {
                    &&& i < self.key@.len()
                    &&& forall|j: int| 0 <= j <= i ==> counts(
                        (#[trigger] self.key@[j]).spec_key(),
                        *key,
                        true,
                    )
                    &&& (i + 1 < self.key@.len() ==> !counts(
                        self.key@[i + 1].spec_key(),
                        *key,
                        true,
                    ))
                },
            },
    {
        let mut index = Direction::Left;
        let mut i: usize = 0;
        while i < self.key.len()
            invariant
                i <= self.key@.len(),
                forall|j: int| 0 <= j < i ==> counts(
                    (#[trigger] self.key@[j]).spec_key(),
                    *key,
                    true,
                ),
                match index {
                    Direction::Left => i == 0,
                    Direction::Right(p) => p + 1 == i,
                },
            decreases self.key@.len() - i,
        {
            if !key.less(&self.key[i].key()) {
                index = Direction::Right(i);
            } else {
                return index;
            }
            i += 1;
        }
        index
    }

    /// Puts `value` at the place `pos`, and `tree`, if there is one, as
    /// the child behind it.
    pub(crate) fn add_key(&mut self, pos: usize, value: T, tree: Option<Tree<U, T>>)
        requires
            pos <= old(self).key@.len(),
            tree.is_some() ==> pos + 1 <= old(self).children@.len(),
        ensures
            final(self).node_type == old(self).node_type,
            final(self).key@ == old(self).key@.insert(pos as int, value),
            final(self).children@ == (match tree {
                Some(t) => old(self).children@.insert(pos + 1, Some(t)),
                None => old(self).children@,
            }),
    {
        assert(self.children.len() <= usize::MAX);
        self.key.insert(pos, value);
        match tree {
            Some(t) => self.children.insert(pos + 1, Some(t)),
            None => {},
        }
    }

    /// Cuts the node at its middle value: it keeps what stands before
    /// that value, and the value and a new node with what stood behind it
    /// are handed out.
    pub(crate) fn split(&mut self, Ghost(height): Ghost<nat>, Ghost(order): Ghost<nat>) -> (r: (
        T,
        Tree<U, T>,
    ))
        requires
            old(self).formed(height, order),
            old(self).key@.len() >= 1,
        ensures
            halves(old(self), final(self), &*r.1, old(self).key@.len() as int / 2),
            r.0 == old(self).key@[old(self).key@.len() as int / 2],
    {
        let ghost whole = *self;
        let split_at = self.key.len() / 2;
        let mut sibling = Node::new(self.get_type());
        sibling.key = self.key.split_off(split_at + 1);
        let median = self.key.remove(split_at);
        if !self.is_leaf() {
            sibling.children = self.children.split_off(split_at + 1);
        }
        proof {
            assert(self.key@ =~= whole.key@.subrange(0, split_at as int));
        }
        (median, sibling)
    }

    /// The state of a node after a value was put in below its child at
    /// the place `pos`: all is in order, but that this child may hold one
    /// value too many.
    pub open spec fn child_grown(&self, height: nat, order: nat, pos: int) -> bool {
        &&& self.formed(height, order)
        &&& self.ordered()
        &&& self.filled(stock(order), 0)
        &&& self.node_type == NodeType::Regular
        &&& self.key@.len() < order
        &&& 0 <= pos < self.children@.len()
        &&& forall|j: int|
            0 <= j < self.children@.len() ==> match #[trigger] self.children@[j] {
                Some(c) => c.capped((order - 1) as nat) && c.key@.len() <= (if j == pos {
                    order as int
                } else {
                    order - 1
                }),
                None => true,
            }
    }

    /// Cuts the child at the place `pos` in two if it holds one value too
    /// many, and takes up its middle value and the new child.
    #[verifier::rlimit(50)]
    pub(crate) fn split_grown_child(&mut self, pos: usize, order: &usize, Ghost(height): Ghost<nat>)
        requires
            3 <= *order <= usize::MAX / 2,
            old(self).child_grown(height, *order as nat, pos as int),
        ensures
            final(self).grown_ok(height, *order as nat),
            final(self).key@.len() >= old(self).key@.len(),
            old(self).children@[pos as int].unwrap().key@.len() == *order ==> final(self).key@.len()
                == old(self).key@.len() + 1,
            final(self).bag() == old(self).bag(),
            final(self).contents() == old(self).contents(),
            final(self).node_type == old(self).node_type,
    {
        let ghost middle = *self;
        let ghost m = *order as nat;
        proof {
            assert(middle.children@[pos as int].is_some());
            assert(middle.children@[pos as int].unwrap().formed((height - 1) as nat, m));
        }
        if self.ref_child(&pos).len() > *order {
            let child = self.mut_child(&pos);
            let (median, sibling) = child.split(Ghost((height - 1) as nat), Ghost(m));
            let ghost left = self.children@[pos as int].unwrap();
            let ghost right = sibling;
            self.add_key(pos, median, Some(sibling));
            proof {
                let cut = m as int / 2;
                assert(self.children@ =~= middle.children@.update(pos as int, Some(left)).insert(
                    pos + 1,
                    Some(right),
                ));
                lemma_child_split(
                    &middle,
                    &*self,
                    pos as int,
                    left,
                    right,
                    height,
                    m,
                    cut,
                    stock(m),
                );
                lemma_split_capped(&middle, &*self, pos as int, left, right, cut, m);
                lemma_child_split_walk(&middle, &*self, pos as int, left, right, cut);
            }
        } else {
            proof {
                assert forall|j: int| 0 <= j < self.children@.len() implies match #[trigger] self.children@[j] {
                    Some(c) => c.key@.len() <= m - 1 && c.capped((m - 1) as nat),
                    None => true,
                } by {
                }
            }
        }
    }

    /// Puts `value` into a leaf below the node, behind all values with
    /// the same key. A child that holds one value too many afterwards is
    /// cut in two; the node itself may be left with one value too many.
    #[verifier::rlimit(50)]
    pub(crate) fn add_recursive(&mut self, value: T, order: &usize, Ghost(height): Ghost<nat>)
        requires
            3 <= *order <= usize::MAX / 2,
            old(self).grown_ok(height, *order as nat),
            old(self).key@.len() < *order,
        ensures
            final(self).grown_ok(height, *order as nat),
            final(self).key@.len() >= old(self).key@.len(),
            old(self).node_type == NodeType::Leaf ==> final(self).key@.len() == old(self).key@.len()
                + 1,
            final(self).bag() == old(self).bag().insert(value),
            final(self).node_type == old(self).node_type,
            exists|place: int|
                #[trigger] place_behind(old(self).contents(), value.spec_key(), place)
                    && final(self).contents() == old(self).contents().insert(place, value),
        decreases height,
    {
        let ghost before = *self;
        let ghost m = *order as nat;
        let key = value.key();
        let pos = match self.find_closest_index(&key) {
            Direction::Left => 0,
            Direction::Right(p) => p + 1,
        };
        proof {
            lemma_closest_fits(&before, key, pos as int);
            lemma_closest_place(&before, key, pos as int);
        }
        if self.is_leaf() {
            self.add_key(pos, value, None);
            proof {
                lemma_leaf_insert(&before, &*self, value, pos as int, m);
                lemma_leaf_walk_insert(&before, &*self, pos as int, value);
                assert(place_behind(before.contents(), key, pos as int) && self.contents()
                    == before.contents().insert(pos as int, value));
            }
        } else {
            proof {
                assert(before.children@[pos as int].is_some());
                assert(before.children@[pos as int].unwrap().formed((height - 1) as nat, m));
                assert(match before.children@[pos as int] {
                    Some(c) => c.ordered() && c.filled(stock(m), (stock(m) - 1) as nat)
                        && c.key@.len() <= m - 1 && c.capped((m - 1) as nat),
                    None => true,
                });
            }
            let child = self.mut_child(&pos);
            child.add_recursive(value, order, Ghost((height - 1) as nat));
            let ghost grown_state = *self;
            proof {
                let grown = self.children@[pos as int].unwrap();
                let small = before.children@[pos as int].unwrap();
                let inner = choose|place: int|
                    #[trigger] place_behind(small.contents(), key, place) && grown.contents()
                        == small.contents().insert(place, value);
                assert(below(&before, pos as int) == small.contents());
                lemma_place_behind(&before, height, m, key, pos as int, inner);
                lemma_child_walk_insert(&before, &*self, pos as int, grown, inner, value);
                let place = head(&before, pos as nat).len() + inner;
                assert(place_behind(before.contents(), key, place) && grown_state.contents()
                    == before.contents().insert(place, value));
                lemma_child_insert(&before, &*self, value, pos as int, grown, height, m, stock(m));
                assert forall|j: int| 0 <= j < self.children@.len() implies match #[trigger] self.children@[j] {
                    Some(c) => c.capped((m - 1) as nat) && c.key@.len() <= (if j == pos {
                        m as int
                    } else {
                        m - 1
                    }),
                    None => true,
                } by {
                    if j != pos {
                        assert(self.children@[j] == before.children@[j]);
                    }
                }
            }
            self.split_grown_child(pos, order, Ghost(height));
        }
    }
}

/// Behind the leading values whose keys are not above `key`, `key` fits.
pub proof fn lemma_closest_fits<U: TotalOrder, T: Key<U>>(node: &Node<U, T>, key: U, pos: int)
    requires
        node.ordered(),
        0 <= pos <= node.key@.len(),
        forall|j: int| 0 <= j < pos ==> counts((#[trigger] node.key@[j]).spec_key(), key, true),
        pos < node.key@.len() ==> !counts(node.key@[pos].spec_key(), key, true),
    ensures
        fits(node.key@, key, pos),
{
    assert forall|j: int| pos <= j < node.key@.len() implies key.le(
        (#[trigger] node.key@[j]).spec_key(),
    ) by {
        assert(node.key@[pos].spec_key().le(node.key@[j].spec_key()));
        U::le_total(key, node.key@[pos].spec_key());
        U::le_transitive(key, node.key@[pos].spec_key(), node.key@[j].spec_key());
    }
}

/// Behind the leading values whose keys are not above `key`, `key` has
/// its place behind its equals.
pub proof fn lemma_closest_place<U: TotalOrder, T: Key<U>>(node: &Node<U, T>, key: U, pos: int)
    requires
        node.ordered(),
        0 <= pos <= node.key@.len(),
        forall|j: int| 0 <= j < pos ==> counts((#[trigger] node.key@[j]).spec_key(), key, true),
        pos < node.key@.len() ==> !counts(node.key@[pos].spec_key(), key, true),
    ensures
        place_behind(node.key@, key, pos),
{
    assert forall|j: int| pos <= j < node.key@.len() implies !(#[trigger] node.key@[j]).spec_key().le(
        key,
    ) by {
        assert(node.key@[pos].spec_key().le(node.key@[j].spec_key()));
        if node.key@[j].spec_key().le(key) {
            U::le_transitive(node.key@[pos].spec_key(), node.key@[j].spec_key(), key);
        }
    }
}

/// A child cut in two leaves no node below with too many values.
pub proof fn lemma_split_capped<U: TotalOrder, T: Key<U>>(
    before: &Node<U, T>,
    after: &Node<U, T>,
    at: int,
    left: Tree<U, T>,
    right: Tree<U, T>,
    cut: int,
    order: nat,
)
    requires
        order >= 3,
        super::grow::child_split(before, after, at, left, right, cut),
        before.children@[at].unwrap().node_type == NodeType::Regular ==> before.children@[at].unwrap().children@.len()
            == before.children@[at].unwrap().key@.len() + 1,
        before.children@[at].unwrap().key@.len() == order,
        cut == order as int / 2,
        forall|j: int|
            0 <= j < before.children@.len() ==> match #[trigger] before.children@[j] {
                Some(c) => c.capped((order - 1) as nat) && c.key@.len() <= (if j == at {
                    order as int
                } else {
                    order - 1
                }),
                None => true,
            },
    ensures
        after.capped((order - 1) as nat),
{
    let whole = before.children@[at].unwrap();
    let most = (order - 1) as nat;
    assert(match before.children@[at] {
        Some(c) => c.capped(most),
        None => true,
    });
    assert forall|j: int| 0 <= j < after.children@.len() implies match #[trigger] after.children@[j] {
        Some(c) => c.key@.len() <= most && c.capped(most),
        None => true,
    } by {
        if j < at {
            assert(after.children@[j] == before.children@[j]);
        } else if j > at + 1 {
            assert(after.children@[j] == before.children@[j - 1]);
        } else if j == at {
            assert(after.children@[j] == Some(left));
            assert forall|k: int| 0 <= k < left.children@.len() implies match #[trigger] left.children@[k] {
                Some(c) => c.key@.len() <= most && c.capped(most),
                None => true,
            } by {
                assert(left.children@[k] == whole.children@[k]);
            }
        } else {
            assert(after.children@[j] == Some(right));
            assert forall|k: int| 0 <= k < right.children@.len() implies match #[trigger] right.children@[k] {
                Some(c) => c.key@.len() <= most && c.capped(most),
                None => true,
            } by {
                assert(right.children@[k] == whole.children@[k + cut + 1]);
            }
        }
    }
}

/// A B-tree that grows from its leaves: a value goes into a leaf, and a
/// node that holds one value too many is cut in two on the way back up.
/// No node has more than `order` children, and every node but the root
/// is at least half full.
pub struct BTree<U, T> {
    root: Option<Tree<U, T>>,
    order: usize,
    length: usize,
    height: Ghost<nat>,
}

impl<U: TotalOrder, T: Key<U>> BTree<U, T> {
    /// The number of values in the tree.
    pub closed spec fn spec_length(&self) -> usize {
        self.length
    }

    /// The greatest number of children of a node.
    pub closed spec fn spec_order(&self) -> usize {
        self.order
    }

    /// The values that the tree holds, each as often as it was put in.
    pub closed spec fn bag(&self) -> Multiset<T> {
        match self.root {
            Some(r) => r.bag(),
            None => Multiset::empty(),
        }
    }

    /// Whether the tree holds a value with the key `key`.
    pub open spec fn holds(&self, key: U) -> bool {
        exists|e: T| self.bag().count(e) > 0 && #[trigger] e.spec_key() == key
    }

    /// The values of the tree in the order of a walk.
    pub closed spec fn contents(&self) -> Seq<T> {
        contents_of(self.root)
    }

    /// The tree is balanced, no node has more children than the order
    /// admits, every node but the root is at least half full, and the
    /// values stand in ascending order of their keys.
    pub closed spec fn wf(&self) -> bool {
        &&& 3 <= self.order <= usize::MAX / 2
        &&& self.height@ <= self.length
        &&& self.length == self.bag().len()
        &&& match self.root {
            Some(r) => {
                &&& r.grown_ok(self.height@, self.order as nat)
                &&& r.key@.len() < self.order
                &&& r.key@.len() >= 1
            },
            None => true,
        }
    }

    /// A tree without a node. An order below 3 makes no tree.
    pub fn new(order: usize) -> (t: Self)
        ensures
            t.spec_order() == order,
            t.spec_length() == 0,
            t.bag() == Multiset::<T>::empty(),
            t.contents() == Seq::<T>::empty(),
            t.wf() <==> 3 <= order <= usize::MAX / 2,
    {
        Self { root: None, order, length: 0, height: Ghost(0) }
    }

    /// The number of values in the tree.
    #[verifier::when_used_as_spec(spec_length)]
    pub fn length(&self) -> (n: usize)
        ensures
            n == self.spec_length(),
    {
        self.length
    }

    /// Puts `value` into the tree, behind all values with the same key.
    #[verifier::rlimit(50)]
    pub fn add(&mut self, value: T)
        requires
            old(self).wf(),
            old(self).spec_length() < usize::MAX,
        ensures
            final(self).wf(),
            final(self).bag() == old(self).bag().insert(value),
            final(self).contents() == put_behind(old(self).contents(), value),
            final(self).spec_order() == old(self).spec_order(),
            final(self).spec_length() == old(self).spec_length() + 1,
    {
        let ghost was = self.contents();
        let ghost m = self.order as nat;
        let ghost h = self.height@;
        let taken = self.root.take();
        let mut node = match taken {
            Some(node) => node,
            None => {
                let leaf = Node::new_leaf();
                proof {
                    self.height@ = 0;
                    lemma_empty_leaf(&*leaf, m);
                }
                leaf
            },
        };
        let ghost first = *node;
        node.add_recursive(value, &self.order, Ghost(self.height@));
        proof {
            vstd::multiset::lemma_insert_len(first.bag(), value);
            assert(node.key@.len() >= 1);
            assert(first.contents() == was);
            let place = choose|place: int|
                #[trigger] place_behind(first.contents(), value.spec_key(), place)
                    && node.contents() == first.contents().insert(place, value);
            lemma_put_behind(was, value, place);
        }
        if node.len() > self.order {
            let mut parent = Node::new_regular();
            parent.add_child(node);
            let ghost top = *parent;
            proof {
                assert(top.children@[0] == Some(node));
                assert(top.child_bags() =~= seq![node.bag()]);
                lemma_total_one(node.bag());
                lemma_empty_bag(top.key@);
                assert(top.bag() =~= node.bag());
                assert(node.filled(stock(m), (stock(m) - 1) as nat));
                assert(top.child_grown(self.height@ + 1, m, 0));
                assert(top.key@.len() == 0 && top.children@.len() == 1);
                assert(contents_of(top.children@[0]) == node.contents());
                assert(top.walked(0) == node.contents());
                self.height@ = self.height@ + 1;
            }
            parent.split_grown_child(0, &self.order, Ghost(self.height@));
            self.root = Some(parent);
        } else {
            self.root = Some(node);
        }
        self.inc_length();
    }

    /// Checks the form of the tree, which every tree built by `add` has,
    /// and says whether the tree has a node: no node has more children
    /// than the order admits, every regular node but the root has at
    /// least half as many and the root at least two, and all leaves are
    /// on one level.
    pub fn is_valid(&self) -> (b: bool)
        requires
            self.wf(),
        ensures
            b == (self.spec_length() > 0),
    {
        proof {
            vstd::multiset::lemma_multiset_empty_len(self.bag());
        }
        match &self.root {
            Some(tree) => {
                proof {
                    super::lookup::lemma_key_in_bag(&**tree, 0);
                }
                let total = self.validate(tree, 0, Ghost(self.height@));
                total.0 && total.1 == total.2
            },
            None => false,
        }
    }

    /// Checks the form of the tree below `node`, which stands on the
    /// level `level`: whether every node has as many children as it may
    /// have, and the least and the greatest level of a leaf.
    fn validate(&self, node: &Tree<U, T>, level: usize, Ghost(height): Ghost<nat>) -> (r: (
        bool,
        usize,
        usize,
    ))
        requires
            3 <= self.order <= usize::MAX / 2,
            node.grown_ok(height, self.order as nat),
            node.key@.len() < self.order,
            level > 0 ==> node.key@.len() >= stock(self.order as nat) - 1,
            level == 0 ==> node.key@.len() >= 1,
            level + height <= usize::MAX,
        ensures
            r.0,
            r.1 == level + height,
            r.2 == level + height,
        decreases height,
    {
        match node.get_type() {
            NodeType::Leaf => (node.len() <= self.order, level, level),
            NodeType::Regular => {
                let min_children = if level > 0 {
                    self.order / 2
                } else {
                    2
                };
                let key_rules = node.len() <= self.order && node.len() >= min_children;
                let mut total = (key_rules, usize::MAX, level);
                let mut i: usize = 0;
                while i < node.children_len()
                    invariant
                        i <= node.children@.len(),
                        3 <= self.order <= usize::MAX / 2,
                        node.grown_ok(height, self.order as nat),
                        node.node_type == NodeType::Regular,
                        level + height <= usize::MAX,
                        total.0,
                        i == 0 ==> total.1 == usize::MAX && total.2 == level,
                        i > 0 ==> total.1 == level + height && total.2 == level + height,
                    decreases node.children@.len() - i,
                {
                    proof {
                        assert(node.children@[i as int].is_some());
                        assert(node.children@[i as int].unwrap().formed(
                            (height - 1) as nat,
                            self.order as nat,
                        ));
                        assert(match node.children@[i as int] {
                            Some(c) => c.ordered() && c.filled(
                                stock(self.order as nat),
                                (stock(self.order as nat) - 1) as nat,
                            ) && c.key@.len() <= self.order - 1 && c.capped(
                                (self.order - 1) as nat,
                            ),
                            None => true,
                        });
                    }
                    match &node.children[i] {
                        Some(tree) => {
                            let stats = self.validate(tree, level + 1, Ghost((height - 1) as nat));
                            let least = if stats.1 < total.1 {
                                stats.1
                            } else {
                                total.1
                            };
                            let most = if stats.2 > total.2 {
                                stats.2
                            } else {
                                total.2
                            };
                            total = (total.0 && stats.0, least, most);
                        },
                        None => {},
                    }
                    i += 1;
                }
                total
            },
        }
    }

    fn inc_length(&mut self)
        requires
            old(self).length < usize::MAX,
        ensures
            final(self).length == old(self).length + 1,
            final(self).order == old(self).order,
            final(self).root == old(self).root,
            final(self).height == old(self).height,
    {
        self.length += 1;
    }

    /// A walk passes every value that the tree holds, once for each time
    /// it is held, in ascending order of the keys.
    pub proof fn law_walk(&self)
        requires
            self.wf(),
        ensures
            self.contents().to_multiset() == self.bag(),
            sorted_by_key(self.contents()),
    {
        match self.root {
            Some(root) => {
                law_contents_bag(&*root, self.height@, self.order as nat);
                law_contents_sorted(&*root, self.height@, self.order as nat);
            },
            None => {
                let e = Seq::<T>::empty();
                lemma_empty_bag(e);
            },
        }
    }

    /// References to the values of the tree in the order of a walk:
    /// each child's values before the value that follows the child.
    pub fn walk<'a>(&'a self) -> (out: Vec<&'a T>)
        requires
            self.wf(),
        ensures
            referents(out@) == self.contents(),
            self.contents().to_multiset() == self.bag(),
            sorted_by_key(self.contents()),
    {
        let mut out: Vec<&'a T> = Vec::new();
        proof {
            self.law_walk();
            assert(referents(out@) =~= Seq::<T>::empty());
        }
        match &self.root {
            Some(root) => {
                Node::walk_in_order(root, &mut out, Ghost(self.height@), Ghost(self.order as nat));
                assert(Seq::<T>::empty() + root.contents() =~= root.contents());
            },
            None => {},
        }
        out
    }
}

impl<U: TotalOrder, T: Key<U> + Clone> BTree<U, T> {
    /// A copy of a value with the key `key`, if the tree holds one.
    pub fn find(&self, key: U) -> (r: Option<T>)
        requires
            self.wf(),
        ensures
            r.is_some() <==> self.holds(key),
            match r {
                Some(v) => exists|e: T|
                    self.bag().count(e) > 0 && #[trigger] e.spec_key() == key && cloned(e, v),
                None => true,
            },
    {
        match &self.root {
            Some(tree) => self.find_reqursive(tree, key),
            None => None,
        }
    }

    fn find_reqursive(&self, node: &Tree<U, T>, key: U) -> (r: Option<T>)
        requires
            node.formed(self.height@, self.order as nat),
            node.ordered(),
        ensures
            r.is_some() <==> exists|e: T| node.bag().count(e) > 0 && #[trigger] e.spec_key() == key,
            match r {
                Some(v) => exists|e: T|
                    node.bag().count(e) > 0 && #[trigger] e.spec_key() == key && cloned(e, v),
                None => true,
            },
    {
        match node.search(&key, Ghost(self.height@), Ghost(self.order as nat)) {
            Some(value) => {
                let copy = value.clone();
                proof {
                    assert(node.bag().count(*value) > 0 && value.spec_key() == key && cloned(
                        *value,
                        copy,
                    ));
                }
                Some(copy)
            },
            None => None,
        }
    }
}

/// An empty leaf is in order for every tree.
pub proof fn lemma_empty_leaf<U: TotalOrder, T: Key<U>>(leaf: &Node<U, T>, order: nat)
    requires
        order >= 1,
        leaf.node_type == NodeType::Leaf,
        leaf.key@.len() == 0,
        leaf.children@.len() == 0,
    ensures
        leaf.grown_ok(0, order),
        leaf.bag() == Multiset::<T>::empty(),
{
    lemma_empty_bag(leaf.key@);
    assert(leaf.child_bags() =~= Seq::<Multiset<T>>::empty());
    assert(leaf.bag() =~= Multiset::<T>::empty());
}

} // verus!
