use vstd::prelude::*;
use vstd::multiset::Multiset;
use core::marker::PhantomData;
use crate::order::TotalOrder;
use super::sums::total;

verus! {

pub type Tree<U, T> = Box<Node<U, T>>;

/// A value that carries the key it is ordered and found by.
pub trait Key<U: Copy> {
    spec fn spec_key(&self) -> U;

    fn key(&self) -> (k: U)
        ensures
            k == self.spec_key(),
    ;
}

/// A plain key is a value that is its own key.
impl Key<u32> for u32 {
    open spec fn spec_key(&self) -> u32 {
        *self
    }

    fn key(&self) -> (k: u32) {
        *self
    }
}

/// A plain key is a value that is its own key.
impl Key<u64> for u64 {
    open spec fn spec_key(&self) -> u64 {
        *self
    }

    fn key(&self) -> (k: u64) {
        *self
    }
}

/// A plain key is a value that is its own key.
impl Key<i32> for i32 {
    open spec fn spec_key(&self) -> i32 {
        *self
    }

    fn key(&self) -> (k: i32) {
        *self
    }
}

/// A plain key is a value that is its own key.
impl Key<i64> for i64 {
    open spec fn spec_key(&self) -> i64 {
        *self
    }

    fn key(&self) -> (k: i64) {
        *self
    }
}

/// A plain key is a value that is its own key.
impl Key<usize> for usize {
    open spec fn spec_key(&self) -> usize {
        *self
    }

    fn key(&self) -> (k: usize) {
        *self
    }
}

/// A plain key is a value that is its own key.
impl Key<char> for char {
    open spec fn spec_key(&self) -> char {
        *self
    }

    fn key(&self) -> (k: char) {
        *self
    }
}

/// A leaf holds values only; a regular node holds children between them.
#[derive(Clone, Copy, PartialEq, Eq, Structural, Debug)]
pub enum NodeType {
    Leaf,
    Regular,
}

impl Default for NodeType {
    fn default() -> (t: NodeType)
        ensures
            t == NodeType::Leaf,
    {
        NodeType::Leaf
    }
}

/// A node of the B-tree: its values in order, and in a regular node one
/// child before each value and one behind the last.
pub struct Node<U, T> {
    pub node_type: NodeType,
    pub key: Vec<T>,
    pub children: Vec<Option<Tree<U, T>>>,
    pub phantom: PhantomData<U>,
}

/// The values below a link.
pub open spec fn bag_of<U, T>(c: Option<Tree<U, T>>) -> Multiset<T>
    decreases c,
{
    match c {
        Some(t) => t.bag(),
        None => Multiset::empty(),
    }
}

/// The values below a link in the order of a walk.
pub open spec fn contents_of<U, T>(c: Option<Tree<U, T>>) -> Seq<T>
    decreases c,
{
    match c {
        Some(t) => t.contents(),
        None => Seq::empty(),
    }
}

impl<U, T> Node<U, T> {
    /// The values in the node and below it, each as often as it is held.
    pub open spec fn bag(&self) -> Multiset<T>
        decreases self, 1nat,
    {
        self.key@.to_multiset().add(total(self.child_bags()))
    }

    /// The values below each child.
    pub open spec fn child_bags(&self) -> Seq<Multiset<T>>
        decreases self, 0nat,
    {
        Seq::new(
            self.children@.len(),
            |j: int|
                if 0 <= j < self.children@.len() {
                    bag_of(self.children@[j])
                } else {
                    Multiset::empty()
                },
        )
    }

    /// The values in the node and below it in the order of a walk: each
    /// child's values before the value that follows the child.
    pub open spec fn contents(&self) -> Seq<T>
        decreases self, 2nat, 0nat,
    {
        self.walked(0)
    }

    /// The walk from the child at the place `from` on.
    pub open spec fn walked(&self, from: nat) -> Seq<T>
        decreases self, 1nat, self.key@.len() + 1 - from,
    {
        if from > self.key@.len() {
            Seq::empty()
        } else {
            let below = if from < self.children@.len() {
                contents_of(self.children@[from as int])
            } else {
                Seq::empty()
            };
            if from < self.key@.len() {
                below + seq![self.key@[from as int]] + self.walked(from + 1)
            } else {
                below
            }
        }
    }
}

/// Every value of `b` lies between the keys `lo` and `hi`, as far as they
/// are given.
pub open spec fn within<U: TotalOrder, T: Key<U>>(b: Multiset<T>, lo: Option<U>, hi: Option<U>) -> bool {
    forall|e: T|
        b.count(e) > 0 ==> {
            &&& (lo.is_some() ==> lo.unwrap().le(#[trigger] e.spec_key()))
            &&& (hi.is_some() ==> e.spec_key().le(hi.unwrap()))
        }
}

impl<U: TotalOrder, T: Key<U>> Node<U, T> {
    /// The key before the child at the place `j`, if there is one.
    pub open spec fn key_before(&self, j: int) -> Option<U> {
        if 0 < j <= self.key@.len() {
            Some(self.key@[j - 1].spec_key())
        } else {
            None
        }
    }

    /// The key behind the child at the place `j`, if there is one.
    pub open spec fn key_behind(&self, j: int) -> Option<U> {
        if 0 <= j < self.key@.len() {
            Some(self.key@[j].spec_key())
        } else {
            None
        }
    }

    /// The values of the node stand in ascending order of their keys, and
    /// the values below each child lie between the keys on either side of
    /// it; the same below every child.
    pub open spec fn ordered(&self) -> bool
        decreases self,
    {
        &&& forall|i: int, j: int|
            0 <= i <= j < self.key@.len() ==> (#[trigger] self.key@[i]).spec_key().le(
                (#[trigger] self.key@[j]).spec_key(),
            )
        &&& forall|j: int|
            0 <= j < self.children@.len() ==> match #[trigger] self.children@[j] {
                Some(c) => c.ordered() && within(c.bag(), self.key_before(j), self.key_behind(j)),
                None => true,
            }
    }
}

impl<U, T> Node<U, T> {
    /// The balanced form of the tree below the node, `height` levels
    /// deep: no node holds more than `2 * order - 1` values, a leaf has
    /// no child and is at the bottom, and a regular node has one child
    /// more than it has values, each of them one level less deep.
    pub open spec fn formed(&self, height: nat, order: nat) -> bool
        decreases self,
    {
        &&& self.key@.len() <= 2 * order - 1
        &&& match self.node_type {
            NodeType::Leaf => self.children@.len() == 0 && height == 0,
            NodeType::Regular => {
                &&& height > 0
                &&& self.children@.len() == self.key@.len() + 1
                &&& forall|j: int|
                    0 <= j < self.children@.len() ==> (#[trigger] self.children@[j]).is_some()
                        && self.children@[j].unwrap().formed((height - 1) as nat, order)
            },
        }
    }

    /// The node holds at least `least` values, and every node below it at
    /// least `order - 1`.
    pub open spec fn filled(&self, order: nat, least: nat) -> bool
        decreases self,
    {
        &&& self.key@.len() >= least
        &&& forall|j: int|
            0 <= j < self.children@.len() ==> match #[trigger] self.children@[j] {
                Some(c) => c.filled(order, (order - 1) as nat),
                None => true,
            }
    }

    pub(crate) fn new(node_type: NodeType) -> (t: Tree<U, T>)
        ensures
            t.node_type == node_type,
            t.key@ == Seq::<T>::empty(),
            t.children@ == Seq::<Option<Tree<U, T>>>::empty(),
    {
        Box::new(Self { node_type, key: Vec::new(), children: Vec::new(), phantom: PhantomData })
    }

    /// An empty leaf.
    pub fn new_leaf() -> (t: Tree<U, T>)
        ensures
            t.node_type == NodeType::Leaf,
            t.key@ == Seq::<T>::empty(),
            t.children@ == Seq::<Option<Tree<U, T>>>::empty(),
    {
        Self::new(NodeType::Leaf)
    }

    /// A regular node without values and children.
    pub fn new_regular() -> (t: Tree<U, T>)
        ensures
            t.node_type == NodeType::Regular,
            t.key@ == Seq::<T>::empty(),
            t.children@ == Seq::<Option<Tree<U, T>>>::empty(),
    {
        Self::new(NodeType::Regular)
    }

    /// Whether the node holds the most values that the order admits:
    /// one less than twice the order.
    pub fn is_full(&self, order: &usize) -> (b: bool)
        requires
            1 <= *order <= usize::MAX / 2,
        ensures
            b == (self.key@.len() == 2 * *order - 1),
    {
        self.key.len() == 2 * *order - 1
    }

    pub fn is_empty(&self) -> (b: bool)
        ensures
            b == (self.key@.len() == 0),
    {
        self.key.len() == 0
    }

    pub fn children_len(&self) -> (n: usize)
        ensures
            n == self.children@.len(),
    {
        self.children.len()
    }

    pub fn keys(&self) -> (s: &[T])
        ensures
            s@ == self.key@,
    {
        self.key.as_slice()
    }

    pub fn key_len(&self) -> (n: usize)
        ensures
            n == self.key@.len(),
    {
        self.key.len()
    }

    pub fn children(&self) -> (s: &[Option<Tree<U, T>>])
        ensures
            s@ == self.children@,
    {
        self.children.as_slice()
    }

    /// A mutable borrow of the child at the place `pos`.
    pub(crate) fn mut_child(&mut self, pos: &usize) -> (c: &mut Tree<U, T>)
        requires
            *pos < old(self).children@.len(),
            old(self).children@[*pos as int].is_some(),
        ensures
            *c == old(self).children@[*pos as int].unwrap(),
            final(self).children@ == old(self).children@.update(*pos as int, Some(*final(c))),
            final(self).key == old(self).key,
            final(self).node_type == old(self).node_type,
    {
        self.children[*pos].as_mut().unwrap()
    }

    pub(crate) fn ref_child(&self, pos: &usize) -> (c: &Tree<U, T>)
        requires
            *pos < self.children@.len(),
            self.children@[*pos as int].is_some(),
        ensures
            *c == self.children@[*pos as int].unwrap(),
    {
        self.children[*pos].as_ref().unwrap()
    }

    /// Hangs `node` behind the last child.
    pub(crate) fn add_child(&mut self, node: Tree<U, T>)
        ensures
            final(self).children@ == old(self).children@.push(Some(node)),
            final(self).key == old(self).key,
            final(self).node_type == old(self).node_type,
    {
        self.children.push(Some(node));
    }

    pub(crate) fn get_type(&self) -> (t: NodeType)
        ensures
            t == self.node_type,
    {
        self.node_type
    }

    /// The value at the place `pos`, if there is one.
    pub fn get_key(&self, pos: &usize) -> (r: Option<&T>)
        ensures
            r == (if *pos < self.key@.len() {
                Some(&self.key@[*pos as int])
            } else {
                None
            }),
    {
        if self.key.len() > *pos {
            Some(&self.key[*pos])
        } else {
            None
        }
    }

    /// Takes the value at the place `pos` out of the node, if there is
    /// one. The children stay as they are.
    pub fn remove_key(&mut self, pos: &usize) -> (r: Option<T>)
        ensures
            final(self).node_type == old(self).node_type,
            final(self).children == old(self).children,
            *pos < old(self).key@.len() ==> r == Some(old(self).key@[*pos as int])
                && final(self).key@ == old(self).key@.remove(*pos as int),
            *pos >= old(self).key@.len() ==> r.is_none() && final(self).key@ == old(self).key@,
    {
        if self.key.len() > *pos {
            Some(self.key.remove(*pos))
        } else {
            None
        }
    }

    pub fn is_leaf(&self) -> (b: bool)
        ensures
            b == (self.node_type == NodeType::Leaf),
    {
        self.node_type == NodeType::Leaf
    }

    /// Whether the node holds at least `order` values.
    pub(crate) fn at_least_order(&self, order: &usize) -> (b: bool)
        ensures
            b == (self.key@.len() >= *order),
    {
        self.key_len() >= *order
    }
}

} // verus!
