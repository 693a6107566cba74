use vstd::prelude::*;
use core::marker::PhantomData;
use crate::node::{Color, NodeView, Operations};
use crate::order::TotalOrder;
use crate::repo::Repository;

pub mod inv;
pub mod query;
pub mod rotate;
pub mod grow;
pub mod mend;
pub mod insert;
pub mod shrink;
pub mod settle;
pub mod delete;
pub mod steps;
pub mod laws;

use inv::{inv, keys_of, Labels, Label};

verus! {

/// Which child of its parent a node is.
#[derive(PartialEq, Eq, Structural, Copy, Clone)]
pub enum Child {
    Left,
    Right,
}

impl Child {
    pub open spec fn flipped(self) -> Child {
        match self {
            Child::Left => Child::Right,
            Child::Right => Child::Left,
        }
    }

    /// The other side.
    pub fn not(self) -> (c: Child)
        ensures
            c == self.flipped(),
    {
        match self {
            Child::Left => Child::Right,
            Child::Right => Child::Left,
        }
    }
}

/// The direction of a rotation: the way the rotated node goes down.
#[derive(PartialEq, Eq, Structural, Debug, Copy, Clone)]
pub enum Rotation {
    Left,
    Right,
}

impl Rotation {
    pub open spec fn flipped(self) -> Rotation {
        match self {
            Rotation::Left => Rotation::Right,
            Rotation::Right => Rotation::Left,
        }
    }

    /// The opposite direction.
    pub fn not(self) -> (r: Rotation)
        ensures
            r == self.flipped(),
    {
        match self {
            Rotation::Left => Rotation::Right,
            Rotation::Right => Rotation::Left,
        }
    }
}

/// A node's identifier together with its colour.
#[derive(Debug, Clone, Copy)]
pub struct NodeColor {
    pub id: u32,
    pub color: Color,
}

impl NodeColor {
    pub fn new(id: &u32, color: &Color) -> (n: Self)
        ensures
            n.id == *id,
            n.color == *color,
    {
        Self { id: *id, color: *color }
    }
}

/// The tree engine. It owns no node: it keeps the root's identifier, the
/// number of live nodes and the last identifier handed out, and works on
/// a store that is passed to every operation.
pub struct RedBlackTree<R, T> {
    id_counter: u32,
    root: Option<u32>,
    length: usize,
    order: Ghost<Seq<u32>>,
    labels: Ghost<Labels>,
    marker: PhantomData<(R, T)>,
}

impl<R: Repository<T>, T: TotalOrder> RedBlackTree<R, T> {
    /// The engine and the store fit together: the store holds exactly the
    /// nodes of one red-black search tree under the engine's root.
    pub closed spec fn wf(&self, repo: &R) -> bool {
        inv(repo.view(), self.labels@, self.order@, self.root, self.length, self.id_counter)
    }

    /// The keys of the live nodes in traversal order: left subtree, node,
    /// right subtree.
    pub closed spec fn keys(&self, repo: &R) -> Seq<T> {
        keys_of(repo.view(), self.order@)
    }

    /// The records of the live nodes in traversal order.
    pub closed spec fn nodes(&self, repo: &R) -> Seq<NodeView<T>> {
        query::nodes_of(repo.view(), self.order@)
    }

    /// The identifiers of the live nodes in traversal order.
    pub closed spec fn ids(&self) -> Seq<u32> {
        self.order@
    }

    /// The root's identifier.
    pub closed spec fn root_id(&self) -> Option<u32> {
        self.root
    }

    /// How many identifiers the engine has handed out.
    pub closed spec fn ids_issued(&self) -> nat {
        self.id_counter as nat
    }

    /// The number of live nodes.
    pub closed spec fn spec_len(&self) -> usize {
        self.length
    }

    /// An engine without a node, for an empty store.
    pub fn new() -> (t: Self)
        ensures
            t.ids_issued() == 0,
            t.spec_len() == 0,
            t.root_id().is_none(),
            t.ids() == Seq::<u32>::empty(),
            forall|repo: R| #[trigger] t.keys(&repo) == Seq::<T>::empty(),
            forall|repo: R| repo.view() == Map::<u32, NodeView<T>>::empty() ==> #[trigger] t.wf(&repo),
    {
        let t = Self {
            id_counter: 0,
            root: None,
            length: 0,
            order: Ghost(Seq::empty()),
            labels: Ghost(|n: u32| Label { lo: 0, idx: 0, hi: 0, bh: 0 }),
            marker: PhantomData,
        };
        proof {
            assert forall|repo: R| #[trigger] t.keys(&repo) == Seq::<T>::empty() by {
                assert(t.keys(&repo) =~= Seq::<T>::empty());
            }
        }
        t
    }

    /// The identifier of the root, if the tree has a node.
    #[verifier::when_used_as_spec(root_id)]
    pub fn root(&self) -> (r: Option<u32>)
        ensures
            r == self.root_id(),
    {
        self.root
    }

    /// Whether every identifier has been handed out, so that nothing can
    /// be inserted any more.
    pub fn is_exhausted(&self) -> (b: bool)
        ensures
            b == (self.ids_issued() == u32::MAX),
            !b ==> self.ids_issued() < u32::MAX,
            self.ids_issued() <= u32::MAX,
    {
        self.id_counter == u32::MAX
    }

    #[verifier::when_used_as_spec(spec_len)]
    pub fn len(&self) -> (n: usize)
        ensures
            n == self.spec_len(),
    {
        self.length
    }
}

} // verus!
