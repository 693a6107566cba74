use vstd::prelude::*;
use crate::node::{NodeView, Operations};

verus! {

/// The identifier behind the link that `pick` reads in the record `id`,
/// if both the record and the target are stored.
pub open spec fn hop<T>(
    m: Map<u32, NodeView<T>>,
    id: u32,
    pick: spec_fn(NodeView<T>) -> Option<u32>,
) -> Option<u32> {
    if m.contains_key(id) {
        match pick(m[id]) {
            Some(t) => if m.contains_key(t) {
                Some(t)
            } else {
                None
            },
            None => None,
        }
    } else {
        None
    }
}

pub open spec fn parent_of<T>(m: Map<u32, NodeView<T>>, id: u32) -> Option<u32> {
    hop(m, id, |v: NodeView<T>| v.parent)
}

pub open spec fn left_of<T>(m: Map<u32, NodeView<T>>, id: u32) -> Option<u32> {
    hop(m, id, |v: NodeView<T>| v.left)
}

pub open spec fn right_of<T>(m: Map<u32, NodeView<T>>, id: u32) -> Option<u32> {
    hop(m, id, |v: NodeView<T>| v.right)
}

/// What a read of the record behind `target` returns.
pub open spec fn reads<T, N: Operations<T>>(
    m: Map<u32, NodeView<T>>,
    target: Option<u32>,
    r: Option<&N>,
) -> bool {
    match r {
        Some(n) => target.is_some() && n.view() == m[target.unwrap()],
        None => target.is_none(),
    }
}

/// The node store: an indirection from identifiers to node records. It
/// knows nothing of trees; absence is an ordinary answer, never an error.
pub trait Repository<T>: Sized {
    type Output: Operations<T>;

    /// The store as a map from identifier to record.
    spec fn view(&self) -> Map<u32, NodeView<T>>;

    fn new() -> (r: Self)
        ensures
            r.view() == Map::<u32, NodeView<T>>::empty(),
    ;

    /// Creates the record `id`: red, without relatives. A record already
    /// stored under `id` is replaced.
    fn add(&mut self, id: &u32, key: T)
        ensures
            final(self).view() == old(self).view().insert(*id, NodeView::fresh(*id, key)),
    ;

    /// Deletes the record `node_id` and hands it out.
    fn remove(&mut self, node_id: &u32) -> (r: Option<Self::Output>)
        ensures
            final(self).view() == old(self).view().remove(*node_id),
            match r {
                Some(n) => old(self).view().contains_key(*node_id) && n.view() == old(
                    self,
                ).view()[*node_id],
                None => !old(self).view().contains_key(*node_id),
            },
    ;

    fn get(&self, node_id: &u32) -> (r: Option<&Self::Output>)
        ensures
            match r {
                Some(n) => self.view().contains_key(*node_id) && n.view() == self.view()[*node_id],
                None => !self.view().contains_key(*node_id),
            },
    ;

    /// A mutable borrow of the record `node_id`: what the caller leaves in
    /// it is what the store then holds under `node_id`.
    fn get_mut(&mut self, node_id: &u32) -> (r: Option<&mut Self::Output>)
        ensures
            match r {
                Some(n) => old(self).view().contains_key(*node_id) && n.view() == old(
                    self,
                ).view()[*node_id] && final(self).view() == old(self).view().insert(
                    *node_id,
                    final(n).view(),
                ),
                None => !old(self).view().contains_key(*node_id) && final(self).view() == old(
                    self,
                ).view(),
            },
    ;

    /// The record of the parent of `node`, one hop away.
    fn get_parent(&self, node: &u32) -> (r: Option<&Self::Output>)
        ensures
            reads(self.view(), parent_of(self.view(), *node), r),
    {
        let link = match self.get(node) {
            Some(n) => n.parent(),
            None => None,
        };
        match link {
            Some(p) => self.get(&p),
            None => None,
        }
    }

    /// The record of the left child of `node`, one hop away.
    fn get_left(&self, node: &u32) -> (r: Option<&Self::Output>)
        ensures
            reads(self.view(), left_of(self.view(), *node), r),
    {
        let link = match self.get(node) {
            Some(n) => n.left_child(),
            None => None,
        };
        match link {
            Some(p) => self.get(&p),
            None => None,
        }
    }

    /// The record of the right child of `node`, one hop away.
    fn get_right(&self, node: &u32) -> (r: Option<&Self::Output>)
        ensures
            reads(self.view(), right_of(self.view(), *node), r),
    {
        let link = match self.get(node) {
            Some(n) => n.right_child(),
            None => None,
        };
        match link {
            Some(p) => self.get(&p),
            None => None,
        }
    }

    fn mut_parent(&mut self, node: &u32) -> (r: Option<&mut Self::Output>)
        ensures
            match r {
                Some(n) => parent_of(old(self).view(), *node).is_some() && n.view() == old(
                    self,
                ).view()[parent_of(old(self).view(), *node).unwrap()] && final(self).view() == old(
                    self,
                ).view().insert(parent_of(old(self).view(), *node).unwrap(), final(n).view()),
                None => parent_of(old(self).view(), *node).is_none() && final(self).view() == old(
                    self,
                ).view(),
            },
    {
        let link = match self.get(node) {
            Some(n) => n.parent(),
            None => None,
        };
        match link {
            Some(p) => self.get_mut(&p),
            None => None,
        }
    }

    fn mut_left(&mut self, node: &u32) -> (r: Option<&mut Self::Output>)
        ensures
            match r {
                Some(n) => left_of(old(self).view(), *node).is_some() && n.view() == old(
                    self,
                ).view()[left_of(old(self).view(), *node).unwrap()] && final(self).view() == old(
                    self,
                ).view().insert(left_of(old(self).view(), *node).unwrap(), final(n).view()),
                None => left_of(old(self).view(), *node).is_none() && final(self).view() == old(
                    self,
                ).view(),
            },
    {
        let link = match self.get(node) {
            Some(n) => n.left_child(),
            None => None,
        };
        match link {
            Some(p) => self.get_mut(&p),
            None => None,
        }
    }

    fn mut_right(&mut self, node: &u32) -> (r: Option<&mut Self::Output>)
        ensures
            match r {
                Some(n) => right_of(old(self).view(), *node).is_some() && n.view() == old(
                    self,
                ).view()[right_of(old(self).view(), *node).unwrap()] && final(self).view() == old(
                    self,
                ).view().insert(right_of(old(self).view(), *node).unwrap(), final(n).view()),
                None => right_of(old(self).view(), *node).is_none() && final(self).view() == old(
                    self,
                ).view(),
            },
    {
        let link = match self.get(node) {
            Some(n) => n.right_child(),
            None => None,
        };
        match link {
            Some(p) => self.get_mut(&p),
            None => None,
        }
    }
}

} // verus!
