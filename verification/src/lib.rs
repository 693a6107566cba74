use vstd::prelude::*;
use std::collections::HashMap;
use std::collections::hash_map::Entry;

pub mod node;
pub mod repo;
pub mod order;
pub mod rb_tree;
pub mod btree;
pub mod html;

use crate::node::{Node, NodeView, Operations};
use crate::repo::Repository;

verus! {

/// The store backed by a hash map.
pub struct RepoNode<T>(HashMap<u32, Node<T>>);

impl<T: Copy> Repository<T> for RepoNode<T> {
    type Output = Node<T>;

    closed spec fn view(&self) -> Map<u32, NodeView<T>> {
        self.0@.map_values(|n: Node<T>| n.view())
    }

    fn new() -> (r: Self) {
        let r = Self(HashMap::new());
        assert(r.view() =~= Map::<u32, NodeView<T>>::empty());
        r
    }

    fn add(&mut self, id: &u32, key: T) {
        self.0.insert(*id, Node::new(id, key));
        assert(self.view() =~= old(self).view().insert(*id, NodeView::fresh(*id, key)));
    }

    fn remove(&mut self, node_id: &u32) -> (r: Option<Self::Output>) {
        let r = self.0.remove(node_id);
        assert(self.view() =~= old(self).view().remove(*node_id));
        r
    }

    fn get(&self, node_id: &u32) -> (r: Option<&Self::Output>) {
        self.0.get(node_id)
    }

    fn get_mut(&mut self, node_id: &u32) -> (r: Option<&mut Self::Output>) {
        match self.0.entry(*node_id) {
            Entry::Occupied(e) => Some(e.into_mut()),
            Entry::Vacant(_) => None,
        }
    }
}

} // verus!
