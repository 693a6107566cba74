use vstd::prelude::*;

verus! {

/// The two colours of a red-black tree node. A fresh node is red.
#[derive(Debug, PartialEq, Eq, Structural, Copy, Clone)]
pub enum Color {
    Red,
    Black,
}

impl Color {
    /// The other colour.
    pub open spec fn flipped(self) -> Color {
        match self {
            Color::Red => Color::Black,
            Color::Black => Color::Red,
        }
    }

    /// Swaps red and black.
    pub fn not(self) -> (c: Color)
        ensures
            c == self.flipped(),
            c != self,
    {
        match self {
            Color::Red => Color::Black,
            Color::Black => Color::Red,
        }
    }
}

impl Default for Color {
    fn default() -> (c: Color)
        ensures
            c == Color::Red,
    {
        Color::Red
    }
}

/// What a node record holds, as a plain mathematical value: its own
/// identifier, its key, its colour and the identifiers of its three
/// relatives. Identifiers are weak: holding one keeps nothing alive.
pub ghost struct NodeView<T> {
    pub id: u32,
    pub key: T,
    pub color: Color,
    pub parent: Option<u32>,
    pub left: Option<u32>,
    pub right: Option<u32>,
}

impl<T> NodeView<T> {
    /// The record that `add` creates: red, without relatives.
    pub open spec fn fresh(id: u32, key: T) -> NodeView<T> {
        NodeView { id, key, color: Color::Red, parent: None, left: None, right: None }
    }
}

/// The capability contract of a node record: plain field access, nothing
/// that can fail. Any record type with these operations can back a store.
pub trait Operations<T>: Sized {
    /// The record as a mathematical value.
    spec fn view(&self) -> NodeView<T>;

    /// A red record without relatives.
    fn new(id: &u32, key: T) -> (n: Self)
        ensures
            n.view() == NodeView::fresh(*id, key),
    ;

    fn key(&self) -> (k: T)
        ensures
            k == self.view().key,
    ;

    fn set_key(&mut self, key: &T)
        ensures
            final(self).view() == (NodeView { key: *key, ..old(self).view() }),
    ;

    fn set_left_child(&mut self, node: &Option<u32>)
        ensures
            final(self).view() == (NodeView { left: *node, ..old(self).view() }),
    ;

    fn set_right_child(&mut self, node: &Option<u32>)
        ensures
            final(self).view() == (NodeView { right: *node, ..old(self).view() }),
    ;

    fn set_parent(&mut self, node: &Option<u32>)
        ensures
            final(self).view() == (NodeView { parent: *node, ..old(self).view() }),
    ;

    fn left_child(&self) -> (c: Option<u32>)
        ensures
            c == self.view().left,
    ;

    fn right_child(&self) -> (c: Option<u32>)
        ensures
            c == self.view().right,
    ;

    fn parent(&self) -> (p: Option<u32>)
        ensures
            p == self.view().parent,
    ;

    fn id(&self) -> (i: &u32)
        ensures
            *i == self.view().id,
    ;

    fn color(&self) -> (c: &Color)
        ensures
            *c == self.view().color,
    ;

    fn set_color(&mut self, color: &Color)
        ensures
            final(self).view() == (NodeView { color: *color, ..old(self).view() }),
    ;
}

/// The node record of the hash-map backed store.
#[derive(Debug, Copy)]
pub struct Node<T> {
    id: u32,
    color: Color,
    key: T,
    parent: Option<u32>,
    left: Option<u32>,
    right: Option<u32>,
}

impl<T: Copy> Clone for Node<T> {
    fn clone(&self) -> (n: Self)
        ensures
            n == *self,
    {
        *self
    }
}

impl<T: Copy> Operations<T> for Node<T> {
    closed spec fn view(&self) -> NodeView<T> {
        NodeView {
            id: self.id,
            key: self.key,
            color: self.color,
            parent: self.parent,
            left: self.left,
            right: self.right,
        }
    }

    fn new(id: &u32, key: T) -> (n: Self) {
        Self { id: *id, color: Color::Red, key, parent: None, left: None, right: None }
    }

    fn key(&self) -> (k: T) {
        self.key
    }

    fn set_key(&mut self, key: &T) {
        self.key = *key;
    }

    fn set_left_child(&mut self, node: &Option<u32>) {
        self.left = *node;
    }

    fn set_right_child(&mut self, node: &Option<u32>) {
        self.right = *node;
    }

    fn set_parent(&mut self, node: &Option<u32>) {
        self.parent = *node;
    }

    fn left_child(&self) -> (c: Option<u32>) {
        self.left
    }

    fn right_child(&self) -> (c: Option<u32>) {
        self.right
    }

    fn parent(&self) -> (p: Option<u32>) {
        self.parent
    }

    fn id(&self) -> (i: &u32) {
        &self.id
    }

    fn color(&self) -> (c: &Color) {
        &self.color
    }

    fn set_color(&mut self, color: &Color) {
        self.color = *color;
    }
}

} // verus!
