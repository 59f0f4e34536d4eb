//! An arena for nodes that live as long as the structure they belong to.
//!
//! Nodes are placed one behind the other and are named by their position.
//! A node can be changed where it lies, but it is never moved and never
//! given back: the arena goes as a whole.

use vstd::prelude::*;

verus! {

/// An arena of nodes.
pub struct Slab<T> {
    nodes: Vec<T>,
}

impl<T> Slab<T> {
    /// The nodes of the arena, in the order in which they were placed.
    pub closed spec fn view(&self) -> Seq<T> {
        self.nodes@
    }

    /// An arena without nodes.
    pub fn new() -> (r: Slab<T>)
        ensures
            r@ == Seq::<T>::empty(),
    {
        Slab { nodes: Vec::new() }
    }

    /// The number of nodes.
    pub fn len(&self) -> (n: usize)
        ensures
            n == self@.len(),
    {
        self.nodes.len()
    }

    /// Places `node` behind the nodes of the arena and returns its
    /// position. The other nodes stay where they are.
    pub fn next(&mut self, node: T) -> (index: usize)
        ensures
            index == old(self)@.len(),
            final(self)@ == old(self)@.push(node),
    {
        let index: usize = self.nodes.len();
        self.nodes.push(node);
        index
    }

    /// The node at `index`.
    pub fn get(&self, index: usize) -> (node: &T)
        requires
            index < self@.len(),
        ensures
            *node == self@[index as int],
    {
        &self.nodes[index]
    }

    /// The node at `index`, to be changed in place. No other node changes.
    pub fn get_mut(&mut self, index: usize) -> (node: &mut T)
        requires
            index < old(self)@.len(),
        ensures
            *node == old(self)@[index as int],
            final(self)@ == old(self)@.update(index as int, *final(node)),
    {
        &mut self.nodes[index]
    }
}

} // verus!
