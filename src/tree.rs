//! Trees named by the heap address of their root word.

use vstd::prelude::*;

use crate::node::{decode, Node, PackedNode};

verus! {

/// A tree: the heap address of its root word. Address zero is the null tree.
#[derive(Clone, Copy, PartialEq, Eq, Structural, Debug)]
pub struct Tree(pub usize);

/// Relies on Vec::push, which panics rather than let a vector's capacity
/// pass isize::MAX bytes. A heap word is one usize, four or eight bytes on
/// the 32- and 64-bit targets this library supports, so the heap holds at most
/// isize::MAX / 4 words.
#[verifier::external_body]
pub(crate) fn push_word(heap: &mut Vec<PackedNode>, w: PackedNode)
    ensures
        final(heap)@ == old(heap)@.push(w),
        final(heap)@.len() <= isize::MAX as int / 4,
{
    heap.push(w);
}

impl Tree {
    /// The node at the tree's root.
    pub fn root(self, heap: &Vec<PackedNode>) -> (r: Node)
        requires
            self.0 < heap@.len(),
        ensures
            r == decode(heap@[self.0 as int].0),
    {
        heap[self.0].unpack()
    }

    /// The tree `index` words further into the same buffer.
    pub fn offset(self, index: usize) -> (r: Tree)
        requires
            self.0 + index <= usize::MAX,
        ensures
            r.0 == self.0 + index,
    {
        Tree(self.0 + index)
    }

    /// The node `index` words into the tree.
    pub fn node(self, index: usize, heap: &Vec<PackedNode>) -> (r: Node)
        requires
            self.0 + index < heap@.len(),
        ensures
            r == decode(heap@[self.0 + index].0),
    {
        // The heap's length is a usize, so the address sum below it fits.
        let _len = heap.len();
        self.offset(index).root(heap)
    }

    /// The kind of the root constructor; none when the root is a leaf.
    pub fn kind(self, heap: &Vec<PackedNode>) -> (r: Option<usize>)
        requires
            self.0 < heap@.len(),
        ensures
            r == kind_of(decode(heap@[self.0 as int].0)),
    {
        match self.root(heap) {
            Node::Ctr(kind) => Some(kind),
            _ => None,
        }
    }

    /// Copies the `len` words starting at `tree` to a fresh buffer at the end
    /// of the heap, verbatim, and returns the copy.
    pub fn clone(tree: Tree, len: usize, heap: &mut Vec<PackedNode>) -> (r: Tree)
        requires
            tree.0 + len <= old(heap)@.len(),
        ensures
            r.0 == old(heap)@.len(),
            final(heap)@ == old(heap)@ + old(heap)@.subrange(tree.0 as int, tree.0 + len),
    {
        let start = heap.len();
        let ghost h0 = heap@;
        let mut i: usize = 0;
        while i < len
            invariant
                tree.0 + len <= h0.len(),
                start == h0.len(),
                heap@ == h0 + h0.subrange(tree.0 as int, tree.0 + i),
                i <= len,
            decreases len - i,
        {
            let w = heap[tree.0 + i];
            push_word(heap, w);
            i = i + 1;
            assert(heap@ =~= h0 + h0.subrange(tree.0 as int, tree.0 + i));
        }
        Tree(start)
    }
}

/// The kind of a constructor node; none for a leaf.
pub open spec fn kind_of(n: Node) -> Option<usize> {
    match n {
        Node::Ctr(k) => Some(k),
        _ => None,
    }
}

} // verus!
