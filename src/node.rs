//! Tagged words of the heap: an eraser, a port, or a constructor header.

use vstd::prelude::*;

use crate::tree::Tree;

verus! {

/// Largest kind that a constructor word can carry.
pub const MAX_KIND: usize = usize::MAX / 2;

/// Largest address that a port word can carry.
pub const MAX_ADDR: usize = usize::MAX / 4;

/// A heap word: the low bit set marks a constructor, the next bit a
/// principal port; zero is the eraser and any other value an auxiliary port.
#[derive(Clone, Copy, PartialEq, Eq, Structural, Debug)]
pub struct PackedNode(pub usize);

/// The decoded form of a heap word.
#[derive(Clone, Copy, PartialEq, Eq, Structural, Debug)]
pub enum Node {
    /// The eraser.
    Era,
    /// The principal port of the tree rooted at the given address.
    Principal(Tree),
    /// One end of a wire; the other end is the word at the given address.
    Auxiliary(Tree),
    /// A binary constructor of the given kind; its two subtrees follow it.
    Ctr(usize),
}

/// What a packed word means.
pub open spec fn decode(x: usize) -> Node {
    if x % 2 == 1 {
        Node::Ctr(x / 2)
    } else if x == 0 {
        Node::Era
    } else if x % 4 == 2 {
        Node::Principal(Tree(x / 4))
    } else {
        Node::Auxiliary(Tree(x / 4))
    }
}

/// The nodes that have a packed form.
pub open spec fn packable(n: Node) -> bool {
    match n {
        Node::Era => true,
        Node::Principal(t) => t.0 <= MAX_ADDR,
        Node::Auxiliary(t) => 0 < t.0 <= MAX_ADDR,
        Node::Ctr(k) => k <= MAX_KIND,
    }
}

/// The packed form of a node.
pub open spec fn encode(n: Node) -> usize {
    match n {
        Node::Era => 0,
        Node::Principal(t) => (t.0 * 4 + 2) as usize,
        Node::Auxiliary(t) => (t.0 * 4) as usize,
        Node::Ctr(k) => (k * 2 + 1) as usize,
    }
}

/// A port is a principal or an auxiliary node.
pub open spec fn is_port(n: Node) -> bool {
    n is Principal || n is Auxiliary
}

impl PackedNode {
    /// The node this word holds.
    pub open spec fn view(self) -> Node {
        decode(self.0)
    }

    pub fn unpack(self) -> (r: Node)
        ensures
            r == decode(self.0),
            packable(r),
            encode(r) == self.0,
    {
        proof {
            lemma_encode_decode(self.0);
        }
        let x = self.0;
        if x % 2 == 1 {
            Node::Ctr(x / 2)
        } else if x == 0 {
            Node::Era
        } else if x % 4 == 2 {
            Node::Principal(Tree(x / 4))
        } else {
            Node::Auxiliary(Tree(x / 4))
        }
    }
}

impl Node {
    pub fn pack(self) -> (r: PackedNode)
        requires
            packable(self),
        ensures
            r.0 == encode(self),
            decode(r.0) == self,
    {
        proof {
            lemma_decode_encode(self);
        }
        match self {
            Node::Era => PackedNode(0),
            Node::Principal(t) => PackedNode(t.0 * 4 + 2),
            Node::Auxiliary(t) => PackedNode(t.0 * 4),
            Node::Ctr(kind) => PackedNode(kind * 2 + 1),
        }
    }
}

/// Unpacking a packed node gives the node back.
pub proof fn lemma_decode_encode(n: Node)
    requires
        packable(n),
    ensures
        decode(encode(n)) == n,
{
    match n {
        Node::Principal(t) => {
            assert((t.0 * 4 + 2) % 4 == 2 && (t.0 * 4 + 2) / 4 == t.0);
        },
        Node::Auxiliary(t) => {
            assert((t.0 * 4) % 4 == 0 && (t.0 * 4) / 4 == t.0);
        },
        Node::Ctr(k) => {
            assert((k * 2 + 1) % 2 == 1 && (k * 2 + 1) / 2 == k);
        },
        Node::Era => {},
    }
}

/// Every word decodes to a packable node whose packed form is that word.
pub proof fn lemma_encode_decode(x: usize)
    ensures
        packable(decode(x)),
        encode(decode(x)) == x,
{
    if x % 2 == 0 {
        assert(x % 4 == 0 || x % 4 == 2);
    }
}

} // verus!
