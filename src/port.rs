//! A port word on its own: a principal or an auxiliary address.

use vstd::prelude::*;

use crate::node::MAX_ADDR;
use crate::tree::Tree;

verus! {

/// A packed port: the second lowest bit tells a principal port from an
/// auxiliary one, the bits above it hold the address.
#[derive(Clone, Copy, PartialEq, Eq, Structural, Debug)]
pub struct Ref(pub usize);

/// The decoded form of a port.
#[derive(Clone, Copy, PartialEq, Eq, Structural, Debug)]
pub enum UnpackedRef {
    /// The principal port of the tree rooted at the address.
    Principal(Tree),
    /// The word at the address is the other end of the wire.
    Auxiliary(Tree),
}

/// What a packed port means.
pub open spec fn ref_decode(x: usize) -> UnpackedRef {
    if (x / 2) % 2 == 1 {
        UnpackedRef::Principal(Tree(x / 4))
    } else {
        UnpackedRef::Auxiliary(Tree(x / 4))
    }
}

/// The packed form of a port.
pub open spec fn ref_encode(r: UnpackedRef) -> usize {
    match r {
        UnpackedRef::Principal(t) => (t.0 * 4 + 2) as usize,
        UnpackedRef::Auxiliary(t) => (t.0 * 4) as usize,
    }
}

/// The address that a port carries.
pub open spec fn ref_addr(r: UnpackedRef) -> usize {
    match r {
        UnpackedRef::Principal(t) => t.0,
        UnpackedRef::Auxiliary(t) => t.0,
    }
}

impl Ref {
    /// The port a packed port word holds. Only the second lowest bit and
    /// the bits above it are read: a port word is even (an odd word is a
    /// constructor header), and every even word comes back from packing.
    pub fn unpack(self) -> (r: UnpackedRef)
        ensures
            r == ref_decode(self.0),
            self.0 % 2 == 0 ==> r.pack_spec() == self,
    {
        if (self.0 / 2) % 2 == 1 {
            UnpackedRef::Principal(Tree(self.0 / 4))
        } else {
            UnpackedRef::Auxiliary(Tree(self.0 / 4))
        }
    }
}

impl UnpackedRef {
    /// The packed form of this port.
    pub open spec fn pack_spec(self) -> Ref {
        Ref(ref_encode(self))
    }

    pub fn pack(self) -> (r: Ref)
        requires
            ref_addr(self) <= MAX_ADDR,
        ensures
            r.0 == ref_encode(self),
            ref_decode(r.0) == self,
    {
        match self {
            UnpackedRef::Principal(t) => Ref(t.0 * 4 + 2),
            UnpackedRef::Auxiliary(t) => Ref(t.0 * 4),
        }
    }
}

/// Packing a port and unpacking it again gives the port back.
pub proof fn lemma_ref_unpack_pack(r: UnpackedRef)
    requires
        ref_addr(r) <= MAX_ADDR,
    ensures
        ref_decode(ref_encode(r)) == r,
{
    match r {
        UnpackedRef::Principal(t) => {
            assert((t.0 * 4 + 2) / 2 == t.0 * 2 + 1 && (t.0 * 4 + 2) / 4 == t.0);
        },
        UnpackedRef::Auxiliary(t) => {
            assert((t.0 * 4) / 2 == t.0 * 2 && (t.0 * 4) / 4 == t.0);
        },
    }
}

/// Unpacking a packed port and packing it again gives the same word exactly
/// when the word's lowest bit is clear.
pub proof fn lemma_ref_pack_unpack(x: usize)
    ensures
        ref_addr(ref_decode(x)) <= MAX_ADDR,
        ref_encode(ref_decode(x)) == x <==> x % 2 == 0,
{
}

} // verus!
