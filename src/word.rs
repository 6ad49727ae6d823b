//! Heap words in the length-header layout: a constructor header records how
//! many words its subtree spans.

use vstd::prelude::*;

use crate::port::Ref;

verus! {

/// A packed word: odd values are constructor headers holding their subtree's
/// length (always odd), zero is the eraser, other even values are ports.
#[derive(Clone, Copy, PartialEq, Eq, Structural, Debug)]
pub struct Word(pub usize);

/// The decoded form of a word.
#[derive(Clone, Copy, PartialEq, Eq, Structural, Debug)]
pub enum UnpackedWord {
    /// The eraser.
    Era,
    /// A port.
    Ref(Ref),
    /// A constructor header with the word count of its subtree.
    Ctr(usize),
}

/// What a packed word means.
pub open spec fn word_decode(x: usize) -> UnpackedWord {
    if x % 2 == 1 {
        UnpackedWord::Ctr(x)
    } else if x == 0 {
        UnpackedWord::Era
    } else {
        UnpackedWord::Ref(Ref(x))
    }
}

/// The packed form of a word; a header's lowest bit is always set.
pub open spec fn word_encode(u: UnpackedWord) -> usize {
    match u {
        UnpackedWord::Era => 0,
        UnpackedWord::Ref(r) => r.0,
        UnpackedWord::Ctr(len) => if len % 2 == 1 {
            len
        } else {
            (len + 1) as usize
        },
    }
}

/// The decoded words that survive packing unchanged: headers of odd length
/// and ports with a nonzero, even value.
pub open spec fn word_valid(u: UnpackedWord) -> bool {
    match u {
        UnpackedWord::Era => true,
        UnpackedWord::Ref(r) => r.0 != 0 && r.0 % 2 == 0,
        UnpackedWord::Ctr(len) => len % 2 == 1,
    }
}

/// How many words a node spans: a header's length, one for a leaf.
pub open spec fn word_length(u: UnpackedWord) -> usize {
    match u {
        UnpackedWord::Ctr(d) => d,
        _ => 1,
    }
}

impl Word {
    pub fn unpack(self) -> (r: UnpackedWord)
        ensures
            r == word_decode(self.0),
            word_valid(r),
    {
        if self.0 % 2 == 1 {
            UnpackedWord::Ctr(self.0)
        } else if self.0 == 0 {
            UnpackedWord::Era
        } else {
            UnpackedWord::Ref(Ref(self.0))
        }
    }
}

impl UnpackedWord {
    pub fn pack(self) -> (r: Word)
        ensures
            r.0 == word_encode(self),
    {
        match self {
            UnpackedWord::Era => Word(0),
            UnpackedWord::Ref(r) => Word(r.0),
            UnpackedWord::Ctr(len) => if len % 2 == 1 {
                Word(len)
            } else {
                Word(len + 1)
            },
        }
    }

    pub fn length(self) -> (r: usize)
        ensures
            r == word_length(self),
    {
        match self {
            UnpackedWord::Ctr(d) => d,
            _ => 1,
        }
    }
}

/// Packing an unpacked word gives the word back.
pub proof fn lemma_word_pack_unpack(x: usize)
    ensures
        word_encode(word_decode(x)) == x,
{
}

/// Unpacking a packed word gives it back exactly when it is valid.
pub proof fn lemma_word_unpack_pack(u: UnpackedWord)
    ensures
        word_decode(word_encode(u)) == u <==> word_valid(u),
{
}

} // verus!
