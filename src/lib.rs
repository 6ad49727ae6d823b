//! An interaction-net reducer over a word heap.
//!
//! Trees are pre-order buffers of packed words stored in one heap; a tree is
//! named by the address of its root word. Wires are pairs of auxiliary words
//! that hold each other's address. Reduction pops active pairs and rewrites
//! them by erasure, annihilation or commutation until none is left.

pub mod commute;
pub mod laws;
pub mod lex;
pub mod net;
pub mod node;
pub mod parse;
pub mod port;
pub mod print;
pub mod tree;
pub mod word;

pub use lex::lex;
pub use net::{inner, Net};
pub use node::{Node, PackedNode};
pub use parse::{parse_program, Error, Token};
pub use port::{Ref, UnpackedRef};
pub use print::PrintNet;
pub use tree::Tree;
pub use word::{UnpackedWord, Word};
