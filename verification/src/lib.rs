//! A block-compression toolkit: static Huffman and enhanced LZW entropy
//! coders over a sub-bit-aligned stream layer, with optional reversible
//! block transforms (Burrows-Wheeler and Move-To-Front).
#![allow(non_snake_case)]

use vstd::prelude::*;

pub mod bits;
pub mod bitstream;
pub mod huffman;
pub mod lzw;
pub mod transform;

verus! {

/// How an operation on this library's types can fail.
#[derive(Clone, Copy, Debug, PartialEq, Eq, Structural)]
pub enum CodecError {
    /// A read API was called on a write-mode stream, or vice versa.
    WrongDirection,
    /// A decoder met input that no encoder of this library produces.
    CorruptedInput,
}

} // verus!
