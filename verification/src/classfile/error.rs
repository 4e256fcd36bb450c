//! Errors raised while parsing a class file. A malformed file yields an error, never a panic.

use vstd::prelude::*;

verus! {

/// A class-file parsing error.
#[derive(Debug, PartialEq, Eq)]
pub enum ClassFileError {
    /// Unexpected end of input at a byte offset.
    Eof(usize),
    /// Bad magic (expected `0xCAFEBABE`).
    BadMagic(u32),
    /// Unknown constant-pool tag.
    UnknownTag { tag: u8, index: u16 },
    /// Invalid modified UTF-8 in a `Utf8` constant.
    BadUtf8,
    /// Constant-pool index out of range or of the wrong type.
    BadCpIndex(u16),
    /// Malformed attribute.
    BadAttribute(&'static str),
}

} // verus!
