//! Errors raised by the bytecode verifier. The verifier never panics, whatever the input.

use vstd::prelude::*;

verus! {

/// A bytecode-verification failure.
#[derive(Debug, Clone, PartialEq, Eq)]
pub enum VerifyError {
    /// The method has no `Code` attribute.
    NoCode,
    /// Unsupported or unknown opcode.
    UnsupportedOpcode { op: u8, pc: u32 },
    /// Bytecode truncated near a pc.
    Truncated(u32),
    /// A branch targets something that is not an instruction boundary.
    BadBranchTarget { at: u32, target: i64 },
    /// Operand stack underflow.
    StackUnderflow(u32),
    /// Operand stack exceeds `max_stack`.
    StackOverflow(u32),
    /// Type mismatch.
    TypeMismatch { pc: u32, what: &'static str },
    /// Local index out of range.
    BadLocal { pc: u32, index: u16 },
    /// No stack-map frame for a reachable pc.
    MissingFrame(u32),
    /// Stack-map frame mismatch entering a pc.
    FrameMismatch(u32),
    /// Malformed method/field descriptor.
    BadDescriptor,
    /// Malformed `StackMapTable`.
    BadStackMap,
    /// Return type mismatch.
    BadReturn(u32),
}

} // verus!
