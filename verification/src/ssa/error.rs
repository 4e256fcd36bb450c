//! Errors of the SSA builder.

use vstd::prelude::*;

verus! {

/// Failure while building SSA form.
#[derive(Debug, Clone, PartialEq, Eq)]
pub enum IrError {
    /// An opcode has no lowering.
    Unsupported { op: u8, pc: u32 },
    /// Operand stack underflow.
    StackUnderflow(u32),
    /// Read of an undefined local.
    BadLocalRead { index: usize },
    /// Bad constant reference.
    BadConstant(u32),
    /// A control-flow target has no block.
    BadBlock(u32),
    /// The method exceeds the per-scope value limit.
    TooManyValues,
}

} // verus!
