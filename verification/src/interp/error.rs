//! Runtime failures.

use vstd::prelude::*;
use crate::native::NativeError;

verus! {

/// A runtime failure. Conditions like division by zero surface as errors here.
#[derive(Debug, Clone, Copy, PartialEq, Eq, Structural)]
pub enum ExecError {
    DivByZero,
    /// Value/type error during execution.
    BadValue,
    /// Operation not supported by the interpreter.
    UnsupportedOp,
    /// Exception thrown.
    Thrown,
    /// Execution step limit exceeded.
    StepLimit,
    /// Control transfer to a nonexistent block.
    BadBlock,
    /// Argument count mismatch.
    BadArgs,
    /// φ has no operand for the incoming control-flow edge.
    BadPhi,
    /// Call stack depth exceeded.
    StackOverflow,
    /// No such method, or the callee failed to build.
    NoMethod,
    /// Allocation failed.
    OutOfMemory,
    NullPointer,
    /// A symbolic reference could not be resolved.
    Unresolved,
    /// Class initialisation failed.
    ClassInitFailed,
    /// Bad cast.
    ClassCast,
    /// A native method failed.
    Native(NativeError),
}

impl ExecError {
    /// The runtime failure that a native method's failure becomes.
    pub open spec fn of_native(e: NativeError) -> ExecError {
        match e {
            NativeError::OutOfMemory => ExecError::OutOfMemory,
            NativeError::NullPointer => ExecError::NullPointer,
            NativeError::BadValue => ExecError::BadValue,
        }
    }
}

impl From<NativeError> for ExecError {
    fn from(e: NativeError) -> (r: ExecError) {
        match e {
            NativeError::OutOfMemory => ExecError::OutOfMemory,
            NativeError::NullPointer => ExecError::NullPointer,
            NativeError::BadValue => ExecError::BadValue,
        }
    }
}

impl vstd::std_specs::convert::FromSpecImpl<NativeError> for ExecError {
    open spec fn obeys_from_spec() -> bool {
        true
    }

    open spec fn from_spec(e: NativeError) -> ExecError {
        ExecError::of_native(e)
    }
}

/// The failures of native methods are the failures of the same name.
pub proof fn lemma_native_failures_keep_their_names()
    ensures
        ExecError::of_native(NativeError::OutOfMemory) == ExecError::OutOfMemory,
        ExecError::of_native(NativeError::NullPointer) == ExecError::NullPointer,
        ExecError::of_native(NativeError::BadValue) == ExecError::BadValue,
{
}

} // verus!
