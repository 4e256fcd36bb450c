//! The interpreter: an explicit stack of method frames and class initialisations.
//!
//! [`machine`] says what one step does, [`program`] runs it, [`soundness`] shows what every step
//! keeps and why every run ends, [`accounts`] that reference counts are kept exactly, [`exclusive`]
//! that scope-exclusive objects stay with their scope, [`survival`] that referenced objects live,
//! [`bytecode`] that calls compute what bytecode means, [`arithmetic`] what operations compute on
//! numbers, [`running`] what programs observe of objects, types, calls and initialisation, and
//! [`laws`] holds what else follows for programs.

pub mod accounts;
pub mod arithmetic;
pub mod bytecode;
pub mod error;
pub mod eval;
pub mod exclusive;
pub mod laws;
pub mod machine;
pub mod nodes;
pub mod program;
pub mod running;
pub mod soundness;
pub mod survival;

pub use error::ExecError;
pub use program::{install_builtins, Program, Progress, DEFAULT_MAX_CALL_DEPTH};
