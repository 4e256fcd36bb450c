//! A Java bytecode engine whose logic is verified.
//!
//! Every guest value is a 128-bit tagged value, and guest references are bounds-checked registry
//! indices, never host addresses. A class file is parsed ([`classfile`]), its methods are verified
//! ([`verify`]) and brought into SSA form ([`ssa`]), classes are linked ([`loader`]), and programs run
//! on an abstract machine whose every step is specified ([`interp`]).

pub mod ids;
pub mod value;
pub mod text;
pub mod inline;
pub mod diff;
pub mod env;
pub mod registry;
pub mod lock;
pub mod heap;
pub mod refcount;
pub mod classfile;
pub mod verify;
pub mod ir;
pub mod ssa;
pub mod native;
pub mod loader;
pub mod world;
pub mod stdlib;
pub mod interp;
