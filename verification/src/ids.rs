//! Newtype identifiers used across the engine. A guest reference or registry identifier is an
//! index into a bounds-checked store, never a host address.

use vstd::prelude::*;

verus! {

/// Index of a heap object within the object registry. Not a host pointer.
#[derive(Clone, Copy, PartialEq, Eq, Debug, Hash, Structural)]
pub struct RefIndex(pub u64);

/// Runtime-unique identity of a loaded class, interned to a `u32`.
#[derive(Clone, Copy, PartialEq, Eq, Debug, Hash, Structural)]
pub struct ClassId(pub u32);

/// Virtual-thread id; diff trees of different threads never merge.
#[derive(Clone, Copy, PartialEq, Eq, Debug, Hash, Structural)]
pub struct VtId(pub u32);

/// Per-scope local/SSA slot index.
#[derive(Clone, Copy, PartialEq, Eq, Debug, Hash, Structural)]
pub struct SlotId(pub u16);

/// Basic-block id within a method's control-flow graph.
#[derive(Clone, Copy, PartialEq, Eq, Debug, Hash, Structural)]
pub struct BlockId(pub u32);

/// Class-loader identity; part of the class-namespace key.
#[derive(Clone, Copy, PartialEq, Eq, Debug, Hash, Structural)]
pub struct LoaderId(pub u32);

/// Interned class/member name.
#[derive(Clone, Copy, PartialEq, Eq, Debug, Hash, Structural)]
pub struct InternedName(pub u32);

/// Two-level SSA value id: `scope_level` is fixed by super-scope nesting, `offset` is the slot
/// within that level.
#[derive(Clone, Copy, PartialEq, Eq, Debug, Hash, Structural)]
pub struct ValId {
    pub scope_level: u16,
    pub offset: u16,
}

/// A newtype usable as a dense index into a [`crate::registry::RegistryVec`].
pub trait RegistryKey: Copy {
    /// The key that stands for position `i`.
    spec fn key_at(i: usize) -> Self;

    /// The position a key stands for.
    spec fn position(self) -> usize;

    fn from_index(i: usize) -> (k: Self)
        ensures
            k == Self::key_at(i),
    ;

    fn index(self) -> (i: usize)
        ensures
            i == self.position(),
    ;
}

impl RegistryKey for ClassId {
    open spec fn key_at(i: usize) -> Self {
        ClassId(i as u32)
    }

    open spec fn position(self) -> usize {
        self.0 as usize
    }

    fn from_index(i: usize) -> (k: Self) {
        ClassId(i as u32)
    }

    fn index(self) -> (i: usize) {
        self.0 as usize
    }
}

impl RegistryKey for BlockId {
    open spec fn key_at(i: usize) -> Self {
        BlockId(i as u32)
    }

    open spec fn position(self) -> usize {
        self.0 as usize
    }

    fn from_index(i: usize) -> (k: Self) {
        BlockId(i as u32)
    }

    fn index(self) -> (i: usize) {
        self.0 as usize
    }
}

impl RegistryKey for RefIndex {
    open spec fn key_at(i: usize) -> Self {
        RefIndex(i as u64)
    }

    open spec fn position(self) -> usize {
        self.0 as usize
    }

    fn from_index(i: usize) -> (k: Self) {
        RefIndex(i as u64)
    }

    fn index(self) -> (i: usize) {
        self.0 as usize
    }
}

impl SlotId {
    /// This slot's index into per-scope storage.
    pub fn index(self) -> (i: usize)
        ensures
            i == self.0,
    {
        self.0 as usize
    }
}

/// A key made from a position that its integer can hold stands for that position again.
pub proof fn lemma_keys_round_trip(i: usize)
    ensures
        i <= u32::MAX ==> ClassId::key_at(i).position() == i,
        i <= u32::MAX ==> BlockId::key_at(i).position() == i,
        RefIndex::key_at(i).position() == i,
{
}

} // verus!
