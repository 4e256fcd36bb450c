//! Small inline-first sequences. Operand lists, φ sources and pending writes are nearly always
//! short, so they live in `smallvec` storage that spills to the allocator only when long.

use vstd::prelude::*;
use smallvec::SmallVec;
use crate::ids::{BlockId, ValId};
use crate::value::Val128;

verus! {

/// The operand list of an SSA node, in order.
#[verifier::external_body]
pub struct Operands {
    items: SmallVec<[ValId; 3]>,
}

/// The operands that an operand list holds, in order.
pub uninterp spec fn operand_items(v: Operands) -> Seq<ValId>;

impl View for Operands {
    type V = Seq<ValId>;

    open spec fn view(&self) -> Seq<ValId> {
        operand_items(*self)
    }
}

impl Operands {
    /// `SmallVec::new`: an empty list.
    #[verifier::external_body]
    pub(crate) fn empty() -> (v: Operands)
        ensures
            operand_items(v) == Seq::<ValId>::empty(),
    {
        Operands { items: SmallVec::new() }
    }

    /// `SmallVec::push`: appends one operand.
    #[verifier::external_body]
    pub(crate) fn append(&mut self, id: ValId)
        ensures
            operand_items(*final(self)) == operand_items(*old(self)).push(id),
    {
        self.items.push(id);
    }

    /// `SmallVec::len`: the number of operands.
    #[verifier::external_body]
    fn count(&self) -> (n: usize)
        ensures
            n == operand_items(*self).len(),
    {
        self.items.len()
    }

    /// Indexing (`SmallVec` dereferences to a slice): the operand at a position in range.
    #[verifier::external_body]
    pub(crate) fn item(&self, i: usize) -> (id: ValId)
        requires
            i < operand_items(*self).len(),
        ensures
            id == operand_items(*self)[i as int],
    {
        self.items[i]
    }

    /// The operands of `ids`, in order.
    pub fn from_slice(ids: &[ValId]) -> (v: Operands)
        ensures
            v@ == ids@,
    {
        let mut v = Operands::empty();
        let mut i: usize = 0;
        while i < ids.len()
            invariant
                i <= ids@.len(),
                v@ == ids@.take(i as int),
            decreases ids@.len() - i,
        {
            v.append(ids[i]);
            i += 1;
            assert(ids@.take(i as int) =~= ids@.take(i - 1).push(ids@[i - 1]));
        }
        assert(ids@.take(ids@.len() as int) =~= ids@);
        v
    }

    /// Number of operands.
    pub fn len(&self) -> (n: usize)
        ensures
            n == self@.len(),
    {
        self.count()
    }

    /// The operand at position `i`, if there is one.
    pub fn get(&self, i: usize) -> (r: Option<ValId>)
        ensures
            r == (if i < self@.len() { Some(self@[i as int]) } else { None::<ValId> }),
    {
        if i < self.count() {
            Some(self.item(i))
        } else {
            None
        }
    }
}

/// The sources of a φ: one value per predecessor block.
#[verifier::external_body]
pub struct PhiSources {
    items: SmallVec<[(BlockId, ValId); 2]>,
}

/// The sources that a φ holds, in order.
pub uninterp spec fn phi_items(v: PhiSources) -> Seq<(BlockId, ValId)>;

impl View for PhiSources {
    type V = Seq<(BlockId, ValId)>;

    open spec fn view(&self) -> Seq<(BlockId, ValId)> {
        phi_items(*self)
    }
}

impl PhiSources {
    /// `SmallVec::new`: no sources.
    #[verifier::external_body]
    pub(crate) fn empty() -> (v: PhiSources)
        ensures
            phi_items(v) == Seq::<(BlockId, ValId)>::empty(),
    {
        PhiSources { items: SmallVec::new() }
    }

    /// `SmallVec::push`: appends one source.
    #[verifier::external_body]
    pub(crate) fn append(&mut self, pred: BlockId, id: ValId)
        ensures
            phi_items(*final(self)) == phi_items(*old(self)).push((pred, id)),
    {
        self.items.push((pred, id));
    }

    /// `SmallVec::len`: the number of sources.
    #[verifier::external_body]
    fn count(&self) -> (n: usize)
        ensures
            n == phi_items(*self).len(),
    {
        self.items.len()
    }

    /// Indexing (`SmallVec` dereferences to a slice): the source at a position in range.
    #[verifier::external_body]
    fn item(&self, i: usize) -> (s: (BlockId, ValId))
        requires
            i < phi_items(*self).len(),
        ensures
            s == phi_items(*self)[i as int],
    {
        self.items[i]
    }

    /// Number of sources.
    pub fn len(&self) -> (n: usize)
        ensures
            n == self@.len(),
    {
        self.count()
    }

    /// The source at position `i`, if there is one.
    pub fn get(&self, i: usize) -> (r: Option<(BlockId, ValId)>)
        ensures
            r == (if i < self@.len() { Some(self@[i as int]) } else { None::<(BlockId, ValId)> }),
    {
        if i < self.count() {
            Some(self.item(i))
        } else {
            None
        }
    }
}

/// Slot writes in program order.
#[verifier::external_body]
pub struct PendingWrites {
    items: SmallVec<[(u16, Val128); 8]>,
}

/// The writes that a list of slot writes holds, oldest first.
pub uninterp spec fn write_items(v: PendingWrites) -> Seq<(u16, Val128)>;

impl View for PendingWrites {
    type V = Seq<(u16, Val128)>;

    open spec fn view(&self) -> Seq<(u16, Val128)> {
        write_items(*self)
    }
}

impl PendingWrites {
    /// `SmallVec::new`: no writes.
    #[verifier::external_body]
    pub(crate) fn empty() -> (v: PendingWrites)
        ensures
            write_items(v) == Seq::<(u16, Val128)>::empty(),
    {
        PendingWrites { items: SmallVec::new() }
    }

    /// `SmallVec::push`: appends one write.
    #[verifier::external_body]
    pub(crate) fn append(&mut self, slot: u16, v: Val128)
        ensures
            write_items(*final(self)) == write_items(*old(self)).push((slot, v)),
    {
        self.items.push((slot, v));
    }

    /// `SmallVec::clear`: drops every write.
    #[verifier::external_body]
    pub(crate) fn wipe(&mut self)
        ensures
            write_items(*final(self)) == Seq::<(u16, Val128)>::empty(),
    {
        self.items.clear();
    }

    /// `SmallVec::len`: the number of writes.
    #[verifier::external_body]
    pub(crate) fn count(&self) -> (n: usize)
        ensures
            n == write_items(*self).len(),
    {
        self.items.len()
    }

    /// Indexing (`SmallVec` dereferences to a slice): the write at a position in range.
    #[verifier::external_body]
    pub(crate) fn item(&self, i: usize) -> (w: (u16, Val128))
        requires
            i < write_items(*self).len(),
        ensures
            w == write_items(*self)[i as int],
    {
        self.items[i]
    }
}

/// A short list of values: call arguments, or the inputs of a node.
#[verifier::external_body]
pub struct ValueList {
    items: SmallVec<[Val128; 4]>,
}

/// The values that a value list holds, in order.
pub uninterp spec fn value_items(v: ValueList) -> Seq<Val128>;

impl View for ValueList {
    type V = Seq<Val128>;

    open spec fn view(&self) -> Seq<Val128> {
        value_items(*self)
    }
}

impl ValueList {
    /// `SmallVec::new`: no values.
    #[verifier::external_body]
    pub(crate) fn empty() -> (v: ValueList)
        ensures
            value_items(v) == Seq::<Val128>::empty(),
    {
        ValueList { items: SmallVec::new() }
    }

    /// `SmallVec::push`: appends one value.
    #[verifier::external_body]
    pub(crate) fn append(&mut self, v: Val128)
        ensures
            value_items(*final(self)) == value_items(*old(self)).push(v),
    {
        self.items.push(v);
    }

    /// `SmallVec::as_slice`: the values as a slice.
    #[verifier::external_body]
    pub(crate) fn as_slice(&self) -> (s: &[Val128])
        ensures
            s@ == value_items(*self),
    {
        self.items.as_slice()
    }
}

} // verus!
