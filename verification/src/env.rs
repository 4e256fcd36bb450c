//! Execution environment: per-scope slot storage with the copy-on-write diff that speculation is
//! built on.
//!
//! Writes do not mutate the landed state directly: they accumulate in a pending diff in program
//! order, and `land` applies them. Reads consult the pending diff first (newest write wins) and
//! fall back to the landed base. A slot is a strong reference, so writes also record the
//! reference-count deltas they cause; those are metadata, drained when the chain lands.

use vstd::prelude::*;
use crate::diff::EnvSnapshot;
use crate::ids::{RefIndex, SlotId};
use crate::inline::PendingWrites;
use crate::value::{Tag, Val128};

verus! {

/// Maximum simultaneous variables per scope.
pub const MAX_SLOTS: usize = 1024;

/// Logical Java frame identity, maintained independently of execution order.
#[derive(Clone, Copy, PartialEq, Eq, Debug, Structural)]
pub struct LogicalFrame(pub u32);

/// A single scope's slot storage plus its unlanded diff.
pub struct Env {
    slots: Vec<Val128>,
    pending: PendingWrites,
    deltas: Vec<(RefIndex, i32)>,
    frame: LogicalFrame,
}

/// What an environment holds.
#[verifier::ext_equal]
pub struct EnvView {
    /// Landed state: everything whose program order has already passed.
    pub slots: Seq<Val128>,
    /// Unlanded writes, in program order.
    pub pending: Seq<(u16, Val128)>,
    /// Reference-count deltas of the unlanded chain, in program order.
    pub deltas: Seq<(RefIndex, i32)>,
    pub frame: LogicalFrame,
}

/// Every write names one of `n` slots.
pub open spec fn writes_fit(writes: Seq<(u16, Val128)>, n: nat) -> bool {
    forall|i: int| 0 <= i < writes.len() ==> (#[trigger] writes[i]).0 < n
}

/// `slots` after the writes, applied oldest first.
pub open spec fn landed(slots: Seq<Val128>, writes: Seq<(u16, Val128)>) -> Seq<Val128>
    decreases writes.len(),
{
    if writes.len() == 0 {
        slots
    } else {
        landed(slots, writes.drop_last()).update(writes.last().0 as int, writes.last().1)
    }
}

/// The delta that naming `v` in one more (`by == 1`) or one fewer (`by == -1`) slot causes: only
/// shared references are counted.
pub open spec fn slot_delta(v: Val128, by: i32) -> Seq<(RefIndex, i32)> {
    if v.tag() is Ptr {
        seq![(v.ref_index(), by)]
    } else {
        Seq::empty()
    }
}

impl EnvView {
    /// A fresh environment.
    pub open spec fn fresh(n_slots: nat, frame: LogicalFrame) -> EnvView {
        EnvView {
            slots: Seq::new(n_slots, |i: int| Val128::null()),
            pending: Seq::empty(),
            deltas: Seq::empty(),
            frame,
        }
    }

    /// Every pending write names a slot of this scope.
    pub open spec fn wf(self) -> bool {
        writes_fit(self.pending, self.slots.len())
    }

    /// The slot values this chain sees: the landed state with its own writes applied.
    pub open spec fn visible(self) -> Seq<Val128> {
        landed(self.slots, self.pending)
    }

    /// With one more write pending.
    pub open spec fn written(self, s: SlotId, v: Val128) -> EnvView {
        EnvView {
            pending: self.pending.push((s.0, v)),
            deltas: self.deltas + slot_delta(v, 1) + slot_delta(self.visible()[s.0 as int], -1i32),
            ..self
        }
    }

    /// With one more reference-count delta recorded.
    pub open spec fn with_delta(self, r: RefIndex, by: i32) -> EnvView {
        EnvView { deltas: self.deltas.push((r, by)), ..self }
    }

    /// With the pending writes applied.
    pub open spec fn after_land(self) -> EnvView {
        EnvView { slots: self.visible(), pending: Seq::empty(), ..self }
    }

    /// With the unlanded chain dropped.
    pub open spec fn after_discard(self) -> EnvView {
        EnvView { pending: Seq::empty(), deltas: Seq::empty(), ..self }
    }
}

impl View for Env {
    type V = EnvView;

    closed spec fn view(&self) -> EnvView {
        EnvView {
            slots: self.slots@,
            pending: self.pending@,
            deltas: self.deltas@,
            frame: self.frame,
        }
    }
}

/// Landing keeps the number of slots.
pub proof fn lemma_landed_len(slots: Seq<Val128>, writes: Seq<(u16, Val128)>)
    requires
        writes_fit(writes, slots.len()),
    ensures
        landed(slots, writes).len() == slots.len(),
    decreases writes.len(),
{
    if writes.len() > 0 {
        assert(writes_fit(writes.drop_last(), slots.len()));
        assert(writes[writes.len() - 1].0 < slots.len());
        lemma_landed_len(slots, writes.drop_last());
    }
}

/// A slot that no write names is as it was.
pub proof fn lemma_landed_unwritten(slots: Seq<Val128>, writes: Seq<(u16, Val128)>, s: int)
    requires
        0 <= s < slots.len(),
        writes_fit(writes, slots.len()),
        forall|i: int| 0 <= i < writes.len() ==> (#[trigger] writes[i]).0 != s,
    ensures
        landed(slots, writes)[s] == slots[s],
    decreases writes.len(),
{
    if writes.len() > 0 {
        assert(writes[writes.len() - 1].0 != s && writes[writes.len() - 1].0 < slots.len());
        assert(writes_fit(writes.drop_last(), slots.len()));
        assert forall|i: int| 0 <= i < writes.len() - 1 implies (
        #[trigger] writes.drop_last()[i]).0 != s by {
            assert(writes[i].0 != s);
        }
        lemma_landed_unwritten(slots, writes.drop_last(), s);
        lemma_landed_len(slots, writes.drop_last());
    }
}

/// The newest write to a slot is what stands there after landing.
pub proof fn lemma_landed_newest(slots: Seq<Val128>, writes: Seq<(u16, Val128)>, k: int)
    requires
        0 <= k < writes.len(),
        writes_fit(writes, slots.len()),
        forall|i: int| k < i < writes.len() ==> (#[trigger] writes[i]).0 != writes[k].0,
    ensures
        landed(slots, writes)[writes[k].0 as int] == writes[k].1,
    decreases writes.len(),
{
    assert(writes[writes.len() - 1].0 < slots.len());
    assert(writes_fit(writes.drop_last(), slots.len()));
    lemma_landed_len(slots, writes.drop_last());
    if k < writes.len() - 1 {
        assert(writes[writes.len() - 1].0 != writes[k].0);
        lemma_landed_newest(slots, writes.drop_last(), k);
    }
}

impl Env {
    /// A fresh environment with `n_slots` slots initialised to `null`.
    pub fn new(n_slots: usize, frame: LogicalFrame) -> (e: Env)
        ensures
            e@ == EnvView::fresh(n_slots as nat, frame),
            e@.wf(),
    {
        let mut slots: Vec<Val128> = Vec::new();
        while slots.len() < n_slots
            invariant
                slots@.len() <= n_slots,
                forall|i: int| 0 <= i < slots@.len() ==> slots@[i] == Val128::null(),
            decreases n_slots - slots@.len(),
        {
            slots.push(Val128::null());
        }
        Env { slots, pending: PendingWrites::empty(), deltas: Vec::new(), frame }
    }

    /// Read a slot: the newest unlanded write in this chain's diff wins; otherwise the landed base
    /// is read.
    pub fn read_slot(&self, s: SlotId) -> (v: Val128)
        requires
            self@.wf(),
            s.0 < self@.slots.len(),
        ensures
            v == self@.visible()[s.0 as int],
    {
        let mut i: usize = self.pending.count();
        while i > 0
            invariant
                i <= self.pending@.len(),
                self@.wf(),
                s.0 < self.slots@.len(),
                forall|j: int| i <= j < self.pending@.len() ==> (#[trigger] self.pending@[j]).0
                    != s.0,
            decreases i,
        {
            i -= 1;
            let (slot, v) = self.pending.item(i);
            if slot == s.0 {
                proof {
                    lemma_landed_newest(self.slots@, self.pending@, i as int);
                }
                return v;
            }
        }
        proof {
            lemma_landed_unwritten(self.slots@, self.pending@, s.0 as int);
        }
        self.slots[s.index()]
    }

    /// Write a slot: the write is recorded in the pending diff in program order rather than
    /// mutating the landed state, and so are the reference-count deltas of the stored and of the
    /// overwritten reference.
    pub fn write_slot(&mut self, s: SlotId, v: Val128)
        requires
            old(self)@.wf(),
            s.0 < old(self)@.slots.len(),
        ensures
            final(self)@ == old(self)@.written(s, v),
            final(self)@.wf(),
    {
        let old_value = self.read_slot(s);
        if v.tag() == Tag::Ptr {
            self.deltas.push((v.ref_index(), 1));
        }
        if old_value.tag() == Tag::Ptr {
            self.deltas.push((old_value.ref_index(), -1));
        }
        self.pending.append(s.0, v);
    }

    /// Record a reference-count delta caused by something other than a slot write.
    pub fn record_ref_delta(&mut self, r: RefIndex, by: i32)
        ensures
            final(self)@ == old(self)@.with_delta(r, by),
    {
        self.deltas.push((r, by));
    }

    /// Move the recorded reference-count deltas into `out`, replacing what it held.
    pub fn drain_ref_deltas(&mut self, out: &mut Vec<(RefIndex, i32)>)
        ensures
            final(out)@ == old(self)@.deltas,
            final(self)@ == (EnvView { deltas: Seq::empty(), ..old(self)@ }),
    {
        out.clear();
        out.append(&mut self.deltas);
    }

    /// Land the pending diff into the base in program order.
    pub fn land(&mut self)
        requires
            old(self)@.wf(),
        ensures
            final(self)@ == old(self)@.after_land(),
            final(self)@.wf(),
            final(self)@.slots.len() == old(self)@.slots.len(),
    {
        let n: usize = self.pending.count();
        let mut i: usize = 0;
        while i < n
            invariant
                n == self.pending@.len(),
                i <= n,
                self@.wf(),
                self.slots@ == landed(old(self)@.slots, old(self)@.pending.take(i as int)),
                self.slots@.len() == old(self)@.slots.len(),
                self@ == (EnvView { slots: self.slots@, ..old(self)@ }),
            decreases n - i,
        {
            let (slot, v) = self.pending.item(i);
            proof {
                assert(self@.pending[i as int].0 < self@.slots.len());
                let w = old(self)@.pending;
                assert(w.take(i + 1).drop_last() =~= w.take(i as int));
                assert(w.take(i + 1).last() == w[i as int]);
            }
            self.slots.set(slot as usize, v);
            i += 1;
        }
        proof {
            assert(old(self)@.pending.take(n as int) =~= old(self)@.pending);
        }
        self.pending.wipe();
    }

    /// Discard unlanded writes and the deltas they recorded. Landed state is never rolled back.
    pub fn discard_pending(&mut self)
        ensures
            final(self)@ == old(self)@.after_discard(),
            final(self)@.wf(),
    {
        self.pending.wipe();
        self.deltas.clear();
    }

    /// Number of unlanded writes.
    pub fn pending_len(&self) -> (n: usize)
        ensures
            n == self@.pending.len(),
    {
        self.pending.count()
    }

    /// A copy-on-write snapshot of the landed state, for forking a parallel chain.
    pub fn snapshot(&self) -> (s: EnvSnapshot)
        ensures
            s@ == self@.slots,
    {
        EnvSnapshot { slots: copy_values(&self.slots) }
    }

    /// The logical Java frame this scope belongs to.
    pub fn frame(&self) -> (f: LogicalFrame)
        ensures
            f == self@.frame,
    {
        self.frame
    }

    /// Number of slots.
    pub fn len(&self) -> (n: usize)
        ensures
            n == self@.slots.len(),
    {
        self.slots.len()
    }

    /// Whether there are no slots.
    pub fn is_empty(&self) -> (b: bool)
        ensures
            b == (self@.slots.len() == 0),
    {
        self.slots.len() == 0
    }
}

/// The same values again.
pub(crate) fn copy_values(vals: &Vec<Val128>) -> (r: Vec<Val128>)
    ensures
        r@ == vals@,
{
    let mut r: Vec<Val128> = Vec::new();
    while r.len() < vals.len()
        invariant
            r@.len() <= vals@.len(),
            r@ == vals@.take(r@.len() as int),
        decreases vals@.len() - r@.len(),
    {
        let i: usize = r.len();
        r.push(vals[i]);
        assert(vals@.take(i + 1) =~= vals@.take(i as int).push(vals@[i as int]));
    }
    assert(vals@.take(vals@.len() as int) =~= vals@);
    r
}

/// A read after a write to the same slot gives the written value; other slots read as before.
pub proof fn lemma_read_after_write(e: EnvView, s: SlotId, v: Val128, t: SlotId)
    requires
        e.wf(),
        s.0 < e.slots.len(),
        t.0 < e.slots.len(),
    ensures
        e.written(s, v).visible()[t.0 as int] == (if t == s {
            v
        } else {
            e.visible()[t.0 as int]
        }),
{
    lemma_landed_len(e.slots, e.pending);
    assert(e.written(s, v).pending.drop_last() =~= e.pending);
}

/// Landing changes nothing that the chain can see: writes are visible before and after.
pub proof fn lemma_landing_is_invisible(e: EnvView)
    requires
        e.wf(),
    ensures
        e.after_land().visible() == e.visible(),
        e.after_land().slots == e.visible(),
        e.after_land().slots.len() == e.slots.len(),
        e.after_land().pending.len() == 0,
        e.after_land().wf(),
{
    lemma_landed_len(e.slots, e.pending);
}

/// An unlanded write is hidden from snapshots: they hold the landed state only.
pub proof fn lemma_snapshots_hide_unlanded_writes(e: EnvView, s: SlotId, v: Val128)
    ensures
        e.written(s, v).slots == e.slots,
        e.after_discard().slots == e.slots,
        e.after_discard().visible() == e.slots,
{
}

/// Discarding drops exactly what was written since the last landing.
pub proof fn lemma_discard_restores_landed_state(e: EnvView, s: SlotId, v: Val128)
    requires
        e.wf(),
        s.0 < e.slots.len(),
    ensures
        e.after_land().written(s, v).after_discard().visible() == e.visible(),
{
}

/// The newest pending write to a slot wins, and stands there after landing.
pub proof fn lemma_newest_write_wins(e: EnvView, k: int)
    requires
        e.wf(),
        0 <= k < e.pending.len(),
        forall|i: int| k < i < e.pending.len() ==> (#[trigger] e.pending[i]).0 != e.pending[k].0,
    ensures
        e.visible()[e.pending[k].0 as int] == e.pending[k].1,
        e.after_land().slots[e.pending[k].0 as int] == e.pending[k].1,
{
    lemma_landed_newest(e.slots, e.pending, k);
}

/// A fresh scope sees nothing but `null`, as many times as it has slots.
pub proof fn lemma_fresh_scopes_are_empty(n: nat, frame: LogicalFrame, i: int)
    requires
        0 <= i < n,
    ensures
        EnvView::fresh(n, frame).visible().len() == n,
        EnvView::fresh(n, frame).visible()[i].tag() is Null,
        EnvView::fresh(n, frame).deltas.len() == 0,
        EnvView::fresh(n, frame).frame == frame,
{
    broadcast use crate::value::group_values;

}

} // verus!
