//! Speculative-execution units, escape state, and fork bookkeeping.
//!
//! The engine forks environments (copy-on-write), executes chains, and lands their diffs in program
//! order. Speculation is gated off: every chain runs concretely and lands in program order.

use vstd::prelude::*;
use crate::ids::{RefIndex, SlotId, VtId};
use crate::value::Val128;

verus! {

/// The escape state of a heap object. Promotion is monotonic S1 -> S2 -> S3, never demoted.
#[derive(Clone, Copy, PartialEq, Eq, Debug, Structural)]
pub enum EscapeState {
    /// Scope-exclusive: a handle, reclaimed with its scope.
    S1,
    /// Thread-local shared: non-atomic reference count.
    S2,
    /// Cross-thread shared: control block, atomics, lock.
    S3,
}

impl EscapeState {
    /// How far an object has escaped.
    pub open spec fn rank(self) -> int {
        match self {
            EscapeState::S1 => 0,
            EscapeState::S2 => 1,
            EscapeState::S3 => 2,
        }
    }

    /// The more general of two states.
    pub open spec fn promoted(self, to: EscapeState) -> EscapeState {
        if to.rank() > self.rank() {
            to
        } else {
            self
        }
    }

    fn level(self) -> (r: u8)
        ensures
            r == self.rank(),
    {
        match self {
            EscapeState::S1 => 0,
            EscapeState::S2 => 1,
            EscapeState::S3 => 2,
        }
    }

    /// Monotonic promotion: moves toward the more general state; never demotes.
    pub fn promote(&mut self, to: EscapeState)
        ensures
            *final(self) == old(self).promoted(to),
    {
        if to.level() > self.level() {
            *self = to;
        }
    }
}

/// Promotion never demotes, reaches at least the requested state, and repeating it changes nothing.
pub proof fn lemma_promotion_is_monotonic(from: EscapeState, to: EscapeState)
    ensures
        from.promoted(to).rank() >= from.rank(),
        from.promoted(to).rank() >= to.rank(),
        from.promoted(to) == from || from.promoted(to) == to,
        from.promoted(to).promoted(to) == from.promoted(to),
        from.promoted(to) == to.promoted(from),
{
}

/// A copy-on-write snapshot of environment slots a diff chain executes against.
#[derive(Clone, Debug)]
pub struct EnvSnapshot {
    pub slots: Vec<Val128>,
}

impl View for EnvSnapshot {
    type V = Seq<Val128>;

    open spec fn view(&self) -> Seq<Val128> {
        self.slots@
    }
}

impl Default for EnvSnapshot {
    fn default() -> (s: EnvSnapshot)
        ensures
            s@ == Seq::<Val128>::empty(),
    {
        EnvSnapshot { slots: Vec::new() }
    }
}

/// Identifies one instance field of one object: the granularity at which chains genuinely conflict.
pub type FieldKey = (RefIndex, u16);

/// A speculative execution unit over an environment snapshot.
pub struct DiffNode {
    /// Owning virtual thread; trees of different threads never merge.
    pub tid: VtId,
    /// Inherits the predecessor's result.
    pub init: EnvSnapshot,
    /// Slot writes produced by this node, applied at program-order landing.
    pub diff: Vec<(SlotId, Val128)>,
    /// Speculative assumptions; empty while speculation is gated off.
    pub deps: Vec<(SlotId, Val128)>,
    /// Heap fields this chain wrote: a genuine data dependency.
    pub field_writes: Vec<FieldKey>,
    /// Heap fields this chain read: conflicts with another chain's write.
    pub field_reads: Vec<FieldKey>,
    /// Reference-count adjustments: metadata, not a data dependency.
    pub rc_deltas: Vec<(RefIndex, i32)>,
    /// Program-order landing key.
    pub po: u32,
}

/// What a diff node records.
#[verifier::ext_equal]
pub struct DiffView {
    pub tid: VtId,
    pub init: Seq<Val128>,
    pub diff: Seq<(SlotId, Val128)>,
    pub deps: Seq<(SlotId, Val128)>,
    pub field_writes: Seq<FieldKey>,
    pub field_reads: Seq<FieldKey>,
    pub rc_deltas: Seq<(RefIndex, i32)>,
    pub po: u32,
}

impl View for DiffNode {
    type V = DiffView;

    open spec fn view(&self) -> DiffView {
        DiffView {
            tid: self.tid,
            init: self.init@,
            diff: self.diff@,
            deps: self.deps@,
            field_writes: self.field_writes@,
            field_reads: self.field_reads@,
            rc_deltas: self.rc_deltas@,
            po: self.po,
        }
    }
}

impl DiffView {
    /// A chain that has recorded nothing yet.
    pub open spec fn fresh(tid: VtId, init: Seq<Val128>, po: u32) -> DiffView {
        DiffView {
            tid,
            init,
            diff: Seq::empty(),
            deps: Seq::empty(),
            field_writes: Seq::empty(),
            field_reads: Seq::empty(),
            rc_deltas: Seq::empty(),
            po,
        }
    }

    /// Whether two chains have a genuine data conflict: they belong to one thread, and one writes
    /// a field that the other writes or reads.
    pub open spec fn conflicts(self, other: DiffView) -> bool {
        &&& self.tid == other.tid
        &&& {
            ||| overlap(self.field_writes, other.field_writes)
            ||| overlap(self.field_writes, other.field_reads)
            ||| overlap(other.field_writes, self.field_reads)
        }
    }
}

/// Whether some field occurs in both lists.
pub open spec fn overlap(a: Seq<FieldKey>, b: Seq<FieldKey>) -> bool {
    exists|i: int, j: int| 0 <= i < a.len() && 0 <= j < b.len() && #[trigger] a[i] == #[trigger] b[j]
}

impl Default for DiffNode {
    fn default() -> (n: DiffNode)
        ensures
            n@ == DiffView::fresh(VtId(0), Seq::empty(), 0),
    {
        DiffNode::new(VtId(0), EnvSnapshot::default(), 0)
    }
}

impl DiffNode {
    /// A chain owned by `tid`, inheriting `init`, landing at program-order key `po`.
    pub fn new(tid: VtId, init: EnvSnapshot, po: u32) -> (n: DiffNode)
        ensures
            n@ == DiffView::fresh(tid, init@, po),
    {
        DiffNode {
            tid,
            init,
            diff: Vec::new(),
            deps: Vec::new(),
            field_writes: Vec::new(),
            field_reads: Vec::new(),
            rc_deltas: Vec::new(),
            po,
        }
    }

    /// Record a heap-field read (a dependency).
    pub fn record_field_read(&mut self, obj: RefIndex, field: u16)
        ensures
            final(self)@ == (DiffView {
                field_reads: old(self)@.field_reads.push((obj, field)),
                ..old(self)@
            }),
    {
        self.field_reads.push((obj, field));
    }

    /// Record a heap-field write (a dependency).
    pub fn record_field_write(&mut self, obj: RefIndex, field: u16)
        ensures
            final(self)@ == (DiffView {
                field_writes: old(self)@.field_writes.push((obj, field)),
                ..old(self)@
            }),
    {
        self.field_writes.push((obj, field));
    }

    /// Record a reference-count adjustment: metadata only, applied in program order at landing.
    pub fn record_rc_delta(&mut self, obj: RefIndex, delta: i32)
        ensures
            final(self)@ == (DiffView {
                rc_deltas: old(self)@.rc_deltas.push((obj, delta)),
                ..old(self)@
            }),
    {
        self.rc_deltas.push((obj, delta));
    }
}

/// Whether some field occurs in both lists.
fn hits(a: &Vec<FieldKey>, b: &Vec<FieldKey>) -> (r: bool)
    ensures
        r == overlap(a@, b@),
{
    let mut i: usize = 0;
    while i < a.len()
        invariant
            i <= a@.len(),
            forall|x: int, y: int|
                0 <= x < i && 0 <= y < b@.len() ==> #[trigger] a@[x] != #[trigger] b@[y],
        decreases a@.len() - i,
    {
        let mut j: usize = 0;
        while j < b.len()
            invariant
                i < a@.len(),
                j <= b@.len(),
                forall|y: int| 0 <= y < j ==> a@[i as int] != #[trigger] b@[y],
            decreases b@.len() - j,
        {
            if a[i].0 == b[j].0 && a[i].1 == b[j].1 {
                assert(a@[i as int] == b@[j as int]);
                return true;
            }
            j += 1;
        }
        i += 1;
    }
    false
}

/// Whether two chains have a genuine data conflict and must therefore merge into one serial chain.
///
/// Conflicts are write/write or write/read on the same `(object, field)`. Reference-count
/// adjustments are deliberately excluded, and chains of different threads never merge.
pub fn chains_conflict(a: &DiffNode, b: &DiffNode) -> (r: bool)
    ensures
        r == a@.conflicts(b@),
{
    if a.tid != b.tid {
        return false;
    }
    hits(&a.field_writes, &b.field_writes) || hits(&a.field_writes, &b.field_reads) || hits(
        &b.field_writes,
        &a.field_reads,
    )
}

/// Conflict is symmetric.
pub proof fn lemma_conflict_is_symmetric(a: DiffView, b: DiffView)
    ensures
        a.conflicts(b) == b.conflicts(a),
{
    assert(overlap(a.field_writes, b.field_writes) ==> overlap(b.field_writes, a.field_writes));
    assert(overlap(b.field_writes, a.field_writes) ==> overlap(a.field_writes, b.field_writes));
}

/// Reference-count deltas never decide whether chains conflict, whatever they are; nor do the
/// inherited snapshot, slot writes, assumptions or landing keys.
pub proof fn lemma_conflict_ignores_metadata(a: DiffView, b: DiffView, c: DiffView, d: DiffView)
    requires
        a.tid == c.tid && a.field_writes == c.field_writes && a.field_reads == c.field_reads,
        b.tid == d.tid && b.field_writes == d.field_writes && b.field_reads == d.field_reads,
    ensures
        a.conflicts(b) == c.conflicts(d),
{
}

/// Chains of different threads never merge.
pub proof fn lemma_threads_never_merge(a: DiffView, b: DiffView)
    requires
        a.tid != b.tid,
    ensures
        !a.conflicts(b),
{
}

/// Chains that touch no common field stay parallel.
pub proof fn lemma_disjoint_chains_stay_parallel(a: DiffView, b: DiffView)
    requires
        forall|k: FieldKey| a.field_writes.contains(k) ==> !b.field_writes.contains(k),
        forall|k: FieldKey| a.field_writes.contains(k) ==> !b.field_reads.contains(k),
        forall|k: FieldKey| b.field_writes.contains(k) ==> !a.field_reads.contains(k),
    ensures
        !a.conflicts(b),
{
    assert forall|i: int, j: int|
        0 <= i < a.field_writes.len() && 0 <= j < b.field_writes.len() implies
        #[trigger] a.field_writes[i] != #[trigger] b.field_writes[j] by {
        assert(a.field_writes.contains(a.field_writes[i]));
        assert(b.field_writes.contains(b.field_writes[j]));
    }
    assert forall|i: int, j: int|
        0 <= i < a.field_writes.len() && 0 <= j < b.field_reads.len() implies
        #[trigger] a.field_writes[i] != #[trigger] b.field_reads[j] by {
        assert(a.field_writes.contains(a.field_writes[i]));
        assert(b.field_reads.contains(b.field_reads[j]));
    }
    assert forall|i: int, j: int|
        0 <= i < b.field_writes.len() && 0 <= j < a.field_reads.len() implies
        #[trigger] b.field_writes[i] != #[trigger] a.field_reads[j] by {
        assert(b.field_writes.contains(b.field_writes[i]));
        assert(a.field_reads.contains(a.field_reads[j]));
    }
}

/// Live forked environment snapshots. A collector must scan these as roots, or an object reachable
/// only from an in-flight speculative chain could be reclaimed.
pub struct ForkRegistry {
    live: Vec<(u64, EnvSnapshot)>,
    next: u64,
}

/// The live forks, oldest first, with the id that the next one gets.
#[verifier::ext_equal]
pub struct ForkView {
    pub live: Seq<(u64, Seq<Val128>)>,
    pub next: u64,
}

pub open spec fn fork_entries(live: Seq<(u64, EnvSnapshot)>) -> Seq<(u64, Seq<Val128>)> {
    Seq::new(live.len(), |i: int| (live[i].0, live[i].1@))
}

impl View for ForkRegistry {
    type V = ForkView;

    closed spec fn view(&self) -> ForkView {
        ForkView { live: fork_entries(self.live@), next: self.next }
    }
}

impl ForkView {
    /// Every live fork got its id before the next one will: no id is in use twice.
    pub open spec fn wf(self) -> bool {
        &&& forall|i: int| 0 <= i < self.live.len() ==> (#[trigger] self.live[i]).0 < self.next
        &&& forall|i: int, j: int|
            0 <= i < j < self.live.len() ==> (#[trigger] self.live[i]).0 < (#[trigger] self.live[j]).0
    }

    /// With one more live fork.
    pub open spec fn registered(self, snap: Seq<Val128>) -> ForkView {
        ForkView { live: self.live.push((self.next, snap)), next: (self.next + 1) as u64 }
    }

    /// Without the fork of that id.
    pub open spec fn released(self, id: u64) -> ForkView {
        ForkView { live: without(self.live, id), ..self }
    }
}

/// The entries whose id is not `id`, in order.
pub open spec fn without(live: Seq<(u64, Seq<Val128>)>, id: u64) -> Seq<(u64, Seq<Val128>)>
    decreases live.len(),
{
    if live.len() == 0 {
        live
    } else if live.last().0 == id {
        without(live.drop_last(), id)
    } else {
        without(live.drop_last(), id).push(live.last())
    }
}

/// The references among `slots`, in order.
pub open spec fn slot_refs(slots: Seq<Val128>) -> Seq<RefIndex>
    decreases slots.len(),
{
    if slots.len() == 0 {
        Seq::empty()
    } else if slots.last().tag().is_ref() {
        slot_refs(slots.drop_last()).push(slots.last().ref_index())
    } else {
        slot_refs(slots.drop_last())
    }
}

/// The references of every live fork, fork by fork.
pub open spec fn fork_refs(live: Seq<(u64, Seq<Val128>)>) -> Seq<RefIndex>
    decreases live.len(),
{
    if live.len() == 0 {
        Seq::empty()
    } else {
        fork_refs(live.drop_last()) + slot_refs(live.last().1)
    }
}

proof fn lemma_without_removed(live: Seq<(u64, Seq<Val128>)>, id: u64, i: int)
    requires
        0 <= i < live.len(),
        live[i].0 == id,
    ensures
        without(live.remove(i), id) == without(live, id),
    decreases live.len(),
{
    if i == live.len() - 1 {
        assert(live.remove(i) =~= live.drop_last());
    } else {
        lemma_without_removed(live.drop_last(), id, i);
        assert(live.remove(i).drop_last() =~= live.drop_last().remove(i));
        assert(live.remove(i).last() == live.last());
    }
}

proof fn lemma_without_absent(live: Seq<(u64, Seq<Val128>)>, id: u64)
    requires
        forall|i: int| 0 <= i < live.len() ==> (#[trigger] live[i]).0 != id,
    ensures
        without(live, id) == live,
    decreases live.len(),
{
    if live.len() > 0 {
        lemma_without_absent(live.drop_last(), id);
        assert(live.drop_last().push(live.last()) =~= live);
    }
}

impl Default for ForkRegistry {
    fn default() -> (r: ForkRegistry)
        ensures
            r@ == (ForkView { live: Seq::empty(), next: 0 }),
            r@.wf(),
    {
        ForkRegistry::new()
    }
}

impl ForkRegistry {
    /// An empty registry.
    pub fn new() -> (r: ForkRegistry)
        ensures
            r@ == (ForkView { live: Seq::empty(), next: 0 }),
            r@.wf(),
    {
        ForkRegistry { live: Vec::new(), next: 0 }
    }

    /// Register a live fork snapshot; the returned id releases it.
    pub fn register(&mut self, snap: EnvSnapshot) -> (id: u64)
        requires
            old(self)@.next < u64::MAX,
        ensures
            id == old(self)@.next,
            final(self)@ == old(self)@.registered(snap@),
            old(self)@.wf() ==> final(self)@.wf(),
    {
        let id: u64 = self.next;
        self.next = self.next + 1;
        self.live.push((id, snap));
        id
    }

    /// Release a snapshot once its chain has landed or been discarded.
    pub fn release(&mut self, id: u64)
        ensures
            final(self)@ == old(self)@.released(id),
            old(self)@.wf() ==> final(self)@.wf(),
    {
        let mut i: usize = 0;
        while i < self.live.len()
            invariant
                i <= self.live@.len(),
                self.next == old(self)@.next,
                forall|j: int| 0 <= j < i ==> (#[trigger] self.live@[j]).0 != id,
                without(self@.live, id) == without(old(self)@.live, id),
            decreases self.live@.len() - i,
        {
            if self.live[i].0 == id {
                proof {
                    lemma_without_removed(self@.live, id, i as int);
                    assert(fork_entries(self.live@.remove(i as int)) =~= self@.live.remove(
                        i as int,
                    ));
                }
                self.live.remove(i);
            } else {
                i += 1;
            }
        }
        proof {
            assert forall|j: int| 0 <= j < self@.live.len() implies (#[trigger] self@.live[j]).0
                != id by {
                assert(self.live@[j].0 != id);
            }
            lemma_without_absent(self@.live, id);
            if old(self)@.wf() {
                lemma_without_keeps_order(old(self)@, id);
            }
        }
    }

    /// Every reference held by a live fork snapshot.
    pub fn roots(&self) -> (r: Vec<RefIndex>)
        ensures
            r@ == fork_refs(self@.live),
    {
        let mut out: Vec<RefIndex> = Vec::new();
        let mut i: usize = 0;
        while i < self.live.len()
            invariant
                i <= self.live@.len(),
                out@ == fork_refs(self@.live.take(i as int)),
            decreases self.live@.len() - i,
        {
            let slots = &self.live[i].1.slots;
            let mut j: usize = 0;
            while j < slots.len()
                invariant
                    i < self.live@.len(),
                    slots@ == self.live@[i as int].1@,
                    j <= slots@.len(),
                    out@ == fork_refs(self@.live.take(i as int)) + slot_refs(
                        slots@.take(j as int),
                    ),
                decreases slots@.len() - j,
            {
                proof {
                    assert(slots@.take(j + 1).drop_last() =~= slots@.take(j as int));
                    assert(slots@.take(j + 1).last() == slots@[j as int]);
                }
                if slots[j].tag().is_ref() {
                    out.push(slots[j].ref_index());
                }
                j += 1;
            }
            proof {
                assert(slots@.take(slots@.len() as int) =~= slots@);
                assert(self@.live.take(i + 1).drop_last() =~= self@.live.take(i as int));
                assert(self@.live.take(i + 1).last() == self@.live[i as int]);
            }
            i += 1;
        }
        proof {
            assert(self@.live.take(self@.live.len() as int) =~= self@.live);
        }
        out
    }

    /// Number of live forks.
    pub fn live_count(&self) -> (n: usize)
        ensures
            n == self@.live.len(),
    {
        self.live.len()
    }
}

/// Every reference in a live snapshot is a root, and every root is in a live snapshot.
pub proof fn lemma_roots_are_exactly_the_live_references(
    live: Seq<(u64, Seq<Val128>)>,
    r: RefIndex,
)
    ensures
        fork_refs(live).contains(r) <==> exists|i: int, j: int|
            0 <= i < live.len() && 0 <= j < live[i].1.len() && (#[trigger] live[i].1[j]).tag().is_ref()
                && live[i].1[j].ref_index() == r,
    decreases live.len(),
{
    if live.len() > 0 {
        let rest = live.drop_last();
        let last = live.last().1;
        lemma_roots_are_exactly_the_live_references(rest, r);
        lemma_slot_refs(last, r);
        let both = fork_refs(rest) + slot_refs(last);
        if fork_refs(rest).contains(r) {
            let k = fork_refs(rest).index_of(r);
            assert(both[k] == r);
            let (i, j) = choose|i: int, j: int|
                0 <= i < rest.len() && 0 <= j < rest[i].1.len()
                    && (#[trigger] rest[i].1[j]).tag().is_ref() && rest[i].1[j].ref_index() == r;
            assert(live[i].1[j].ref_index() == r);
        }
        if slot_refs(last).contains(r) {
            let k = slot_refs(last).index_of(r);
            assert(both[fork_refs(rest).len() + k] == r);
            let j = choose|j: int|
                0 <= j < last.len() && (#[trigger] last[j]).tag().is_ref() && last[j].ref_index()
                    == r;
            assert(live[live.len() - 1].1[j].ref_index() == r);
        }
        if both.contains(r) {
            let k = both.index_of(r);
            if k < fork_refs(rest).len() {
                assert(fork_refs(rest)[k] == r);
            } else {
                assert(slot_refs(last)[k - fork_refs(rest).len()] == r);
            }
        }
        assert forall|i: int, j: int|
            0 <= i < live.len() && 0 <= j < live[i].1.len()
                && (#[trigger] live[i].1[j]).tag().is_ref() && live[i].1[j].ref_index()
                == r implies fork_refs(live).contains(r) by {
            if i < rest.len() {
                assert(rest[i].1[j].ref_index() == r);
            } else {
                assert(last[j].ref_index() == r);
            }
        }
    }
}

proof fn lemma_slot_refs(slots: Seq<Val128>, r: RefIndex)
    ensures
        slot_refs(slots).contains(r) <==> exists|j: int|
            0 <= j < slots.len() && (#[trigger] slots[j]).tag().is_ref() && slots[j].ref_index()
                == r,
    decreases slots.len(),
{
    if slots.len() > 0 {
        let rest = slots.drop_last();
        lemma_slot_refs(rest, r);
        let tail = slot_refs(rest);
        if tail.contains(r) {
            let k = tail.index_of(r);
            assert(slot_refs(slots)[k] == r);
            let j = choose|j: int|
                0 <= j < rest.len() && (#[trigger] rest[j]).tag().is_ref() && rest[j].ref_index()
                    == r;
            assert(slots[j].ref_index() == r);
        }
        if slots.last().tag().is_ref() && slots.last().ref_index() == r {
            assert(slot_refs(slots)[tail.len() as int] == r);
            assert(slots[slots.len() - 1].ref_index() == r);
        }
        if slot_refs(slots).contains(r) {
            let k = slot_refs(slots).index_of(r);
            if k < tail.len() {
                assert(tail[k] == r);
            } else {
                assert(slots[slots.len() - 1].ref_index() == r);
            }
        }
        assert forall|j: int|
            0 <= j < slots.len() && (#[trigger] slots[j]).tag().is_ref() && slots[j].ref_index()
                == r implies slot_refs(slots).contains(r) by {
            if j < rest.len() {
                assert(rest[j].ref_index() == r);
            }
        }
    }
}

/// Releasing a fork right after registering it leaves the others as they were.
pub proof fn lemma_release_undoes_register(forks: ForkView, snap: Seq<Val128>)
    requires
        forks.wf(),
        forks.next < u64::MAX,
    ensures
        forks.registered(snap).released(forks.next).live == forks.live,
{
    assert(forks.live.push((forks.next, snap)).drop_last() =~= forks.live);
    lemma_without_absent(forks.live, forks.next);
}

proof fn lemma_without_keeps_order(forks: ForkView, id: u64)
    requires
        forks.wf(),
    ensures
        forks.released(id).wf(),
        forall|i: int|
            0 <= i < without(forks.live, id).len() ==> forks.live.contains(
                #[trigger] without(forks.live, id)[i],
            ),
    decreases forks.live.len(),
{
    if forks.live.len() > 0 {
        let rest = ForkView { live: forks.live.drop_last(), ..forks };
        lemma_without_keeps_order(rest, id);
        let kept = without(rest.live, id);
        assert forall|i: int| 0 <= i < without(forks.live, id).len() implies forks.live.contains(
            #[trigger] without(forks.live, id)[i],
        ) by {
            if i < kept.len() {
                let k = rest.live.index_of(kept[i]);
                assert(forks.live[k] == kept[i]);
            } else {
                assert(forks.live[forks.live.len() - 1] == forks.live.last());
            }
        }
        assert forall|i: int| 0 <= i < kept.len() implies (#[trigger] kept[i]).0
            < forks.live.last().0 by {
            let k = rest.live.index_of(kept[i]);
            assert(forks.live[k] == kept[i]);
            assert(forks.live[forks.live.len() - 1] == forks.live.last());
        }
        assert(forks.live[forks.live.len() - 1].0 < forks.next);
        assert(rest.released(id).live == kept);
    }
}

/// Chains of one thread conflict if one writes a field that the other writes or reads.
pub proof fn lemma_sharing_chains_conflict(a: DiffView, b: DiffView, k: FieldKey)
    requires
        a.tid == b.tid,
        a.field_writes.contains(k),
        b.field_writes.contains(k) || b.field_reads.contains(k),
    ensures
        a.conflicts(b),
        b.conflicts(a),
{
    let i = a.field_writes.index_of(k);
    assert(a.field_writes[i] == k);
    if b.field_writes.contains(k) {
        let j = b.field_writes.index_of(k);
        assert(b.field_writes[j] == a.field_writes[i]);
        assert(overlap(a.field_writes, b.field_writes));
    } else {
        let j = b.field_reads.index_of(k);
        assert(b.field_reads[j] == a.field_writes[i]);
        assert(overlap(a.field_writes, b.field_reads));
    }
    lemma_conflict_is_symmetric(a, b);
}

/// Objects are exclusive, then shared in a thread, then shared between threads; promotion only goes on
/// from one to the next.
pub proof fn lemma_promotion_goes_on(s: EscapeState)
    ensures
        EscapeState::S1.promoted(s) == s,
        s.promoted(EscapeState::S1) == s,
        EscapeState::S3.promoted(s) == EscapeState::S3,
        s.promoted(EscapeState::S3) == EscapeState::S3,
        EscapeState::S2.promoted(EscapeState::S2) == EscapeState::S2,
{
}

/// Releasing a fork takes away exactly it, and a fork has an id that no live one has.
pub proof fn lemma_releasing_takes_away_one(forks: ForkView, id: u64, snap: Seq<Val128>, i: int)
    requires
        forks.wf(),
    ensures
        ({
            let after = forks.released(id).live;
            &&& forall|k: int| 0 <= k < after.len() ==> (#[trigger] after[k]).0 != id
            &&& 0 <= i < forks.live.len() && forks.live[i].0 != id ==> after.contains(forks.live[i])
            &&& forall|k: int| 0 <= k < after.len() ==> forks.live.contains(#[trigger] after[k])
        }),
        forks.registered(snap).live.last() == (forks.next, snap),
        forall|k: int| 0 <= k < forks.live.len() ==> (#[trigger] forks.live[k]).0 != forks.next,
{
    lemma_without(forks.live, id, i);
}

proof fn lemma_without(live: Seq<(u64, Seq<Val128>)>, id: u64, i: int)
    ensures
        forall|k: int| 0 <= k < without(live, id).len() ==> (#[trigger] without(live, id)[k]).0 != id,
        0 <= i < live.len() && live[i].0 != id ==> without(live, id).contains(live[i]),
        forall|k: int|
            0 <= k < without(live, id).len() ==> live.contains(#[trigger] without(live, id)[k]),
    decreases live.len(),
{
    if live.len() > 0 {
        let rest = live.drop_last();
        lemma_without(rest, id, i);
        let (a, b) = (without(rest, id), without(live, id));
        assert(live[live.len() - 1] == live.last());
        if 0 <= i < live.len() && live[i].0 != id {
            if i < rest.len() {
                assert(rest[i] == live[i]);
                let k = a.index_of(live[i]);
                assert(b[k] == live[i]);
            } else {
                assert(b[b.len() - 1] == live[i]);
            }
        }
        assert forall|k: int| 0 <= k < b.len() implies live.contains(#[trigger] b[k]) && b[k].0 != id by {
            if k < a.len() {
                assert(b[k] == a[k]);
                assert(rest.contains(a[k]));
                let j = rest.index_of(a[k]);
                assert(live[j] == b[k]);
            }
        }
    }
}

} // verus!
