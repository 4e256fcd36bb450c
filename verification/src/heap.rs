//! The object heap: a lifecycle-managed store mapping [`RefIndex`] to object storage.
//!
//! Every object carries its escape state and a vector of 128-bit field values; guest code reaches
//! it only through the bounds-checked table. Allocation can fail; scope-exclusive objects are
//! reclaimed deterministically by [`Heap::free`], shared ones when their reference count reaches
//! zero. Counts wrap on overflow, and a count at or below zero means unreferenced.

use vstd::prelude::*;
use crate::diff::EscapeState;
use crate::ids::{ClassId, RefIndex, RegistryKey};
use crate::value::Val128;

verus! {

/// A heap object: its defining class, escape state, field slots, reference count (meaningful once
/// shared) and, for a string, its text.
#[derive(Debug, Clone)]
pub struct Object {
    pub class: ClassId,
    pub escape: EscapeState,
    pub fields: Vec<Val128>,
    /// Strong references naming this object; not kept for a scope-exclusive one.
    pub rc: i64,
    pub text: Option<String>,
}

/// What an object holds.
#[verifier::ext_equal]
pub struct ObjectView {
    pub class: ClassId,
    pub escape: EscapeState,
    pub fields: Seq<Val128>,
    pub rc: i64,
    pub text: Option<Seq<char>>,
}

impl View for Object {
    type V = ObjectView;

    open spec fn view(&self) -> ObjectView {
        ObjectView {
            class: self.class,
            escape: self.escape,
            fields: self.fields@,
            rc: self.rc,
            text: match self.text {
                Some(t) => Some(t@),
                None => None,
            },
        }
    }
}

/// The object heap: an indirection table from [`RefIndex`] to object storage, with a free list of
/// recyclable indices and a bound on the number of live objects.
pub struct Heap {
    slots: Vec<Option<Object>>,
    free: Vec<u64>,
    live: usize,
    limit: usize,
}

/// What a heap holds.
#[verifier::ext_equal]
pub struct HeapView {
    pub slots: Seq<Option<ObjectView>>,
    /// Indices freed and not yet reused; the last is reused first.
    pub free: Seq<u64>,
    pub limit: nat,
}

/// Number of live objects among `slots`.
pub open spec fn live_count(slots: Seq<Option<ObjectView>>) -> nat
    decreases slots.len(),
{
    if slots.len() == 0 {
        0
    } else {
        live_count(slots.drop_last()) + if slots.last() is Some {
            1nat
        } else {
            0nat
        }
    }
}

pub open spec fn slot_views(slots: Seq<Option<Object>>) -> Seq<Option<ObjectView>> {
    Seq::new(
        slots.len(),
        |i: int|
            match slots[i] {
                Some(o) => Some(o@),
                None => None,
            },
    )
}

impl View for Heap {
    type V = HeapView;

    closed spec fn view(&self) -> HeapView {
        HeapView { slots: slot_views(self.slots@), free: self.free@, limit: self.limit as nat }
    }
}

impl HeapView {
    /// An empty heap.
    pub open spec fn fresh(limit: nat) -> HeapView {
        HeapView { slots: Seq::empty(), free: Seq::empty(), limit }
    }

    /// Number of live objects.
    pub open spec fn live(self) -> nat {
        live_count(self.slots)
    }

    /// The free list names exactly the vacant slots, each once, and no more objects are live than
    /// the limit allows.
    pub open spec fn wf(self) -> bool {
        &&& self.slots.len() <= usize::MAX
        &&& self.live() <= self.limit <= usize::MAX
        &&& forall|k: int|
            0 <= k < self.free.len() ==> (#[trigger] self.free[k]) < self.slots.len()
                && self.slots[self.free[k] as int] is None
        &&& forall|j: int, k: int|
            0 <= j < k < self.free.len() ==> #[trigger] self.free[j] != #[trigger] self.free[k]
        &&& forall|i: int|
            0 <= i < self.slots.len() && (#[trigger] self.slots[i]) is None ==> self.free.contains(
                i as u64,
            )
    }

    /// The live object that a reference names, if any.
    pub open spec fn object(self, r: RefIndex) -> Option<ObjectView> {
        if r.position() < self.slots.len() {
            self.slots[r.position() as int]
        } else {
            None
        }
    }

    /// The heap with the object of a live reference replaced.
    pub open spec fn with_object(self, r: RefIndex, o: ObjectView) -> HeapView {
        HeapView { slots: self.slots.update(r.position() as int, Some(o)), ..self }
    }

    /// The reference that the next allocation returns, if it succeeds.
    pub open spec fn next_ref(self) -> RefIndex {
        if self.free.len() > 0 {
            RefIndex(self.free.last())
        } else {
            RefIndex(self.slots.len() as u64)
        }
    }

    /// The heap after a successful allocation.
    pub open spec fn allocated(
        self,
        class: ClassId,
        escape: EscapeState,
        fields: Seq<Val128>,
    ) -> HeapView {
        let o = ObjectView { class, escape, fields, rc: 0, text: None };
        if self.free.len() > 0 {
            HeapView {
                slots: self.slots.update(self.free.last() as int, Some(o)),
                free: self.free.drop_last(),
                ..self
            }
        } else {
            HeapView { slots: self.slots.push(Some(o)), ..self }
        }
    }

    /// The heap with the slot of a live reference vacated and its index recyclable.
    pub open spec fn vacated(self, r: RefIndex) -> HeapView {
        HeapView {
            slots: self.slots.update(r.position() as int, None),
            free: self.free.push(r.position() as u64),
            ..self
        }
    }

    /// Apply one reference-count delta. The second part says whether the object is now
    /// unreferenced: `None` if it is not live, `false` for a scope-exclusive object, whose count is
    /// never touched.
    pub open spec fn counted(self, r: RefIndex, delta: i64) -> (HeapView, Option<bool>) {
        match self.object(r) {
            None => (self, None),
            Some(o) => if o.escape is S1 {
                (self, Some(false))
            } else {
                let rc = o.rc.wrapping_add(delta);
                (self.with_object(r, ObjectView { rc, ..o }), Some(rc <= 0))
            },
        }
    }

    /// Release the references among `fields`, in order; the second part lists those whose objects
    /// became unreferenced.
    pub open spec fn fields_released(self, fields: Seq<Val128>) -> (HeapView, Seq<RefIndex>)
        decreases fields.len(),
    {
        if fields.len() == 0 {
            (self, Seq::empty())
        } else {
            let (h, dead) = self.fields_released(fields.drop_last());
            let v = fields.last();
            if v.tag().is_ref() {
                let (h2, unreferenced) = h.counted(v.ref_index(), -1i64);
                if unreferenced == Some(true) {
                    (h2, dead.push(v.ref_index()))
                } else {
                    (h2, dead)
                }
            } else {
                (h, dead)
            }
        }
    }

    /// Reclaim every object on the worklist (the last first), releasing what its fields held and
    /// following the objects that become unreferenced as a result.
    pub open spec fn reclaimed(self, work: Seq<RefIndex>) -> HeapView
        decreases self.live(), work.len(),
    {
        if work.len() == 0 {
            self
        } else {
            let cur = work.last();
            let rest = work.drop_last();
            match self.object(cur) {
                None => self.reclaimed(rest),
                Some(o) => {
                    let (h, dead) = self.vacated(cur).fields_released(o.fields);
                    proof {
                        lemma_vacated_live(self, cur);
                        lemma_fields_released_live(self.vacated(cur), o.fields);
                    }
                    h.reclaimed(rest + dead)
                },
            }
        }
    }

    /// Apply every delta, in order, reclaiming nothing yet.
    pub open spec fn all_counted(self, deltas: Seq<(RefIndex, i32)>) -> HeapView
        decreases deltas.len(),
    {
        if deltas.len() == 0 {
            self
        } else {
            self.all_counted(deltas.drop_last()).counted(
                deltas.last().0,
                deltas.last().1 as i64,
            ).0
        }
    }

    /// Reclaim, in order, whatever object of the batch is unreferenced.
    pub open spec fn swept(self, deltas: Seq<(RefIndex, i32)>) -> HeapView
        decreases deltas.len(),
    {
        if deltas.len() == 0 {
            self
        } else {
            let h = self.swept(deltas.drop_last());
            let (h2, unreferenced) = h.counted(deltas.last().0, 0);
            if unreferenced == Some(true) {
                h2.reclaimed(seq![deltas.last().0])
            } else {
                h2
            }
        }
    }

    /// The whole batch in order, and only when all of it has been applied, reclamation.
    pub open spec fn batch_applied(self, deltas: Seq<(RefIndex, i32)>) -> HeapView {
        self.all_counted(deltas).swept(deltas)
    }

    /// The heap after a single delta, with reclamation at zero.
    pub open spec fn delta_applied(self, r: RefIndex, delta: i64) -> HeapView {
        let (h, unreferenced) = self.counted(r, delta);
        if unreferenced == Some(true) {
            h.reclaimed(seq![r])
        } else {
            h
        }
    }

    /// The heap after a scope ends that owned the object exclusively.
    pub open spec fn freed(self, r: RefIndex) -> HeapView {
        match self.object(r) {
            Some(o) => if o.escape is S1 {
                self.reclaimed(seq![r])
            } else {
                self
            },
            None => self,
        }
    }

    /// The heap after a promotion.
    pub open spec fn after_promotion(self, r: RefIndex, to: EscapeState) -> HeapView {
        match self.object(r) {
            Some(o) => self.with_object(r, ObjectView { escape: o.escape.promoted(to), ..o }),
            None => self,
        }
    }

    /// The heap with field `i` of a live object replaced.
    pub open spec fn with_field(self, r: RefIndex, i: int, v: Val128) -> HeapView {
        match self.object(r) {
            Some(o) => self.with_object(r, ObjectView { fields: o.fields.update(i, v), ..o }),
            None => self,
        }
    }

    /// Whether field `i` of object `r` exists.
    pub open spec fn has_field(self, r: RefIndex, i: int) -> bool {
        self.object(r) is Some && 0 <= i < self.object(r)->0.fields.len()
    }
}

proof fn lemma_live_update(slots: Seq<Option<ObjectView>>, i: int, o: Option<ObjectView>)
    requires
        0 <= i < slots.len(),
    ensures
        live_count(slots.update(i, o)) == live_count(slots) - (if slots[i] is Some {
            1int
        } else {
            0int
        }) + (if o is Some {
            1int
        } else {
            0int
        }),
        slots[i] is Some ==> live_count(slots) > 0,
    decreases slots.len(),
{
    if i == slots.len() - 1 {
        assert(slots.update(i, o).drop_last() =~= slots.drop_last());
    } else {
        lemma_live_update(slots.drop_last(), i, o);
        assert(slots.update(i, o).drop_last() =~= slots.drop_last().update(i, o));
    }
}

proof fn lemma_live_bound(slots: Seq<Option<ObjectView>>)
    ensures
        live_count(slots) <= slots.len(),
    decreases slots.len(),
{
    if slots.len() > 0 {
        lemma_live_bound(slots.drop_last());
    }
}

/// Vacating a live slot makes one object fewer live.
pub proof fn lemma_vacated_live(h: HeapView, r: RefIndex)
    requires
        h.object(r) is Some,
    ensures
        h.vacated(r).live() == h.live() - 1,
        h.live() > 0,
{
    lemma_live_update(h.slots, r.position() as int, None);
}

proof fn lemma_counted_live(h: HeapView, r: RefIndex, delta: i64)
    ensures
        h.counted(r, delta).0.live() == h.live(),
{
    if h.object(r) is Some {
        let o = h.object(r)->0;
        lemma_live_update(
            h.slots,
            r.position() as int,
            Some(ObjectView { rc: o.rc.wrapping_add(delta), ..o }),
        );
    }
}

/// Releasing references reclaims nothing by itself.
pub proof fn lemma_fields_released_live(h: HeapView, fields: Seq<Val128>)
    ensures
        h.fields_released(fields).0.live() == h.live(),
    decreases fields.len(),
{
    if fields.len() > 0 {
        lemma_fields_released_live(h, fields.drop_last());
        lemma_counted_live(
            h.fields_released(fields.drop_last()).0,
            fields.last().ref_index(),
            -1i64,
        );
    }
}

/// Replacing a live object keeps a heap well-formed.
pub proof fn lemma_replaced_wf(h: HeapView, r: RefIndex, o: ObjectView)
    requires
        h.wf(),
        h.object(r) is Some,
    ensures
        h.with_object(r, o).wf(),
{
    lemma_live_update(h.slots, r.position() as int, Some(o));
    let h2 = h.with_object(r, o);
    assert forall|k: int| 0 <= k < h2.free.len() implies (#[trigger] h2.free[k]) < h2.slots.len()
        && h2.slots[h2.free[k] as int] is None by {
        assert(h.slots[h.free[k] as int] is None);
    }
    assert forall|i: int| 0 <= i < h2.slots.len() && (
    #[trigger] h2.slots[i]) is None implies h2.free.contains(i as u64) by {
        assert(h.slots[i] is None);
    }
}

pub proof fn lemma_counted_wf(h: HeapView, r: RefIndex, delta: i64)
    requires
        h.wf(),
    ensures
        h.counted(r, delta).0.wf(),
{
    if h.object(r) is Some {
        let o = h.object(r)->0;
        lemma_replaced_wf(h, r, ObjectView { rc: o.rc.wrapping_add(delta), ..o });
    }
}

proof fn lemma_vacated_wf(h: HeapView, r: RefIndex)
    requires
        h.wf(),
        h.object(r) is Some,
    ensures
        h.vacated(r).wf(),
{
    lemma_vacated_live(h, r);
    let h2 = h.vacated(r);
    let p = r.position();
    assert forall|k: int| 0 <= k < h2.free.len() implies (#[trigger] h2.free[k]) < h2.slots.len()
        && h2.slots[h2.free[k] as int] is None by {
        if k < h.free.len() {
            assert(h.slots[h.free[k] as int] is None);
        }
    }
    assert forall|j: int, k: int| 0 <= j < k < h2.free.len() implies #[trigger] h2.free[j]
        != #[trigger] h2.free[k] by {
        assert(h.slots[h.free[j] as int] is None);
    }
    assert forall|i: int| 0 <= i < h2.slots.len() && (
    #[trigger] h2.slots[i]) is None implies h2.free.contains(i as u64) by {
        if i == p {
            assert(h2.free[h2.free.len() - 1] == i as u64);
        } else {
            assert(h.slots[i] is None);
            let k = h.free.index_of(i as u64);
            assert(h2.free[k] == i as u64);
        }
    }
}

proof fn lemma_full_live(slots: Seq<Option<ObjectView>>)
    requires
        forall|i: int| 0 <= i < slots.len() ==> (#[trigger] slots[i]) is Some,
    ensures
        live_count(slots) == slots.len(),
    decreases slots.len(),
{
    if slots.len() > 0 {
        assert(slots[slots.len() - 1] is Some);
        assert forall|i: int| 0 <= i < slots.len() - 1 implies (
        #[trigger] slots.drop_last()[i]) is Some by {
            assert(slots.drop_last()[i] == slots[i]);
        }
        lemma_full_live(slots.drop_last());
    }
}

/// An allocation below the limit keeps a heap well-formed.
pub proof fn lemma_allocated_wf(
    h: HeapView,
    class: ClassId,
    escape: EscapeState,
    fields: Seq<Val128>,
)
    requires
        h.wf(),
        h.live() < h.limit,
    ensures
        h.allocated(class, escape, fields).wf(),
        h.allocated(class, escape, fields).live() == h.live() + 1,
{
    let o = ObjectView { class, escape, fields, rc: 0, text: None };
    let h2 = h.allocated(class, escape, fields);
    if h.free.len() > 0 {
        let p = h.free.last();
        assert(h.free[h.free.len() - 1] == p);
        lemma_live_update(h.slots, p as int, Some(o));
        assert forall|k: int| 0 <= k < h2.free.len() implies (#[trigger] h2.free[k])
            < h2.slots.len() && h2.slots[h2.free[k] as int] is None by {
            assert(h.free[k] != h.free[h.free.len() - 1]);
            assert(h.slots[h.free[k] as int] is None);
        }
        assert forall|i: int| 0 <= i < h2.slots.len() && (
        #[trigger] h2.slots[i]) is None implies h2.free.contains(i as u64) by {
            assert(h.slots[i] is None);
            let k = h.free.index_of(i as u64);
            assert(h2.free[k] == i as u64);
        }
    } else {
        assert(h2.slots.drop_last() =~= h.slots);
        assert forall|i: int| 0 <= i < h.slots.len() implies (#[trigger] h.slots[i]) is Some by {
            assert(!h.free.contains(i as u64));
        }
        lemma_full_live(h.slots);
        assert forall|i: int| 0 <= i < h2.slots.len() && (
        #[trigger] h2.slots[i]) is None implies h2.free.contains(i as u64) by {
            assert(h.slots[i] is None);
        }
    }
}

impl Heap {
    /// The heap's invariant.
    pub closed spec fn wf(&self) -> bool {
        &&& self@.wf()
        &&& self.live == self@.live()
    }

    /// A heap that can hold up to `limit` simultaneously live objects before allocation fails.
    pub fn with_limit(limit: usize) -> (h: Heap)
        ensures
            h.wf(),
            h@ == HeapView::fresh(limit as nat),
    {
        Heap { slots: Vec::new(), free: Vec::new(), live: 0, limit }
    }

    /// A heap with a generous default limit.
    pub fn new() -> (h: Heap)
        ensures
            h.wf(),
            h@ == HeapView::fresh(0x100_0000),
    {
        Heap::with_limit(0x100_0000)
    }

    /// A well-formed heap's view is well-formed, too.
    pub proof fn lemma_view_wf(&self)
        requires
            self.wf(),
        ensures
            self@.wf(),
    {
    }

    /// Allocate a fresh object with the given (type-appropriate zero) field values. Returns its
    /// [`RefIndex`], or `None` when the live-object limit is reached.
    pub fn allocate(&mut self, class: ClassId, escape: EscapeState, fields: Vec<Val128>) -> (r: Option<
        RefIndex,
    >)
        requires
            old(self).wf(),
        ensures
            final(self).wf(),
            r is None <==> old(self)@.live() >= old(self)@.limit,
            r is None ==> final(self)@ == old(self)@,
            r matches Some(idx) ==> idx == old(self)@.next_ref() && final(self)@ == old(
                self,
            )@.allocated(class, escape, fields@) && final(self)@.object(idx) == Some(
                ObjectView { class, escape, fields: fields@, rc: 0, text: None },
            ),
    {
        proof {
            lemma_live_bound(self@.slots);
        }
        if self.live >= self.limit {
            return None;
        }
        let ghost fv = fields@;
        let obj = Object { class, escape, fields, rc: 0, text: None };
        let idx: u64 = match self.free.pop() {
            Some(i) => {
                proof {
                    assert(old(self)@.free[old(self)@.free.len() - 1] == i);
                }
                self.slots.set(i as usize, Some(obj));
                i
            },
            None => {
                let i: u64 = self.slots.len() as u64;
                self.slots.push(Some(obj));
                i
            },
        };
        proof {
            assert(self.slots@.len() == self.slots.len());
            assert(self@ =~= old(self)@.allocated(class, escape, fv));
            lemma_allocated_wf(old(self)@, class, escape, fv);
        }
        self.live = self.live + 1;
        Some(RefIndex(idx))
    }

    /// Borrow an object.
    pub fn get(&self, r: RefIndex) -> (o: Option<&Object>)
        ensures
            o is Some <==> self@.object(r) is Some,
            o matches Some(obj) ==> self@.object(r) == Some(obj@),
    {
        let i: usize = r.index();
        if i < self.slots.len() {
            match &self.slots[i] {
                Some(o) => Some(o),
                None => None,
            }
        } else {
            None
        }
    }

    /// Read field `i` of object `r`.
    pub fn get_field(&self, r: RefIndex, i: usize) -> (v: Option<Val128>)
        ensures
            v is Some <==> self@.has_field(r, i as int),
            v matches Some(x) ==> x == self@.object(r)->0.fields[i as int],
    {
        match self.get(r) {
            Some(o) => if i < o.fields.len() {
                Some(o.fields[i])
            } else {
                None
            },
            None => None,
        }
    }

    /// Write field `i` of object `r`; returns `false` if the reference or index is invalid.
    pub fn set_field(&mut self, r: RefIndex, i: usize, v: Val128) -> (ok: bool)
        requires
            old(self).wf(),
        ensures
            final(self).wf(),
            ok == old(self)@.has_field(r, i as int),
            ok ==> final(self)@ == old(self)@.with_field(r, i as int, v),
            !ok ==> final(self)@ == old(self)@,
    {
        let p: usize = r.index();
        if p < self.slots.len() {
            let ok = match &mut self.slots[p] {
                Some(o) => {
                    if i < o.fields.len() {
                        o.fields.set(i, v);
                        true
                    } else {
                        false
                    }
                },
                None => false,
            };
            if !ok {
                assert(self@ =~= old(self)@);
                return false;
            }
            proof {
                let o = old(self)@.object(r)->0;
                let o2 = ObjectView { fields: o.fields.update(i as int, v), ..o };
                lemma_replaced_wf(old(self)@, r, o2);
                lemma_live_update(old(self)@.slots, p as int, Some(o2));
                assert(self@ =~= old(self)@.with_object(r, o2));
            }
            true
        } else {
            false
        }
    }

    /// Attach the text of a string object; a reference that is not live is ignored.
    pub fn set_text(&mut self, r: RefIndex, text: &str)
        requires
            old(self).wf(),
        ensures
            final(self).wf(),
            final(self)@ == (match old(self)@.object(r) {
                Some(o) => old(self)@.with_object(r, ObjectView { text: Some(text@), ..o }),
                None => old(self)@,
            }),
    {
        let p: usize = r.index();
        if p < self.slots.len() {
            let ok = match &mut self.slots[p] {
                Some(o) => {
                    o.text = Some(text.to_string());
                    true
                },
                None => false,
            };
            if !ok {
                assert(self@ =~= old(self)@);
                return;
            }
            proof {
                let o = old(self)@.object(r)->0;
                let o2 = ObjectView { text: Some(text@), ..o };
                lemma_replaced_wf(old(self)@, r, o2);
                lemma_live_update(old(self)@.slots, p as int, Some(o2));
                assert(self@ =~= old(self)@.with_object(r, o2));
            }
        }
    }

    /// The text of a string object, if the reference is live and carries one.
    pub fn text(&self, r: RefIndex) -> (t: Option<&str>)
        ensures
            match self@.object(r) {
                Some(o) => match o.text {
                    Some(s) => t is Some && t->0@ == s,
                    None => t is None,
                },
                None => t is None,
            },
    {
        match self.get(r) {
            Some(o) => match &o.text {
                Some(s) => Some(s.as_str()),
                None => None,
            },
            None => None,
        }
    }

    /// Reclaim a scope-exclusive (S1) object at scope exit; its index returns to the free list, and
    /// any references it held in its fields are released (cascading). Returns `false`, reclaiming
    /// nothing, for a shared object or an invalid reference.
    pub fn free(&mut self, r: RefIndex) -> (ok: bool)
        requires
            old(self).wf(),
        ensures
            final(self).wf(),
            ok <==> old(self)@.object(r) is Some && old(self)@.object(r)->0.escape is S1,
            final(self)@ == old(self)@.freed(r),
    {
        match self.escape_of(r) {
            Some(EscapeState::S1) => {
                self.reclaim_cascading(r);
                true
            },
            _ => false,
        }
    }

    /// Vacate the slot of a live reference, handing out what it held.
    fn vacate(&mut self, r: RefIndex) -> (o: Option<Object>)
        requires
            old(self).wf(),
        ensures
            final(self).wf(),
            o is Some <==> old(self)@.object(r) is Some,
            o matches Some(obj) ==> old(self)@.object(r) == Some(obj@) && final(self)@ == old(
                self,
            )@.vacated(r) && final(self)@.live() < old(self)@.live(),
            o is None ==> final(self)@ == old(self)@,
    {
        let p: usize = r.index();
        if p >= self.slots.len() {
            return None;
        }
        let taken = self.slots[p].take();
        match taken {
            Some(obj) => {
                proof {
                    lemma_vacated_live(old(self)@, r);
                    lemma_vacated_wf(old(self)@, r);
                }
                self.free.push(p as u64);
                self.live = self.live - 1;
                assert(self@ =~= old(self)@.vacated(r));
                Some(obj)
            },
            None => {
                assert(self@ =~= old(self)@);
                None
            },
        }
    }

    /// Reclaim `r` and release the references its fields held, following the chain of objects that
    /// become unreferenced as a result. Strong cycles survive this.
    fn reclaim_cascading(&mut self, r: RefIndex)
        requires
            old(self).wf(),
        ensures
            final(self).wf(),
            final(self)@ == old(self)@.reclaimed(seq![r]),
    {
        let mut work: Vec<RefIndex> = Vec::new();
        work.push(r);
        assert(work@ =~= seq![r]);
        while work.len() > 0
            invariant
                self.wf(),
                self@.reclaimed(work@) == old(self)@.reclaimed(seq![r]),
            decreases self@.live(), work@.len(),
        {
            let ghost before = self@;
            let ghost work0 = work@;
            let cur = work.pop().unwrap();
            if let Some(obj) = self.vacate(cur) {
                let ghost vacant = self@;
                let mut i: usize = 0;
                while i < obj.fields.len()
                    invariant
                        self.wf(),
                        i <= obj.fields@.len(),
                        self@ == vacant.fields_released(obj.fields@.take(i as int)).0,
                        work@ == work0.drop_last() + vacant.fields_released(
                            obj.fields@.take(i as int),
                        ).1,
                        self@.live() == vacant.live(),
                    decreases obj.fields@.len() - i,
                {
                    proof {
                        assert(obj.fields@.take(i + 1).drop_last() =~= obj.fields@.take(i as int));
                        assert(obj.fields@.take(i + 1).last() == obj.fields@[i as int]);
                    }
                    let v = obj.fields[i];
                    i += 1;
                    if v.tag().is_ref() {
                        let referent = v.ref_index();
                        proof {
                            lemma_counted_live(self@, referent, -1i64);
                        }
                        if let Some(true) = self.add_rc_only(referent, -1) {
                            work.push(referent);
                        }
                    }
                }
                assert(obj.fields@.take(obj.fields@.len() as int) =~= obj.fields@);
            }
        }
    }

    /// Apply a delta without reclaiming. Returns `Some(true)` when the object is now unreferenced,
    /// `Some(false)` when it is still referenced or scope-exclusive, `None` if not live.
    fn add_rc_only(&mut self, r: RefIndex, delta: i64) -> (dead: Option<bool>)
        requires
            old(self).wf(),
        ensures
            final(self).wf(),
            (final(self)@, dead) == old(self)@.counted(r, delta),
    {
        let p: usize = r.index();
        if p >= self.slots.len() {
            return None;
        }
        let dead = match &mut self.slots[p] {
            Some(obj) => {
                if obj.escape == EscapeState::S1 {
                    Some(false)
                } else {
                    obj.rc = obj.rc.wrapping_add(delta);
                    Some(obj.rc <= 0)
                }
            },
            None => None,
        };
        proof {
            lemma_counted_live(old(self)@, r, delta);
            lemma_counted_wf(old(self)@, r, delta);
            assert(self@ =~= old(self)@.counted(r, delta).0);
        }
        dead
    }

    /// Apply a batch of reference-count deltas recorded by a diff chain, in program order.
    /// Reclamation is decided only once the whole batch has been applied: an object whose count
    /// dips to zero mid-batch and is re-acquired later in the same batch is not destroyed.
    pub fn apply_rc_deltas(&mut self, deltas: &[(RefIndex, i32)])
        requires
            old(self).wf(),
        ensures
            final(self).wf(),
            final(self)@ == old(self)@.batch_applied(deltas@),
    {
        let mut i: usize = 0;
        while i < deltas.len()
            invariant
                self.wf(),
                i <= deltas@.len(),
                self@ == old(self)@.all_counted(deltas@.take(i as int)),
            decreases deltas@.len() - i,
        {
            proof {
                assert(deltas@.take(i + 1).drop_last() =~= deltas@.take(i as int));
                assert(deltas@.take(i + 1).last() == deltas@[i as int]);
            }
            let (r, d) = deltas[i];
            let _ = self.add_rc_only(r, d as i64);
            i += 1;
        }
        assert(deltas@.take(deltas@.len() as int) =~= deltas@);
        let ghost counted = self@;
        let mut j: usize = 0;
        while j < deltas.len()
            invariant
                self.wf(),
                j <= deltas@.len(),
                self@ == counted.swept(deltas@.take(j as int)),
            decreases deltas@.len() - j,
        {
            proof {
                assert(deltas@.take(j + 1).drop_last() =~= deltas@.take(j as int));
                assert(deltas@.take(j + 1).last() == deltas@[j as int]);
            }
            let r = deltas[j].0;
            if let Some(true) = self.add_rc_only(r, 0) {
                self.reclaim_cascading(r);
            }
            j += 1;
        }
    }

    /// Number of currently live objects.
    pub fn live(&self) -> (n: usize)
        requires
            self.wf(),
        ensures
            n == self@.live(),
    {
        self.live
    }

    /// This object's escape state, if it is live.
    pub fn escape_of(&self, r: RefIndex) -> (e: Option<EscapeState>)
        ensures
            e == (match self@.object(r) {
                Some(o) => Some(o.escape),
                None => None,
            }),
    {
        match self.get(r) {
            Some(o) => Some(o.escape),
            None => None,
        }
    }

    /// This object's strong reference count; `None` if the reference is not live.
    pub fn rc(&self, r: RefIndex) -> (n: Option<i64>)
        ensures
            n == (match self@.object(r) {
                Some(o) => Some(o.rc),
                None => None,
            }),
    {
        match self.get(r) {
            Some(o) => Some(o.rc),
            None => None,
        }
    }

    /// Promote an object's escape state, monotonically. Returns `false` if the reference is not
    /// live.
    pub fn promote(&mut self, r: RefIndex, to: EscapeState) -> (ok: bool)
        requires
            old(self).wf(),
        ensures
            final(self).wf(),
            ok == old(self)@.object(r) is Some,
            final(self)@ == old(self)@.after_promotion(r, to),
    {
        let p: usize = r.index();
        if p >= self.slots.len() {
            return false;
        }
        let ok = match &mut self.slots[p] {
            Some(o) => {
                o.escape.promote(to);
                true
            },
            None => false,
        };
        if !ok {
            assert(self@ =~= old(self)@);
            return false;
        }
        proof {
            let o = old(self)@.object(r)->0;
            let o2 = ObjectView { escape: o.escape.promoted(to), ..o };
            lemma_replaced_wf(old(self)@, r, o2);
            lemma_live_update(old(self)@.slots, p as int, Some(o2));
            assert(self@ =~= old(self)@.with_object(r, o2));
        }
        true
    }

    /// Apply a single reference-count delta to a shared object, reclaiming it when the count
    /// reaches zero. Returns the new count, or `None` if the reference is not live. A delta against
    /// a scope-exclusive object is ignored.
    pub fn add_rc(&mut self, r: RefIndex, delta: i64) -> (n: Option<i64>)
        requires
            old(self).wf(),
        ensures
            final(self).wf(),
            final(self)@ == old(self)@.delta_applied(r, delta),
            n == (match old(self)@.object(r) {
                None => None,
                Some(o) => if o.escape is S1 {
                    Some(o.rc)
                } else if o.rc.wrapping_add(delta) <= 0 {
                    Some(0i64)
                } else {
                    Some(o.rc.wrapping_add(delta))
                },
            }),
    {
        match self.add_rc_only(r, delta) {
            None => None,
            Some(dead) => {
                if dead {
                    self.reclaim_cascading(r);
                    return Some(0);
                }
                self.rc(r)
            },
        }
    }
}

/// An object vacated last is the next to be reused: its index is recycled.
pub proof fn lemma_freed_index_is_reused(h: HeapView, r: RefIndex)
    requires
        h.wf(),
        h.object(r) is Some,
        r.position() == r.0,
    ensures
        h.vacated(r).next_ref() == r,
        h.vacated(r).object(r) is None,
        h.vacated(r).live() == h.live() - 1,
{
    lemma_vacated_live(h, r);
}

/// A recycled slot starts fresh, and no other object changes when one is allocated.
pub proof fn lemma_allocation_leaves_others_alone(
    h: HeapView,
    class: ClassId,
    escape: EscapeState,
    fields: Seq<Val128>,
    other: RefIndex,
)
    requires
        h.wf(),
        h.object(other) is Some,
    ensures
        h.allocated(class, escape, fields).object(other) == h.object(other),
{
    if h.free.len() > 0 {
        assert(h.free[h.free.len() - 1] == h.free.last());
    }
}

/// Scope-exclusive objects carry no count: a delta against one changes nothing.
pub proof fn lemma_exclusive_objects_are_not_counted(h: HeapView, r: RefIndex, delta: i64)
    requires
        h.object(r) is Some,
        h.object(r)->0.escape is S1,
    ensures
        h.delta_applied(r, delta) == h,
{
}

/// A shared object is never reclaimed by the scope-exit path, nor is a dead reference.
pub proof fn lemma_free_refuses_shared_objects(h: HeapView, r: RefIndex)
    requires
        h.object(r) is None || !(h.object(r)->0.escape is S1),
    ensures
        h.freed(r) == h,
{
}

/// A reference that moves between slots survives its batch: released first and re-acquired later
/// in the same batch, the object keeps its count and the heap is as it was.
pub proof fn lemma_moving_reference_survives(h: HeapView, r: RefIndex)
    requires
        h.object(r) is Some,
        !(h.object(r)->0.escape is S1),
        h.object(r)->0.rc > 0,
    ensures
        h.batch_applied(seq![(r, -1i32), (r, 1i32)]) == h,
{
    let d = seq![(r, -1i32), (r, 1i32)];
    let first = d.drop_last();
    assert(first =~= seq![(r, -1i32)]);
    assert(first.drop_last() =~= Seq::<(RefIndex, i32)>::empty());
    reveal_with_fuel(HeapView::all_counted, 3);
    reveal_with_fuel(HeapView::swept, 3);
    let o = h.object(r)->0;
    assert(o.rc.wrapping_add(-1i64) == o.rc - 1);
    assert(h.all_counted(d) =~= h) by {
        let h1 = h.with_object(r, ObjectView { rc: (o.rc - 1) as i64, ..o });
        assert(h.all_counted(first) == h1);
        assert(h.all_counted(d) == h1.with_object(r, o));
    }
    assert(h.counted(r, 0).0 =~= h);
    assert(h.swept(first) == h);
}

/// Releasing the only reference to an object without references of its own reclaims exactly it.
pub proof fn lemma_last_release_reclaims(h: HeapView, r: RefIndex)
    requires
        h.wf(),
        h.object(r) is Some,
        !(h.object(r)->0.escape is S1),
        h.object(r)->0.rc == 1,
        h.object(r)->0.fields.len() == 0,
    ensures
        h.delta_applied(r, -1i64) == h.vacated(r),
        h.delta_applied(r, -1i64).object(r) is None,
{
    let o = h.object(r)->0;
    assert(o.rc.wrapping_add(-1i64) == 0);
    let h1 = h.with_object(r, ObjectView { rc: 0, ..o });
    let work = seq![r];
    assert(work.drop_last() =~= Seq::<RefIndex>::empty());
    let h2 = h1.vacated(r);
    assert(h2 =~= h.vacated(r));
    assert(h2.fields_released(o.fields) == (h2, Seq::<RefIndex>::empty()));
    assert(Seq::<RefIndex>::empty() + Seq::<RefIndex>::empty() =~= Seq::<RefIndex>::empty());
    assert(h2.reclaimed(Seq::empty()) == h2);
    reveal_with_fuel(HeapView::reclaimed, 2);
}

/// A count that a reclaimed object's field release leaves positive keeps its object: reclaiming
/// never touches the class, the fields or the escape state of an object that stays live.
pub proof fn lemma_reclaiming_keeps_survivors(h: HeapView, work: Seq<RefIndex>, r: RefIndex)
    ensures
        h.reclaimed(work).object(r) matches Some(after) ==> (h.object(r) matches Some(before)
            && after.class == before.class && after.escape == before.escape && after.fields
            == before.fields && after.text == before.text),
    decreases h.live(), work.len(),
{
    if work.len() > 0 {
        let cur = work.last();
        let rest = work.drop_last();
        match h.object(cur) {
            None => {
                lemma_reclaiming_keeps_survivors(h, rest, r);
            },
            Some(o) => {
                let (h2, dead) = h.vacated(cur).fields_released(o.fields);
                lemma_vacated_live(h, cur);
                lemma_fields_released_live(h.vacated(cur), o.fields);
                lemma_releasing_keeps_objects(h.vacated(cur), o.fields, r);
                lemma_reclaiming_keeps_survivors(h2, rest + dead, r);
            },
        }
    }
}

pub proof fn lemma_releasing_keeps_objects(h: HeapView, fields: Seq<Val128>, r: RefIndex)
    ensures
        h.fields_released(fields).0.object(r) is Some <==> h.object(r) is Some,
        h.fields_released(fields).0.object(r) matches Some(after) ==> (h.object(r) matches Some(
            before,
        ) && after.class == before.class && after.escape == before.escape && after.fields
            == before.fields && after.text == before.text),
        h.fields_released(fields).0.slots.len() == h.slots.len(),
    decreases fields.len(),
{
    if fields.len() > 0 {
        lemma_releasing_keeps_objects(h, fields.drop_last(), r);
    }
}

/// Reclaiming twice is harmless: a reference whose object a scope has freed frees nothing again.
pub proof fn lemma_free_is_idempotent(h: HeapView, r: RefIndex)
    ensures
        h.freed(r).freed(r) == h.freed(r),
        h.object(r) is Some && h.object(r)->0.escape is S1 ==> h.freed(r).object(r) is None,
{
    if let Some(o) = h.object(r) {
        if o.escape is S1 {
            let work = seq![r];
            let h1 = h.vacated(r);
            let (h2, dead) = h1.fields_released(o.fields);
            assert(work.drop_last() =~= Seq::<RefIndex>::empty());
            assert(h1.object(r) is None);
            lemma_releasing_keeps_objects(h1, o.fields, r);
            lemma_reclaiming_keeps_survivors(h2, work.drop_last() + dead, r);
            assert(h.reclaimed(work) == h2.reclaimed(work.drop_last() + dead));
        }
    }
}

/// What a batch adds up to for a reference.
pub open spec fn net_delta(deltas: Seq<(RefIndex, i32)>, r: RefIndex) -> int
    decreases deltas.len(),
{
    if deltas.len() == 0 {
        0
    } else {
        net_delta(deltas.drop_last(), r) + (if deltas.last().0 == r {
            deltas.last().1 as int
        } else {
            0
        })
    }
}

/// A batch is decided as a whole: before anything is reclaimed, the count of a shared object has
/// changed by what the batch adds up to, in whatever order its deltas came.
pub proof fn lemma_batch_adds_up(h: HeapView, deltas: Seq<(RefIndex, i32)>, r: RefIndex)
    requires
        h.object(r) is Some,
        !(h.object(r)->0.escape is S1),
        -0x1000_0000_0000_0000 <= h.object(r)->0.rc <= 0x1000_0000_0000_0000,
        deltas.len() <= 0x1000_0000,
        forall|i: int|
            0 <= i < deltas.len() ==> (#[trigger] deltas[i]).0.position() == deltas[i].0.0,
        r.position() == r.0,
    ensures
        h.all_counted(deltas).object(r) == Some(
            ObjectView {
                rc: (h.object(r)->0.rc + net_delta(deltas, r)) as i64,
                ..h.object(r)->0
            },
        ),
        -0x8000_0000 * deltas.len() <= net_delta(deltas, r) <= 0x8000_0000 * deltas.len(),
    decreases deltas.len(),
{
    if deltas.len() > 0 {
        let rest = deltas.drop_last();
        assert forall|i: int| 0 <= i < rest.len() implies (#[trigger] rest[i]).0.position()
            == rest[i].0.0 by {
            assert(deltas[i].0.position() == deltas[i].0.0);
        }
        lemma_batch_adds_up(h, rest, r);
        let last = deltas.last();
        assert(deltas[deltas.len() - 1].0.position() == last.0.0);
        if last.0 != r {
            assert(last.0.position() != r.position());
        }
    }
}

/// Every operation of the heap keeps its invariant.
pub proof fn lemma_reclaimed_wf(h: HeapView, work: Seq<RefIndex>)
    requires
        h.wf(),
    ensures
        h.reclaimed(work).wf(),
        h.reclaimed(work).live() <= h.live(),
    decreases h.live(), work.len(),
{
    if work.len() > 0 {
        let cur = work.last();
        let rest = work.drop_last();
        match h.object(cur) {
            None => {
                lemma_reclaimed_wf(h, rest);
            },
            Some(o) => {
                let (h2, dead) = h.vacated(cur).fields_released(o.fields);
                lemma_vacated_live(h, cur);
                lemma_vacated_wf(h, cur);
                lemma_fields_released_live(h.vacated(cur), o.fields);
                lemma_fields_released_wf(h.vacated(cur), o.fields);
                lemma_reclaimed_wf(h2, rest + dead);
            },
        }
    }
}

proof fn lemma_fields_released_wf(h: HeapView, fields: Seq<Val128>)
    requires
        h.wf(),
    ensures
        h.fields_released(fields).0.wf(),
    decreases fields.len(),
{
    if fields.len() > 0 {
        lemma_fields_released_wf(h, fields.drop_last());
        lemma_counted_wf(
            h.fields_released(fields.drop_last()).0,
            fields.last().ref_index(),
            -1i64,
        );
    }
}

impl Default for Heap {
    fn default() -> (h: Heap)
        ensures
            h.wf(),
            h@ == HeapView::fresh(0x100_0000),
    {
        Heap::new()
    }
}

/// Promotion changes the state of the one object, and nothing else about it or any other.
pub proof fn lemma_promotion_changes_the_state(h: HeapView, r: RefIndex, to: EscapeState, q: RefIndex)
    requires
        h.object(r) is Some,
    ensures
        ({
            let h1 = h.after_promotion(r, to);
            let (before, after) = (h.object(r)->0, h1.object(r)->0);
            &&& h1.object(r) is Some
            &&& after.escape == before.escape.promoted(to)
            &&& after.class == before.class && after.fields == before.fields
            &&& after.rc == before.rc && after.text == before.text
            &&& q.position() != r.position() ==> h1.object(q) == h.object(q)
            &&& h1.free == h.free && h1.limit == h.limit
        }),
{
}

/// A fresh heap has room for as many objects as its limit says, and nothing in it.
pub proof fn lemma_fresh_heaps_are_empty(limit: nat, r: RefIndex)
    ensures
        HeapView::fresh(limit).object(r) is None,
        HeapView::fresh(limit).live() == 0,
        HeapView::fresh(limit).limit == limit,
{
}

/// The end of an exclusive object takes it away, and no other object that stays changes but for its
/// count.
pub proof fn lemma_freeing_takes_away(h: HeapView, r: RefIndex, q: RefIndex)
    requires
        h.object(r) is Some,
        h.object(r)->0.escape is S1,
    ensures
        h.freed(r).object(r) is None,
        h.freed(r).object(q) matches Some(after) ==> (h.object(q) matches Some(before)
            && after.class == before.class && after.escape == before.escape && after.fields
            == before.fields && after.text == before.text),
{
    lemma_free_is_idempotent(h, r);
    lemma_reclaiming_keeps_survivors(h, seq![r], q);
}

} // verus!
