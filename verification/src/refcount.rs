//! Reference counts count references: what every operation of the heap does to the count of a shared
//! object is what it does to the references that name the object.

use vstd::prelude::*;
use crate::diff::EscapeState;
use crate::heap::{
    lemma_fields_released_live, lemma_reclaiming_keeps_survivors, lemma_releasing_keeps_objects,
    lemma_vacated_live, HeapView, ObjectView,
};
use crate::ids::{ClassId, RefIndex, RegistryKey};
use crate::value::{no_refs, Val128};

verus! {

/// Whether a value names the object of a reference.
pub open spec fn names(v: Val128, r: RefIndex) -> bool {
    v.tag().is_ref() && v.ref_index().position() == r.position()
}

/// How many of some values name the object of a reference.
pub open spec fn naming(vals: Seq<Val128>, r: RefIndex) -> nat
    decreases vals.len(),
{
    if vals.len() == 0 {
        0
    } else {
        naming(vals.drop_last(), r) + (if names(vals.last(), r) {
            1nat
        } else {
            0
        })
    }
}

/// How many fields of live objects name the object of a reference.
pub open spec fn fields_naming(slots: Seq<Option<ObjectView>>, r: RefIndex) -> nat
    decreases slots.len(),
{
    if slots.len() == 0 {
        0
    } else {
        fields_naming(slots.drop_last(), r) + (match slots.last() {
            Some(o) => naming(o.fields, r),
            None => 0,
        })
    }
}

/// What deltas add up to for the object of a reference.
pub open spec fn sum(deltas: Seq<(RefIndex, i32)>, r: RefIndex) -> int
    decreases deltas.len(),
{
    if deltas.len() == 0 {
        0
    } else {
        sum(deltas.drop_last(), r) + (if deltas.last().0.position() == r.position() {
            deltas.last().1 as int
        } else {
            0
        })
    }
}

/// How far counts may go.
pub const COUNT_LIMIT: i64 = 0x1000_0000_0000_0000;

impl HeapView {
    /// How many fields of live objects name the object of a reference.
    pub open spec fn held(self, r: RefIndex) -> nat {
        fields_naming(self.slots, r)
    }

    /// Whether a shared object has `c` references from outside the heap: its count, less what fields
    /// of live objects account for.
    pub open spec fn counts(self, r: RefIndex, c: int) -> bool {
        &&& self.object(r) matches Some(o)
        &&& !(o.escape is S1)
        &&& o.rc == c + self.held(r)
        &&& self.held(r) <= COUNT_LIMIT
    }

    /// Whether a shared object has `c` references from outside the heap, if it is live.
    pub open spec fn counts_if_live(self, r: RefIndex, c: int) -> bool {
        self.object(r) is Some ==> self.counts(r, c)
    }
}

/// One object's part in what names a reference.
pub open spec fn part(o: Option<ObjectView>, r: RefIndex) -> nat {
    match o {
        Some(x) => naming(x.fields, r),
        None => 0,
    }
}

pub proof fn lemma_part_changes(
    slots: Seq<Option<ObjectView>>,
    i: int,
    o: Option<ObjectView>,
    r: RefIndex,
)
    requires
        0 <= i < slots.len(),
    ensures
        fields_naming(slots.update(i, o), r) == fields_naming(slots, r) - part(slots[i], r) + part(
            o,
            r,
        ),
        part(slots[i], r) <= fields_naming(slots, r),
    decreases slots.len(),
{
    if i == slots.len() - 1 {
        assert(slots.update(i, o).drop_last() =~= slots.drop_last());
    } else {
        lemma_part_changes(slots.drop_last(), i, o, r);
        assert(slots.update(i, o).drop_last() =~= slots.drop_last().update(i, o));
    }
}

/// A delta changes the count of its object, and no field.
pub proof fn lemma_counted_counts(h: HeapView, q: RefIndex, delta: i64, r: RefIndex, c: int)
    requires
        h.counts(r, c),
        -COUNT_LIMIT <= c <= COUNT_LIMIT,
        -COUNT_LIMIT <= delta <= COUNT_LIMIT,
    ensures
        h.counted(q, delta).0.counts(
            r,
            if q.position() == r.position() {
                c + delta
            } else {
                c
            },
        ),
        h.counted(q, delta).0.held(r) == h.held(r),
{
    if let Some(o) = h.object(q) {
        if !(o.escape is S1) {
            let rc = o.rc.wrapping_add(delta);
            lemma_part_changes(
                h.slots,
                q.position() as int,
                Some(ObjectView { rc, ..o }),
                r,
            );
        }
    }
}

/// Releasing fields takes from the count what the fields hold.
proof fn lemma_fields_released_counts(h: HeapView, fields: Seq<Val128>, r: RefIndex, c: int)
    requires
        h.counts(r, c),
        -COUNT_LIMIT <= c - naming(fields, r),
        c <= 2 * COUNT_LIMIT,
    ensures
        h.fields_released(fields).0.counts(r, c - naming(fields, r)),
        h.fields_released(fields).0.held(r) == h.held(r),
    decreases fields.len(),
{
    if fields.len() > 0 {
        let rest = fields.drop_last();
        let v = fields.last();
        lemma_fields_released_counts(h, rest, r, c);
        if v.tag().is_ref() {
            let h1 = h.fields_released(rest).0;
            let o = h1.object(r)->0;
            if let Some(x) = h1.object(v.ref_index()) {
                if !(x.escape is S1) {
                    lemma_part_changes(
                        h1.slots,
                        v.ref_index().position() as int,
                        Some(ObjectView { rc: x.rc.wrapping_add(-1i64), ..x }),
                        r,
                    );
                }
            }
        }
    }
}

/// Reclaiming keeps what stays live counted: an object that goes takes its fields along, and gives
/// back what they counted for.
pub proof fn lemma_reclaimed_counts(h: HeapView, work: Seq<RefIndex>, r: RefIndex, c: int)
    requires
        h.counts(r, c),
        -COUNT_LIMIT <= c <= COUNT_LIMIT,
    ensures
        h.reclaimed(work).counts_if_live(r, c),
    decreases h.live(), work.len(),
{
    if work.len() > 0 {
        let cur = work.last();
        let rest = work.drop_last();
        match h.object(cur) {
            None => {
                lemma_reclaimed_counts(h, rest, r, c);
            },
            Some(o) => {
                let h1 = h.vacated(cur);
                let (h2, dead) = h1.fields_released(o.fields);
                lemma_vacated_live(h, cur);
                lemma_fields_released_live(h1, o.fields);
                lemma_part_changes(h.slots, cur.position() as int, None, r);
                let gone = naming(o.fields, r) as int;
                if cur.position() == r.position() {
                    assert(h1.object(r) is None);
                    lemma_releasing_keeps_objects(h1, o.fields, r);
                    lemma_reclaiming_keeps_survivors(h2, rest + dead, r);
                } else {
                    assert(h1.counts(r, c + gone));
                    lemma_fields_released_counts(h1, o.fields, r, c + gone);
                    assert(h2.counts(r, c));
                    lemma_reclaimed_counts(h2, rest + dead, r, c);
                }
            },
        }
    }
}

pub proof fn lemma_sum_bound(deltas: Seq<(RefIndex, i32)>, r: RefIndex)
    ensures
        -0x8000_0000 * deltas.len() <= sum(deltas, r) <= 0x8000_0000 * deltas.len(),
    decreases deltas.len(),
{
    if deltas.len() > 0 {
        lemma_sum_bound(deltas.drop_last(), r);
    }
}

/// How long a batch may be.
pub const BATCH_LIMIT: i64 = 0x1000_0000;

/// Whether a count and a batch are far from what can be counted.
pub open spec fn moderate(c: int, deltas: Seq<(RefIndex, i32)>) -> bool {
    -COUNT_LIMIT <= 2 * c <= COUNT_LIMIT && deltas.len() <= BATCH_LIMIT
}

proof fn lemma_all_counted_counts(
    h: HeapView,
    deltas: Seq<(RefIndex, i32)>,
    r: RefIndex,
    c: int,
)
    requires
        h.counts(r, c),
        moderate(c, deltas),
    ensures
        h.all_counted(deltas).counts(r, c + sum(deltas, r)),
        h.all_counted(deltas).held(r) == h.held(r),
    decreases deltas.len(),
{
    if deltas.len() > 0 {
        let rest = deltas.drop_last();
        lemma_all_counted_counts(h, rest, r, c);
        lemma_sum_bound(rest, r);
        lemma_counted_counts(
            h.all_counted(rest),
            deltas.last().0,
            deltas.last().1 as i64,
            r,
            c + sum(rest, r),
        );
    }
}

proof fn lemma_swept_counts(h: HeapView, deltas: Seq<(RefIndex, i32)>, r: RefIndex, c: int)
    requires
        h.counts_if_live(r, c),
        -COUNT_LIMIT <= c <= COUNT_LIMIT,
    ensures
        h.swept(deltas).counts_if_live(r, c),
        h.object(r) is None ==> h.swept(deltas).object(r) is None,
    decreases deltas.len(),
{
    if deltas.len() > 0 {
        let rest = deltas.drop_last();
        let q = deltas.last().0;
        lemma_swept_counts(h, rest, r, c);
        let h1 = h.swept(rest);
        let (h2, unreferenced) = h1.counted(q, 0);
        if h1.object(r) is Some {
            lemma_counted_counts(h1, q, 0, r, c);
            lemma_reclaimed_counts(h2, seq![q], r, c);
        }
        lemma_reclaiming_keeps_survivors(h2, seq![q], r);
    }
}

/// A batch of deltas changes the references from outside that an object counts by what the batch adds
/// up to for it, however many objects the batch reclaims.
pub proof fn lemma_batches_count(h: HeapView, deltas: Seq<(RefIndex, i32)>, r: RefIndex, c: int)
    requires
        h.counts(r, c),
        moderate(c, deltas),
    ensures
        h.batch_applied(deltas).counts_if_live(r, c + sum(deltas, r)),
{
    lemma_all_counted_counts(h, deltas, r, c);
    lemma_sum_bound(deltas, r);
    lemma_swept_counts(h.all_counted(deltas), deltas, r, c + sum(deltas, r));
}

/// A single delta counts likewise.
pub proof fn lemma_deltas_count(h: HeapView, q: RefIndex, delta: i64, r: RefIndex, c: int)
    requires
        h.counts(r, c),
        -COUNT_LIMIT <= 2 * c <= COUNT_LIMIT,
        -COUNT_LIMIT <= 2 * delta <= COUNT_LIMIT,
    ensures
        h.delta_applied(q, delta).counts_if_live(
            r,
            if q.position() == r.position() {
                c + delta
            } else {
                c
            },
        ),
{
    lemma_counted_counts(h, q, delta, r, c);
    let (h1, unreferenced) = h.counted(q, delta);
    let d = if q.position() == r.position() {
        c + delta
    } else {
        c
    };
    lemma_reclaimed_counts(h1, seq![q], r, d);
}

/// The end of an exclusive object changes no count from outside.
pub proof fn lemma_freeing_counts(h: HeapView, q: RefIndex, r: RefIndex, c: int)
    requires
        h.counts(r, c),
        -COUNT_LIMIT <= c <= COUNT_LIMIT,
    ensures
        h.freed(q).counts_if_live(r, c),
{
    lemma_reclaimed_counts(h, seq![q], r, c);
}

/// Writing a field changes what the fields hold, and no count.
pub proof fn lemma_field_writes_count(
    h: HeapView,
    q: RefIndex,
    i: int,
    v: Val128,
    r: RefIndex,
    c: int,
)
    requires
        h.counts(r, c),
        h.has_field(q, i),
        h.with_field(q, i, v).held(r) <= COUNT_LIMIT,
    ensures
        ({
            let old_value = h.object(q)->0.fields[i];
            h.with_field(q, i, v).counts(
                r,
                c + (if names(old_value, r) {
                    1int
                } else {
                    0
                }) - (if names(v, r) {
                    1int
                } else {
                    0
                }),
            )
        }),
{
    let o = h.object(q)->0;
    let after = ObjectView { fields: o.fields.update(i, v), ..o };
    lemma_part_changes(h.slots, q.position() as int, Some(after), r);
    lemma_naming_update(o.fields, i, v, r);
}

pub proof fn lemma_naming_update(vals: Seq<Val128>, i: int, v: Val128, r: RefIndex)
    requires
        0 <= i < vals.len(),
    ensures
        naming(vals.update(i, v), r) == naming(vals, r) - (if names(vals[i], r) {
            1int
        } else {
            0
        }) + (if names(v, r) {
            1int
        } else {
            0
        }),
    decreases vals.len(),
{
    if i == vals.len() - 1 {
        assert(vals.update(i, v).drop_last() =~= vals.drop_last());
    } else {
        lemma_naming_update(vals.drop_last(), i, v, r);
        assert(vals.update(i, v).drop_last() =~= vals.drop_last().update(i, v));
    }
}

pub proof fn lemma_no_refs_name_nothing(vals: Seq<Val128>, r: RefIndex)
    requires
        no_refs(vals),
    ensures
        naming(vals, r) == 0,
    decreases vals.len(),
{
    if vals.len() > 0 {
        assert(!vals[vals.len() - 1].tag().is_ref());
        assert(no_refs(vals.drop_last())) by {
            assert forall|i: int| 0 <= i < vals.len() - 1 implies !(
            #[trigger] vals.drop_last()[i]).tag().is_ref() by {
                assert(vals.drop_last()[i] == vals[i]);
            }
        }
        lemma_no_refs_name_nothing(vals.drop_last(), r);
    }
}

/// An allocation changes no count, and its reference names no other live object.
pub proof fn lemma_allocations_count(
    h: HeapView,
    class: ClassId,
    escape: EscapeState,
    fields: Seq<Val128>,
    r: RefIndex,
    c: int,
)
    requires
        h.wf(),
        h.counts(r, c),
        no_refs(fields),
    ensures
        h.allocated(class, escape, fields).counts(r, c),
        h.allocated(class, escape, fields).held(r) == h.held(r),
        h.next_ref().position() != r.position(),
        h.allocated(class, escape, fields).object(h.next_ref()) is Some,
        h.allocated(class, escape, fields).object(h.next_ref())->0.fields == fields,
{
    lemma_allocations_hold(h, class, escape, fields, r);
    if h.free.len() > 0 {
        assert(h.free[h.free.len() - 1] == h.free.last());
    }
}

/// An allocation adds no field that names an object.
pub proof fn lemma_allocations_hold(
    h: HeapView,
    class: ClassId,
    escape: EscapeState,
    fields: Seq<Val128>,
    r: RefIndex,
)
    requires
        h.wf(),
        no_refs(fields),
    ensures
        h.allocated(class, escape, fields).held(r) == h.held(r),
        h.allocated(class, escape, fields).object(h.next_ref()) is Some,
        h.allocated(class, escape, fields).object(h.next_ref())->0.fields == fields,
{
    let h1 = h.allocated(class, escape, fields);
    let o = ObjectView { class, escape, fields, rc: 0, text: None };
    lemma_no_refs_name_nothing(fields, r);
    if h.free.len() > 0 {
        let i = h.free.last();
        assert(h.free[h.free.len() - 1] == i);
        lemma_part_changes(h.slots, i as int, Some(o), r);
    } else {
        assert(h1.slots.drop_last() =~= h.slots);
    }
}

/// A field of a live object that names another is counted.
pub proof fn lemma_field_is_held(h: HeapView, q: RefIndex, i: int, r: RefIndex)
    requires
        h.has_field(q, i),
        names(h.object(q)->0.fields[i], r),
    ensures
        0 < h.held(r),
{
    lemma_part_changes(h.slots, q.position() as int, h.object(q), r);
    lemma_named_once(h.object(q)->0.fields, i, r);
}

pub proof fn lemma_named_once(vals: Seq<Val128>, i: int, r: RefIndex)
    requires
        0 <= i < vals.len(),
        names(vals[i], r),
    ensures
        0 < naming(vals, r),
    decreases vals.len(),
{
    if i < vals.len() - 1 {
        lemma_named_once(vals.drop_last(), i, r);
    }
}

/// A single delta never makes more fields name an object.
pub proof fn lemma_deltas_hold_less(h: HeapView, q: RefIndex, delta: i64, r: RefIndex)
    ensures
        h.delta_applied(q, delta).held(r) <= h.held(r),
{
    lemma_counted_holds(h, q, delta, r);
    lemma_reclaimed_holds_less(h.counted(q, delta).0, seq![q], r);
}

/// Replacing an object that names the same changes no other count.
pub proof fn lemma_replacement_counts(
    h: HeapView,
    q: RefIndex,
    o: ObjectView,
    r: RefIndex,
    c: int,
)
    requires
        h.counts(r, c),
        h.object(q) is Some,
        h.object(q)->0.fields == o.fields,
        q.position() != r.position(),
    ensures
        h.with_object(q, o).counts(r, c),
        h.with_object(q, o).held(r) == h.held(r),
{
    lemma_part_changes(h.slots, q.position() as int, Some(o), r);
}

proof fn lemma_counted_holds(h: HeapView, q: RefIndex, delta: i64, r: RefIndex)
    ensures
        h.counted(q, delta).0.held(r) == h.held(r),
{
    if let Some(o) = h.object(q) {
        let rc = o.rc.wrapping_add(delta);
        lemma_part_changes(h.slots, q.position() as int, Some(ObjectView { rc, ..o }), r);
    }
}

proof fn lemma_fields_released_hold(h: HeapView, fields: Seq<Val128>, r: RefIndex)
    ensures
        h.fields_released(fields).0.held(r) == h.held(r),
    decreases fields.len(),
{
    if fields.len() > 0 {
        let rest = fields.drop_last();
        lemma_fields_released_hold(h, rest, r);
        lemma_counted_holds(h.fields_released(rest).0, fields.last().ref_index(), -1i64, r);
    }
}

/// Reclaiming never makes more fields name an object.
proof fn lemma_reclaimed_holds_less(h: HeapView, work: Seq<RefIndex>, r: RefIndex)
    ensures
        h.reclaimed(work).held(r) <= h.held(r),
    decreases h.live(), work.len(),
{
    if work.len() > 0 {
        let cur = work.last();
        let rest = work.drop_last();
        match h.object(cur) {
            None => {
                lemma_reclaimed_holds_less(h, rest, r);
            },
            Some(o) => {
                let h1 = h.vacated(cur);
                let (h2, dead) = h1.fields_released(o.fields);
                lemma_vacated_live(h, cur);
                lemma_fields_released_live(h1, o.fields);
                lemma_part_changes(h.slots, cur.position() as int, None, r);
                lemma_fields_released_hold(h1, o.fields, r);
                lemma_reclaimed_holds_less(h2, rest + dead, r);
            },
        }
    }
}

proof fn lemma_all_counted_holds(h: HeapView, deltas: Seq<(RefIndex, i32)>, r: RefIndex)
    ensures
        h.all_counted(deltas).held(r) == h.held(r),
    decreases deltas.len(),
{
    if deltas.len() > 0 {
        let rest = deltas.drop_last();
        lemma_all_counted_holds(h, rest, r);
        lemma_counted_holds(
            h.all_counted(rest),
            deltas.last().0,
            deltas.last().1 as i64,
            r,
        );
    }
}

proof fn lemma_swept_holds_less(h: HeapView, deltas: Seq<(RefIndex, i32)>, r: RefIndex)
    ensures
        h.swept(deltas).held(r) <= h.held(r),
    decreases deltas.len(),
{
    if deltas.len() > 0 {
        let q = deltas.last().0;
        lemma_swept_holds_less(h, deltas.drop_last(), r);
        let h1 = h.swept(deltas.drop_last());
        lemma_counted_holds(h1, q, 0, r);
        lemma_reclaimed_holds_less(h1.counted(q, 0).0, seq![q], r);
    }
}

/// A batch never makes more fields name an object.
pub proof fn lemma_batches_hold_less(h: HeapView, deltas: Seq<(RefIndex, i32)>, r: RefIndex)
    ensures
        h.batch_applied(deltas).held(r) <= h.held(r),
{
    lemma_all_counted_holds(h, deltas, r);
    lemma_swept_holds_less(h.all_counted(deltas), deltas, r);
}

/// Whether a worklist spares the object of a reference.
pub open spec fn spares(work: Seq<RefIndex>, r: RefIndex) -> bool {
    forall|i: int| 0 <= i < work.len() ==> (#[trigger] work[i]).position() != r.position()
}

proof fn lemma_released_fields_spare(h: HeapView, fields: Seq<Val128>, r: RefIndex, c: int)
    requires
        h.counts(r, c),
        0 < c - naming(fields, r) + h.held(r),
        -COUNT_LIMIT <= c - naming(fields, r),
        c <= 2 * COUNT_LIMIT,
    ensures
        spares(h.fields_released(fields).1, r),
    decreases fields.len(),
{
    if fields.len() > 0 {
        let rest = fields.drop_last();
        let v = fields.last();
        lemma_released_fields_spare(h, rest, r, c);
        lemma_fields_released_counts(h, rest, r, c);
        lemma_fields_released_counts(h, fields, r, c);
        let (h1, dead) = h.fields_released(rest);
        let (h2, all) = h.fields_released(fields);
        assert forall|i: int| 0 <= i < all.len() implies (#[trigger] all[i]).position()
            != r.position() by {
            if i < dead.len() {
                assert(all[i] == dead[i]);
            } else if v.ref_index().position() == r.position() {
                assert(h2.object(r)->0.rc > 0);
            }
        }
    }
}

proof fn lemma_reclaiming_spares(h: HeapView, work: Seq<RefIndex>, r: RefIndex, c: int)
    requires
        h.counts(r, c),
        -COUNT_LIMIT <= c <= COUNT_LIMIT,
        0 < c + h.reclaimed(work).held(r),
        spares(work, r),
    ensures
        h.reclaimed(work).counts(r, c),
    decreases h.live(), work.len(),
{
    lemma_reclaimed_counts(h, work, r, c);
    lemma_reclaimed_holds_less(h, work, r);
    if work.len() > 0 {
        let cur = work.last();
        let rest = work.drop_last();
        assert(work[work.len() - 1] == cur);
        assert(spares(rest, r)) by {
            assert forall|i: int| 0 <= i < rest.len() implies (#[trigger] rest[i]).position()
                != r.position() by {
                assert(rest[i] == work[i]);
            }
        }
        match h.object(cur) {
            None => {
                lemma_reclaiming_spares(h, rest, r, c);
            },
            Some(o) => {
                let h1 = h.vacated(cur);
                let (h2, dead) = h1.fields_released(o.fields);
                lemma_vacated_live(h, cur);
                lemma_fields_released_live(h1, o.fields);
                lemma_part_changes(h.slots, cur.position() as int, None, r);
                let gone = naming(o.fields, r) as int;
                assert(h1.counts(r, c + gone));
                lemma_fields_released_counts(h1, o.fields, r, c + gone);
                lemma_reclaimed_holds_less(h2, rest + dead, r);
                lemma_released_fields_spare(h1, o.fields, r, c + gone);
                assert forall|i: int| 0 <= i < (rest + dead).len() implies (
                #[trigger] (rest + dead)[i]).position() != r.position() by {
                    if i < rest.len() {
                        assert((rest + dead)[i] == rest[i]);
                    } else {
                        assert((rest + dead)[i] == dead[i - rest.len()]);
                    }
                }
                lemma_reclaiming_spares(h2, rest + dead, r, c);
            },
        }
    }
}

proof fn lemma_sweeping_spares(h: HeapView, deltas: Seq<(RefIndex, i32)>, r: RefIndex, c: int)
    requires
        h.counts(r, c),
        -COUNT_LIMIT <= c <= COUNT_LIMIT,
        0 < c + h.swept(deltas).held(r),
    ensures
        h.swept(deltas).counts(r, c),
    decreases deltas.len(),
{
    if deltas.len() > 0 {
        let q = deltas.last().0;
        let h1 = h.swept(deltas.drop_last());
        let (h2, unreferenced) = h1.counted(q, 0);
        lemma_counted_holds(h1, q, 0, r);
        lemma_reclaimed_holds_less(h2, seq![q], r);
        lemma_sweeping_spares(h, deltas.drop_last(), r, c);
        lemma_counted_counts(h1, q, 0, r, c);
        if unreferenced == Some(true) {
            if q.position() == r.position() {
                assert(h2.object(r)->0.rc > 0);
            }
            assert(spares(seq![q], r));
            lemma_reclaiming_spares(h2, seq![q], r, c);
        }
    }
}

/// A shared object that is still referenced is never reclaimed: if any reference is left when a batch
/// has been applied, from outside the heap or in a field of an object that lives on, the object lives
/// on, whatever the batch reclaims.
pub proof fn lemma_referenced_objects_live(
    h: HeapView,
    deltas: Seq<(RefIndex, i32)>,
    r: RefIndex,
    c: int,
)
    requires
        h.counts(r, c),
        moderate(c, deltas),
        c + sum(deltas, r) + h.batch_applied(deltas).held(r) > 0,
    ensures
        h.batch_applied(deltas).counts(r, c + sum(deltas, r)),
{
    lemma_all_counted_counts(h, deltas, r, c);
    lemma_sum_bound(deltas, r);
    lemma_sweeping_spares(h.all_counted(deltas), deltas, r, c + sum(deltas, r));
}

/// Nor does a single delta reclaim it.
pub proof fn lemma_deltas_spare(h: HeapView, q: RefIndex, delta: i64, r: RefIndex, c: int)
    requires
        h.counts(r, c),
        -COUNT_LIMIT <= 2 * c <= COUNT_LIMIT,
        -COUNT_LIMIT <= 2 * delta <= COUNT_LIMIT,
        0 < (if q.position() == r.position() {
            c + delta
        } else {
            c
        }) + h.delta_applied(q, delta).held(r),
    ensures
        h.delta_applied(q, delta).object(r) is Some,
{
    let d = if q.position() == r.position() {
        c + delta
    } else {
        c
    };
    lemma_counted_counts(h, q, delta, r, c);
    let (h1, unreferenced) = h.counted(q, delta);
    if unreferenced == Some(true) {
        lemma_reclaimed_holds_less(h1, seq![q], r);
        assert(spares(seq![q], r));
        lemma_reclaiming_spares(h1, seq![q], r, d);
    }
}

/// Nor does the end of an exclusive object.
pub proof fn lemma_freeing_spares(h: HeapView, q: RefIndex, r: RefIndex, c: int)
    requires
        h.counts(r, c),
        -COUNT_LIMIT <= c <= COUNT_LIMIT,
        0 < c + h.freed(q).held(r),
    ensures
        h.freed(q).counts(r, c),
{
    if h.freed(q) != h {
        assert(spares(seq![q], r));
        lemma_reclaiming_spares(h, seq![q], r, c);
    }
}

/// The end of an exclusive object never makes more fields name another.
pub proof fn lemma_freeing_holds_less(h: HeapView, q: RefIndex, r: RefIndex)
    ensures
        h.freed(q).held(r) <= h.held(r),
{
    lemma_reclaimed_holds_less(h, seq![q], r);
}

/// A new shared object counts no reference, and none names it unless one was left dangling.
pub proof fn lemma_new_objects_count_nothing(
    h: HeapView,
    class: ClassId,
    escape: EscapeState,
    fields: Seq<Val128>,
)
    requires
        h.wf(),
        no_refs(fields),
        !(escape is S1),
        h.slots.len() < usize::MAX,
        h.held(h.next_ref()) == 0,
    ensures
        h.allocated(class, escape, fields).counts(h.next_ref(), 0),
{
    let r = h.next_ref();
    let h1 = h.allocated(class, escape, fields);
    let o = ObjectView { class, escape, fields, rc: 0, text: None };
    lemma_no_refs_name_nothing(fields, r);
    if h.free.len() > 0 {
        let i = h.free.last();
        assert(h.free[h.free.len() - 1] == i);
        lemma_part_changes(h.slots, i as int, Some(o), r);
    } else {
        assert(h1.slots.drop_last() =~= h.slots);
    }
}

/// Whatever is on the worklist is gone when it has been worked off.
pub proof fn lemma_worked_off(h: HeapView, work: Seq<RefIndex>, r: RefIndex)
    requires
        !spares(work, r),
    ensures
        h.reclaimed(work).object(r) is None,
    decreases h.live(), work.len(),
{
    let cur = work.last();
    let rest = work.drop_last();
    let i = choose|i: int| 0 <= i < work.len() && (#[trigger] work[i]).position() == r.position();
    match h.object(cur) {
        None => {
            if cur.position() == r.position() {
                lemma_reclaiming_keeps_survivors(h, rest, r);
            } else {
                assert(rest[i] == work[i]);
                lemma_worked_off(h, rest, r);
            }
        },
        Some(o) => {
            let h1 = h.vacated(cur);
            let (h2, dead) = h1.fields_released(o.fields);
            lemma_vacated_live(h, cur);
            lemma_fields_released_live(h1, o.fields);
            if cur.position() == r.position() {
                assert(h1.object(r) is None);
                lemma_releasing_keeps_objects(h1, o.fields, r);
                lemma_reclaiming_keeps_survivors(h2, rest + dead, r);
            } else {
                assert((rest + dead)[i] == work[i]);
                lemma_worked_off(h2, rest + dead, r);
            }
        },
    }
}

proof fn lemma_released_fields_collect(h: HeapView, fields: Seq<Val128>, r: RefIndex, c: int)
    requires
        h.counts(r, c),
        -COUNT_LIMIT <= c - naming(fields, r),
        c <= 2 * COUNT_LIMIT,
        c - naming(fields, r) + h.held(r) <= 0,
        naming(fields, r) > 0,
    ensures
        !spares(h.fields_released(fields).1, r),
    decreases fields.len(),
{
    let rest = fields.drop_last();
    let v = fields.last();
    lemma_fields_released_counts(h, rest, r, c);
    lemma_fields_released_counts(h, fields, r, c);
    let (h1, dead) = h.fields_released(rest);
    let (h2, all) = h.fields_released(fields);
    if names(v, r) {
        assert(h2.object(r)->0.rc <= 0);
        assert(all.last() == v.ref_index());
        assert(all[all.len() - 1].position() == r.position());
    } else {
        lemma_released_fields_collect(h, rest, r, c);
        let i = choose|i: int| 0 <= i < dead.len() && (#[trigger] dead[i]).position() == r.position();
        assert(all[i] == dead[i]);
    }
}

/// Reclaiming goes on to what it leaves unreferenced: an object without references from outside whose
/// last field goes, goes too.
proof fn lemma_reclaimed_collects(h: HeapView, work: Seq<RefIndex>, r: RefIndex, c: int)
    requires
        h.counts(r, c),
        -COUNT_LIMIT <= c <= 0,
        h.held(r) > 0,
        h.reclaimed(work).held(r) == 0,
    ensures
        h.reclaimed(work).object(r) is None,
    decreases h.live(), work.len(),
{
    let cur = work.last();
    let rest = work.drop_last();
    match h.object(cur) {
        None => {
            lemma_reclaimed_collects(h, rest, r, c);
        },
        Some(o) => {
            let h1 = h.vacated(cur);
            let (h2, dead) = h1.fields_released(o.fields);
            lemma_vacated_live(h, cur);
            lemma_fields_released_live(h1, o.fields);
            lemma_part_changes(h.slots, cur.position() as int, None, r);
            let gone = naming(o.fields, r) as int;
            if cur.position() == r.position() {
                lemma_worked_off(h, work, r);
            } else {
                assert(h1.counts(r, c + gone));
                lemma_fields_released_counts(h1, o.fields, r, c + gone);
                if h2.held(r) > 0 {
                    lemma_reclaimed_collects(h2, rest + dead, r, c);
                } else {
                    lemma_released_fields_collect(h1, o.fields, r, c + gone);
                    let i = choose|i: int|
                        0 <= i < dead.len() && (#[trigger] dead[i]).position() == r.position();
                    assert((rest + dead)[rest.len() + i] == dead[i]);
                    lemma_worked_off(h2, rest + dead, r);
                }
            }
        },
    }
}

/// Whether a batch has a delta for the object of a reference.
pub open spec fn touches(deltas: Seq<(RefIndex, i32)>, r: RefIndex) -> bool {
    exists|i: int| 0 <= i < deltas.len() && (#[trigger] deltas[i]).0.position() == r.position()
}

proof fn lemma_untouched_sum(deltas: Seq<(RefIndex, i32)>, r: RefIndex)
    requires
        !touches(deltas, r),
    ensures
        sum(deltas, r) == 0,
    decreases deltas.len(),
{
    if deltas.len() > 0 {
        let rest = deltas.drop_last();
        assert(deltas[deltas.len() - 1] == deltas.last());
        assert(!touches(rest, r)) by {
            if touches(rest, r) {
                let i = choose|i: int|
                    0 <= i < rest.len() && (#[trigger] rest[i]).0.position() == r.position();
                assert(deltas[i] == rest[i]);
            }
        }
        lemma_untouched_sum(rest, r);
    }
}

proof fn lemma_swept_collects(h: HeapView, deltas: Seq<(RefIndex, i32)>, r: RefIndex)
    requires
        h.counts(r, 0),
        h.swept(deltas).held(r) == 0,
        h.held(r) > 0 || touches(deltas, r),
    ensures
        h.swept(deltas).object(r) is None,
    decreases deltas.len(),
{
    let rest = deltas.drop_last();
    let q = deltas.last().0;
    let h1 = h.swept(rest);
    let (h2, unreferenced) = h1.counted(q, 0);
    lemma_swept_counts(h, rest, r, 0);
    lemma_reclaiming_keeps_survivors(h2, seq![q], r);
    if h1.object(r) is Some {
        lemma_counted_counts(h1, q, 0, r, 0);
        if h1.held(r) > 0 {
            lemma_reclaimed_collects(h2, seq![q], r, 0);
        } else if h.held(r) > 0 || touches(rest, r) {
            lemma_swept_collects(h, rest, r);
        } else {
            let i = choose|i: int|
                0 <= i < deltas.len() && (#[trigger] deltas[i]).0.position() == r.position();
            if i < rest.len() {
                assert(rest[i] == deltas[i]);
                assert(touches(rest, r));
            }
            assert(q.position() == r.position());
            assert(h2.object(r)->0.rc <= 0);
            assert(seq![q][0].position() == r.position());
            lemma_worked_off(h2, seq![q], r);
        }
    }
}

/// An unreferenced object is reclaimed: if a shared object was referenced, and when a batch has been
/// applied no reference is left, from outside the heap or in a field, then it is gone.
pub proof fn lemma_unreferenced_objects_are_reclaimed(
    h: HeapView,
    deltas: Seq<(RefIndex, i32)>,
    r: RefIndex,
    c: int,
)
    requires
        h.counts(r, c),
        moderate(c, deltas),
        c + h.held(r) > 0,
        c + sum(deltas, r) == 0,
        h.batch_applied(deltas).held(r) == 0,
    ensures
        h.batch_applied(deltas).object(r) is None,
{
    lemma_all_counted_counts(h, deltas, r, c);
    if h.held(r) == 0 && !touches(deltas, r) {
        lemma_untouched_sum(deltas, r);
    }
    lemma_swept_collects(h.all_counted(deltas), deltas, r);
}

} // verus!
