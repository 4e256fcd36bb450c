//! Reference counts are kept exactly: no step of the machine loses a reference to a shared object or
//! invents one.

use vstd::prelude::*;
use crate::diff::EscapeState;
use crate::env::{lemma_landed_len, lemma_landing_is_invisible, slot_delta, EnvView, LogicalFrame};
use crate::heap::{
    lemma_counted_wf, lemma_reclaimed_wf, lemma_reclaiming_keeps_survivors, HeapView, ObjectView,
};
use crate::ids::{BlockId, ClassId, RefIndex, RegistryKey, SlotId, ValId};
use crate::interp::error::ExecError;
use crate::interp::eval::{evaluated, Outcome};
use crate::interp::machine::{
    all_written, args_written, body_at, chain_landed, defines, field_deltas, frame_body, frame_left,
    frame_of, frame_slots, get_field_outcome, handles_freed, in_transit, init_need, instance_slot,
    load_string_outcome, new_outcome, node_outcome, operand_values, phi_writes, phis_resolved,
    put_field_outcome, slot_releases, slot_value, static_outcome, string_constant, CallResult,
    Control, FrameView, InitStage, InitView, MachineView, NodeOutcome, TaskView,
};
use crate::interp::soundness::{
    at_node, awaits_call, code_fits, frame_fits, lemma_node_fits, lemma_node_keeps_shape,
    lemma_phi_writes_fit, task_fits,
};
use crate::ir::{BuiltView, Op, Terminator};
use crate::loader::{
    class_named, lemma_class_named, registry_wf, resolved_class, resolved_field, with_init,
    BodyView, ClassView, InitState, RegistryView, Resolved,
};
use crate::refcount::{
    lemma_allocations_count, lemma_batches_count, lemma_batches_hold_less, lemma_deltas_count,
    lemma_field_writes_count, lemma_freeing_counts, lemma_naming_update, lemma_part_changes,
    lemma_replacement_counts, lemma_sum_bound, names, naming, sum, BATCH_LIMIT, COUNT_LIMIT,
};
use crate::stdlib::{native_result, receiver_text};
use crate::value::{group_values, no_refs, Tag, Val128};
use crate::world::{interned_from, WorldView};

verus! {

/// Whether a slot's value counts for the object of a reference: only shared references are counted.
pub open spec fn shares(v: Val128, r: RefIndex) -> bool {
    v.tag() is Ptr && v.ref_index().position() == r.position()
}

/// 1 if a condition holds, else 0.
pub open spec fn one_if(b: bool) -> int {
    if b {
        1
    } else {
        0
    }
}

/// How many slots count for the object of a reference.
pub open spec fn sharing(slots: Seq<Val128>, r: RefIndex) -> int
    decreases slots.len(),
{
    if slots.len() == 0 {
        0
    } else {
        sharing(slots.drop_last(), r) + one_if(shares(slots.last(), r))
    }
}

/// The references that a frame has and that have reached the heap: its slots, less what is pending.
pub open spec fn env_owes(env: EnvView, r: RefIndex) -> int {
    sharing(env.visible(), r) - sum(env.deltas, r)
}

/// The references that tasks have and that have reached the heap.
pub open spec fn tasks_owe(tasks: Seq<TaskView>, r: RefIndex) -> int
    decreases tasks.len(),
{
    if tasks.len() == 0 {
        0
    } else {
        tasks_owe(tasks.drop_last(), r) + (match tasks.last() {
            TaskView::Frame(f) => env_owes(f.env, r),
            TaskView::Init(_) => 0,
        })
    }
}

/// The references in static fields.
pub open spec fn statics_naming(classes: RegistryView, r: RefIndex) -> int
    decreases classes.len(),
{
    if classes.len() == 0 {
        0
    } else {
        statics_naming(classes.drop_last(), r) + naming(classes.last().statics, r)
    }
}

/// The references that pin interned strings.
pub open spec fn pins(interned: Seq<(Seq<char>, Val128)>, r: RefIndex) -> int
    decreases interned.len(),
{
    if interned.len() == 0 {
        0
    } else {
        pins(interned.drop_last(), r) + one_if(names(interned.last().1, r))
    }
}

/// The references of the world outside the heap.
pub open spec fn world_owes(w: WorldView, r: RefIndex) -> int {
    statics_naming(w.classes, r) + pins(w.interned, r)
}

/// The reference of a result on its way.
pub open spec fn result_owes(v: Option<Val128>, r: RefIndex) -> int {
    match v {
        Some(x) => one_if(names(x, r)),
        None => 0,
    }
}

/// The reference on its way to whoever waits for it.
pub open spec fn transit(control: Control, r: RefIndex) -> int {
    match control {
        Control::Returned(Ok(v)) => result_owes(v, r),
        Control::Done(Ok(v)) => result_owes(v, r),
        _ => 0,
    }
}

/// The references to an object from outside the heap that have reached the heap.
pub open spec fn outside(m: MachineView, r: RefIndex) -> int {
    tasks_owe(m.tasks, r) + world_owes(m.world, r) + transit(m.control, r)
}

/// Whether a shared object's count exceeds its references by `k`; 0 is an exact count.
pub open spec fn keeps(m: MachineView, r: RefIndex, k: int) -> bool {
    m.world.heap.counts(r, outside(m, r) + k)
}

pub proof fn lemma_sharing_update(slots: Seq<Val128>, i: int, v: Val128, r: RefIndex)
    requires
        0 <= i < slots.len(),
    ensures
        sharing(slots.update(i, v), r) == sharing(slots, r) - one_if(shares(slots[i], r)) + one_if(
            shares(v, r),
        ),
    decreases slots.len(),
{
    if i == slots.len() - 1 {
        assert(slots.update(i, v).drop_last() =~= slots.drop_last());
    } else {
        lemma_sharing_update(slots.drop_last(), i, v, r);
        assert(slots.update(i, v).drop_last() =~= slots.drop_last().update(i, v));
    }
}

pub proof fn lemma_sharing_bound(slots: Seq<Val128>, r: RefIndex)
    ensures
        0 <= sharing(slots, r) <= slots.len(),
    decreases slots.len(),
{
    if slots.len() > 0 {
        lemma_sharing_bound(slots.drop_last(), r);
    }
}

pub proof fn lemma_sum_of_two(a: Seq<(RefIndex, i32)>, b: Seq<(RefIndex, i32)>, r: RefIndex)
    ensures
        sum(a + b, r) == sum(a, r) + sum(b, r),
    decreases b.len(),
{
    if b.len() == 0 {
        assert(a + b =~= a);
    } else {
        lemma_sum_of_two(a, b.drop_last(), r);
        assert((a + b).drop_last() =~= a + b.drop_last());
    }
}

pub proof fn lemma_sum_of_one(q: RefIndex, d: i32, r: RefIndex)
    ensures
        sum(seq![(q, d)], r) == (if q.position() == r.position() {
            d as int
        } else {
            0
        }),
{
    let s = seq![(q, d)];
    assert(s.drop_last() =~= Seq::empty());
    assert(sum(s.drop_last(), r) == 0);
}

proof fn lemma_slot_delta(v: Val128, by: i32, r: RefIndex)
    ensures
        sum(slot_delta(v, by), r) == (if shares(v, r) {
            by as int
        } else {
            0
        }),
{
    lemma_sum_of_one(v.ref_index(), by, r);
}

/// Writing a slot records exactly the change in what the slots hold.
pub proof fn lemma_writes_are_recorded(env: EnvView, s: u16, v: Val128, r: RefIndex)
    requires
        env.wf(),
        s < env.slots.len(),
    ensures
        env_owes(env.written(SlotId(s), v), r) == env_owes(env, r),
{
    let after = env.written(SlotId(s), v);
    let old_value = env.visible()[s as int];
    lemma_landed_len(env.slots, env.pending);
    assert(after.pending.drop_last() =~= env.pending);
    assert(after.visible() == env.visible().update(s as int, v));
    lemma_sharing_update(env.visible(), s as int, v, r);
    lemma_sum_of_two(env.deltas + slot_delta(v, 1), slot_delta(old_value, -1i32), r);
    lemma_sum_of_two(env.deltas, slot_delta(v, 1), r);
    lemma_slot_delta(v, 1, r);
    lemma_slot_delta(old_value, -1i32, r);
}

proof fn lemma_all_written_owes(env: EnvView, writes: Seq<(u16, Val128)>, k: int, r: RefIndex)
    requires
        env.wf(),
        0 <= k,
        forall|i: int| 0 <= i < writes.len() ==> (#[trigger] writes[i]).0 < env.slots.len(),
    ensures
        env_owes(all_written(env, writes, k), r) == env_owes(env, r),
    decreases writes.len() - k,
{
    if k < writes.len() {
        lemma_writes_are_recorded(env, writes[k].0, writes[k].1, r);
        lemma_all_written_owes(env.written(SlotId(writes[k].0), writes[k].1), writes, k + 1, r);
    }
}

proof fn lemma_args_written_owe(
    env: EnvView,
    slots: Seq<ValId>,
    args: Seq<Val128>,
    k: int,
    r: RefIndex,
)
    requires
        env.wf(),
        0 <= k,
        forall|i: int| 0 <= i < slots.len() ==> (#[trigger] slots[i]).offset < env.slots.len(),
    ensures
        env_owes(args_written(env, slots, args, k), r) == env_owes(env, r),
    decreases slots.len() - k,
{
    if k < slots.len() {
        assert(slots[k].offset < env.slots.len());
        lemma_writes_are_recorded(env, slots[k].offset, args[k], r);
        lemma_args_written_owe(
            env.written(SlotId(slots[k].offset), args[k]),
            slots,
            args,
            k + 1,
            r,
        );
    }
}

/// Recording a delta for a reference.
proof fn lemma_with_delta_owes(env: EnvView, q: RefIndex, by: i32, r: RefIndex)
    ensures
        env_owes(env.with_delta(q, by), r) == env_owes(env, r) - (if q.position() == r.position() {
            by as int
        } else {
            0
        }),
{
    assert(env.with_delta(q, by).deltas.drop_last() =~= env.deltas);
}

/// A field write records that its new referent gains a reference and its old one loses one.
proof fn lemma_field_deltas_owe(env: EnvView, new: Val128, old_value: Val128, r: RefIndex)
    ensures
        env_owes(field_deltas(env, new, old_value), r) == env_owes(env, r) - one_if(
            names(new, r),
        ) + one_if(names(old_value, r)),
{
    lemma_with_delta_owes(env, new.ref_index(), 1, r);
    let env1 = if new.tag().is_ref() {
        env.with_delta(new.ref_index(), 1)
    } else {
        env
    };
    lemma_with_delta_owes(env1, old_value.ref_index(), -1i32, r);
}

/// A heap without an object never gets it back without an allocation.
proof fn lemma_gone_stays_gone(h: HeapView, deltas: Seq<(RefIndex, i32)>, r: RefIndex)
    requires
        h.object(r) is None,
    ensures
        h.batch_applied(deltas).object(r) is None,
{
    lemma_counted_gone(h, deltas, r);
    lemma_swept_gone(h.all_counted(deltas), deltas, r);
}

proof fn lemma_counted_gone(h: HeapView, deltas: Seq<(RefIndex, i32)>, r: RefIndex)
    requires
        h.object(r) is None,
    ensures
        h.all_counted(deltas).object(r) is None,
    decreases deltas.len(),
{
    if deltas.len() > 0 {
        lemma_counted_gone(h, deltas.drop_last(), r);
    }
}

proof fn lemma_swept_gone(h: HeapView, deltas: Seq<(RefIndex, i32)>, r: RefIndex)
    requires
        h.object(r) is None,
    ensures
        h.swept(deltas).object(r) is None,
    decreases deltas.len(),
{
    if deltas.len() > 0 {
        lemma_swept_gone(h, deltas.drop_last(), r);
        let h1 = h.swept(deltas.drop_last());
        let q = deltas.last().0;
        lemma_reclaiming_keeps_survivors(h1.counted(q, 0).0, seq![q], r);
    }
}

proof fn lemma_handles_freed_count(h: HeapView, slots: Seq<Val128>, n: int, r: RefIndex, c: int)
    requires
        h.counts_if_live(r, c),
        -COUNT_LIMIT <= c <= COUNT_LIMIT,
    ensures
        handles_freed(h, slots, n).counts_if_live(r, c),
    decreases n,
{
    if n > 0 {
        lemma_handles_freed_count(h, slots, n - 1, r, c);
        let h1 = handles_freed(h, slots, n - 1);
        let q = slots[n - 1].ref_index();
        if h1.object(r) is Some {
            lemma_freeing_counts(h1, q, r, c);
        } else {
            lemma_reclaiming_keeps_survivors(h1, seq![q], r);
        }
    }
}

pub proof fn lemma_releases_count(slots: Seq<Val128>, n: int, r: RefIndex)
    requires
        0 <= n <= slots.len(),
    ensures
        sum(slot_releases(slots, n), r) == -sharing(slots.take(n), r),
        slot_releases(slots, n).len() <= n,
    decreases n,
{
    if n > 0 {
        lemma_releases_count(slots, n - 1, r);
        assert(slots.take(n).drop_last() =~= slots.take(n - 1));
        assert(slots.take(n).last() == slots[n - 1]);
        if slots[n - 1].tag() is Ptr {
            assert(slot_releases(slots, n).drop_last() =~= slot_releases(slots, n - 1));
        }
    }
}

/// Whether counts and batches are far from what can be counted, by some factor.
pub open spec fn within(env: EnvView, c: int, factor: int) -> bool {
    &&& -COUNT_LIMIT <= factor * c <= COUNT_LIMIT
    &&& factor * env.deltas.len() <= BATCH_LIMIT
    &&& env.slots.len() <= 0xFFFF
}

/// A chain that lands brings to the heap what it recorded.
pub proof fn lemma_landing_counts(env: EnvView, heap: HeapView, r: RefIndex, c: int)
    requires
        env.wf(),
        heap.counts(r, c),
        within(env, c, 4),
    ensures
        chain_landed(env, heap).1.counts_if_live(r, c + sum(env.deltas, r)),
        env_owes(chain_landed(env, heap).0, r) == env_owes(env, r) + sum(env.deltas, r),
{
    lemma_batches_count(heap, env.deltas, r, c);
    lemma_landing_is_invisible(EnvView { deltas: Seq::empty(), ..env });
    assert(chain_landed(env, heap).0.visible() == env.visible());
}

/// A frame that is left gives back every reference that it had, and keeps the one it hands over.
pub proof fn lemma_leaving_counts(
    env: EnvView,
    heap: HeapView,
    returned: Option<Val128>,
    r: RefIndex,
    c: int,
)
    requires
        env.wf(),
        heap.counts(r, c),
        within(env, c, 4),
    ensures
        frame_left(env, heap, returned).counts_if_live(
            r,
            c - env_owes(env, r) + result_owes(returned, r),
        ),
{
    let (env1, heap1) = chain_landed(env, heap);
    let n = env1.slots.len() as int;
    let c1 = c + sum(env.deltas, r);
    let (a, b) = (in_transit(returned), slot_releases(env1.slots, n));
    lemma_landing_counts(env, heap, r, c);
    lemma_landing_is_invisible(EnvView { deltas: Seq::empty(), ..env });
    lemma_releases_count(env1.slots, n, r);
    assert(env1.slots.take(n) =~= env.visible());
    lemma_sum_of_two(a, b, r);
    if let Some(v) = returned {
        lemma_sum_of_one(v.ref_index(), 1, r);
    }
    assert(sum(a, r) == result_owes(returned, r));
    let c2 = c1 + sum(a + b, r);
    assert(c2 == c - env_owes(env, r) + result_owes(returned, r));
    lemma_sum_bound(env.deltas, r);
    lemma_sharing_bound(env.visible(), r);
    let heap2 = heap1.batch_applied(a + b);
    if heap1.object(r) is Some {
        lemma_batches_count(heap1, a + b, r, c1);
    } else {
        lemma_gone_stays_gone(heap1, a + b, r);
    }
    lemma_handles_freed_count(heap2, env1.slots, n, r, c2);
}

/// Whether every field of a fresh object is a zero or `null`, and classes are numbered in 32 bits.
pub open spec fn plain_defaults(classes: RegistryView) -> bool {
    &&& classes.len() <= u32::MAX
    &&& forall|i: int| 0 <= i < classes.len() ==> no_refs((#[trigger] classes[i]).field_defaults)
}

pub proof fn lemma_statics_update(classes: RegistryView, i: int, k: ClassView, r: RefIndex)
    requires
        0 <= i < classes.len(),
    ensures
        statics_naming(classes.update(i, k), r) == statics_naming(classes, r) - naming(
            classes[i].statics,
            r,
        ) + naming(k.statics, r),
    decreases classes.len(),
{
    if i == classes.len() - 1 {
        assert(classes.update(i, k).drop_last() =~= classes.drop_last());
    } else {
        lemma_statics_update(classes.drop_last(), i, k, r);
        assert(classes.update(i, k).drop_last() =~= classes.drop_last().update(i, k));
    }
}

/// Whether an outcome keeps the books.
pub open spec fn outcome_keeps(
    w: WorldView,
    env: EnvView,
    o: NodeOutcome,
    r: RefIndex,
    k: int,
) -> bool {
    match o {
        NodeOutcome::Next { world, env: after } => world.heap.counts_if_live(
            r,
            world_owes(world, r) + env_owes(after, r) + k,
        ),
        _ => true,
    }
}

/// Whether the books of a frame in a world are in order, with a surplus of `k`.
pub open spec fn in_order(w: WorldView, env: EnvView, r: RefIndex, k: int) -> bool {
    let c = world_owes(w, r) + env_owes(env, r) + k;
    &&& env.wf()
    &&& w.heap.wf()
    &&& plain_defaults(w.classes)
    &&& w.heap.counts(r, c)
    &&& w.heap.held(r) < COUNT_LIMIT
    &&& within(env, c, 4)
}

proof fn lemma_defines_keeps(
    w: WorldView,
    env: EnvView,
    w1: WorldView,
    id: ValId,
    v: Val128,
    r: RefIndex,
    k: int,
)
    requires
        env.wf(),
        id.offset < env.slots.len(),
        w1.heap.counts_if_live(r, world_owes(w1, r) + env_owes(env, r) + k),
    ensures
        outcome_keeps(w, env, defines(w1, env, id, v), r, k),
{
    lemma_writes_are_recorded(env, id.offset, v, r);
}

proof fn lemma_new_keeps(
    w: WorldView,
    env: EnvView,
    owner: ClassId,
    id: ValId,
    class_cp: u16,
    escape: EscapeState,
    r: RefIndex,
    k: int,
)
    requires
        in_order(w, env, r, k),
        id.offset < env.slots.len(),
    ensures
        outcome_keeps(w, env, new_outcome(w, env, owner, id, class_cp, escape), r, k),
{
    if let Some(class) = resolved_class(w.classes, owner, class_cp) {
        if init_need(w.classes, class) is Nothing && w.heap.live() < w.heap.limit {
            let fields = w.classes[class.0 as int].field_defaults;
            let c = world_owes(w, r) + env_owes(env, r) + k;
            lemma_allocations_count(w.heap, class, escape, fields, r, c);
            let w1 = WorldView { heap: w.heap.allocated(class, escape, fields), ..w };
            let v = if escape is S1 {
                Val128::handle(w.heap.next_ref())
            } else {
                Val128::ptr(w.heap.next_ref())
            };
            lemma_defines_keeps(w, env, w1, id, v, r, k);
        }
    }
}

proof fn lemma_fields_keep(
    w: WorldView,
    env: EnvView,
    owner: ClassId,
    id: ValId,
    cp: u16,
    vals: Seq<Val128>,
    r: RefIndex,
    k: int,
)
    requires
        in_order(w, env, r, k),
        id.offset < env.slots.len(),
    ensures
        outcome_keeps(w, env, get_field_outcome(w, env, owner, id, cp, vals), r, k),
        outcome_keeps(w, env, put_field_outcome(w, env, owner, cp, vals), r, k),
{
    if vals.len() > 0 {
        let q = vals[0].ref_index();
        if let Some(slot) = instance_slot(w, owner, cp) {
            if w.heap.has_field(q, slot as int) {
                let old_value = w.heap.object(q)->0.fields[slot as int];
                lemma_defines_keeps(w, env, w, id, old_value, r, k);
                if vals.len() >= 2 {
                    let o = w.heap.object(q)->0;
                    let fields = o.fields.update(slot as int, vals[1]);
                    lemma_naming_update(o.fields, slot as int, vals[1], r);
                    lemma_part_changes(
                        w.heap.slots,
                        q.position() as int,
                        Some(ObjectView { fields, ..o }),
                        r,
                    );
                    let c = world_owes(w, r) + env_owes(env, r) + k;
                    lemma_field_writes_count(w.heap, q, slot as int, vals[1], r, c);
                    lemma_field_deltas_owe(env, vals[1], old_value, r);
                }
            }
        }
    }
}

proof fn lemma_statics_keep(
    w: WorldView,
    env: EnvView,
    owner: ClassId,
    id: ValId,
    cp: u16,
    is_write: bool,
    vals: Seq<Val128>,
    r: RefIndex,
    k: int,
)
    requires
        in_order(w, env, r, k),
        id.offset < env.slots.len(),
    ensures
        outcome_keeps(w, env, static_outcome(w, env, owner, id, cp, is_write, vals), r, k),
{
    if let Some(Resolved::StaticField { class, slot }) = resolved_field(w.classes, owner, cp) {
        if init_need(w.classes, class) is Nothing {
            let kl = w.classes[class.0 as int];
            if slot < kl.statics.len() {
                let old_value = kl.statics[slot as int];
                lemma_defines_keeps(w, env, w, id, old_value, r, k);
                if vals.len() > 0 {
                    let statics = kl.statics.update(slot as int, vals[0]);
                    lemma_naming_update(kl.statics, slot as int, vals[0], r);
                    lemma_statics_update(
                        w.classes,
                        class.0 as int,
                        ClassView { statics, ..kl },
                        r,
                    );
                    lemma_field_deltas_owe(env, vals[0], old_value, r);
                }
            }
        }
    }
}

/// Making a string changes no other count.
pub proof fn lemma_string_made_keeps(w: WorldView, text: Seq<char>, r: RefIndex, c: int)
    requires
        w.heap.wf(),
        plain_defaults(w.classes),
        w.heap.counts(r, c),
    ensures
        w.string_made(text).0.heap.counts(r, c),
        world_owes(w.string_made(text).0, r) == world_owes(w, r),
        w.string_made(text).1 matches Ok(v) ==> v.ref_index().position() != r.position(),
{
    if let Some(class) = class_named(w.classes, "java/lang/String"@) {
        if w.heap.live() < w.heap.limit {
            let fields = w.classes[class.0 as int].field_defaults;
            let q = w.heap.next_ref();
            let o = ObjectView {
                class,
                escape: EscapeState::S2,
                fields,
                rc: 0,
                text: Some(text),
            };
            lemma_class_named(w.classes, "java/lang/String"@);
            lemma_allocations_count(w.heap, class, EscapeState::S2, fields, r, c);
            lemma_replacement_counts(
                w.heap.allocated(class, EscapeState::S2, fields),
                q,
                o,
                r,
                c,
            );
            lemma_ptr_names(q);
        }
    }
}

pub proof fn lemma_ptr_names(q: RefIndex)
    ensures
        Val128::ptr(q).ref_index() == q,
{
    broadcast use group_values;

}

proof fn lemma_load_string_keeps(
    w: WorldView,
    env: EnvView,
    owner: ClassId,
    id: ValId,
    cp: u16,
    r: RefIndex,
    k: int,
)
    requires
        in_order(w, env, r, k),
        id.offset < env.slots.len(),
    ensures
        outcome_keeps(w, env, load_string_outcome(w, env, owner, id, cp), r, k),
{
    if let Some(text) = string_constant(w, owner, cp) {
        let c = world_owes(w, r) + env_owes(env, r) + k;
        lemma_string_made_keeps(w, text, r, c);
        if let (w1, Ok(v)) = w.string_interned(text) {
            if interned_from(w.interned, text, 0) is None {
                let w0 = w.string_made(text).0;
                lemma_deltas_count(w0.heap, v.ref_index(), 1, r, c);
                assert(w1.interned.drop_last() =~= w.interned);
            }
            lemma_defines_keeps(w, env, w1, id, v, r, k);
        }
    }
}

/// Running a node keeps the books.
proof fn lemma_nodes_keep(
    w: WorldView,
    env: EnvView,
    owner: ClassId,
    id: ValId,
    op: Op,
    ty: Tag,
    vals: Seq<Val128>,
    r: RefIndex,
    k: int,
)
    requires
        in_order(w, env, r, k),
        id.offset < env.slots.len(),
    ensures
        outcome_keeps(w, env, node_outcome(w, env, owner, id, op, ty, vals), r, k),
{
    match op {
        Op::New { class_cp, escape } => {
            lemma_new_keeps(w, env, owner, id, class_cp, escape, r, k);
        },
        Op::GetField(cp) | Op::PutField(cp) => {
            lemma_fields_keep(w, env, owner, id, cp, vals, r, k);
        },
        Op::LoadString(cp) => {
            lemma_load_string_keeps(w, env, owner, id, cp, r, k);
        },
        Op::GetStatic(cp) => {
            lemma_statics_keep(w, env, owner, id, cp, false, vals, r, k);
        },
        Op::PutStatic(cp) => {
            lemma_statics_keep(w, env, owner, id, cp, true, vals, r, k);
        },
        Op::InvokeStatic(_) | Op::InvokeSpecial(_) | Op::InvokeVirtual(_) => {},
        Op::InstanceOf(_) => {
            lemma_defines_keeps(w, env, w, id, Val128::from_i32(1), r, k);
            lemma_defines_keeps(w, env, w, id, Val128::from_i32(0), r, k);
        },
        Op::CheckCast(_) => {
            if vals.len() > 0 {
                lemma_defines_keeps(w, env, w, id, vals[0], r, k);
            }
        },
        _ => {
            if let Outcome::Value(v) = evaluated(op, ty, vals) {
                lemma_defines_keeps(w, env, w, id, v, r, k);
            }
        },
    }
}

pub proof fn lemma_no_sharing(slots: Seq<Val128>, r: RefIndex)
    requires
        forall|i: int| 0 <= i < slots.len() ==> !((#[trigger] slots[i]).tag() is Ptr),
    ensures
        sharing(slots, r) == 0,
    decreases slots.len(),
{
    if slots.len() > 0 {
        assert(!(slots[slots.len() - 1].tag() is Ptr));
        assert forall|i: int| 0 <= i < slots.len() - 1 implies !((
        #[trigger] slots.drop_last()[i]).tag() is Ptr) by {
            assert(slots.drop_last()[i] == slots[i]);
        }
        lemma_no_sharing(slots.drop_last(), r);
    }
}

/// A fresh frame owes nothing: what its arguments name is pending.
proof fn lemma_fresh_frame_owes_nothing(
    class: ClassId,
    method: u16,
    b: BuiltView,
    args: Seq<Val128>,
    depth: nat,
    r: RefIndex,
)
    requires
        b.wf(),
    ensures
        env_owes(frame_of(class, method, b, args, depth).env, r) == 0,
{
    broadcast use group_values;

    let env = EnvView::fresh(frame_slots(b), LogicalFrame(method as u32));
    assert(env.visible() =~= env.slots);
    lemma_no_sharing(env.slots, r);
    assert forall|i: int| 0 <= i < b.arg_vals.len() implies (
    #[trigger] b.arg_vals[i]).offset < env.slots.len() by {
        assert(b.arg_vals[i].fits(b.n_slots as int));
    }
    lemma_args_written_owe(env, b.arg_vals, args, 0, r);
}

pub proof fn lemma_pushed_tasks_owe(tasks: Seq<TaskView>, t: TaskView, r: RefIndex)
    ensures
        tasks_owe(tasks.push(t), r) == tasks_owe(tasks, r) + (match t {
            TaskView::Frame(f) => env_owes(f.env, r),
            TaskView::Init(_) => 0,
        }),
{
    assert(tasks.push(t).drop_last() =~= tasks);
}

/// Beginning a call keeps the books.
proof fn lemma_called_keeps(
    m: MachineView,
    class: ClassId,
    method: u16,
    args: Seq<Val128>,
    depth: nat,
    r: RefIndex,
    k: int,
)
    requires
        m.world.heap.wf(),
        code_fits(m.world.classes),
        plain_defaults(m.world.classes),
        m.world.heap.counts(r, tasks_owe(m.tasks, r) + world_owes(m.world, r) + k),
        -COUNT_LIMIT <= 2 * (tasks_owe(m.tasks, r) + world_owes(m.world, r) + k) <= COUNT_LIMIT,
    ensures
        kept_if_live(m.called(class, method, args, depth), r, k),
{
    let c = tasks_owe(m.tasks, r) + world_owes(m.world, r) + k;
    match body_at(m.world.classes, class, method) {
        Some(BodyView::Native(f)) => {
            let (w, res) = native_result(f, m.world, args);
            if f is StringConcat {
                if let (Ok(a), true) = (receiver_text(m.world, args), args.len() >= 2) {
                    if let Some(b) = m.world.text_of_value(args[1]) {
                        lemma_string_made_keeps(m.world, a + b, r, c);
                    }
                }
            }
            assert(w.heap.counts(r, c) && world_owes(w, r) == world_owes(m.world, r));
            if let Ok(Some(x)) = res {
                if x.tag().is_ref() {
                    lemma_deltas_count(w.heap, x.ref_index(), 1, r, c);
                }
            }
        },
        Some(BodyView::Bytecode(b)) => {
            let f = frame_of(class, method, b, args, depth);
            lemma_fresh_frame_owes_nothing(class, method, b, args, depth, r);
            lemma_pushed_tasks_owe(m.tasks, TaskView::Frame(f), r);
        },
        _ => {},
    }
}

/// Whether the books are kept for an object, if it is live.
pub open spec fn kept_if_live(m: MachineView, r: RefIndex, k: int) -> bool {
    m.world.heap.object(r) is Some ==> keeps(m, r, k)
}

/// Leaving a frame keeps the books.
proof fn lemma_left_keeps(m: MachineView, f: FrameView, result: CallResult, r: RefIndex, k: int)
    requires
        in_order(m.world, f.env, r, k + tasks_owe(m.tasks, r)),
    ensures
        kept_if_live(m.left(f, result), r, k),
{
    let c = world_owes(m.world, r) + env_owes(f.env, r) + k + tasks_owe(m.tasks, r);
    let returned = match result {
        Ok(v) => v,
        Err(_) => None,
    };
    lemma_leaving_counts(f.env, m.world.heap, returned, r, c);
}

pub proof fn lemma_counted_all_wf(h: HeapView, deltas: Seq<(RefIndex, i32)>)
    requires
        h.wf(),
    ensures
        h.all_counted(deltas).wf(),
    decreases deltas.len(),
{
    if deltas.len() > 0 {
        let rest = deltas.drop_last();
        lemma_counted_all_wf(h, rest);
        lemma_counted_wf(h.all_counted(rest), deltas.last().0, deltas.last().1 as i64);
    }
}

pub proof fn lemma_swept_wf(h: HeapView, deltas: Seq<(RefIndex, i32)>)
    requires
        h.wf(),
    ensures
        h.swept(deltas).wf(),
    decreases deltas.len(),
{
    if deltas.len() > 0 {
        let q = deltas.last().0;
        lemma_swept_wf(h, deltas.drop_last());
        let h1 = h.swept(deltas.drop_last());
        lemma_counted_wf(h1, q, 0);
        lemma_reclaimed_wf(h1.counted(q, 0).0, seq![q]);
    }
}

/// A chain that lands leaves the books in order.
pub proof fn lemma_landing_in_order(w: WorldView, env: EnvView, r: RefIndex, k: int)
    requires
        in_order(w, env, r, k),
        within(env, world_owes(w, r) + env_owes(env, r) + k, 16),
    ensures
        ({
            let (e, h) = chain_landed(env, w.heap);
            h.object(r) is Some ==> in_order(WorldView { heap: h, ..w }, e, r, k)
        }),
{
    let (e, h) = chain_landed(env, w.heap);
    let c = world_owes(w, r) + env_owes(env, r) + k;
    lemma_landing_counts(env, w.heap, r, c);
    lemma_landing_is_invisible(EnvView { deltas: Seq::empty(), ..env });
    lemma_sum_bound(env.deltas, r);
    lemma_batches_hold_less(w.heap, env.deltas, r);
    lemma_counted_all_wf(w.heap, env.deltas);
    lemma_swept_wf(w.heap.all_counted(env.deltas), env.deltas);
}

/// A frame goes on.
proof fn lemma_frame_keeps(m: MachineView, f: FrameView, r: RefIndex, k: int)
    requires
        in_order(m.world, f.env, r, k + tasks_owe(m.tasks, r)),
        m.control is Run,
    ensures
        kept_if_live(m.with_task(TaskView::Frame(f)), r, k),
{
    lemma_pushed_tasks_owe(m.tasks, TaskView::Frame(f), r);
}

/// Entering a block keeps the books.
proof fn lemma_entering_keeps(m: MachineView, f: FrameView, r: RefIndex, k: int)
    requires
        in_order(m.world, f.env, r, k + tasks_owe(m.tasks, r)),
        code_fits(m.world.classes),
        frame_fits(m.world.classes, f, m.max_depth),
        m.control is Run,
    ensures
        kept_if_live(m.entered(f), r, k),
{
    let b = frame_body(m, f);
    let block = b.method.blocks[f.block.0 as int];
    lemma_left_keeps(m, f, Err(ExecError::StepLimit), r, k);
    lemma_left_keeps(m, f, Err(ExecError::BadBlock), r, k);
    lemma_left_keeps(m, f, Err(ExecError::BadPhi), r, k);
    assert(b.wf());
    assert(block.fits(b.n_slots as int, b.method.blocks.len() as int));
    if let Some(p) = f.prev {
        if let Some(writes) = phi_writes(f.env, block.phis, p, 0, Seq::empty()) {
            lemma_phi_writes_fit(
                f.env,
                block.phis,
                p,
                0,
                Seq::empty(),
                b.n_slots as int,
            );
            lemma_all_written_owes(f.env, writes, 0, r);
        }
    }
    if let Some(env) = phis_resolved(f.env, block, f.prev) {
        let g = FrameView { env, at: Some(0), steps: (f.steps + 1) as u64, ..f };
        lemma_pushed_tasks_owe(m.tasks, TaskView::Frame(g), r);
    }
}

/// A class's state of initialisation is no reference.
proof fn lemma_init_keeps(classes: RegistryView, class: ClassId, s: InitState, r: RefIndex)
    requires
        class.0 < classes.len(),
    ensures
        statics_naming(with_init(classes, class, s), r) == statics_naming(classes, r),
{
    let k = classes[class.0 as int];
    lemma_statics_update(classes, class.0 as int, ClassView { init: s, ..k }, r);
}

proof fn lemma_init_begun_keeps(m: MachineView, class: ClassId, depth: nat, r: RefIndex, k: int)
    requires
        class.0 < m.world.classes.len(),
        keeps(m, r, k),
    ensures
        kept_if_live(m.init_begun(class, depth), r, k),
{
    lemma_init_keeps(m.world.classes, class, InitState::Initializing(0), r);
    let t = TaskView::Init(InitView { class, depth, stage: InitStage::Super });
    lemma_pushed_tasks_owe(m.tasks, t, r);
}

/// What a node comes to keeps the books.
proof fn lemma_node_done_keeps(
    m: MachineView,
    f: FrameView,
    i: nat,
    vals: Seq<Val128>,
    o: NodeOutcome,
    r: RefIndex,
    k: int,
)
    requires
        in_order(m.world, f.env, r, k + tasks_owe(m.tasks, r)),
        code_fits(m.world.classes),
        m.control is Run,
        outcome_keeps(m.world, f.env, o, r, k + tasks_owe(m.tasks, r)),
        o matches NodeOutcome::Init(class) ==> class.0 < m.world.classes.len(),
    ensures
        kept_if_live(m.node_done(f, i, vals, o), r, k),
{
    lemma_frame_keeps(m, f, r, k);
    let waiting = m.with_task(TaskView::Frame(f));
    match o {
        NodeOutcome::Next { world, env } => {
            let g = TaskView::Frame(FrameView { env, at: Some(i + 1), ..f });
            lemma_pushed_tasks_owe(m.tasks, g, r);
        },
        NodeOutcome::Fault(e) => {
            lemma_left_keeps(m, f, Err(e), r, k);
        },
        NodeOutcome::Call { class, method } => {
            lemma_called_keeps(waiting, class, method, vals, f.depth + 1, r, k);
        },
        NodeOutcome::Init(class) => {
            lemma_init_begun_keeps(waiting, class, f.depth, r, k);
        },
        NodeOutcome::Float(request) => {},
    }
}

/// The heap in which a step acts: an external operation is a fence, so the chain of its frame lands
/// first.
pub open spec fn acting_heap(m: MachineView) -> HeapView {
    match (m.control, m.tasks.last()) {
        (Control::Run, TaskView::Frame(f)) => match f.at {
            Some(i) => {
                let nodes = frame_body(m, f).method.blocks[f.block.0 as int].nodes;
                if i < nodes.len() && nodes[i as int].effect is Extern {
                    chain_landed(f.env, m.world.heap).1
                } else {
                    m.world.heap
                }
            },
            None => m.world.heap,
        },
        _ => m.world.heap,
    }
}

/// Running a node keeps the books.
proof fn lemma_noded_keeps(m: MachineView, f: FrameView, r: RefIndex, k: int)
    requires
        in_order(m.world, f.env, r, k + tasks_owe(m.tasks, r)),
        within(
            f.env,
            world_owes(m.world, r) + env_owes(f.env, r) + k + tasks_owe(m.tasks, r),
            16,
        ),
        code_fits(m.world.classes),
        frame_fits(m.world.classes, f, m.max_depth),
        at_node(m.world.classes, f),
        m.control is Run,
        acting_heap(m.with_task(TaskView::Frame(f))).object(r) is Some,
    ensures
        kept_if_live(m.noded(f, f.at->0), r, k),
{
    let i = f.at->0;
    let k1 = k + tasks_owe(m.tasks, r);
    let whole = m.with_task(TaskView::Frame(f));
    assert(frame_body(whole, f) == frame_body(m, f));
    let n = frame_body(m, f).method.blocks[f.block.0 as int].nodes[i as int];
    lemma_node_fits(m.world.classes, f, m.max_depth);
    let (env, heap) = if n.effect is Extern {
        chain_landed(f.env, m.world.heap)
    } else {
        (f.env, m.world.heap)
    };
    if n.effect is Extern {
        lemma_landing_in_order(m.world, f.env, r, k1);
        lemma_landing_is_invisible(EnvView { deltas: Seq::empty(), ..f.env });
    }
    let w = WorldView { heap, ..m.world };
    let vals = operand_values(env, n.ins);
    assert(in_order(w, env, r, k1));
    lemma_nodes_keep(w, env, f.owner, n.id, n.op, n.ty, vals, r, k1);
    lemma_node_keeps_shape(w, env, f.owner, n.id, n.op, n.ty, vals);
    lemma_node_done_keeps(
        MachineView { world: w, ..m },
        FrameView { env, ..f },
        i,
        vals,
        node_outcome(w, env, f.owner, n.id, n.op, n.ty, vals),
        r,
        k,
    );
}

/// Running a terminator keeps the books.
proof fn lemma_terminated_keeps(m: MachineView, f: FrameView, r: RefIndex, k: int)
    requires
        in_order(m.world, f.env, r, k + tasks_owe(m.tasks, r)),
        within(
            f.env,
            world_owes(m.world, r) + env_owes(f.env, r) + k + tasks_owe(m.tasks, r),
            16,
        ),
        m.control is Run,
    ensures
        kept_if_live(m.terminated(f), r, k),
{
    let k1 = k + tasks_owe(m.tasks, r);
    match frame_body(m, f).method.blocks[f.block.0 as int].term {
        Terminator::Return(Some(v)) => {
            lemma_left_keeps(m, f, Ok(Some(slot_value(f.env, v))), r, k);
        },
        Terminator::Return(None) => {
            lemma_left_keeps(m, f, Ok(None), r, k);
        },
        Terminator::Throw(_) => {
            lemma_left_keeps(m, f, Err(ExecError::Thrown), r, k);
        },
        _ => {
            lemma_landing_in_order(m.world, f.env, r, k1);
            let (env, heap) = chain_landed(f.env, m.world.heap);
            if heap.object(r) is Some {
                assert forall|to: BlockId| kept_if_live(#[trigger] m.moved(f, to), r, k) by {
                    lemma_frame_keeps(
                        MachineView { world: WorldView { heap, ..m.world }, ..m },
                        FrameView { env, block: to, prev: Some(f.block), at: None, ..f },
                        r,
                        k,
                    );
                }
            }
        },
    }
}

/// A class initialisation keeps the books.
proof fn lemma_init_stepped_keeps(m: MachineView, t: InitView, r: RefIndex, k: int)
    requires
        m.world.heap.wf(),
        code_fits(m.world.classes),
        plain_defaults(m.world.classes),
        t.class.0 < m.world.classes.len(),
        m.control is Run,
        keeps(m, r, k),
        -COUNT_LIMIT <= 2 * (outside(m, r) + k) <= COUNT_LIMIT,
    ensures
        kept_if_live(m.init_stepped(t), r, k),
{
    let c = m.world.classes[t.class.0 as int];
    let next = TaskView::Init(InitView { stage: InitStage::Clinit, ..t });
    let running = TaskView::Init(InitView { stage: InitStage::Running, ..t });
    lemma_pushed_tasks_owe(m.tasks, next, r);
    lemma_pushed_tasks_owe(m.tasks, running, r);
    lemma_init_keeps(m.world.classes, t.class, InitState::Initialized, r);
    lemma_init_keeps(m.world.classes, t.class, InitState::Failed, r);
    match t.stage {
        InitStage::Super => {
            if let Some(s) = c.super_id {
                if init_need(m.world.classes, s) is Begin {
                    lemma_init_begun_keeps(m.with_task(next), s, t.depth, r, k);
                }
            }
        },
        _ => {
            if let Some(method) = c.method_index("<clinit>"@, "()V"@) {
                lemma_called_keeps(
                    m.with_task(running),
                    t.class,
                    method,
                    Seq::empty(),
                    t.depth + 1,
                    r,
                    k,
                );
            }
        },
    }
}

/// A task that gets the result it waits for keeps the books; the result of a class initialisation is
/// dropped, so it must be no reference.
proof fn lemma_returned_keeps(m: MachineView, t: TaskView, result: CallResult, r: RefIndex, k: int)
    requires
        code_fits(m.world.classes),
        task_fits(m.world.classes, t, m.max_depth),
        awaits_call(m.world.classes, t),
        m.control == Control::Returned(result),
        keeps(m.with_task(t), r, k),
        t is Init ==> transit(m.control, r) == 0,
        t matches TaskView::Frame(f) ==> (result is Err ==> in_order(
            m.world,
            f.env,
            r,
            k + tasks_owe(m.tasks, r),
        )),
    ensures
        kept_if_live(m.returned_to(t, result), r, k),
{
    lemma_pushed_tasks_owe(m.tasks, t, r);
    match t {
        TaskView::Frame(f) => match result {
            Err(e) => {
                lemma_left_keeps(m, f, Err(e), r, k);
            },
            Ok(v) => {
                let at = f.at->0;
                lemma_node_fits(m.world.classes, f, m.max_depth);
                let n = frame_body(m, f).method.blocks[f.block.0 as int].nodes[at as int];
                let env = match v {
                    None => f.env,
                    Some(x) => {
                        let env1 = f.env.written(SlotId(n.id.offset), x);
                        if x.tag().is_ref() {
                            env1.with_delta(x.ref_index(), -1i32)
                        } else {
                            env1
                        }
                    },
                };
                if let Some(x) = v {
                    let env1 = f.env.written(SlotId(n.id.offset), x);
                    lemma_writes_are_recorded(f.env, n.id.offset, x, r);
                    lemma_with_delta_owes(env1, x.ref_index(), -1i32, r);
                }
                assert(env_owes(env, r) == env_owes(f.env, r) + result_owes(v, r));
                lemma_pushed_tasks_owe(
                    m.tasks,
                    TaskView::Frame(FrameView { env, at: Some(at + 1), ..f }),
                    r,
                );
            },
        },
        TaskView::Init(t) => {
            lemma_init_keeps(m.world.classes, t.class, InitState::Initialized, r);
            lemma_init_keeps(m.world.classes, t.class, InitState::Failed, r);
        },
    }
}

/// A task that gets the result of an initialisation keeps the books.
proof fn lemma_ready_keeps(
    m: MachineView,
    t: TaskView,
    result: Result<(), ExecError>,
    r: RefIndex,
    k: int,
)
    requires
        m.control == Control::Ready(result),
        keeps(m.with_task(t), r, k),
        t matches TaskView::Frame(f) ==> in_order(
            m.world,
            f.env,
            r,
            k + tasks_owe(m.tasks, r),
        ),
        t matches TaskView::Init(i) ==> i.class.0 < m.world.classes.len(),
    ensures
        kept_if_live(m.ready_for(t, result), r, k),
{
    lemma_pushed_tasks_owe(m.tasks, t, r);
    if let Err(e) = result {
        match t {
            TaskView::Frame(f) => {
                lemma_left_keeps(m, f, Err(e), r, k);
            },
            TaskView::Init(i) => {
                lemma_init_keeps(m.world.classes, i.class, InitState::Failed, r);
            },
        }
    }
}

/// Whether counts and pending deltas are far from what can be counted.
pub open spec fn countable(m: MachineView, r: RefIndex, k: int) -> bool {
    &&& -COUNT_LIMIT <= 16 * (outside(m, r) + k) <= COUNT_LIMIT
    &&& m.world.heap.held(r) < COUNT_LIMIT
    &&& m.tasks.len() > 0 ==> (m.tasks.last() matches TaskView::Frame(f) ==> 16
        * f.env.deltas.len() <= BATCH_LIMIT)
}

/// The classes of a registry have plain defaults.
pub proof fn lemma_defaults_are_plain(classes: RegistryView)
    requires
        registry_wf(classes),
    ensures
        plain_defaults(classes),
{
    assert forall|i: int| 0 <= i < classes.len() implies no_refs(
        (#[trigger] classes[i]).field_defaults,
    ) by {
        assert(classes[i].wf(i));
    }
}

/// Reference counts are kept exactly. A shared object's count exceeds its references - in fields,
/// statics, slots, on their way, or pinning an interned string - by as much after a step as before it,
/// if it lives through the step; what a frame has yet to land is taken into account. Only a class
/// initialiser must not return a reference, which would be dropped.
pub proof fn lemma_reference_counts_are_exact(m: MachineView, r: RefIndex, k: int)
    requires
        m.wf(),
        m.world.heap.wf(),
        registry_wf(m.world.classes),
        keeps(m, r, k),
        countable(m, r, k),
        m.tasks.len() > 0 && m.tasks.last() is Init ==> transit(m.control, r) == 0,
        acting_heap(m).object(r) is Some,
        m.stepped().world.heap.object(r) is Some,
    ensures
        keeps(m.stepped(), r, k),
{
    let classes = m.world.classes;
    lemma_defaults_are_plain(classes);
    if m.tasks.len() > 0 {
        let below = MachineView { tasks: m.tasks.drop_last(), ..m };
        let t = m.tasks.last();
        assert(below.with_task(t).tasks =~= m.tasks);
        assert(below.with_task(t) == m);
        assert(task_fits(classes, t, m.max_depth));
        if let TaskView::Frame(f) = t {
            let b = body_at(classes, f.owner, f.method)->0->Bytecode_0;
            assert(b.wf());
            assert(f.env.slots.len() <= 0xFFFF);
            if transit(m.control, r) == 0 {
                assert(in_order(m.world, f.env, r, k + tasks_owe(below.tasks, r)));
            }
        }
        match (m.control, t) {
            (Control::Run, TaskView::Frame(f)) => {
                assert(frame_body(below, f) == frame_body(m, f));
                match f.at {
                    None => {
                        lemma_entering_keeps(below, f, r, k);
                    },
                    Some(i) => {
                        let block = frame_body(below, f).method.blocks[f.block.0 as int];
                        if i < block.nodes.len() {
                            lemma_noded_keeps(below, f, r, k);
                        } else {
                            lemma_terminated_keeps(below, f, r, k);
                        }
                    },
                }
            },
            (Control::Run, TaskView::Init(t)) => {
                lemma_init_stepped_keeps(below, t, r, k);
            },
            (Control::Returned(result), _) => {
                lemma_returned_keeps(below, t, result, r, k);
            },
            (Control::Ready(result), _) => {
                lemma_ready_keeps(below, t, result, r, k);
            },
            _ => {},
        }
    }
}

/// Beginning a call keeps reference counts exact, if the result of the call before is no reference.
pub proof fn lemma_beginning_keeps_counts_exact(
    m: MachineView,
    class: ClassId,
    method: u16,
    args: Seq<Val128>,
    depth: nat,
    r: RefIndex,
    k: int,
)
    requires
        m.wf(),
        m.world.heap.wf(),
        registry_wf(m.world.classes),
        m.control is Done,
        transit(m.control, r) == 0,
        keeps(m, r, k),
        countable(m, r, k),
        m.started(class, method, args, depth).world.heap.object(r) is Some,
    ensures
        keeps(m.started(class, method, args, depth), r, k),
{
    lemma_defaults_are_plain(m.world.classes);
    let idle = MachineView { tasks: Seq::empty(), ..m };
    assert(m.tasks =~= Seq::empty());
    lemma_called_keeps(idle, class, method, args, depth, r, k);
}

/// An answer of the floating-point unit keeps reference counts exact.
pub proof fn lemma_answers_keep_counts_exact(m: MachineView, v: Val128, r: RefIndex, k: int)
    requires
        m.wf(),
        keeps(m, r, k),
    ensures
        keeps(m.answered(v), r, k),
{
    if m.control is Float {
        let classes = m.world.classes;
        let f = m.tasks.last()->Frame_0;
        let below = m.tasks.drop_last();
        assert(task_fits(classes, m.tasks.last(), m.max_depth));
        lemma_node_fits(classes, f, m.max_depth);
        let n = frame_body(m, f).method.blocks[f.block.0 as int].nodes[f.at->0 as int];
        lemma_writes_are_recorded(f.env, n.id.offset, v, r);
        let g = FrameView {
            env: f.env.written(SlotId(n.id.offset), v),
            at: Some(f.at->0 + 1),
            ..f
        };
        lemma_pushed_tasks_owe(below, TaskView::Frame(g), r);
    }
}

} // verus!
