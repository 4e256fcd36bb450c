//! Scope-exclusive objects stay with their scope: the handle of one is never stored in a field or a
//! static, passed to a call or returned, so nothing that outlives the frame that frees the object
//! names it.

use vstd::prelude::*;
use crate::classfile::constant_pool::PoolView;
use crate::diff::EscapeState;
use crate::env::{lemma_landed_len, lemma_landing_is_invisible, EnvView, LogicalFrame};
use crate::heap::{lemma_reclaiming_keeps_survivors, HeapView};
use crate::ids::{BlockId, ClassId, RefIndex, RegistryKey, SlotId, ValId};
use crate::interp::accounts::{lemma_counted_all_wf, lemma_swept_wf};
use crate::interp::error::ExecError;
use crate::interp::eval::{evaluated, Outcome};
use crate::interp::machine::{
    all_written, args_written, body_at, chain_landed, defines, field_deltas, frame_body, frame_left,
    frame_of, frame_slots, handles_freed, in_transit, init_need, instance_slot, node_outcome,
    operand_values, phi_writes, phis_resolved, slot_releases, slot_value, source_from,
    string_constant, CallResult, Control, FrameView, InitNeed, InitStage, InitView, MachineView,
    NodeOutcome, TaskView,
};
use crate::interp::soundness::{
    at_node, awaits_call, code_fits, frame_fits, lemma_node_fits, lemma_node_keeps_shape,
    lemma_same_body, same_code, task_fits,
};
use crate::ir::{BlockView, NodeView, Op, Terminator};
use crate::loader::{
    class_named, lemma_class_named, registry_wf, resolved_class, resolved_field, with_init,
    with_static, BodyView, InitState, RegistryView, Resolved,
};
use crate::native::NativeFn;
use crate::ssa::accepted::{lemma_graph_sound, with_args};
use crate::ssa::lower::{
    entered_from, inc_delta, lowered, lowered_from, lowering_of, numeric_constant, ContextView,
    LowerView, Lowering,
};
use crate::ssa::preserved::lemma_entered_keeps_nodes;
use crate::ssa::state::seal;
use crate::ssa::trace::block_start;
use crate::ssa::{
    assembled, built, coded, context_of, entry_depth, graph_of, processed_from, processed_one,
    sealable, unbuilt, BuildView, GraphView,
};
use crate::ssa::escape::{
    block_leaks, escape_closed, escapes, follows_casts, lemma_escaping_is_closed, marked,
    marked_node, merges, node_leaks, nodes_leak, passed_on,
};
use crate::stdlib::{native_result, receiver_text};
use crate::verify::insn::Insn;
use crate::verify::VerifiedView;
use crate::value::{group_values, no_refs, Tag, Val128};
use crate::world::{interned_from, WorldView};

verus! {

/// Whether a value is the handle of a scope-exclusive object.
pub open spec fn is_handle(v: Val128) -> bool {
    v.tag() is Handle
}

/// Whether no value is a handle.
pub open spec fn no_handles(vals: Seq<Val128>) -> bool {
    forall|i: int| 0 <= i < vals.len() ==> !is_handle(#[trigger] vals[i])
}

/// The value of slot `o`.
pub open spec fn slot_id(o: int) -> ValId {
    ValId { scope_level: 0, offset: o as u16 }
}

/// Whether a node makes no handle that escapes: an allocation that stays exclusive does not, and
/// constants are no references. A call is a fence.
pub open spec fn confines_node(blocks: Seq<BlockView>, n: NodeView) -> bool {
    match n.op {
        Op::New { escape, .. } => escape is S1 ==> !escapes(blocks, n.id),
        Op::Const(v) => !v.tag().is_ref(),
        Op::InvokeStatic(_) | Op::InvokeSpecial(_) | Op::InvokeVirtual(_) => n.effect is Extern,
        _ => true,
    }
}

/// Whether every node of a method makes no handle that escapes.
pub open spec fn confines(blocks: Seq<BlockView>) -> bool {
    forall|b: int, i: int|
        0 <= b < blocks.len() && 0 <= i < blocks[b].nodes.len() ==> confines_node(
            blocks,
            #[trigger] blocks[b].nodes[i],
        )
}

/// Whether every method of a registry does.
pub open spec fn all_confine(classes: RegistryView) -> bool {
    forall|class: ClassId, method: u16|
        (#[trigger] body_at(classes, class, method)) matches Some(BodyView::Bytecode(b))
            ==> confines(b.method.blocks)
}

/// Whether the slots of a frame hold handles only in values that do not escape.
pub open spec fn contained(blocks: Seq<BlockView>, env: EnvView) -> bool {
    forall|o: int|
        0 <= o < env.slots.len() && is_handle(#[trigger] env.visible()[o]) ==> !escapes(
            blocks,
            slot_id(o),
        )
}

/// Whether no field of a live object is a handle.
pub open spec fn handleless(h: HeapView) -> bool {
    forall|r: RefIndex| (#[trigger] h.object(r)) matches Some(o) ==> no_handles(o.fields)
}

/// Whether no handle is in a field, a static or an interned string.
pub open spec fn world_handleless(w: WorldView) -> bool {
    &&& handleless(w.heap)
    &&& forall|i: int| 0 <= i < w.classes.len() ==> no_handles((#[trigger] w.classes[i]).statics)
    &&& forall|i: int| 0 <= i < w.interned.len() ==> !is_handle((#[trigger] w.interned[i]).1)
}

/// Whether a task holds handles only in values that do not escape.
pub open spec fn task_contained(classes: RegistryView, t: TaskView) -> bool {
    match t {
        TaskView::Frame(f) => body_at(classes, f.owner, f.method) matches Some(
            BodyView::Bytecode(b),
        ) && contained(b.method.blocks, f.env),
        TaskView::Init(_) => true,
    }
}

/// Whether a result on its way is no handle.
pub open spec fn hands_over_none(control: Control) -> bool {
    match control {
        Control::Returned(Ok(Some(v))) => !is_handle(v),
        Control::Done(Ok(Some(v))) => !is_handle(v),
        _ => true,
    }
}

/// Whether handles are only where their frames keep them.
pub open spec fn handles_stay(m: MachineView) -> bool {
    &&& all_confine(m.world.classes)
    &&& world_handleless(m.world)
    &&& forall|i: int|
        0 <= i < m.tasks.len() ==> task_contained(m.world.classes, #[trigger] m.tasks[i])
    &&& hands_over_none(m.control)
}

proof fn lemma_write_contained(blocks: Seq<BlockView>, env: EnvView, s: u16, v: Val128)
    requires
        env.wf(),
        s < env.slots.len() <= 0x1_0000,
        contained(blocks, env),
        is_handle(v) ==> !escapes(blocks, slot_id(s as int)),
    ensures
        contained(blocks, env.written(SlotId(s), v)),
        env.written(SlotId(s), v).wf(),
        env.written(SlotId(s), v).slots.len() == env.slots.len(),
{
    let after = env.written(SlotId(s), v);
    lemma_landed_len(env.slots, env.pending);
    assert(after.pending.drop_last() =~= env.pending);
    assert(after.visible() == env.visible().update(s as int, v));
    assert forall|o: int| 0 <= o < after.slots.len() && is_handle(
        #[trigger] after.visible()[o],
    ) implies !escapes(blocks, slot_id(o)) by {
        if o != s {
            assert(is_handle(env.visible()[o]));
        }
    }
}

proof fn lemma_all_written_contained(
    blocks: Seq<BlockView>,
    env: EnvView,
    writes: Seq<(u16, Val128)>,
    k: int,
)
    requires
        env.wf(),
        0 <= k,
        env.slots.len() <= 0x1_0000,
        contained(blocks, env),
        forall|i: int|
            0 <= i < writes.len() ==> (#[trigger] writes[i]).0 < env.slots.len() && (is_handle(
                writes[i].1,
            ) ==> !escapes(blocks, slot_id(writes[i].0 as int))),
    ensures
        contained(blocks, all_written(env, writes, k)),
    decreases writes.len() - k,
{
    if k < writes.len() {
        assert(writes[k].0 < env.slots.len());
        lemma_write_contained(blocks, env, writes[k].0, writes[k].1);
        lemma_all_written_contained(
            blocks,
            env.written(SlotId(writes[k].0), writes[k].1),
            writes,
            k + 1,
        );
    }
}

proof fn lemma_args_contained(
    blocks: Seq<BlockView>,
    env: EnvView,
    vals: Seq<ValId>,
    args: Seq<Val128>,
    k: int,
)
    requires
        env.wf(),
        0 <= k,
        env.slots.len() <= 0x1_0000,
        contained(blocks, env),
        vals.len() == args.len(),
        no_handles(args),
        forall|i: int| 0 <= i < vals.len() ==> (#[trigger] vals[i]).offset < env.slots.len(),
    ensures
        contained(blocks, args_written(env, vals, args, k)),
    decreases vals.len() - k,
{
    if k < vals.len() {
        assert(vals[k].offset < env.slots.len());
        assert(!is_handle(args[k]));
        lemma_write_contained(blocks, env, vals[k].offset, args[k]);
        lemma_args_contained(
            blocks,
            env.written(SlotId(vals[k].offset), args[k]),
            vals,
            args,
            k + 1,
        );
    }
}

/// Landing moves no value.
proof fn lemma_landed_contained(blocks: Seq<BlockView>, env: EnvView, heap: HeapView)
    requires
        env.wf(),
        contained(blocks, env),
    ensures
        contained(blocks, chain_landed(env, heap).0),
        chain_landed(env, heap).0.wf(),
        chain_landed(env, heap).0.slots.len() == env.slots.len(),
        chain_landed(env, heap).0.visible() == env.visible(),
{
    lemma_landing_is_invisible(EnvView { deltas: Seq::empty(), ..env });
    let after = chain_landed(env, heap).0;
    assert(after.visible() == env.visible());
    assert forall|o: int| 0 <= o < after.slots.len() && is_handle(
        #[trigger] after.visible()[o],
    ) implies !escapes(blocks, slot_id(o)) by {
        assert(is_handle(env.visible()[o]));
    }
}

/// Whether what lives on in a heap has the fields that it had in another.
pub open spec fn keeps_fields(a: HeapView, b: HeapView) -> bool {
    forall|r: RefIndex|
        (#[trigger] b.object(r)) matches Some(o) ==> (a.object(r) matches Some(p) && o.fields
            == p.fields)
}

proof fn lemma_counted_keeps_fields(h: HeapView, q: RefIndex, delta: i64)
    ensures
        keeps_fields(h, h.counted(q, delta).0),
{
}

proof fn lemma_all_counted_keeps_fields(h: HeapView, deltas: Seq<(RefIndex, i32)>)
    ensures
        keeps_fields(h, h.all_counted(deltas)),
    decreases deltas.len(),
{
    if deltas.len() > 0 {
        let rest = deltas.drop_last();
        lemma_all_counted_keeps_fields(h, rest);
        lemma_counted_keeps_fields(
            h.all_counted(rest),
            deltas.last().0,
            deltas.last().1 as i64,
        );
    }
}

proof fn lemma_reclaimed_keeps_fields(h: HeapView, work: Seq<RefIndex>)
    ensures
        keeps_fields(h, h.reclaimed(work)),
{
    assert forall|r: RefIndex| (#[trigger] h.reclaimed(work).object(r)) is Some implies h.object(
        r,
    ) is Some && h.reclaimed(work).object(r)->0.fields == h.object(r)->0.fields by {
        lemma_reclaiming_keeps_survivors(h, work, r);
    }
}

proof fn lemma_swept_keeps_fields(h: HeapView, deltas: Seq<(RefIndex, i32)>)
    ensures
        keeps_fields(h, h.swept(deltas)),
    decreases deltas.len(),
{
    if deltas.len() > 0 {
        let q = deltas.last().0;
        lemma_swept_keeps_fields(h, deltas.drop_last());
        let h1 = h.swept(deltas.drop_last());
        lemma_counted_keeps_fields(h1, q, 0);
        lemma_reclaimed_keeps_fields(h1.counted(q, 0).0, seq![q]);
    }
}

proof fn lemma_batch_keeps_fields(h: HeapView, deltas: Seq<(RefIndex, i32)>)
    ensures
        keeps_fields(h, h.batch_applied(deltas)),
{
    lemma_all_counted_keeps_fields(h, deltas);
    lemma_swept_keeps_fields(h.all_counted(deltas), deltas);
}

proof fn lemma_delta_keeps_fields(h: HeapView, q: RefIndex, delta: i64)
    ensures
        keeps_fields(h, h.delta_applied(q, delta)),
{
    lemma_counted_keeps_fields(h, q, delta);
    lemma_reclaimed_keeps_fields(h.counted(q, delta).0, seq![q]);
}

proof fn lemma_freed_keeps_fields(h: HeapView, slots: Seq<Val128>, n: int)
    ensures
        keeps_fields(h, handles_freed(h, slots, n)),
    decreases n,
{
    if n > 0 {
        lemma_freed_keeps_fields(h, slots, n - 1);
        let h1 = handles_freed(h, slots, n - 1);
        lemma_reclaimed_keeps_fields(h1, seq![slots[n - 1].ref_index()]);
    }
}

/// Leaving a frame puts no handle into a field.
proof fn lemma_left_handleless(env: EnvView, heap: HeapView, returned: Option<Val128>)
    requires
        handleless(heap),
    ensures
        handleless(frame_left(env, heap, returned)),
        handleless(chain_landed(env, heap).1),
{
    let (env1, heap1) = chain_landed(env, heap);
    let n = env1.slots.len() as int;
    let batch = in_transit(returned) + slot_releases(env1.slots, n);
    lemma_batch_keeps_fields(heap, env.deltas);
    lemma_batch_keeps_fields(heap1, batch);
    lemma_freed_keeps_fields(heap1.batch_applied(batch), env1.slots, n);
}

/// What a block lets escape does escape.
proof fn lemma_leak_escapes(blocks: Seq<BlockView>, b: int, v: ValId)
    requires
        0 <= b < blocks.len(),
        block_leaks(blocks[b], v),
    ensures
        escapes(blocks, v),
{
    lemma_escaping_is_closed(blocks);
    let s = Set::new(|v: ValId| escapes(blocks, v));
    assert(s.contains(v));
}

/// A value that escapes is in no frame a handle.
proof fn lemma_escaping_slot(blocks: Seq<BlockView>, env: EnvView, v: ValId)
    requires
        contained(blocks, env),
        v.fits(env.slots.len() as int),
        escapes(blocks, v),
    ensures
        !is_handle(slot_value(env, v)),
{
    assert(slot_id(v.offset as int) == v);
}

/// Whether an outcome leaves handles where they may be.
pub open spec fn outcome_stays(
    w: WorldView,
    blocks: Seq<BlockView>,
    env: EnvView,
    o: NodeOutcome,
) -> bool {
    match o {
        NodeOutcome::Next { world, env: after } => {
            &&& world_handleless(world)
            &&& contained(blocks, after)
        },
        _ => true,
    }
}

proof fn lemma_defines_stays(
    w: WorldView,
    blocks: Seq<BlockView>,
    env: EnvView,
    w1: WorldView,
    id: ValId,
    v: Val128,
)
    requires
        env.wf(),
        env.slots.len() <= 0x1_0000,
        id.fits(env.slots.len() as int),
        contained(blocks, env),
        world_handleless(w1),
        is_handle(v) ==> !escapes(blocks, id),
    ensures
        outcome_stays(w, blocks, env, defines(w1, env, id, v)),
{
    assert(slot_id(id.offset as int) == id);
    lemma_write_contained(blocks, env, id.offset, v);
}

/// An object is as it was or new.
proof fn lemma_allocated_handleless(
    h: HeapView,
    class: ClassId,
    escape: EscapeState,
    fields: Seq<Val128>,
)
    requires
        h.wf(),
        handleless(h),
        no_refs(fields),
    ensures
        handleless(h.allocated(class, escape, fields)),
        no_handles(fields),
{
    let h1 = h.allocated(class, escape, fields);
    assert forall|r: RefIndex| (#[trigger] h1.object(r)) is Some implies no_handles(
        h1.object(r)->0.fields,
    ) by {
        if h.free.len() > 0 {
            assert(h.free[h.free.len() - 1] == h.free.last());
            if r.position() != h.free.last() {
                assert(h.object(r) is Some);
            }
        } else if r.position() < h.slots.len() {
            assert(h.object(r) is Some);
        }
    }
}

/// What an operation computes is no reference, unless it is a constant that is one.
pub proof fn lemma_computed_is_no_reference(op: Op, ty: Tag, vals: Seq<Val128>)
    ensures
        evaluated(op, ty, vals) matches Outcome::Value(v) ==> (op is Const && op->Const_0 == v)
            || !v.tag().is_ref(),
{
    broadcast use group_values;

}

/// What a world and a frame must be like for a node to run.
pub open spec fn node_ready(w: WorldView, blocks: Seq<BlockView>, env: EnvView, n: NodeView) -> bool {
    &&& registry_wf(w.classes)
    &&& w.heap.wf()
    &&& world_handleless(w)
    &&& env.wf()
    &&& env.slots.len() <= 0x1_0000
    &&& contained(blocks, env)
    &&& n.fits(env.slots.len() as int)
    &&& confines_node(blocks, n)
    &&& exists|b: int, i: int|
        0 <= b < blocks.len() && 0 <= i < blocks[b].nodes.len() && #[trigger] blocks[b].nodes[i]
            == n
}

/// A value that a node leaks is no handle.
pub proof fn lemma_leaked_operand(
    w: WorldView,
    blocks: Seq<BlockView>,
    env: EnvView,
    n: NodeView,
    j: int,
)
    requires
        node_ready(w, blocks, env, n),
        0 <= j < n.ins.len(),
        node_leaks(n).contains(n.ins[j]),
    ensures
        !is_handle(operand_values(env, n.ins)[j]),
{
    let (b, i) = choose|b: int, i: int|
        0 <= b < blocks.len() && 0 <= i < blocks[b].nodes.len() && #[trigger] blocks[b].nodes[i]
            == n;
    assert(nodes_leak(blocks[b].nodes, blocks[b].nodes.len() as int, n.ins[j]));
    lemma_leak_escapes(blocks, b, n.ins[j]);
    lemma_escaping_slot(blocks, env, n.ins[j]);
}

/// Making a string makes no handle.
proof fn lemma_string_made_stays(w: WorldView, text: Seq<char>)
    requires
        registry_wf(w.classes),
        w.heap.wf(),
        world_handleless(w),
    ensures
        world_handleless(w.string_made(text).0),
        w.string_made(text).0.classes == w.classes,
        w.string_made(text).1 matches Ok(v) ==> !is_handle(v),
{
    broadcast use group_values;

    if let Some(class) = class_named(w.classes, "java/lang/String"@) {
        if w.heap.live() < w.heap.limit {
            lemma_class_named(w.classes, "java/lang/String"@);
            let k = w.classes[class.0 as int];
            assert(k.wf(class.0 as int));
            lemma_allocated_handleless(w.heap, class, EscapeState::S2, k.field_defaults);
            let h1 = w.heap.allocated(class, EscapeState::S2, k.field_defaults);
            let h2 = w.string_made(text).0.heap;
            assert forall|r: RefIndex| (#[trigger] h2.object(r)) is Some implies no_handles(
                h2.object(r)->0.fields,
            ) by {
                if r.position() != w.heap.next_ref().position() {
                    assert(h2.object(r) == h1.object(r));
                } else if h1.object(w.heap.next_ref()) is None {
                    assert(h2.object(r) == h1.object(r));
                }
            }
        }
    }
}

proof fn lemma_heap_nodes_stay(
    w: WorldView,
    blocks: Seq<BlockView>,
    env: EnvView,
    owner: ClassId,
    n: NodeView,
)
    requires
        node_ready(w, blocks, env, n),
        n.op is New || n.op is GetField || n.op is PutField || n.op is LoadString,
    ensures
        outcome_stays(
            w,
            blocks,
            env,
            node_outcome(w, env, owner, n.id, n.op, n.ty, operand_values(env, n.ins)),
        ),
{
    broadcast use group_values;

    let vals = operand_values(env, n.ins);
    match n.op {
        Op::New { class_cp, escape } => {
            if let Some(class) = resolved_class(w.classes, owner, class_cp) {
                if init_need(w.classes, class) is Nothing && w.heap.live() < w.heap.limit {
                    let k = w.classes[class.0 as int];
                    assert(k.wf(class.0 as int));
                    lemma_allocated_handleless(w.heap, class, escape, k.field_defaults);
                    let w1 = WorldView {
                        heap: w.heap.allocated(class, escape, k.field_defaults),
                        ..w
                    };
                    let v = if escape is S1 {
                        Val128::handle(w.heap.next_ref())
                    } else {
                        Val128::ptr(w.heap.next_ref())
                    };
                    lemma_defines_stays(w, blocks, env, w1, n.id, v);
                }
            }
        },
        Op::GetField(cp) => {
            if let Some(slot) = instance_slot(w, owner, cp) {
                if vals.len() > 0 && w.heap.has_field(vals[0].ref_index(), slot as int) {
                    let o = w.heap.object(vals[0].ref_index())->0;
                    assert(!is_handle(o.fields[slot as int]));
                    lemma_defines_stays(w, blocks, env, w, n.id, o.fields[slot as int]);
                }
            }
        },
        Op::PutField(cp) => {
            if vals.len() >= 2 {
                lemma_leaked_operand(w, blocks, env, n, 1);
                let q = vals[0].ref_index();
                if let Some(slot) = instance_slot(w, owner, cp) {
                    if w.heap.has_field(q, slot as int) {
                        let h1 = w.heap.with_field(q, slot as int, vals[1]);
                        assert forall|r: RefIndex| (#[trigger] h1.object(
                            r,
                        )) is Some implies no_handles(h1.object(r)->0.fields) by {
                            assert(w.heap.object(r) is Some);
                        }
                        let o = w.heap.object(q)->0;
                        let e = field_deltas(env, vals[1], o.fields[slot as int]);
                        assert(e.visible() == env.visible());
                        assert(contained(blocks, e)) by {
                            assert forall|o: int| 0 <= o < e.slots.len() && is_handle(
                                #[trigger] e.visible()[o],
                            ) implies !escapes(blocks, slot_id(o)) by {
                                assert(is_handle(env.visible()[o]));
                            }
                        }
                    }
                }
            }
        },
        Op::LoadString(cp) => {
            if let Some(text) = string_constant(w, owner, cp) {
                lemma_string_made_stays(w, text);
                if let (w1, Ok(v)) = w.string_interned(text) {
                    lemma_interned_is_no_handle(w, text, 0);
                    if interned_from(w.interned, text, 0) is None {
                        let w0 = w.string_made(text).0;
                        lemma_delta_keeps_fields(w0.heap, v.ref_index(), 1);
                    }
                    lemma_defines_stays(w, blocks, env, w1, n.id, v);
                }
            }
        },
        _ => {},
    }
}

proof fn lemma_interned_is_no_handle(w: WorldView, text: Seq<char>, i: int)
    requires
        world_handleless(w),
        0 <= i,
    ensures
        interned_from(w.interned, text, i) matches Some(v) ==> !is_handle(v),
    decreases w.interned.len() - i,
{
    if i < w.interned.len() {
        assert(!is_handle(w.interned[i].1));
        lemma_interned_is_no_handle(w, text, i + 1);
    }
}

proof fn lemma_static_nodes_stay(
    w: WorldView,
    blocks: Seq<BlockView>,
    env: EnvView,
    owner: ClassId,
    n: NodeView,
)
    requires
        node_ready(w, blocks, env, n),
        n.op is GetStatic || n.op is PutStatic,
    ensures
        outcome_stays(
            w,
            blocks,
            env,
            node_outcome(w, env, owner, n.id, n.op, n.ty, operand_values(env, n.ins)),
        ),
{
    let vals = operand_values(env, n.ins);
    let (cp, is_write) = match n.op {
        Op::GetStatic(cp) => (cp, false),
        Op::PutStatic(cp) => (cp, true),
        _ => (0u16, false),
    };
    if let Some(Resolved::StaticField { class, slot }) = resolved_field(w.classes, owner, cp) {
        if init_need(w.classes, class) is Nothing {
            let kl = w.classes[class.0 as int];
            if slot < kl.statics.len() {
                let old_value = kl.statics[slot as int];
                assert(!is_handle(old_value));
                lemma_defines_stays(w, blocks, env, w, n.id, old_value);
                if is_write && vals.len() > 0 {
                    assert(n.ins.contains(n.ins[0]));
                    lemma_leaked_operand(w, blocks, env, n, 0);
                    let w1 = WorldView {
                        classes: with_static(w.classes, class, slot as int, vals[0]),
                        ..w
                    };
                    assert(world_handleless(w1)) by {
                        assert forall|i: int| 0 <= i < w1.classes.len() implies no_handles(
                            (#[trigger] w1.classes[i]).statics,
                        ) by {
                            assert(no_handles(w.classes[i].statics));
                        }
                    }
                    let e = field_deltas(env, vals[0], old_value);
                    assert(e.visible() == env.visible());
                    assert(contained(blocks, e)) by {
                        assert forall|o: int| 0 <= o < e.slots.len() && is_handle(
                            #[trigger] e.visible()[o],
                        ) implies !escapes(blocks, slot_id(o)) by {
                            assert(is_handle(env.visible()[o]));
                        }
                    }
                }
            }
        }
    }
}

/// A cast that escapes has an operand that does.
proof fn lemma_cast_operand(blocks: Seq<BlockView>, n: NodeView, b: int, i: int)
    requires
        0 <= b < blocks.len(),
        0 <= i < blocks[b].nodes.len(),
        blocks[b].nodes[i] == n,
        n.op is CheckCast,
        n.ins.len() > 0,
        escapes(blocks, n.id),
    ensures
        escapes(blocks, n.ins[0]),
{
    lemma_escaping_is_closed(blocks);
    let s = Set::new(|v: ValId| escapes(blocks, v));
    assert(follows_casts(blocks[b].nodes, s, blocks[b].nodes.len() as int));
    assert(s.contains(blocks[b].nodes[i].id));
    assert(passed_on(blocks[b].nodes[i]) == Some(n.ins[0]));
    assert(s.contains(n.ins[0]));
}

/// Running a node leaves handles where they may be.
proof fn lemma_nodes_stay(
    w: WorldView,
    blocks: Seq<BlockView>,
    env: EnvView,
    owner: ClassId,
    n: NodeView,
)
    requires
        node_ready(w, blocks, env, n),
    ensures
        outcome_stays(
            w,
            blocks,
            env,
            node_outcome(w, env, owner, n.id, n.op, n.ty, operand_values(env, n.ins)),
        ),
{
    let vals = operand_values(env, n.ins);
    match n.op {
        Op::New { .. } | Op::GetField(_) | Op::PutField(_) | Op::LoadString(_) => {
            lemma_heap_nodes_stay(w, blocks, env, owner, n);
        },
        Op::GetStatic(_) | Op::PutStatic(_) => {
            lemma_static_nodes_stay(w, blocks, env, owner, n);
        },
        Op::InvokeStatic(_) | Op::InvokeSpecial(_) | Op::InvokeVirtual(_) => {},
        Op::InstanceOf(_) => {
            assert(!is_handle(Val128::from_i32(1)) && !is_handle(Val128::from_i32(0))) by {
                broadcast use group_values;

            }
            lemma_defines_stays(w, blocks, env, w, n.id, Val128::from_i32(1));
            lemma_defines_stays(w, blocks, env, w, n.id, Val128::from_i32(0));
        },
        Op::CheckCast(_) => {
            if vals.len() > 0 {
                let (b, i) = choose|b: int, i: int|
                    0 <= b < blocks.len() && 0 <= i < blocks[b].nodes.len()
                        && #[trigger] blocks[b].nodes[i] == n;
                if is_handle(vals[0]) && escapes(blocks, n.id) {
                    lemma_cast_operand(blocks, n, b, i);
                    lemma_escaping_slot(blocks, env, n.ins[0]);
                }
                lemma_defines_stays(w, blocks, env, w, n.id, vals[0]);
            }
        },
        _ => {
            lemma_computed_is_no_reference(n.op, n.ty, vals);
            if let Outcome::Value(v) = evaluated(n.op, n.ty, vals) {
                lemma_defines_stays(w, blocks, env, w, n.id, v);
            }
        },
    }
}

/// Whether all tasks hold handles only in values that do not escape.
pub open spec fn tasks_contained(m: MachineView) -> bool {
    forall|i: int|
        0 <= i < m.tasks.len() ==> task_contained(m.world.classes, #[trigger] m.tasks[i])
}

proof fn lemma_pushed_contained(m: MachineView, t: TaskView)
    requires
        tasks_contained(m),
        task_contained(m.world.classes, t),
    ensures
        tasks_contained(m.with_task(t)),
{
    let after = m.with_task(t);
    assert forall|i: int| 0 <= i < after.tasks.len() implies task_contained(
        after.world.classes,
        #[trigger] after.tasks[i],
    ) by {
        if i < m.tasks.len() {
            assert(after.tasks[i] == m.tasks[i]);
        }
    }
}

/// Tasks stay as they are where code does.
proof fn lemma_same_code_contained(a: MachineView, b: MachineView)
    requires
        tasks_contained(a),
        a.tasks == b.tasks,
        same_code(a.world.classes, b.world.classes),
    ensures
        tasks_contained(b),
{
    assert forall|i: int| 0 <= i < b.tasks.len() implies task_contained(
        b.world.classes,
        #[trigger] b.tasks[i],
    ) by {
        assert(task_contained(a.world.classes, a.tasks[i]));
        if let TaskView::Frame(f) = a.tasks[i] {
            lemma_same_body(a.world.classes, b.world.classes, f.owner, f.method);
        }
    }
}

proof fn lemma_same_code_confines(a: RegistryView, b: RegistryView)
    requires
        all_confine(a),
        same_code(a, b),
    ensures
        all_confine(b),
{
    assert forall|class: ClassId, method: u16|
        (#[trigger] body_at(b, class, method)) is Some && body_at(b, class, method)->0
            is Bytecode implies confines(
        body_at(b, class, method)->0->Bytecode_0.method.blocks,
    ) by {
        lemma_same_body(a, b, class, method);
    }
}

/// Leaving a frame hands over no handle.
proof fn lemma_left_stays(m: MachineView, f: FrameView, result: CallResult)
    requires
        all_confine(m.world.classes),
        world_handleless(m.world),
        tasks_contained(m),
        result matches Ok(Some(v)) ==> !is_handle(v),
    ensures
        handles_stay(m.left(f, result)),
{
    let returned = match result {
        Ok(v) => v,
        Err(_) => None,
    };
    lemma_left_handleless(f.env, m.world.heap, returned);
    lemma_same_code_contained(m, m.left(f, result));
}

/// A native method hands over no handle, if it is given none.
proof fn lemma_native_stays(f: NativeFn, w: WorldView, args: Seq<Val128>)
    requires
        registry_wf(w.classes),
        w.heap.wf(),
        world_handleless(w),
        no_handles(args),
    ensures
        world_handleless(native_result(f, w, args).0),
        native_result(f, w, args).0.classes == w.classes,
        native_result(f, w, args).1 matches Ok(Some(v)) ==> !is_handle(v),
{
    broadcast use group_values;

    if f is StringConcat {
        if let (Ok(a), true) = (receiver_text(w, args), args.len() >= 2) {
            if let Some(b) = w.text_of_value(args[1]) {
                lemma_string_made_stays(w, a + b);
            }
        }
    } else if let NativeFn::StringToString = f {
        if args.len() > 0 {
            assert(!is_handle(args[0]));
        }
    }
}

/// Beginning a call passes no handle.
proof fn lemma_called_stays(
    m: MachineView,
    class: ClassId,
    method: u16,
    args: Seq<Val128>,
    depth: nat,
)
    requires
        registry_wf(m.world.classes),
        code_fits(m.world.classes),
        m.world.heap.wf(),
        all_confine(m.world.classes),
        world_handleless(m.world),
        tasks_contained(m),
        no_handles(args),
    ensures
        handles_stay(m.called(class, method, args, depth)),
{
    broadcast use group_values;

    let after = m.called(class, method, args, depth);
    match body_at(m.world.classes, class, method) {
        Some(BodyView::Native(f)) => {
            let (w, res) = native_result(f, m.world, args);
            lemma_native_stays(f, m.world, args);
            if let Ok(Some(x)) = res {
                lemma_delta_keeps_fields(w.heap, x.ref_index(), 1);
            }
            lemma_same_code_contained(m, after);
        },
        Some(BodyView::Bytecode(b)) => {
            assert(b.wf());
            if depth <= m.max_depth && args.len() == b.arg_vals.len() {
                let fresh = EnvView::fresh(frame_slots(b), LogicalFrame(method as u32));
                assert(fresh.visible() =~= fresh.slots);
                assert forall|i: int| 0 <= i < b.arg_vals.len() implies (
                #[trigger] b.arg_vals[i]).offset < fresh.slots.len() by {
                    assert(b.arg_vals[i].fits(b.n_slots as int));
                }
                lemma_args_contained(b.method.blocks, fresh, b.arg_vals, args, 0);
                let f = frame_of(class, method, b, args, depth);
                lemma_pushed_contained(m, TaskView::Frame(f));
                lemma_same_code_contained(m.with_task(TaskView::Frame(f)), after);
            } else {
                lemma_same_code_contained(m, after);
            }
        },
        _ => {
            lemma_same_code_contained(m, after);
        },
    }
}

/// A φ that escapes has sources that do.
proof fn lemma_phi_sources(blocks: Seq<BlockView>, b: int, j: int, k: int)
    requires
        0 <= b < blocks.len(),
        0 <= j < blocks[b].phis.len(),
        0 <= k < blocks[b].phis[j].sources.len(),
        escapes(blocks, blocks[b].phis[j].slot),
    ensures
        escapes(blocks, blocks[b].phis[j].sources[k].1),
{
    lemma_escaping_is_closed(blocks);
    let s = Set::new(|v: ValId| escapes(blocks, v));
    let v = blocks[b].phis[j].sources[k].1;
    assert(merges(blocks, b, j, v));
    assert(s.contains(blocks[b].phis[j].slot));
    assert(s.contains(v));
}

proof fn lemma_source_is_one(sources: Seq<(BlockId, ValId)>, p: BlockId, i: int)
    requires
        0 <= i,
        source_from(sources, p, i) is Some,
    ensures
        exists|k: int|
            0 <= k < sources.len() && (#[trigger] sources[k]).1 == source_from(sources, p, i)->0,
    decreases sources.len() - i,
{
    if i < sources.len() {
        if sources[i].0 == p {
            assert(sources[i].1 == source_from(sources, p, i)->0);
        } else {
            lemma_source_is_one(sources, p, i + 1);
        }
    }
}

/// Resolving φ puts no handle into a value that escapes.
proof fn lemma_phi_writes_stay(
    blocks: Seq<BlockView>,
    b: int,
    env: EnvView,
    p: BlockId,
    k: int,
    writes: Seq<(u16, Val128)>,
)
    requires
        0 <= b < blocks.len(),
        0 <= k,
        contained(blocks, env),
        forall|i: int|
            0 <= i < blocks[b].phis.len() ==> (#[trigger] blocks[b].phis[i]).fits(
                env.slots.len() as int,
            ),
        forall|i: int|
            0 <= i < writes.len() ==> (#[trigger] writes[i]).0 < env.slots.len() && (is_handle(
                writes[i].1,
            ) ==> !escapes(blocks, slot_id(writes[i].0 as int))),
    ensures
        phi_writes(env, blocks[b].phis, p, k, writes) matches Some(ws) ==> forall|i: int|
            0 <= i < ws.len() ==> (#[trigger] ws[i]).0 < env.slots.len() && (is_handle(ws[i].1)
                ==> !escapes(blocks, slot_id(ws[i].0 as int))),
    decreases blocks[b].phis.len() - k,
{
    let phis = blocks[b].phis;
    if k < phis.len() {
        assert(phis[k].fits(env.slots.len() as int));
        if let Some(v) = source_from(phis[k].sources, p, 0) {
            lemma_source_is_one(phis[k].sources, p, 0);
            let x = choose|x: int|
                0 <= x < phis[k].sources.len() && (#[trigger] phis[k].sources[x]).1 == v;
            assert(v.fits(env.slots.len() as int));
            let one = (phis[k].slot.offset, slot_value(env, v));
            assert(slot_id(phis[k].slot.offset as int) == phis[k].slot);
            if is_handle(one.1) && escapes(blocks, phis[k].slot) {
                lemma_phi_sources(blocks, b, k, x);
                lemma_escaping_slot(blocks, env, v);
            }
            let more = writes.push(one);
            assert forall|i: int| 0 <= i < more.len() implies (
            #[trigger] more[i]).0 < env.slots.len() && (is_handle(more[i].1) ==> !escapes(
                blocks,
                slot_id(more[i].0 as int),
            )) by {
                if i < writes.len() {
                    assert(more[i] == writes[i]);
                }
            }
            lemma_phi_writes_stay(blocks, b, env, p, k + 1, more);
        }
    }
}

/// What a frame taken off the stack must be like.
pub open spec fn frame_ready(m: MachineView, f: FrameView) -> bool {
    &&& m.control is Run
    &&& registry_wf(m.world.classes)
    &&& code_fits(m.world.classes)
    &&& m.world.heap.wf()
    &&& all_confine(m.world.classes)
    &&& world_handleless(m.world)
    &&& tasks_contained(m)
    &&& frame_fits(m.world.classes, f, m.max_depth)
    &&& task_contained(m.world.classes, TaskView::Frame(f))
}

proof fn lemma_entered_stays(m: MachineView, f: FrameView)
    requires
        frame_ready(m, f),
    ensures
        handles_stay(m.entered(f)),
{
    let b = frame_body(m, f);
    let blocks = b.method.blocks;
    let c = f.block.0 as int;
    lemma_left_stays(m, f, Err(ExecError::StepLimit));
    lemma_left_stays(m, f, Err(ExecError::BadBlock));
    lemma_left_stays(m, f, Err(ExecError::BadPhi));
    assert(b.wf());
    assert(blocks[c].fits(b.n_slots as int, blocks.len() as int));
    assert forall|i: int| 0 <= i < blocks[c].phis.len() implies (
    #[trigger] blocks[c].phis[i]).fits(f.env.slots.len() as int) by {
        assert(blocks[c].phis[i].fits(b.n_slots as int));
    }
    if let Some(p) = f.prev {
        lemma_phi_writes_stay(blocks, c, f.env, p, 0, Seq::empty());
        if let Some(ws) = phi_writes(f.env, blocks[c].phis, p, 0, Seq::empty()) {
            lemma_all_written_contained(blocks, f.env, ws, 0);
        }
    }
    if let Some(env) = phis_resolved(f.env, blocks[c], f.prev) {
        let g = FrameView { env, at: Some(0), steps: (f.steps + 1) as u64, ..f };
        lemma_pushed_contained(m, TaskView::Frame(g));
    }
}

proof fn lemma_init_begun_stays(m: MachineView, class: ClassId, depth: nat)
    requires
        class.0 < m.world.classes.len(),
        all_confine(m.world.classes),
        world_handleless(m.world),
        tasks_contained(m),
        m.control is Run,
    ensures
        handles_stay(m.init_begun(class, depth)),
{
    let t = TaskView::Init(InitView { class, depth, stage: InitStage::Super });
    lemma_init_stays(m.world, class, InitState::Initializing(0));
    lemma_pushed_contained(m, t);
    lemma_same_code_contained(m.with_task(t), m.init_begun(class, depth));
}

/// A class's state of initialisation is no handle.
proof fn lemma_init_stays(w: WorldView, class: ClassId, s: InitState)
    requires
        class.0 < w.classes.len(),
        all_confine(w.classes),
        world_handleless(w),
    ensures
        same_code(w.classes, with_init(w.classes, class, s)),
        all_confine(with_init(w.classes, class, s)),
        world_handleless(WorldView { classes: with_init(w.classes, class, s), ..w }),
{
    let after = with_init(w.classes, class, s);
    assert(same_code(w.classes, after));
    lemma_same_code_confines(w.classes, after);
    assert forall|i: int| 0 <= i < after.len() implies no_handles(
        (#[trigger] after[i]).statics,
    ) by {
        assert(no_handles(w.classes[i].statics));
    }
}

proof fn lemma_init_ended_stays(m: MachineView, class: ClassId, result: Result<(), ExecError>)
    requires
        class.0 < m.world.classes.len(),
        all_confine(m.world.classes),
        world_handleless(m.world),
        tasks_contained(m),
    ensures
        handles_stay(m.init_ended(class, result)),
{
    lemma_init_stays(m.world, class, InitState::Initialized);
    lemma_init_stays(m.world, class, InitState::Failed);
    lemma_same_code_contained(m, m.init_ended(class, result));
}

/// What a node comes to leaves handles where they may be.
proof fn lemma_node_done_stays(
    m: MachineView,
    f: FrameView,
    i: nat,
    n: NodeView,
    vals: Seq<Val128>,
    o: NodeOutcome,
)
    requires
        frame_ready(m, f),
        node_ready(m.world, frame_body(m, f).method.blocks, f.env, n),
        vals == operand_values(f.env, n.ins),
        o == node_outcome(m.world, f.env, f.owner, n.id, n.op, n.ty, vals),
    ensures
        handles_stay(m.node_done(f, i, vals, o)),
{
    let blocks = frame_body(m, f).method.blocks;
    lemma_nodes_stay(m.world, blocks, f.env, f.owner, n);
    lemma_node_keeps_shape(m.world, f.env, f.owner, n.id, n.op, n.ty, vals);
    let waiting = m.with_task(TaskView::Frame(f));
    lemma_pushed_contained(m, TaskView::Frame(f));
    match o {
        NodeOutcome::Next { world, env } => {
            let g = TaskView::Frame(FrameView { env, at: Some(i + 1), ..f });
            let after = MachineView { world, ..m };
            lemma_same_code_confines(m.world.classes, world.classes);
            lemma_same_code_contained(m, after);
            lemma_same_body(m.world.classes, world.classes, f.owner, f.method);
            lemma_pushed_contained(after, g);
        },
        NodeOutcome::Fault(e) => {
            lemma_left_stays(m, f, Err(e));
        },
        NodeOutcome::Call { class, method } => {
            assert(no_handles(vals)) by {
                assert forall|j: int| 0 <= j < vals.len() implies !is_handle(
                    #[trigger] vals[j],
                ) by {
                    assert(n.ins.contains(n.ins[j]));
                    lemma_leaked_operand(m.world, blocks, f.env, n, j);
                }
            }
            lemma_called_stays(waiting, class, method, vals, f.depth + 1);
        },
        NodeOutcome::Init(class) => {
            lemma_init_begun_stays(waiting, class, f.depth);
        },
        NodeOutcome::Float(request) => {
            lemma_same_code_contained(waiting, waiting.then_do(Control::Float(request)));
        },
    }
}

/// A node of a frame that is ready is ready, once an external operation has had the chain landed.
pub proof fn lemma_node_is_ready(m: MachineView, f: FrameView)
    requires
        frame_ready(m, f),
        at_node(m.world.classes, f),
    ensures
        ({
            let blocks = frame_body(m, f).method.blocks;
            let n = blocks[f.block.0 as int].nodes[f.at->0 as int];
            let (env, heap) = if n.effect is Extern {
                chain_landed(f.env, m.world.heap)
            } else {
                (f.env, m.world.heap)
            };
            node_ready(WorldView { heap, ..m.world }, blocks, env, n)
        }),
{
    let b = frame_body(m, f);
    let blocks = b.method.blocks;
    let n = blocks[f.block.0 as int].nodes[f.at->0 as int];
    lemma_node_fits(m.world.classes, f, m.max_depth);
    assert(b.wf());
    assert(confines(blocks));
    assert(confines_node(blocks, n));
    if n.effect is Extern {
        lemma_landed_contained(blocks, f.env, m.world.heap);
        lemma_left_handleless(f.env, m.world.heap, None);
        lemma_counted_all_wf(m.world.heap, f.env.deltas);
        lemma_swept_wf(m.world.heap.all_counted(f.env.deltas), f.env.deltas);
    }
}

proof fn lemma_noded_stays(m: MachineView, f: FrameView)
    requires
        frame_ready(m, f),
        at_node(m.world.classes, f),
    ensures
        handles_stay(m.noded(f, f.at->0)),
{
    let i = f.at->0;
    let b = frame_body(m, f);
    let blocks = b.method.blocks;
    let n = blocks[f.block.0 as int].nodes[i as int];
    lemma_node_fits(m.world.classes, f, m.max_depth);
    lemma_node_is_ready(m, f);
    let (env, heap) = if n.effect is Extern {
        chain_landed(f.env, m.world.heap)
    } else {
        (f.env, m.world.heap)
    };
    if n.effect is Extern {
        lemma_landed_contained(blocks, f.env, m.world.heap);
    }
    let w = WorldView { heap, ..m.world };
    let m1 = MachineView { world: w, ..m };
    let g = FrameView { env, ..f };
    lemma_same_code_contained(m, m1);
    assert(frame_body(m1, g) == b);
    let vals = operand_values(env, n.ins);
    let o = node_outcome(w, env, f.owner, n.id, n.op, n.ty, vals);
    lemma_node_done_stays(m1, g, i, n, vals, o);
}

proof fn lemma_terminated_stays(m: MachineView, f: FrameView)
    requires
        frame_ready(m, f),
    ensures
        handles_stay(m.terminated(f)),
{
    let b = frame_body(m, f);
    let blocks = b.method.blocks;
    let c = f.block.0 as int;
    assert(b.wf());
    assert(blocks[c].fits(b.n_slots as int, blocks.len() as int));
    match blocks[c].term {
        Terminator::Return(Some(v)) => {
            lemma_leak_escapes(blocks, c, v);
            lemma_escaping_slot(blocks, f.env, v);
            lemma_left_stays(m, f, Ok(Some(slot_value(f.env, v))));
        },
        Terminator::Return(None) => {
            lemma_left_stays(m, f, Ok(None));
        },
        Terminator::Throw(_) => {
            lemma_left_stays(m, f, Err(ExecError::Thrown));
        },
        _ => {
            lemma_landed_contained(blocks, f.env, m.world.heap);
            lemma_left_handleless(f.env, m.world.heap, None);
            let (env, heap) = chain_landed(f.env, m.world.heap);
            let after = MachineView { world: WorldView { heap, ..m.world }, ..m };
            lemma_same_code_contained(m, after);
            assert forall|to: BlockId| handles_stay(#[trigger] m.moved(f, to)) by {
                let g = FrameView { env, block: to, prev: Some(f.block), at: None, ..f };
                lemma_pushed_contained(after, TaskView::Frame(g));
            }
        },
    }
}

proof fn lemma_init_stepped_stays(m: MachineView, t: InitView)
    requires
        m.control is Run,
        registry_wf(m.world.classes),
        code_fits(m.world.classes),
        m.world.heap.wf(),
        all_confine(m.world.classes),
        world_handleless(m.world),
        tasks_contained(m),
        t.class.0 < m.world.classes.len(),
    ensures
        handles_stay(m.init_stepped(t)),
{
    let c = m.world.classes[t.class.0 as int];
    let next = TaskView::Init(InitView { stage: InitStage::Clinit, ..t });
    let running = TaskView::Init(InitView { stage: InitStage::Running, ..t });
    lemma_pushed_contained(m, next);
    lemma_pushed_contained(m, running);
    match t.stage {
        InitStage::Super => {
            if let Some(s) = c.super_id {
                match init_need(m.world.classes, s) {
                    InitNeed::Begin => {
                        lemma_init_begun_stays(m.with_task(next), s, t.depth);
                    },
                    InitNeed::Fault(e) => {
                        lemma_init_ended_stays(m, t.class, Err(e));
                    },
                    _ => {},
                }
            }
        },
        _ => {
            match c.method_index("<clinit>"@, "()V"@) {
                Some(method) => {
                    lemma_called_stays(
                        m.with_task(running),
                        t.class,
                        method,
                        Seq::empty(),
                        t.depth + 1,
                    );
                },
                None => {
                    lemma_init_ended_stays(m, t.class, Ok(()));
                },
            }
        },
    }
}

proof fn lemma_returned_stays(m: MachineView, t: TaskView, result: CallResult)
    requires
        code_fits(m.world.classes),
        all_confine(m.world.classes),
        world_handleless(m.world),
        tasks_contained(m),
        task_fits(m.world.classes, t, m.max_depth),
        task_contained(m.world.classes, t),
        awaits_call(m.world.classes, t),
        result matches Ok(Some(v)) ==> !is_handle(v),
    ensures
        handles_stay(m.returned_to(t, result)),
{
    match t {
        TaskView::Frame(f) => match result {
            Err(e) => {
                lemma_left_stays(m, f, Err(e));
            },
            Ok(v) => {
                let at = f.at->0;
                let b = frame_body(m, f);
                let blocks = b.method.blocks;
                assert(b.wf());
                lemma_node_fits(m.world.classes, f, m.max_depth);
                let n = blocks[f.block.0 as int].nodes[at as int];
                let env = match v {
                    None => f.env,
                    Some(x) => {
                        let env1 = f.env.written(SlotId(n.id.offset), x);
                        if x.tag().is_ref() {
                            env1.with_delta(x.ref_index(), -1i32)
                        } else {
                            env1
                        }
                    },
                };
                if let Some(x) = v {
                    let env1 = f.env.written(SlotId(n.id.offset), x);
                    lemma_write_contained(blocks, f.env, n.id.offset, x);
                    assert(env.visible() == env1.visible());
                    assert forall|o: int| 0 <= o < env.slots.len() && is_handle(
                        #[trigger] env.visible()[o],
                    ) implies !escapes(blocks, slot_id(o)) by {
                        assert(is_handle(env1.visible()[o]));
                    }
                }
                let g = TaskView::Frame(FrameView { env, at: Some(at + 1), ..f });
                lemma_pushed_contained(m, g);
                lemma_same_code_contained(m.with_task(g), m.with_task(g).then_do(Control::Run));
            },
        },
        TaskView::Init(t) => {
            lemma_init_ended_stays(
                m,
                t.class,
                match result {
                    Ok(_) => Ok(()),
                    Err(e) => Err(e),
                },
            );
        },
    }
}

/// Scope-exclusive objects stay with their scope. Whatever the machine does, handles are only in slots
/// of values that do not escape: none is ever in a field, in a static, in an argument, or in a result
/// that is handed over. So what a frame frees when it is left, the objects whose handles its slots
/// hold, nothing that outlives the frame has a handle of.
pub proof fn lemma_exclusive_objects_stay_with_their_scope(m: MachineView)
    requires
        m.wf(),
        registry_wf(m.world.classes),
        m.world.heap.wf(),
        handles_stay(m),
    ensures
        handles_stay(m.stepped()),
{
    let classes = m.world.classes;
    if m.tasks.len() > 0 {
        let below = MachineView { tasks: m.tasks.drop_last(), ..m };
        let t = m.tasks.last();
        assert(m.tasks[m.tasks.len() - 1] == t);
        assert(task_contained(classes, t));
        assert(task_fits(classes, t, m.max_depth));
        assert(tasks_contained(below)) by {
            assert forall|i: int| 0 <= i < below.tasks.len() implies task_contained(
                classes,
                #[trigger] below.tasks[i],
            ) by {
                assert(below.tasks[i] == m.tasks[i]);
            }
        }
        match (m.control, t) {
            (Control::Run, TaskView::Frame(f)) => {
                assert(frame_ready(below, f));
                match f.at {
                    None => {
                        lemma_entered_stays(below, f);
                    },
                    Some(i) => {
                        let block = frame_body(below, f).method.blocks[f.block.0 as int];
                        if i < block.nodes.len() {
                            lemma_noded_stays(below, f);
                        } else {
                            lemma_terminated_stays(below, f);
                        }
                    },
                }
            },
            (Control::Run, TaskView::Init(t)) => {
                lemma_init_stepped_stays(below, t);
            },
            (Control::Returned(result), _) => {
                lemma_returned_stays(below, t, result);
            },
            (Control::Ready(result), _) => {
                match (result, t) {
                    (Ok(_), _) => {
                        lemma_pushed_contained(below, t);
                        lemma_same_code_contained(
                            below.with_task(t),
                            below.with_task(t).then_do(Control::Run),
                        );
                    },
                    (Err(e), TaskView::Frame(f)) => {
                        lemma_left_stays(below, f, Err(e));
                    },
                    (Err(e), TaskView::Init(t)) => {
                        lemma_init_ended_stays(below, t.class, Err(e));
                    },
                }
            },
            _ => {},
        }
    }
}

/// A call that is given no handle begins with handles where they may be.
pub proof fn lemma_calls_begin_without_handles(
    m: MachineView,
    class: ClassId,
    method: u16,
    args: Seq<Val128>,
    depth: nat,
)
    requires
        registry_wf(m.world.classes),
        code_fits(m.world.classes),
        m.world.heap.wf(),
        handles_stay(m),
        no_handles(args),
    ensures
        handles_stay(m.started(class, method, args, depth)),
{
    lemma_called_stays(
        MachineView { tasks: Seq::empty(), ..m },
        class,
        method,
        args,
        depth,
    );
}

/// An answer of the floating-point unit, which is no handle, leaves handles where they may be.
pub proof fn lemma_answers_bring_no_handles(m: MachineView, v: Val128)
    requires
        m.wf(),
        handles_stay(m),
        !is_handle(v),
    ensures
        handles_stay(m.answered(v)),
{
    if m.control is Float {
        let classes = m.world.classes;
        let t = m.tasks.last();
        assert(m.tasks[m.tasks.len() - 1] == t);
        assert(task_fits(classes, t, m.max_depth));
        assert(task_contained(classes, t));
        let f = t->Frame_0;
        let below = MachineView { tasks: m.tasks.drop_last(), ..m };
        assert(tasks_contained(below)) by {
            assert forall|i: int| 0 <= i < below.tasks.len() implies task_contained(
                classes,
                #[trigger] below.tasks[i],
            ) by {
                assert(below.tasks[i] == m.tasks[i]);
            }
        }
        let b = frame_body(m, f);
        assert(b.wf());
        lemma_node_fits(classes, f, m.max_depth);
        let n = b.method.blocks[f.block.0 as int].nodes[f.at->0 as int];
        lemma_write_contained(b.method.blocks, f.env, n.id.offset, v);
        let env = f.env.written(SlotId(n.id.offset), v);
        let g = TaskView::Frame(FrameView { env, at: Some(f.at->0 + 1), ..f });
        lemma_pushed_contained(below, g);
        lemma_same_code_contained(below.with_task(g), m.answered(v));
    }
}

/// The marks of escape analysis confine handles: an allocation that stays exclusive does not escape,
/// neither itself nor through φ and casts.
pub proof fn lemma_marked_allocations_are_confined(plain: Seq<BlockView>, b: int, i: int)
    requires
        0 <= b < plain.len(),
        0 <= i < plain[b].nodes.len(),
        marked(plain)[b].nodes[i].op matches Op::New { escape, .. } && escape is S1,
    ensures
        !escapes(marked(plain), marked(plain)[b].nodes[i].id),
{
    let n = plain[b].nodes[i];
    assert(marked(plain)[b].nodes[i] == marked_node(plain, n));
    assert(!escapes(plain, n.id));
    let s = choose|s: Set<ValId>| #[trigger] escape_closed(plain, s) && !s.contains(n.id);
    lemma_marks_keep_closure(plain, s);
}

/// Marks change nothing of what escapes.
proof fn lemma_marks_keep_closure(plain: Seq<BlockView>, s: Set<ValId>)
    requires
        escape_closed(plain, s),
    ensures
        escape_closed(marked(plain), s),
{
    let blocks = marked(plain);
    assert forall|b: int, v: ValId|
        0 <= b < blocks.len() && #[trigger] block_leaks(blocks[b], v) implies s.contains(v) by {
        if nodes_leak(blocks[b].nodes, blocks[b].nodes.len() as int, v) {
            let i = choose|i: int|
                0 <= i < blocks[b].nodes.len() && node_leaks(
                    #[trigger] blocks[b].nodes[i],
                ).contains(v);
            assert(blocks[b].nodes[i] == marked_node(plain, plain[b].nodes[i]));
            assert(node_leaks(plain[b].nodes[i]).contains(v));
            assert(nodes_leak(plain[b].nodes, plain[b].nodes.len() as int, v));
        }
        assert(block_leaks(plain[b], v));
    }
    assert forall|b: int, p: int, v: ValId|
        0 <= b < blocks.len() && 0 <= p < blocks[b].phis.len() && s.contains(
            blocks[b].phis[p].slot,
        ) && #[trigger] merges(blocks, b, p, v) implies s.contains(v) by {
        let k = choose|k: int|
            0 <= k < blocks[b].phis[p].sources.len() && (
            #[trigger] blocks[b].phis[p].sources[k]).1 == v;
        assert(plain[b].phis[p].sources[k].1 == v);
        assert(merges(plain, b, p, v));
    }
    assert forall|b: int| 0 <= b < blocks.len() implies follows_casts(
        (#[trigger] blocks[b]).nodes,
        s,
        blocks[b].nodes.len() as int,
    ) by {
        assert(follows_casts(plain[b].nodes, s, plain[b].nodes.len() as int));
        let nodes = blocks[b].nodes;
        assert forall|i: int| 0 <= i < nodes.len() && s.contains(
            (#[trigger] nodes[i]).id,
        ) implies (passed_on(nodes[i]) matches Some(v) ==> s.contains(v)) by {
            assert(nodes[i] == marked_node(plain, plain[b].nodes[i]));
            assert(s.contains(plain[b].nodes[i].id));
        }
    }
}

/// Whether a node is no constant reference, and a fence if it is a call.
pub open spec fn plain_node(n: NodeView) -> bool {
    match n.op {
        Op::Const(v) => !v.tag().is_ref(),
        Op::InvokeStatic(_) | Op::InvokeSpecial(_) | Op::InvokeVirtual(_) => n.effect is Extern,
        _ => true,
    }
}

/// Whether all nodes are.
pub open spec fn plain_nodes(nodes: Seq<NodeView>) -> bool {
    forall|i: int| 0 <= i < nodes.len() ==> plain_node(#[trigger] nodes[i])
}

/// Whether an operation is neither a constant nor a call.
pub open spec fn plain_op(op: Op) -> bool {
    match op {
        Op::Const(_) | Op::InvokeStatic(_) | Op::InvokeSpecial(_) | Op::InvokeVirtual(_) => false,
        _ => true,
    }
}

/// No instruction becomes a constant reference, and only a call becomes a call.
proof fn lemma_lowerings_are_plain(ins: Insn, pool: PoolView)
    ensures
        match lowering_of(ins) {
            Lowering::Const(v) => !v.tag().is_ref(),
            Lowering::Binary { op, .. } => plain_op(op),
            Lowering::Unary { op, .. } => plain_op(op),
            Lowering::Source { op, .. } => plain_op(op),
            Lowering::FieldRead { op, .. } => plain_op(op),
            Lowering::FieldWrite { op, .. } => plain_op(op),
            Lowering::BranchOnOne(op) => plain_op(op),
            Lowering::BranchOnTwo(op) => plain_op(op),
            Lowering::Call { op, .. } => !(op is Const),
            _ => true,
        },
        numeric_constant(pool, ins.arg) matches Some(v) ==> !v.tag().is_ref(),
        !Val128::from_i32(inc_delta(ins)).tag().is_ref(),
{
    broadcast use group_values;

}

#[verifier::rlimit(40)]
proof fn lemma_lowered_plain(st: LowerView, ctx: ContextView, ins: Insn)
    requires
        plain_nodes(st.nodes),
    ensures
        lowered(st, ctx, ins) matches Ok(l) ==> plain_nodes(l.nodes),
{
    lemma_lowerings_are_plain(ins, ctx.pool);
}

proof fn lemma_lowered_from_plain(st: LowerView, ctx: ContextView, insns: Seq<Insn>, k: int)
    requires
        plain_nodes(st.nodes),
    ensures
        lowered_from(st, ctx, insns, k) matches Ok(l) ==> plain_nodes(l.nodes),
    decreases insns.len() - k,
{
    if k < insns.len() {
        lemma_lowered_plain(st, ctx, insns[k]);
        if let Ok(s1) = lowered(st, ctx, insns[k]) {
            lemma_lowered_from_plain(s1, ctx, insns, k + 1);
        }
    }
}

/// Whether all nodes of a method being built are plain.
pub open spec fn build_plain(st: BuildView) -> bool {
    forall|b: int| 0 <= b < st.nodes.len() ==> plain_nodes(#[trigger] st.nodes[b])
}

proof fn lemma_coded_plain(
    st: BuildView,
    g: GraphView,
    vm: VerifiedView,
    pool: PoolView,
    b: BlockId,
)
    requires
        build_plain(st),
        b.0 < st.nodes.len(),
    ensures
        coded(st, g, vm, pool, b) matches Ok(s1) ==> build_plain(s1) && s1.nodes.len()
            == st.nodes.len(),
{
    let i = b.0 as int;
    if i < g.leaders.len() {
        let ctx = context_of(g, pool, vm.max_locals, b);
        let depth = entry_depth(st, g, vm.frames, b) as int;
        let start = block_start(st.ssa);
        lemma_entered_keeps_nodes(start, ctx, 0, depth);
        if let Ok(s0) = entered_from(start, ctx, 0, depth) {
            lemma_lowered_from_plain(s0, ctx, g.parts[i], 0);
        }
        if let Ok(s1) = coded(st, g, vm, pool, b) {
            assert forall|c: int| 0 <= c < s1.nodes.len() implies plain_nodes(
                #[trigger] s1.nodes[c],
            ) by {
                if c != i {
                    assert(s1.nodes[c] == st.nodes[c]);
                }
            }
        }
    }
}

proof fn lemma_processed_plain(
    st: BuildView,
    g: GraphView,
    vm: VerifiedView,
    pool: PoolView,
    j: int,
)
    requires
        build_plain(st),
        0 <= j,
        forall|k: int| 0 <= k < g.order.len() ==> (#[trigger] g.order[k]).0 < st.nodes.len(),
    ensures
        processed_from(st, g, vm, pool, j) matches Ok(s1) ==> build_plain(s1) && s1.nodes.len()
            == st.nodes.len(),
    decreases g.order.len() - j,
{
    if j < g.order.len() {
        let b = g.order[j];
        let first = if sealable(st.ssa, g.cfg, st.processed, b) {
            seal(st.ssa, g.cfg, b)
        } else {
            Ok(st.ssa)
        };
        if let Ok(ssa) = first {
            lemma_coded_plain(BuildView { ssa, ..st }, g, vm, pool, b);
            if let Ok(s1) = processed_one(st, g, vm, pool, b) {
                lemma_processed_plain(s1, g, vm, pool, j + 1);
            }
        }
    }
}

/// Built methods confine handles.
pub proof fn lemma_built_methods_confine(vm: VerifiedView, pool: PoolView)
    requires
        built(vm, pool) is Ok,
    ensures
        confines(built(vm, pool)->Ok_0.method.blocks),
{
    let g = graph_of(vm.insns);
    let total = g.cfg.preds.len();
    let (s1, _) = with_args(vm)->Ok_0;
    let start = unbuilt(s1, total);
    assert(build_plain(start)) by {
        assert forall|b: int| 0 <= b < start.nodes.len() implies plain_nodes(
            #[trigger] start.nodes[b],
        ) by {}
    }
    lemma_graph_sound(vm.insns);
    lemma_processed_plain(start, g, vm, pool, 0);
    let st = processed_from(start, g, vm, pool, 0)->Ok_0;
    let plain = assembled(st, total);
    let blocks = built(vm, pool)->Ok_0.method.blocks;
    assert(blocks == marked(plain));
    assert forall|b: int, i: int|
        0 <= b < blocks.len() && 0 <= i < blocks[b].nodes.len() implies confines_node(
        blocks,
        #[trigger] blocks[b].nodes[i],
    ) by {
        let n = plain[b].nodes[i];
        assert(blocks[b].nodes[i] == marked_node(plain, n));
        assert(plain_nodes(st.nodes[b]));
        assert(n == st.nodes[b][i]);
        if let Op::New { escape, .. } = blocks[b].nodes[i].op {
            if escape is S1 {
                lemma_marked_allocations_are_confined(plain, b, i);
            }
        }
    }
}

} // verus!
