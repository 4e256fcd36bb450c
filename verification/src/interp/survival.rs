//! Referenced objects live: no step of the machine reclaims a shared object that something still
//! references, and an interned string is never released.

use vstd::prelude::*;
use crate::diff::EscapeState;
use crate::env::{lemma_landed_len, lemma_landing_is_invisible, EnvView, LogicalFrame};
use crate::heap::{
    lemma_allocated_wf, lemma_counted_wf, lemma_reclaimed_wf, lemma_replaced_wf, HeapView,
    ObjectView,
};
use crate::ids::{ClassId, RefIndex, RegistryKey, SlotId, ValId};
use crate::interp::accounts::{
    acting_heap, countable, env_owes, in_order, keeps, lemma_answers_keep_counts_exact,
    lemma_counted_all_wf, lemma_defaults_are_plain, lemma_landing_counts, lemma_landing_in_order,
    lemma_no_sharing, lemma_ptr_names, lemma_pushed_tasks_owe, lemma_reference_counts_are_exact,
    lemma_releases_count, lemma_sharing_bound, lemma_sharing_update, lemma_statics_update,
    lemma_string_made_keeps, lemma_sum_of_one, lemma_sum_of_two, lemma_swept_wf, one_if, outside,
    pins, plain_defaults, result_owes, shares, sharing, statics_naming, tasks_owe, transit, within,
    world_owes,
};
use crate::interp::bytecode::{worked, worked_on};
use crate::interp::error::ExecError;
use crate::interp::eval::{evaluated, FloatRequest, Outcome};
use crate::interp::exclusive::{
    all_confine, confines, confines_node, frame_ready, handles_stay, is_handle,
    lemma_answers_bring_no_handles, lemma_computed_is_no_reference,
    lemma_exclusive_objects_stay_with_their_scope, lemma_leaked_operand, lemma_node_is_ready,
    node_ready, task_contained, tasks_contained,
};
use crate::interp::machine::{
    args_written, body_at, chain_landed, defines, frame_body, frame_left, frame_of, frame_slots,
    handles_freed, in_transit, init_need, instance_slot, node_outcome, operand_values,
    slot_releases, slot_value, string_constant, CallResult, Control, FrameView, InitStage, InitView,
    MachineView, NodeOutcome, TaskView,
};
use crate::interp::soundness::{
    at_node, code_fits, frame_fits, lemma_answered_wf, lemma_stepped_wf, task_fits,
};
use crate::ir::{BlockView, NodeView, Op, Terminator};
use crate::loader::{
    class_named, lemma_class_named, lemma_touched_wf, registry_wf, resolved_class, resolved_field,
    with_init, with_static, BodyView, ClassView, InitState, RegistryView, Resolved,
};
use crate::refcount::{
    lemma_allocations_count, lemma_allocations_hold, lemma_batches_hold_less, lemma_deltas_count,
    lemma_deltas_hold_less, lemma_deltas_spare, lemma_field_is_held, lemma_freeing_holds_less,
    lemma_freeing_spares, lemma_named_once, lemma_naming_update, lemma_part_changes,
    lemma_referenced_objects_live, lemma_sum_bound, names, sum, COUNT_LIMIT,
};
use crate::ssa::meaning::Floats;
use crate::stdlib::{native_result, receiver_text};
use crate::value::{group_values, Tag, Val128};
use crate::world::{interned_from, lemma_interned_pushed, WorldView};

verus! {

/// How many slots of frames reference a shared object.
pub open spec fn slots_sharing(tasks: Seq<TaskView>, r: RefIndex) -> int
    decreases tasks.len(),
{
    if tasks.len() == 0 {
        0
    } else {
        slots_sharing(tasks.drop_last(), r) + (match tasks.last() {
            TaskView::Frame(f) => sharing(f.env.visible(), r),
            TaskView::Init(_) => 0,
        })
    }
}

/// Whether the result on its way references a shared object.
pub open spec fn on_its_way(control: Control, r: RefIndex) -> int {
    match control {
        Control::Returned(Ok(Some(v))) => one_if(shares(v, r)),
        Control::Done(Ok(Some(v))) => one_if(shares(v, r)),
        _ => 0,
    }
}

/// The references to a shared object from outside the heap: in slots, in statics, pinning an
/// interned string, or on their way.
pub open spec fn roots(m: MachineView, r: RefIndex) -> int {
    slots_sharing(m.tasks, r) + world_owes(m.world, r) + on_its_way(m.control, r)
}

/// All references to a shared object: those from outside the heap, and the fields of live objects.
pub open spec fn references(m: MachineView, r: RefIndex) -> int {
    roots(m, r) + m.world.heap.held(r)
}

/// The tasks that wait for another to end.
pub open spec fn waiting(m: MachineView) -> Seq<TaskView> {
    match m.control {
        Control::Returned(_) | Control::Done(_) => m.tasks,
        _ => m.tasks.take(m.tasks.len() - 1),
    }
}

/// Whether the frames among some tasks have nothing pending for an object: what they recorded for it
/// has landed, or cancels out.
pub open spec fn landed_for(tasks: Seq<TaskView>, r: RefIndex) -> bool {
    forall|i: int|
        0 <= i < tasks.len() ==> ((#[trigger] tasks[i]) matches TaskView::Frame(f) ==> sum(
            f.env.deltas,
            r,
        ) == 0)
}

proof fn lemma_landed_below(tasks: Seq<TaskView>, r: RefIndex)
    requires
        landed_for(tasks, r),
        tasks.len() > 0,
    ensures
        landed_for(tasks.drop_last(), r),
{
    assert forall|i: int| 0 <= i < tasks.len() - 1 implies ((
    #[trigger] tasks.drop_last()[i]) matches TaskView::Frame(f) ==> sum(f.env.deltas, r) == 0) by {
        assert(tasks.drop_last()[i] == tasks[i]);
    }
}

/// Frames that have nothing pending owe what their slots hold.
proof fn lemma_landed_owe(tasks: Seq<TaskView>, r: RefIndex)
    requires
        landed_for(tasks, r),
    ensures
        tasks_owe(tasks, r) == slots_sharing(tasks, r),
    decreases tasks.len(),
{
    if tasks.len() > 0 {
        lemma_landed_below(tasks, r);
        lemma_landed_owe(tasks.drop_last(), r);
        assert(tasks[tasks.len() - 1] == tasks.last());
    }
}

proof fn lemma_slots_sharing_bound(tasks: Seq<TaskView>, r: RefIndex)
    ensures
        0 <= slots_sharing(tasks, r),
    decreases tasks.len(),
{
    if tasks.len() > 0 {
        lemma_slots_sharing_bound(tasks.drop_last(), r);
        if let TaskView::Frame(f) = tasks.last() {
            lemma_sharing_bound(f.env.visible(), r);
        }
    }
}

proof fn lemma_statics_bound(classes: RegistryView, r: RefIndex)
    ensures
        0 <= statics_naming(classes, r),
    decreases classes.len(),
{
    if classes.len() > 0 {
        lemma_statics_bound(classes.drop_last(), r);
    }
}

proof fn lemma_pins_bound(interned: Seq<(Seq<char>, Val128)>, r: RefIndex)
    ensures
        0 <= pins(interned, r),
    decreases interned.len(),
{
    if interned.len() > 0 {
        lemma_pins_bound(interned.drop_last(), r);
    }
}

/// A chain that lands spares what is referenced when it has landed.
proof fn lemma_landing_spares(w: WorldView, env: EnvView, r: RefIndex, k: int)
    requires
        in_order(w, env, r, k),
        0 < world_owes(w, r) + sharing(env.visible(), r) + k + chain_landed(env, w.heap).1.held(r),
    ensures
        chain_landed(env, w.heap).1.object(r) is Some,
{
    let c = world_owes(w, r) + env_owes(env, r) + k;
    lemma_referenced_objects_live(w.heap, env.deltas, r, c);
}

proof fn lemma_handles_freed_hold_less(h: HeapView, slots: Seq<Val128>, n: int, r: RefIndex)
    ensures
        handles_freed(h, slots, n).held(r) <= h.held(r),
    decreases n,
{
    if n > 0 {
        lemma_handles_freed_hold_less(h, slots, n - 1, r);
        lemma_freeing_holds_less(handles_freed(h, slots, n - 1), slots[n - 1].ref_index(), r);
    }
}

proof fn lemma_handles_freed_spare(h: HeapView, slots: Seq<Val128>, n: int, r: RefIndex, c: int)
    requires
        h.counts(r, c),
        -COUNT_LIMIT <= c <= COUNT_LIMIT,
        0 < c + handles_freed(h, slots, n).held(r),
    ensures
        handles_freed(h, slots, n).counts(r, c),
    decreases n,
{
    if n > 0 {
        let h1 = handles_freed(h, slots, n - 1);
        let q = slots[n - 1].ref_index();
        lemma_freeing_holds_less(h1, q, r);
        lemma_handles_freed_spare(h, slots, n - 1, r, c);
        if slots[n - 1].tag() is Handle {
            lemma_freeing_spares(h1, q, r, c);
        }
    }
}

/// Leaving a frame spares what is still referenced.
proof fn lemma_left_spares(m: MachineView, f: FrameView, result: CallResult, r: RefIndex)
    requires
        in_order(m.world, f.env, r, tasks_owe(m.tasks, r)),
        landed_for(m.tasks, r),
        result matches Ok(Some(v)) ==> (shares(v, r) ==> sharing(f.env.visible(), r) > 0),
        0 < references(m.left(f, result), r),
    ensures
        m.left(f, result).world.heap.object(r) is Some,
{
    let env = f.env;
    let heap = m.world.heap;
    let returned = match result {
        Ok(v) => v,
        Err(_) => None,
    };
    lemma_landed_owe(m.tasks, r);
    let rest = world_owes(m.world, r) + tasks_owe(m.tasks, r);
    let c = rest + env_owes(env, r);
    let (env1, heap1) = chain_landed(env, heap);
    let n = env1.slots.len() as int;
    let c1 = c + sum(env.deltas, r);
    let (a, b) = (in_transit(returned), slot_releases(env1.slots, n));
    lemma_landing_is_invisible(EnvView { deltas: Seq::empty(), ..env });
    lemma_releases_count(env1.slots, n, r);
    assert(env1.slots.take(n) =~= env.visible());
    lemma_sum_of_two(a, b, r);
    if let Some(v) = returned {
        lemma_sum_of_one(v.ref_index(), 1, r);
    }
    assert(sum(a, r) == result_owes(returned, r));
    let c2 = c1 + sum(a + b, r);
    assert(c2 == rest + result_owes(returned, r));
    lemma_sum_bound(env.deltas, r);
    lemma_sharing_bound(env.visible(), r);
    let heap2 = heap1.batch_applied(a + b);
    let heap3 = handles_freed(heap2, env1.slots, n);
    lemma_batches_hold_less(heap1, a + b, r);
    lemma_handles_freed_hold_less(heap2, env1.slots, n, r);
    assert(m.left(f, result).world.heap == heap3);
    lemma_landing_spares(m.world, env, r, tasks_owe(m.tasks, r));
    lemma_landing_counts(env, heap, r, c);
    lemma_referenced_objects_live(heap1, a + b, r, c1);
    lemma_handles_freed_spare(heap2, env1.slots, n, r, c2);
}

/// Beginning a call spares what is still referenced: a native method may return a reference.
proof fn lemma_called_spares(
    m: MachineView,
    class: ClassId,
    method: u16,
    args: Seq<Val128>,
    depth: nat,
    r: RefIndex,
)
    requires
        m.world.heap.wf(),
        plain_defaults(m.world.classes),
        m.world.heap.counts(r, tasks_owe(m.tasks, r) + world_owes(m.world, r)),
        -COUNT_LIMIT <= 2 * (tasks_owe(m.tasks, r) + world_owes(m.world, r)) <= COUNT_LIMIT,
        landed_for(waiting(m.called(class, method, args, depth)), r),
        0 < references(m.called(class, method, args, depth), r),
    ensures
        m.called(class, method, args, depth).world.heap.object(r) is Some,
{
    let c = tasks_owe(m.tasks, r) + world_owes(m.world, r);
    if let Some(BodyView::Native(f)) = body_at(m.world.classes, class, method) {
        let (w, res) = native_result(f, m.world, args);
        if f is StringConcat {
            if let (Ok(a), true) = (receiver_text(m.world, args), args.len() >= 2) {
                if let Some(b) = m.world.text_of_value(args[1]) {
                    lemma_string_made_keeps(m.world, a + b, r, c);
                }
            }
        }
        assert(w.heap.counts(r, c) && world_owes(w, r) == world_owes(m.world, r));
        lemma_landed_owe(m.tasks, r);
        if let Ok(Some(x)) = res {
            if x.tag().is_ref() {
                lemma_deltas_spare(w.heap, x.ref_index(), 1, r, c);
            }
        }
    }
}

/// Interning spares every other object.
proof fn lemma_interning_spares(w: WorldView, text: Seq<char>, r: RefIndex, c: int)
    requires
        w.heap.wf(),
        plain_defaults(w.classes),
        w.heap.counts(r, c),
    ensures
        w.string_interned(text).0.heap.object(r) is Some,
{
    lemma_string_made_keeps(w, text, r, c);
    if let Some(class) = class_named(w.classes, "java/lang/String"@) {
        let fields = w.classes[class.0 as int].field_defaults;
        lemma_class_named(w.classes, "java/lang/String"@);
        lemma_allocations_count(w.heap, class, EscapeState::S2, fields, r, c);
        if let (w1, Ok(v)) = w.string_made(text) {
            let q = w.heap.next_ref();
            lemma_ptr_names(q);
            assert(w1.heap.object(q) is Some && w1.heap.object(q)->0.rc == 0);
            assert(w1.heap.counted(q, 1).1 == Some(false));
        }
    }
}

/// A node that runs on spares every object.
proof fn lemma_nodes_spare(
    w: WorldView,
    env: EnvView,
    owner: ClassId,
    id: ValId,
    op: Op,
    ty: Tag,
    vals: Seq<Val128>,
    r: RefIndex,
    c: int,
)
    requires
        w.heap.wf(),
        plain_defaults(w.classes),
        w.heap.counts(r, c),
    ensures
        node_outcome(w, env, owner, id, op, ty, vals) matches NodeOutcome::Next { world, .. }
            ==> world.heap.object(r) is Some,
{
    match op {
        Op::New { class_cp, escape } => {
            if let Some(class) = resolved_class(w.classes, owner, class_cp) {
                if init_need(w.classes, class) is Nothing {
                    let fields = w.classes[class.0 as int].field_defaults;
                    lemma_allocations_count(w.heap, class, escape, fields, r, c);
                }
            }
        },
        Op::LoadString(cp) => {
            if let Some(text) = string_constant(w, owner, cp) {
                lemma_interning_spares(w, text, r, c);
            }
        },
        _ => {},
    }
}

/// What a node comes to spares what is still referenced.
proof fn lemma_node_done_spares(
    m: MachineView,
    f: FrameView,
    i: nat,
    vals: Seq<Val128>,
    o: NodeOutcome,
    r: RefIndex,
)
    requires
        in_order(m.world, f.env, r, tasks_owe(m.tasks, r)),
        m.control is Run,
        landed_for(m.tasks, r),
        landed_for(waiting(m.node_done(f, i, vals, o)), r),
        o matches NodeOutcome::Next { world, .. } ==> world.heap.object(r) is Some,
        0 < references(m.node_done(f, i, vals, o), r),
    ensures
        m.node_done(f, i, vals, o).world.heap.object(r) is Some,
{
    match o {
        NodeOutcome::Fault(e) => {
            lemma_left_spares(m, f, Err(e), r);
        },
        NodeOutcome::Call { class, method } => {
            let held = m.with_task(TaskView::Frame(f));
            lemma_pushed_tasks_owe(m.tasks, TaskView::Frame(f), r);
            lemma_called_spares(held, class, method, vals, f.depth + 1, r);
        },
        _ => {},
    }
}

/// Running a node spares what is still referenced.
proof fn lemma_noded_spares(m: MachineView, f: FrameView, r: RefIndex)
    requires
        in_order(m.world, f.env, r, tasks_owe(m.tasks, r)),
        within(
            f.env,
            world_owes(m.world, r) + env_owes(f.env, r) + tasks_owe(m.tasks, r),
            16,
        ),
        m.control is Run,
        landed_for(m.tasks, r),
        landed_for(waiting(m.noded(f, f.at->0)), r),
        acting_heap(m.with_task(TaskView::Frame(f))).object(r) is Some,
        0 < references(m.noded(f, f.at->0), r),
        f.at is Some,
        f.at->0 < frame_body(m, f).method.blocks[f.block.0 as int].nodes.len(),
    ensures
        m.noded(f, f.at->0).world.heap.object(r) is Some,
{
    let i = f.at->0;
    let k = tasks_owe(m.tasks, r);
    let whole = m.with_task(TaskView::Frame(f));
    assert(frame_body(whole, f) == frame_body(m, f));
    let n = frame_body(m, f).method.blocks[f.block.0 as int].nodes[i as int];
    let (env, heap) = if n.effect is Extern {
        chain_landed(f.env, m.world.heap)
    } else {
        (f.env, m.world.heap)
    };
    assert(acting_heap(whole) == heap);
    if n.effect is Extern {
        lemma_landing_in_order(m.world, f.env, r, k);
    }
    let w = WorldView { heap, ..m.world };
    let vals = operand_values(env, n.ins);
    let c = world_owes(w, r) + env_owes(env, r) + k;
    lemma_nodes_spare(w, env, f.owner, n.id, n.op, n.ty, vals, r, c);
    lemma_node_done_spares(
        MachineView { world: w, ..m },
        FrameView { env, ..f },
        i,
        vals,
        node_outcome(w, env, f.owner, n.id, n.op, n.ty, vals),
        r,
    );
}

/// A returned reference is in a slot of the frame that returns it.
proof fn lemma_returned_is_shared(env: EnvView, v: ValId, r: RefIndex)
    requires
        env.wf(),
        v.offset < env.slots.len(),
        shares(slot_value(env, v), r),
    ensures
        sharing(env.visible(), r) > 0,
{
    lemma_landed_len(env.slots, env.pending);
    lemma_shared_once(env.visible(), v.offset as int, r);
}

proof fn lemma_shared_once(slots: Seq<Val128>, i: int, r: RefIndex)
    requires
        0 <= i < slots.len(),
        shares(slots[i], r),
    ensures
        sharing(slots, r) > 0,
    decreases slots.len(),
{
    lemma_sharing_bound(slots.drop_last(), r);
    if i < slots.len() - 1 {
        lemma_shared_once(slots.drop_last(), i, r);
    }
}

/// Running a terminator spares what is still referenced.
proof fn lemma_terminated_spares(m: MachineView, f: FrameView, r: RefIndex)
    requires
        in_order(m.world, f.env, r, tasks_owe(m.tasks, r)),
        code_fits(m.world.classes),
        frame_fits(m.world.classes, f, m.max_depth),
        f.at is Some,
        m.control is Run,
        landed_for(m.tasks, r),
        0 < references(m.terminated(f), r),
    ensures
        m.terminated(f).world.heap.object(r) is Some,
{
    let b = frame_body(m, f);
    let block = b.method.blocks[f.block.0 as int];
    match block.term {
        Terminator::Return(Some(v)) => {
            let x = slot_value(f.env, v);
            assert(b.wf());
            assert(block.fits(b.n_slots as int, b.method.blocks.len() as int));
            if shares(x, r) {
                lemma_returned_is_shared(f.env, v, r);
            }
            lemma_left_spares(m, f, Ok(Some(x)), r);
        },
        Terminator::Return(None) => {
            lemma_left_spares(m, f, Ok(None), r);
        },
        Terminator::Throw(_) => {
            lemma_left_spares(m, f, Err(ExecError::Thrown), r);
        },
        _ => {
            let (env, heap) = chain_landed(f.env, m.world.heap);
            lemma_landing_is_invisible(EnvView { deltas: Seq::empty(), ..f.env });
            lemma_landed_owe(m.tasks, r);
            let after = m.terminated(f);
            assert(after.tasks.drop_last() =~= m.tasks);
            assert(after.world.heap == heap);
            lemma_landing_spares(m.world, f.env, r, tasks_owe(m.tasks, r));
        },
    }
}

/// What has lived until a step acts, and is still referenced when it is done, lives through it.
proof fn lemma_acting_objects_live_on(m: MachineView, r: RefIndex)
    requires
        m.wf(),
        m.world.heap.wf(),
        registry_wf(m.world.classes),
        keeps(m, r, 0),
        countable(m, r, 0),
        m.tasks.len() > 0 && m.tasks.last() is Init ==> transit(m.control, r) == 0,
        landed_for(waiting(m), r),
        landed_for(waiting(m.stepped()), r),
        acting_heap(m).object(r) is Some,
        0 < references(m.stepped(), r),
    ensures
        m.stepped().world.heap.object(r) is Some,
        keeps(m.stepped(), r, 0),
{
    let classes = m.world.classes;
    lemma_defaults_are_plain(classes);
    if m.tasks.len() > 0 {
        let below = MachineView { tasks: m.tasks.drop_last(), ..m };
        let t = m.tasks.last();
        assert(below.with_task(t).tasks =~= m.tasks);
        assert(below.with_task(t) == m);
        assert(task_fits(classes, t, m.max_depth));
        assert(landed_for(below.tasks, r)) by {
            if waiting(m) == m.tasks {
                lemma_landed_below(m.tasks, r);
            }
        }
        if let TaskView::Frame(f) = t {
            let b = body_at(classes, f.owner, f.method)->0->Bytecode_0;
            assert(b.wf());
            assert(f.env.slots.len() <= 0xFFFF);
            if transit(m.control, r) == 0 {
                assert(in_order(m.world, f.env, r, tasks_owe(below.tasks, r)));
            }
        }
        match (m.control, t) {
            (Control::Run, TaskView::Frame(f)) => {
                assert(frame_body(below, f) == frame_body(m, f));
                match f.at {
                    None => {
                        if !(m.stepped().control is Run) {
                            assert(m.stepped() == below.left(f, Err(ExecError::StepLimit))
                                || m.stepped() == below.left(f, Err(ExecError::BadBlock))
                                || m.stepped() == below.left(f, Err(ExecError::BadPhi)));
                            let e = m.stepped().control->Returned_0->Err_0;
                            lemma_left_spares(below, f, Err(e), r);
                        }
                    },
                    Some(i) => {
                        let block = frame_body(below, f).method.blocks[f.block.0 as int];
                        if i < block.nodes.len() {
                            lemma_noded_spares(below, f, r);
                        } else {
                            lemma_terminated_spares(below, f, r);
                        }
                    },
                }
            },
            (Control::Run, TaskView::Init(t)) => {
                if let InitStage::Clinit = t.stage {
                    if let Some(method) = classes[t.class.0 as int].method_index(
                        "<clinit>"@,
                        "()V"@,
                    ) {
                        let running = TaskView::Init(InitView { stage: InitStage::Running, ..t });
                        lemma_pushed_tasks_owe(below.tasks, running, r);
                        lemma_called_spares(
                            below.with_task(running),
                            t.class,
                            method,
                            Seq::empty(),
                            t.depth + 1,
                            r,
                        );
                    }
                }
            },
            (Control::Returned(Err(e)), TaskView::Frame(f)) => {
                lemma_left_spares(below, f, Err(e), r);
            },
            (Control::Ready(Err(e)), TaskView::Frame(f)) => {
                lemma_left_spares(below, f, Err(e), r);
            },
            _ => {},
        }
        lemma_reference_counts_are_exact(m, r, 0);
    }
}

/// Whether a world has gone on from another: it is still well-formed, pins no string less, and has
/// every text interned as it was.
pub open spec fn goes_on(a: WorldView, b: WorldView, r: RefIndex) -> bool {
    &&& b.heap.wf()
    &&& registry_wf(b.classes)
    &&& pins(a.interned, r) <= pins(b.interned, r)
    &&& forall|text: Seq<char>|
        (#[trigger] interned_from(a.interned, text, 0)) is Some ==> interned_from(
            b.interned,
            text,
            0,
        ) == interned_from(a.interned, text, 0)
}

proof fn lemma_batch_wf(h: HeapView, deltas: Seq<(RefIndex, i32)>)
    requires
        h.wf(),
    ensures
        h.batch_applied(deltas).wf(),
{
    lemma_counted_all_wf(h, deltas);
    lemma_swept_wf(h.all_counted(deltas), deltas);
}

proof fn lemma_delta_wf(h: HeapView, q: RefIndex, delta: i64)
    requires
        h.wf(),
    ensures
        h.delta_applied(q, delta).wf(),
{
    lemma_counted_wf(h, q, delta);
    lemma_reclaimed_wf(h.counted(q, delta).0, seq![q]);
}

proof fn lemma_handles_freed_wf(h: HeapView, slots: Seq<Val128>, n: int)
    requires
        h.wf(),
    ensures
        handles_freed(h, slots, n).wf(),
    decreases n,
{
    if n > 0 {
        lemma_handles_freed_wf(h, slots, n - 1);
        lemma_reclaimed_wf(handles_freed(h, slots, n - 1), seq![slots[n - 1].ref_index()]);
    }
}

proof fn lemma_left_goes_on(m: MachineView, f: FrameView, result: CallResult, r: RefIndex)
    requires
        m.world.heap.wf(),
        registry_wf(m.world.classes),
    ensures
        goes_on(m.world, m.left(f, result).world, r),
{
    let returned = match result {
        Ok(v) => v,
        Err(_) => None,
    };
    let (env1, heap1) = chain_landed(f.env, m.world.heap);
    let n = env1.slots.len() as int;
    let batch = in_transit(returned) + slot_releases(env1.slots, n);
    lemma_batch_wf(m.world.heap, f.env.deltas);
    lemma_batch_wf(heap1, batch);
    lemma_handles_freed_wf(heap1.batch_applied(batch), env1.slots, n);
}

proof fn lemma_string_made_goes_on(w: WorldView, text: Seq<char>, r: RefIndex)
    requires
        w.heap.wf(),
        registry_wf(w.classes),
    ensures
        goes_on(w, w.string_made(text).0, r),
        w.string_made(text).0.interned == w.interned,
{
    if let Some(class) = class_named(w.classes, "java/lang/String"@) {
        if w.heap.live() < w.heap.limit {
            let fields = w.classes[class.0 as int].field_defaults;
            let q = w.heap.next_ref();
            let h = w.heap.allocated(class, EscapeState::S2, fields);
            lemma_allocated_wf(w.heap, class, EscapeState::S2, fields);
            if w.heap.free.len() > 0 {
                assert(w.heap.free[w.heap.free.len() - 1] == w.heap.free.last());
            }
            let o = ObjectView {
                class,
                escape: EscapeState::S2,
                fields,
                rc: 0,
                text: Some(text),
            };
            lemma_replaced_wf(h, q, o);
        }
    }
}

proof fn lemma_interned_goes_on(w: WorldView, text: Seq<char>, r: RefIndex)
    requires
        w.heap.wf(),
        registry_wf(w.classes),
    ensures
        goes_on(w, w.string_interned(text).0, r),
{
    lemma_string_made_goes_on(w, text, r);
    if let (w1, Ok(v)) = w.string_made(text) {
        lemma_delta_wf(w1.heap, v.ref_index(), 1);
        assert(w1.interned.push((text, v)).drop_last() =~= w1.interned);
        assert forall|other: Seq<char>|
            (#[trigger] interned_from(w.interned, other, 0)) is Some implies interned_from(
            w1.interned.push((text, v)),
            other,
            0,
        ) == interned_from(w.interned, other, 0) by {
            lemma_interned_pushed(w.interned, text, v, other, 0);
        }
    }
}

proof fn lemma_static_goes_on(w: WorldView, class: ClassId, slot: int, v: Val128, r: RefIndex)
    requires
        w.heap.wf(),
        registry_wf(w.classes),
        class.0 < w.classes.len(),
        0 <= slot < w.classes[class.0 as int].statics.len(),
    ensures
        goes_on(w, WorldView { classes: with_static(w.classes, class, slot, v), ..w }, r),
{
    lemma_touched_wf(w.classes, with_static(w.classes, class, slot, v), class.0 as int);
}

proof fn lemma_init_goes_on(classes: RegistryView, class: ClassId, s: InitState)
    requires
        registry_wf(classes),
        class.0 < classes.len(),
    ensures
        registry_wf(with_init(classes, class, s)),
{
    lemma_touched_wf(classes, with_init(classes, class, s), class.0 as int);
}

proof fn lemma_node_goes_on(
    w: WorldView,
    env: EnvView,
    owner: ClassId,
    id: ValId,
    op: Op,
    ty: Tag,
    vals: Seq<Val128>,
    r: RefIndex,
)
    requires
        w.heap.wf(),
        registry_wf(w.classes),
    ensures
        node_outcome(w, env, owner, id, op, ty, vals) matches NodeOutcome::Next { world, .. }
            ==> goes_on(w, world, r),
        node_outcome(w, env, owner, id, op, ty, vals) matches NodeOutcome::Init(class) ==> class.0
            < w.classes.len(),
{
    match op {
        Op::New { class_cp, escape } => {
            if let Some(class) = resolved_class(w.classes, owner, class_cp) {
                if w.heap.live() < w.heap.limit {
                    let fields = w.classes[class.0 as int].field_defaults;
                    lemma_allocated_wf(w.heap, class, escape, fields);
                }
            }
        },
        Op::PutField(cp) => {
            if vals.len() >= 2 {
                let q = vals[0].ref_index();
                if let Some(slot) = instance_slot(w, owner, cp) {
                    if w.heap.has_field(q, slot as int) {
                        let o = w.heap.object(q)->0;
                        let fields = o.fields.update(slot as int, vals[1]);
                        lemma_replaced_wf(w.heap, q, ObjectView { fields, ..o });
                    }
                }
            }
        },
        Op::LoadString(cp) => {
            if let Some(text) = string_constant(w, owner, cp) {
                lemma_interned_goes_on(w, text, r);
            }
        },
        Op::PutStatic(cp) => {
            if let Some(Resolved::StaticField { class, slot }) = resolved_field(
                w.classes,
                owner,
                cp,
            ) {
                if init_need(w.classes, class) is Nothing && vals.len() > 0 && slot
                    < w.classes[class.0 as int].statics.len() {
                    lemma_static_goes_on(w, class, slot as int, vals[0], r);
                }
            }
        },
        _ => {},
    }
}

proof fn lemma_called_goes_on(
    m: MachineView,
    class: ClassId,
    method: u16,
    args: Seq<Val128>,
    depth: nat,
    r: RefIndex,
)
    requires
        m.world.heap.wf(),
        registry_wf(m.world.classes),
    ensures
        goes_on(m.world, m.called(class, method, args, depth).world, r),
{
    if let Some(BodyView::Native(f)) = body_at(m.world.classes, class, method) {
        let (w, res) = native_result(f, m.world, args);
        if f is StringConcat {
            if let (Ok(a), true) = (receiver_text(m.world, args), args.len() >= 2) {
                if let Some(b) = m.world.text_of_value(args[1]) {
                    lemma_string_made_goes_on(m.world, a + b, r);
                }
            }
        }
        assert(goes_on(m.world, w, r));
        if let Ok(Some(x)) = res {
            lemma_delta_wf(w.heap, x.ref_index(), 1);
        }
    }
}

/// Every step keeps the world well-formed, and whatever pins an interned string.
proof fn lemma_step_goes_on(m: MachineView, r: RefIndex)
    requires
        m.wf(),
        m.world.heap.wf(),
        registry_wf(m.world.classes),
    ensures
        goes_on(m.world, m.stepped().world, r),
{
    let classes = m.world.classes;
    if m.tasks.len() > 0 {
        let below = MachineView { tasks: m.tasks.drop_last(), ..m };
        let t = m.tasks.last();
        assert(task_fits(classes, t, m.max_depth));
        match t {
            TaskView::Frame(f) => {
                assert forall|result: CallResult| goes_on(
                    m.world,
                    #[trigger] below.left(f, result).world,
                    r,
                ) by {
                    lemma_left_goes_on(below, f, result, r);
                }
                if m.control is Run && f.at is Some {
                    lemma_batch_wf(m.world.heap, f.env.deltas);
                    let nodes = frame_body(below, f).method.blocks[f.block.0 as int].nodes;
                    if f.at->0 < nodes.len() {
                        lemma_noded_goes_on(below, f, r);
                    }
                }
            },
            TaskView::Init(t) => {
                lemma_init_goes_on(classes, t.class, InitState::Initialized);
                lemma_init_goes_on(classes, t.class, InitState::Failed);
                let k = classes[t.class.0 as int];
                assert(k.wf(t.class.0 as int));
                if let Some(s) = k.super_id {
                    lemma_init_goes_on(classes, s, InitState::Initializing(0));
                }
                if let Some(method) = k.method_index("<clinit>"@, "()V"@) {
                    let running = TaskView::Init(InitView { stage: InitStage::Running, ..t });
                    lemma_called_goes_on(
                        below.with_task(running),
                        t.class,
                        method,
                        Seq::empty(),
                        t.depth + 1,
                        r,
                    );
                }
            },
        }
    }
}

proof fn lemma_noded_goes_on(m: MachineView, f: FrameView, r: RefIndex)
    requires
        m.world.heap.wf(),
        registry_wf(m.world.classes),
        f.at is Some,
    ensures
        goes_on(m.world, m.noded(f, f.at->0).world, r),
{
    let i = f.at->0;
    let n = frame_body(m, f).method.blocks[f.block.0 as int].nodes[i as int];
    let (env, heap) = if n.effect is Extern {
        chain_landed(f.env, m.world.heap)
    } else {
        (f.env, m.world.heap)
    };
    lemma_batch_wf(m.world.heap, f.env.deltas);
    let w = WorldView { heap, ..m.world };
    let vals = operand_values(env, n.ins);
    lemma_node_goes_on(w, env, f.owner, n.id, n.op, n.ty, vals, r);
    let m1 = MachineView { world: w, ..m };
    let g = FrameView { env, ..f };
    match node_outcome(w, env, f.owner, n.id, n.op, n.ty, vals) {
        NodeOutcome::Fault(e) => {
            lemma_left_goes_on(m1, g, Err(e), r);
        },
        NodeOutcome::Call { class, method } => {
            lemma_called_goes_on(
                m1.with_task(TaskView::Frame(g)),
                class,
                method,
                vals,
                f.depth + 1,
                r,
            );
        },
        NodeOutcome::Init(class) => {
            lemma_init_goes_on(w.classes, class, InitState::Initializing(0));
        },
        _ => {},
    }
}

proof fn lemma_interned_is_pinned(
    pool: Seq<(Seq<char>, Val128)>,
    text: Seq<char>,
    i: int,
    r: RefIndex,
)
    requires
        0 <= i <= pool.len(),
        interned_from(pool, text, i) matches Some(v) && names(v, r),
    ensures
        0 < pins(pool, r),
    decreases pool.len() - i,
{
    if pool[i].0 == text {
        lemma_pinned_once(pool, i, r);
    } else {
        lemma_interned_is_pinned(pool, text, i + 1, r);
    }
}

proof fn lemma_pinned_once(pool: Seq<(Seq<char>, Val128)>, i: int, r: RefIndex)
    requires
        0 <= i < pool.len(),
        names(pool[i].1, r),
    ensures
        0 < pins(pool, r),
    decreases pool.len(),
{
    lemma_pins_bound(pool.drop_last(), r);
    if i < pool.len() - 1 {
        lemma_pinned_once(pool.drop_last(), i, r);
    }
}

/// Whether nothing references an object: no slot of a frame, nothing in a world.
spec fn unnamed(w: WorldView, env: EnvView, r: RefIndex) -> bool {
    &&& sharing(env.visible(), r) == 0
    &&& statics_naming(w.classes, r) == 0
    &&& pins(w.interned, r) == 0
    &&& w.heap.held(r) == 0
}

/// Whether an outcome makes no reference to an object that nothing references, unless it is new.
spec fn outcome_unnamed(o: NodeOutcome, r: RefIndex) -> bool {
    match o {
        NodeOutcome::Next { world, env } => world.heap.object(r) is Some || unnamed(world, env, r),
        _ => true,
    }
}

proof fn lemma_defines_unnamed(w: WorldView, env: EnvView, id: ValId, v: Val128, r: RefIndex)
    requires
        env.wf(),
        id.offset < env.slots.len(),
        unnamed(w, env, r),
        !shares(v, r),
    ensures
        outcome_unnamed(defines(w, env, id, v), r),
{
    let after = env.written(SlotId(id.offset), v);
    lemma_landed_len(env.slots, env.pending);
    assert(after.pending.drop_last() =~= env.pending);
    assert(after.visible() == env.visible().update(id.offset as int, v));
    lemma_sharing_update(env.visible(), id.offset as int, v, r);
    lemma_sharing_bound(after.visible(), r);
}

/// A slot that nothing is shared through does not name the object.
proof fn lemma_slot_unnamed(env: EnvView, v: ValId, r: RefIndex)
    requires
        env.wf(),
        v.offset < env.slots.len(),
        sharing(env.visible(), r) == 0,
    ensures
        !shares(slot_value(env, v), r),
{
    if shares(slot_value(env, v), r) {
        lemma_returned_is_shared(env, v, r);
    }
}

proof fn lemma_static_is_counted(classes: RegistryView, c: int, i: int, r: RefIndex)
    requires
        0 <= c < classes.len(),
        0 <= i < classes[c].statics.len(),
        names(classes[c].statics[i], r),
    ensures
        0 < statics_naming(classes, r),
    decreases classes.len(),
{
    lemma_statics_bound(classes.drop_last(), r);
    if c < classes.len() - 1 {
        lemma_static_is_counted(classes.drop_last(), c, i, r);
    } else {
        lemma_named_once(classes[c].statics, i, r);
    }
}

proof fn lemma_string_made_unnamed(w: WorldView, text: Seq<char>, r: RefIndex)
    requires
        w.heap.wf(),
        plain_defaults(w.classes),
        w.heap.held(r) == 0,
    ensures
        ({
            let w1 = w.string_made(text).0;
            &&& w1.heap.held(r) == 0
            &&& w1.classes == w.classes
            &&& w1.interned == w.interned
            &&& w.string_made(text).1 matches Ok(v) ==> {
                &&& v == Val128::ptr(w.heap.next_ref())
                &&& w1.heap.object(w.heap.next_ref()) matches Some(o) && !(o.escape is S1) && o.rc
                    == 0
            }
        }),
{
    if let Some(class) = class_named(w.classes, "java/lang/String"@) {
        if w.heap.live() < w.heap.limit {
            let fields = w.classes[class.0 as int].field_defaults;
            let q = w.heap.next_ref();
            let o = ObjectView {
                class,
                escape: EscapeState::S2,
                fields,
                rc: 0,
                text: Some(text),
            };
            lemma_class_named(w.classes, "java/lang/String"@);
            lemma_allocations_hold(w.heap, class, EscapeState::S2, fields, r);
            let h = w.heap.allocated(class, EscapeState::S2, fields);
            lemma_part_changes(h.slots, q.position() as int, Some(o), r);
        }
    }
}

/// Nodes on the heap make no reference to an object that nothing references.
proof fn lemma_heap_nodes_unnamed(
    w: WorldView,
    blocks: Seq<BlockView>,
    env: EnvView,
    owner: ClassId,
    n: NodeView,
    r: RefIndex,
)
    requires
        node_ready(w, blocks, env, n),
        plain_defaults(w.classes),
        unnamed(w, env, r),
        n.op is New || n.op is GetField || n.op is PutField || n.op is LoadString,
    ensures
        outcome_unnamed(
            node_outcome(w, env, owner, n.id, n.op, n.ty, operand_values(env, n.ins)),
            r,
        ),
{
    let vals = operand_values(env, n.ins);
    match n.op {
        Op::New { class_cp, escape } => {
            if let Some(class) = resolved_class(w.classes, owner, class_cp) {
                if init_need(w.classes, class) is Nothing && w.heap.live() < w.heap.limit {
                    let fields = w.classes[class.0 as int].field_defaults;
                    let q = w.heap.next_ref();
                    lemma_allocations_hold(w.heap, class, escape, fields, r);
                    let w1 = WorldView { heap: w.heap.allocated(class, escape, fields), ..w };
                    if q.position() != r.position() {
                        lemma_ptr_names(q);
                        lemma_handle_shares_nothing(q, r);
                        let v = if escape is S1 {
                            Val128::handle(q)
                        } else {
                            Val128::ptr(q)
                        };
                        lemma_defines_unnamed(w1, env, n.id, v, r);
                    }
                }
            }
        },
        Op::GetField(cp) => {
            if let Some(slot) = instance_slot(w, owner, cp) {
                if vals.len() > 0 && w.heap.has_field(vals[0].ref_index(), slot as int) {
                    let q = vals[0].ref_index();
                    let v = w.heap.object(q)->0.fields[slot as int];
                    if shares(v, r) {
                        lemma_field_is_held(w.heap, q, slot as int, r);
                    }
                    lemma_defines_unnamed(w, env, n.id, v, r);
                }
            }
        },
        Op::PutField(cp) => {
            if vals.len() >= 2 {
                let q = vals[0].ref_index();
                lemma_leaked_operand(w, blocks, env, n, 1);
                lemma_slot_unnamed(env, n.ins[1], r);
                if let Some(slot) = instance_slot(w, owner, cp) {
                    if w.heap.has_field(q, slot as int) {
                        let o = w.heap.object(q)->0;
                        let fields = o.fields.update(slot as int, vals[1]);
                        lemma_naming_update(o.fields, slot as int, vals[1], r);
                        lemma_part_changes(
                            w.heap.slots,
                            q.position() as int,
                            Some(ObjectView { fields, ..o }),
                            r,
                        );
                    }
                }
            }
        },
        Op::LoadString(cp) => {
            if let Some(text) = string_constant(w, owner, cp) {
                lemma_string_made_unnamed(w, text, r);
                if let (w1, Ok(v)) = w.string_interned(text) {
                    if interned_from(w.interned, text, 0) is None {
                        let w0 = w.string_made(text).0;
                        let q = w.heap.next_ref();
                        lemma_ptr_names(q);
                        lemma_deltas_hold_less(w0.heap, q, 1, r);
                        assert(w1.interned.drop_last() =~= w.interned);
                        if q.position() == r.position() {
                            assert(w0.heap.counted(q, 1).1 == Some(false));
                        } else {
                            lemma_defines_unnamed(w1, env, n.id, v, r);
                        }
                    } else {
                        if shares(v, r) {
                            lemma_interned_is_pinned(w.interned, text, 0, r);
                        }
                        lemma_defines_unnamed(w1, env, n.id, v, r);
                    }
                }
            }
        },
        _ => {},
    }
}

proof fn lemma_handle_shares_nothing(q: RefIndex, r: RefIndex)
    ensures
        !shares(Val128::handle(q), r),
{
    broadcast use group_values;

}

/// No node makes a reference to an object that nothing references.
proof fn lemma_nodes_unnamed(
    w: WorldView,
    blocks: Seq<BlockView>,
    env: EnvView,
    owner: ClassId,
    n: NodeView,
    r: RefIndex,
)
    requires
        node_ready(w, blocks, env, n),
        plain_defaults(w.classes),
        unnamed(w, env, r),
    ensures
        outcome_unnamed(
            node_outcome(w, env, owner, n.id, n.op, n.ty, operand_values(env, n.ins)),
            r,
        ),
{
    let vals = operand_values(env, n.ins);
    match n.op {
        Op::New { .. } | Op::GetField(_) | Op::PutField(_) | Op::LoadString(_) => {
            lemma_heap_nodes_unnamed(w, blocks, env, owner, n, r);
        },
        Op::GetStatic(cp) | Op::PutStatic(cp) => {
            if let Some(Resolved::StaticField { class, slot }) = resolved_field(
                w.classes,
                owner,
                cp,
            ) {
                if init_need(w.classes, class) is Nothing {
                    let k = w.classes[class.0 as int];
                    if slot < k.statics.len() {
                        let v = k.statics[slot as int];
                        if names(v, r) {
                            lemma_static_is_counted(w.classes, class.0 as int, slot as int, r);
                        }
                        if n.op is GetStatic {
                            lemma_defines_unnamed(w, env, n.id, v, r);
                        } else if vals.len() > 0 {
                            assert(n.ins.contains(n.ins[0]));
                            lemma_leaked_operand(w, blocks, env, n, 0);
                            lemma_slot_unnamed(env, n.ins[0], r);
                            let statics = k.statics.update(slot as int, vals[0]);
                            lemma_naming_update(k.statics, slot as int, vals[0], r);
                            lemma_statics_update(
                                w.classes,
                                class.0 as int,
                                ClassView { statics, ..k },
                                r,
                            );
                        }
                    }
                }
            }
        },
        Op::InvokeStatic(_) | Op::InvokeSpecial(_) | Op::InvokeVirtual(_) => {},
        Op::InstanceOf(_) => {
            assert(!shares(Val128::from_i32(1), r) && !shares(Val128::from_i32(0), r)) by {
                broadcast use group_values;

            }
            lemma_defines_unnamed(w, env, n.id, Val128::from_i32(1), r);
            lemma_defines_unnamed(w, env, n.id, Val128::from_i32(0), r);
        },
        Op::CheckCast(_) => {
            if vals.len() > 0 {
                lemma_slot_unnamed(env, n.ins[0], r);
                lemma_defines_unnamed(w, env, n.id, vals[0], r);
            }
        },
        _ => {
            lemma_computed_is_no_reference(n.op, n.ty, vals);
            if let Outcome::Value(v) = evaluated(n.op, n.ty, vals) {
                lemma_defines_unnamed(w, env, n.id, v, r);
            }
        },
    }
}

proof fn lemma_args_unnamed(
    env: EnvView,
    slots: Seq<ValId>,
    args: Seq<Val128>,
    k: int,
    r: RefIndex,
)
    requires
        env.wf(),
        0 <= k,
        args.len() == slots.len(),
        forall|i: int| 0 <= i < slots.len() ==> (#[trigger] slots[i]).offset < env.slots.len(),
        forall|i: int| 0 <= i < args.len() ==> !shares(#[trigger] args[i], r),
        sharing(env.visible(), r) == 0,
    ensures
        sharing(args_written(env, slots, args, k).visible(), r) == 0,
    decreases slots.len() - k,
{
    if k < slots.len() {
        let s = slots[k].offset;
        let after = env.written(SlotId(s), args[k]);
        lemma_landed_len(env.slots, env.pending);
        assert(after.pending.drop_last() =~= env.pending);
        assert(after.visible() == env.visible().update(s as int, args[k]));
        lemma_sharing_update(env.visible(), s as int, args[k], r);
        lemma_sharing_bound(after.visible(), r);
        lemma_args_unnamed(after, slots, args, k + 1, r);
    }
}

/// A call makes no reference to an object that nothing references, unless it is new.
proof fn lemma_called_unnamed(
    m: MachineView,
    class: ClassId,
    method: u16,
    args: Seq<Val128>,
    depth: nat,
    r: RefIndex,
)
    requires
        m.world.heap.wf(),
        code_fits(m.world.classes),
        plain_defaults(m.world.classes),
        slots_sharing(m.tasks, r) == 0,
        world_owes(m.world, r) == 0,
        m.world.heap.held(r) == 0,
        forall|i: int| 0 <= i < args.len() ==> !shares(#[trigger] args[i], r),
        m.control is Run,
    ensures
        ({
            let after = m.called(class, method, args, depth);
            after.world.heap.object(r) is Some || references(after, r) == 0
        }),
{
    broadcast use group_values;

    match body_at(m.world.classes, class, method) {
        Some(BodyView::Native(f)) => {
            let (w, res) = native_result(f, m.world, args);
            if f is StringConcat {
                if let (Ok(a), true) = (receiver_text(m.world, args), args.len() >= 2) {
                    if let Some(b) = m.world.text_of_value(args[1]) {
                        lemma_string_made_unnamed(m.world, a + b, r);
                        if let (_, Ok(v)) = m.world.string_made(a + b) {
                            let q = m.world.heap.next_ref();
                            assert(w.heap.counted(q, 1).1 == Some(false));
                        }
                    }
                }
            }
            assert(w.heap.held(r) == 0 && world_owes(w, r) == 0);
            if let Ok(Some(x)) = res {
                lemma_deltas_hold_less(w.heap, x.ref_index(), 1, r);
            }
        },
        Some(BodyView::Bytecode(b)) => {
            if depth <= m.max_depth && args.len() == b.arg_vals.len() {
                let env = EnvView::fresh(frame_slots(b), LogicalFrame(method as u32));
                assert(b.wf());
                assert(env.visible() =~= env.slots);
                lemma_no_sharing(env.slots, r);
                assert forall|i: int| 0 <= i < b.arg_vals.len() implies (
                #[trigger] b.arg_vals[i]).offset < env.slots.len() by {
                    assert(b.arg_vals[i].fits(b.n_slots as int));
                }
                lemma_args_unnamed(env, b.arg_vals, args, 0, r);
                let f = frame_of(class, method, b, args, depth);
                assert(m.tasks.push(TaskView::Frame(f)).drop_last() =~= m.tasks);
            }
        },
        _ => {},
    }
}

/// The step of a frame that is ready makes no reference to an object that nothing references
/// once the chain has landed, unless it is new.
proof fn lemma_noded_unnamed(m: MachineView, f: FrameView, r: RefIndex)
    requires
        frame_ready(m, f),
        at_node(m.world.classes, f),
        slots_sharing(m.tasks, r) == 0,
        world_owes(m.world, r) == 0,
        sharing(f.env.visible(), r) == 0,
        frame_body(m, f).method.blocks[f.block.0 as int].nodes[f.at->0 as int].effect is Extern,
        chain_landed(f.env, m.world.heap).1.held(r) == 0,
    ensures
        ({
            let after = m.noded(f, f.at->0);
            after.world.heap.object(r) is Some || references(after, r) == 0
        }),
{
    let i = f.at->0;
    let blocks = frame_body(m, f).method.blocks;
    let n = blocks[f.block.0 as int].nodes[i as int];
    let (env, heap) = chain_landed(f.env, m.world.heap);
    let w = WorldView { heap, ..m.world };
    lemma_defaults_are_plain(w.classes);
    lemma_landing_is_invisible(EnvView { deltas: Seq::empty(), ..f.env });
    lemma_node_is_ready(m, f);
    lemma_statics_bound(w.classes, r);
    lemma_pins_bound(w.interned, r);
    lemma_nodes_unnamed(w, blocks, env, f.owner, n, r);
    let vals = operand_values(env, n.ins);
    let m1 = MachineView { world: w, ..m };
    let g = FrameView { env, ..f };
    assert(m.tasks.push(TaskView::Frame(g)).drop_last() =~= m.tasks);
    match node_outcome(w, env, f.owner, n.id, n.op, n.ty, vals) {
        NodeOutcome::Next { world, env: e } => {
            let next = TaskView::Frame(FrameView { env: e, at: Some(i + 1), ..g });
            assert(m.tasks.push(next).drop_last() =~= m.tasks);
        },
        NodeOutcome::Fault(e) => {
            lemma_left_holds_less(env, heap, r);
        },
        NodeOutcome::Call { class, method } => {
            assert forall|j: int| 0 <= j < vals.len() implies !shares(#[trigger] vals[j], r) by {
                lemma_slot_unnamed(env, n.ins[j], r);
            }
            lemma_called_unnamed(
                m1.with_task(TaskView::Frame(g)),
                class,
                method,
                vals,
                f.depth + 1,
                r,
            );
        },
        NodeOutcome::Init(class) => {
            let k = w.classes[class.0 as int];
            lemma_node_goes_on(w, env, f.owner, n.id, n.op, n.ty, vals, r);
            lemma_statics_update(
                w.classes,
                class.0 as int,
                ClassView { init: InitState::Initializing(0), ..k },
                r,
            );
            let waits = m.tasks.push(TaskView::Frame(g));
            let t = TaskView::Init(InitView { class, depth: f.depth, stage: InitStage::Super });
            assert(waits.push(t).drop_last() =~= waits);
            assert(slots_sharing(waits, r) == 0);
            assert(slots_sharing(waits.push(t), r) == 0);
            assert(m.noded(f, i).tasks == waits.push(t));
            assert(references(m.noded(f, i), r) == 0);
        },
        NodeOutcome::Float(_) => {},
    }
}

/// A frame that is left makes no field name an object.
proof fn lemma_left_holds_less(env: EnvView, heap: HeapView, r: RefIndex)
    ensures
        frame_left(env, heap, None).held(r) <= heap.held(r),
{
    let (env1, heap1) = chain_landed(env, heap);
    let n = env1.slots.len() as int;
    let batch = in_transit(None) + slot_releases(env1.slots, n);
    lemma_batches_hold_less(heap, env.deltas, r);
    lemma_batches_hold_less(heap1, batch, r);
    lemma_handles_freed_hold_less(heap1.batch_applied(batch), env1.slots, n, r);
}

/// Whether a step begins to initialise a class while a frame has something pending for an object. Only
/// an allocation can: every other use of a class is a fence.
pub open spec fn interrupts(m: MachineView, r: RefIndex) -> bool {
    let after = m.stepped();
    &&& m.control is Run
    &&& after.tasks.len() > m.tasks.len()
    &&& after.tasks.last() is Init
    &&& !landed_for(waiting(after), r)
}

proof fn lemma_pushed_landed(tasks: Seq<TaskView>, t: TaskView, r: RefIndex)
    requires
        landed_for(tasks, r),
        t matches TaskView::Frame(f) ==> f.env.deltas.len() == 0,
    ensures
        landed_for(tasks.push(t), r),
        tasks.push(t).drop_last() == tasks,
{
    assert(tasks.push(t).drop_last() =~= tasks);
    assert forall|i: int| 0 <= i < tasks.push(t).len() implies ((
    #[trigger] tasks.push(t)[i]) matches TaskView::Frame(f) ==> sum(f.env.deltas, r) == 0) by {
        if i < tasks.len() {
            assert(tasks.push(t)[i] == tasks[i]);
        }
    }
}

/// A call leaves its caller waiting.
proof fn lemma_called_waits(
    m: MachineView,
    class: ClassId,
    method: u16,
    args: Seq<Val128>,
    depth: nat,
    r: RefIndex,
)
    requires
        landed_for(m.tasks, r),
    ensures
        landed_for(waiting(m.called(class, method, args, depth)), r),
{
    if let Some(BodyView::Bytecode(b)) = body_at(m.world.classes, class, method) {
        let f = frame_of(class, method, b, args, depth);
        assert(m.tasks.push(TaskView::Frame(f)).drop_last() =~= m.tasks);
    }
}

/// A frame that runs a node leaves nothing pending behind if it has to wait, unless for a class.
proof fn lemma_noded_waits(m: MachineView, f: FrameView, r: RefIndex)
    requires
        m.control is Run,
        frame_fits(m.world.classes, f, m.max_depth),
        at_node(m.world.classes, f),
        all_confine(m.world.classes),
        landed_for(m.tasks, r),
    ensures
        ({
            let after = m.noded(f, f.at->0);
            ||| landed_for(waiting(after), r)
            ||| after.tasks.len() > m.tasks.len() + 1 && after.tasks.last() is Init
        }),
{
    let i = f.at->0;
    let blocks = frame_body(m, f).method.blocks;
    let n = blocks[f.block.0 as int].nodes[i as int];
    assert(confines(blocks));
    assert(confines_node(blocks, n));
    let (env, heap) = if n.effect is Extern {
        chain_landed(f.env, m.world.heap)
    } else {
        (f.env, m.world.heap)
    };
    let w = WorldView { heap, ..m.world };
    let vals = operand_values(env, n.ins);
    let m1 = MachineView { world: w, ..m };
    let g = TaskView::Frame(FrameView { env, ..f });
    assert(m.tasks.push(g).drop_last() =~= m.tasks);
    match node_outcome(w, env, f.owner, n.id, n.op, n.ty, vals) {
        NodeOutcome::Next { world, env: e } => {
            let next = TaskView::Frame(FrameView { env: e, at: Some(i + 1), ..f });
            assert(m.tasks.push(next).drop_last() =~= m.tasks);
        },
        NodeOutcome::Call { class, method } => {
            lemma_pushed_landed(m.tasks, g, r);
            lemma_called_waits(m1.with_task(g), class, method, vals, f.depth + 1, r);
        },
        _ => {},
    }
}

/// Frames that wait have nothing pending: calls are fences. Only a class that an allocation initialises
/// may find a frame with something pending.
pub proof fn lemma_waiting_frames_have_landed(m: MachineView, r: RefIndex)
    requires
        m.wf(),
        all_confine(m.world.classes),
        landed_for(waiting(m), r),
        !interrupts(m, r),
    ensures
        landed_for(waiting(m.stepped()), r),
{
    let classes = m.world.classes;
    if m.tasks.len() > 0 {
        let below = MachineView { tasks: m.tasks.drop_last(), ..m };
        let t = m.tasks.last();
        assert(task_fits(classes, t, m.max_depth));
        assert(landed_for(below.tasks, r)) by {
            if waiting(m) == m.tasks {
                lemma_landed_below(m.tasks, r);
            }
        }
        if below.tasks.len() > 0 {
            lemma_landed_below(below.tasks, r);
        }
        assert forall|u: TaskView| (#[trigger] below.tasks.push(u)).drop_last() == below.tasks by {
            assert(below.tasks.push(u).drop_last() =~= below.tasks);
        }
        match (m.control, t) {
            (Control::Run, TaskView::Frame(f)) => {
                assert(frame_body(below, f) == frame_body(m, f));
                let nodes = frame_body(m, f).method.blocks[f.block.0 as int].nodes;
                if f.at is Some && f.at->0 < nodes.len() {
                    lemma_noded_waits(below, f, r);
                }
            },
            (Control::Run, TaskView::Init(t)) => {
                let next = TaskView::Init(InitView { stage: InitStage::Clinit, ..t });
                let running = TaskView::Init(InitView { stage: InitStage::Running, ..t });
                lemma_pushed_landed(below.tasks, next, r);
                lemma_pushed_landed(below.tasks, running, r);
                let k = classes[t.class.0 as int];
                match t.stage {
                    InitStage::Super => {
                        if let Some(s) = k.super_id {
                            let more = TaskView::Init(
                                InitView { class: s, depth: t.depth, stage: InitStage::Super },
                            );
                            lemma_pushed_landed(below.tasks.push(next), more, r);
                        }
                    },
                    _ => {
                        if let Some(method) = k.method_index("<clinit>"@, "()V"@) {
                            lemma_called_waits(
                                below.with_task(running),
                                t.class,
                                method,
                                Seq::empty(),
                                t.depth + 1,
                                r,
                            );
                        }
                    },
                }
            },
            _ => {},
        }
    }
}

/// What is referenced when the chain of the acting frame has landed lives until the step acts.
proof fn lemma_referenced_until_acting(m: MachineView, r: RefIndex)
    requires
        m.wf(),
        m.world.heap.wf(),
        registry_wf(m.world.classes),
        keeps(m, r, 0),
        countable(m, r, 0),
        landed_for(waiting(m), r),
        0 < roots(m, r) + acting_heap(m).held(r),
    ensures
        acting_heap(m).object(r) is Some,
{
    if acting_heap(m) != m.world.heap {
        let below = m.tasks.drop_last();
        let t = m.tasks.last();
        let f = t->Frame_0;
        assert(task_fits(m.world.classes, t, m.max_depth));
        lemma_defaults_are_plain(m.world.classes);
        let b = body_at(m.world.classes, f.owner, f.method)->0->Bytecode_0;
        assert(b.wf());
        assert(f.env.slots.len() <= 0xFFFF);
        lemma_landed_owe(below, r);
        lemma_landing_spares(m.world, f.env, r, tasks_owe(below, r));
    }
}

/// A referenced object is never reclaimed. If a shared object whose count is exact is referenced when a
/// step is done - by a slot, a static, a field of a live object, the pin of an interned string, or a
/// result on its way - it is live. A step that begins to initialise a class while a frame has something
/// pending for the object leaves the frame's references uncounted, and a class initialiser must not
/// return a reference.
pub proof fn lemma_referenced_objects_live_on(m: MachineView, r: RefIndex)
    requires
        m.wf(),
        m.world.heap.wf(),
        registry_wf(m.world.classes),
        handles_stay(m),
        keeps(m, r, 0),
        countable(m, r, 0),
        landed_for(waiting(m), r),
        !interrupts(m, r),
        m.tasks.len() > 0 && m.tasks.last() is Init ==> transit(m.control, r) == 0,
        0 < references(m.stepped(), r),
    ensures
        m.stepped().world.heap.object(r) is Some,
        landed_for(waiting(m.stepped()), r),
{
    lemma_waiting_frames_have_landed(m, r);
    if acting_heap(m).object(r) is Some {
        lemma_acting_objects_live_on(m, r);
    } else {
        let classes = m.world.classes;
        let below = MachineView { tasks: m.tasks.drop_last(), ..m };
        let t = m.tasks.last();
        let f = t->Frame_0;
        assert(m.tasks[m.tasks.len() - 1] == t);
        assert(task_contained(classes, t));
        assert(task_fits(classes, t, m.max_depth));
        assert(tasks_contained(below)) by {
            assert forall|i: int| 0 <= i < below.tasks.len() implies task_contained(
                classes,
                #[trigger] below.tasks[i],
            ) by {
                assert(below.tasks[i] == m.tasks[i]);
            }
        }
        assert(frame_body(below, f) == frame_body(m, f));
        if 0 < roots(m, r) + acting_heap(m).held(r) {
            lemma_referenced_until_acting(m, r);
        }
        lemma_slots_sharing_bound(below.tasks, r);
        lemma_sharing_bound(f.env.visible(), r);
        lemma_statics_bound(classes, r);
        lemma_pins_bound(m.world.interned, r);
        lemma_noded_unnamed(below, f, r);
    }
}

/// What a machine must be like for the counts of an object to be exact after its next step, too: they
/// are far from what can be counted, the step leaves no waiting frame with something pending for the
/// object, and no class initialiser returns a reference to it.
pub open spec fn accountable(m: MachineView, r: RefIndex) -> bool {
    &&& countable(m, r, 0)
    &&& !interrupts(m, r)
    &&& m.tasks.len() > 0 && m.tasks.last() is Init ==> transit(m.control, r) == 0
}

/// Whether that is so in the first `n` steps of a run.
pub open spec fn accountable_for(m: MachineView, floats: Floats, n: nat, r: RefIndex) -> bool {
    forall|i: nat| i < n ==> accountable(#[trigger] worked_on(m, floats, i), r)
}

/// Whether the books of a machine are in order for an object: its count is exact, waiting frames have
/// nothing pending for it, and handles are where they may be.
pub open spec fn exact(m: MachineView, r: RefIndex) -> bool {
    &&& m.wf()
    &&& m.world.heap.wf()
    &&& registry_wf(m.world.classes)
    &&& handles_stay(m)
    &&& keeps(m, r, 0)
    &&& landed_for(waiting(m), r)
}

/// A literal that is interned for the first time, at a place that nothing named, is counted exactly:
/// by the reference that pins it.
pub proof fn lemma_interning_counts_exactly(m: MachineView, text: Seq<char>)
    requires
        m.world.heap.wf(),
        registry_wf(m.world.classes),
        interned_from(m.world.interned, text, 0) is None,
        m.world.string_interned(text).1 is Ok,
        outside(m, m.world.heap.next_ref()) == 0,
        m.world.heap.held(m.world.heap.next_ref()) == 0,
    ensures
        ({
            let (w, v) = m.world.string_interned(text);
            let r = m.world.heap.next_ref();
            &&& keeps(MachineView { world: w, ..m }, r, 0)
            &&& interned_from(w.interned, text, 0) == Some(v->Ok_0)
            &&& names(v->Ok_0, r)
            &&& w.heap.object(r)->0.text == Some(text)
        }),
{
    broadcast use group_values;

    let r = m.world.heap.next_ref();
    let (w1, v) = m.world.string_made(text);
    lemma_defaults_are_plain(m.world.classes);
    lemma_string_made_unnamed(m.world, text, r);
    lemma_interned_pushed(m.world.interned, text, v->Ok_0, text, 0);
    let w = m.world.string_interned(text).0;
    assert(w.interned.drop_last() =~= m.world.interned);
    assert(w1.heap.counts(r, 0));
    lemma_deltas_count(w1.heap, r, 1, r, 0);
}

/// What is referenced from outside the heap, and is still referenced when the machine has gone on,
/// lives through whatever it did.
proof fn lemma_rooted_objects_live_on(m: MachineView, floats: Floats, r: RefIndex)
    requires
        exact(m, r),
        accountable(m, r),
        forall|q: FloatRequest| !is_handle(#[trigger] floats(q)),
        0 < roots(m, r),
        0 < references(worked(m, floats), r),
    ensures
        exact(worked(m, floats), r),
{
    if let Control::Float(q) = m.control {
        lemma_answered_wf(m, floats(q));
        lemma_answers_keep_counts_exact(m, floats(q), r, 0);
        lemma_answers_bring_no_handles(m, floats(q));
        assert(waiting(m.answered(floats(q))) =~= waiting(m));
    } else {
        lemma_stepped_wf(m);
        lemma_step_goes_on(m, r);
        lemma_exclusive_objects_stay_with_their_scope(m);
        lemma_waiting_frames_have_landed(m, r);
        lemma_referenced_until_acting(m, r);
        lemma_acting_objects_live_on(m, r);
    }
}

/// A shared object that is referenced from outside the heap throughout a run - by slots, statics, pins
/// or results on their way, whichever they are at a time - lives throughout the run, with an exact
/// count.
pub proof fn lemma_rooted_objects_live(m: MachineView, floats: Floats, n: nat, r: RefIndex)
    requires
        exact(m, r),
        accountable_for(m, floats, n, r),
        forall|q: FloatRequest| !is_handle(#[trigger] floats(q)),
        forall|i: nat| i <= n ==> 0 < roots(#[trigger] worked_on(m, floats, i), r),
    ensures
        worked_on(m, floats, n).world.heap.object(r) is Some,
        exact(worked_on(m, floats, n), r),
    decreases n,
{
    if n > 0 {
        let next = worked(m, floats);
        assert(accountable(worked_on(m, floats, 0), r));
        assert(worked_on(next, floats, 0) == next);
        assert(0 < roots(worked_on(m, floats, 0), r));
        assert(0 < roots(worked_on(m, floats, 1), r));
        lemma_rooted_objects_live_on(m, floats, r);
        assert forall|i: nat| i < n - 1 implies accountable(
            #[trigger] worked_on(next, floats, i),
            r,
        ) by {
            assert(worked_on(m, floats, i + 1) == worked_on(next, floats, i));
        }
        assert forall|i: nat| i <= n - 1 implies 0 < roots(
            #[trigger] worked_on(next, floats, i),
            r,
        ) by {
            assert(worked_on(m, floats, i + 1) == worked_on(next, floats, i));
        }
        lemma_rooted_objects_live(next, floats, (n - 1) as nat, r);
    }
}

/// What pins an object references it.
proof fn lemma_pins_are_roots(m: MachineView, r: RefIndex)
    requires
        0 < pins(m.world.interned, r),
    ensures
        0 < roots(m, r),
{
    lemma_slots_sharing_bound(m.tasks, r);
    lemma_statics_bound(m.world.classes, r);
}

/// An interned string is never released: however long the machine runs, its text stays interned as the
/// same reference, which names a live object with an exact count.
pub proof fn lemma_interned_strings_are_never_released(
    m: MachineView,
    floats: Floats,
    n: nat,
    text: Seq<char>,
    r: RefIndex,
)
    requires
        exact(m, r),
        interned_from(m.world.interned, text, 0) matches Some(v) && names(v, r),
        accountable_for(m, floats, n, r),
        forall|q: FloatRequest| !is_handle(#[trigger] floats(q)),
    ensures
        ({
            let after = worked_on(m, floats, n);
            &&& exact(after, r)
            &&& after.world.heap.object(r) is Some
            &&& interned_from(after.world.interned, text, 0) == interned_from(
                m.world.interned,
                text,
                0,
            )
        }),
    decreases n,
{
    if n > 0 {
        let next = worked(m, floats);
        assert(accountable(worked_on(m, floats, 0), r));
        lemma_interned_is_pinned(m.world.interned, text, 0, r);
        if !(m.control is Float) {
            lemma_step_goes_on(m, r);
        }
        lemma_interned_is_pinned(next.world.interned, text, 0, r);
        lemma_pins_are_roots(m, r);
        lemma_pins_are_roots(next, r);
        lemma_rooted_objects_live_on(m, floats, r);
        assert forall|i: nat| i < n - 1 implies accountable(
            #[trigger] worked_on(next, floats, i),
            r,
        ) by {
            assert(worked_on(m, floats, i + 1) == worked_on(next, floats, i));
        }
        lemma_interned_strings_are_never_released(next, floats, (n - 1) as nat, text, r);
    }
}

} // verus!
