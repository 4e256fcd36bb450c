//! What holds of every run.

use vstd::prelude::*;
use crate::env::EnvView;
use crate::heap::{lemma_batch_adds_up, net_delta, HeapView};
use crate::ids::{BlockId, ClassId, RefIndex, SlotId, ValId};
use crate::interp::error::ExecError;
use crate::interp::machine::{
    body_at, chain_landed, frame_body, frame_left, in_transit, node_outcome, operand_values,
    phi_writes, phis_resolved, slot_releases, slot_value, source_from, type_outcome, CallResult,
    Control, FrameView, InitStage, InitView, MachineView, NodeOutcome, TaskView,
};
use crate::ir::{BlockView, PhiView, Terminator};
use crate::ssa::phis::source_blocks;
use crate::interp::soundness::{
    awaits_call, code_fits, frame_fits, lemma_native_keeps_classes, lemma_node_fits,
    lemma_node_keeps_shape, same_code,
};
use crate::loader::{BodyView, RegistryView};
use crate::value::Val128;
use crate::world::WorldView;

verus! {

/// Whether no class falls back to being uninitialised, and no code changes.
pub open spec fn init_advances(a: RegistryView, b: RegistryView) -> bool {
    &&& same_code(a, b)
    &&& forall|i: int|
        0 <= i < a.len() && !(a[i].init is Loaded) ==> !((#[trigger] b[i]).init is Loaded)
}

/// Whether the topmost task of `b` is an initialisation that `a` does not have.
pub open spec fn begins_init(a: MachineView, b: MachineView) -> bool {
    b.tasks.len() > a.tasks.len() && b.tasks.last() is Init
}

proof fn lemma_called_keeps_classes(
    m: MachineView,
    class: ClassId,
    method: u16,
    args: Seq<Val128>,
    depth: nat,
)
    ensures
        m.called(class, method, args, depth).world.classes == m.world.classes,
        m.called(class, method, args, depth).tasks.len() > m.tasks.len() ==> m.called(
            class,
            method,
            args,
            depth,
        ).tasks.last() is Frame,
        m.called(class, method, args, depth).tasks.len() >= m.tasks.len(),
{
    if let Some(BodyView::Native(f)) = body_at(m.world.classes, class, method) {
        lemma_native_keeps_classes(f, m.world, args);
    }
}

proof fn lemma_noded_advances(m: MachineView, f: FrameView)
    requires
        code_fits(m.world.classes),
        frame_fits(m.world.classes, f, m.max_depth),
        awaits_call(m.world.classes, TaskView::Frame(f)),
    ensures
        ({
            let b = m.noded(f, f.at->0);
            &&& init_advances(m.world.classes, b.world.classes)
            &&& b.tasks.len() > m.tasks.len() + 1 && b.tasks.last() is Init ==> {
                let c = b.tasks.last()->Init_0.class;
                m.world.classes[c.0 as int].init is Loaded && b.world.classes[c.0 as int].init
                    is Initializing
            }
        }),
{
    let i = f.at->0;
    let node = frame_body(m, f).method.blocks[f.block.0 as int].nodes[i as int];
    let (env, heap) = if node.effect is Extern {
        chain_landed(f.env, m.world.heap)
    } else {
        (f.env, m.world.heap)
    };
    lemma_node_fits(m.world.classes, f, m.max_depth);
    crate::env::lemma_landing_is_invisible(EnvView { deltas: Seq::empty(), ..f.env });
    let w = WorldView { heap, ..m.world };
    let vals = operand_values(env, node.ins);
    lemma_node_keeps_shape(w, env, f.owner, node.id, node.op, node.ty, vals);
    let m1 = MachineView { world: w, ..m };
    let g = FrameView { env, ..f };
    if let NodeOutcome::Call { class, method } = node_outcome(
        w,
        env,
        f.owner,
        node.id,
        node.op,
        node.ty,
        vals,
    ) {
        lemma_called_keeps_classes(
            m1.with_task(TaskView::Frame(g)),
            class,
            method,
            vals,
            f.depth + 1,
        );
    }
}

proof fn lemma_init_stepped_advances(m: MachineView, t: InitView)
    requires
        t.class.0 < m.world.classes.len(),
    ensures
        ({
            let b = m.init_stepped(t);
            &&& init_advances(m.world.classes, b.world.classes)
            &&& b.tasks.len() > m.tasks.len() + 1 && b.tasks.last() is Init ==> {
                let c = b.tasks.last()->Init_0.class;
                m.world.classes[c.0 as int].init is Loaded && b.world.classes[c.0 as int].init
                    is Initializing
            }
        }),
{
    let k = m.world.classes[t.class.0 as int];
    if !(t.stage is Super) {
        if let Some(method) = k.method_index("<clinit>"@, "()V"@) {
            lemma_called_keeps_classes(
                m.with_task(TaskView::Init(InitView { stage: InitStage::Running, ..t })),
                t.class,
                method,
                Seq::empty(),
                t.depth + 1,
            );
        }
    }
}

/// A class is initialised once, and only when it is first used: no step makes an initialised class
/// uninitialised, an initialisation begins only for a class that is uninitialised, and from then on
/// it is not.
pub proof fn lemma_classes_initialise_once(m: MachineView)
    requires
        m.wf(),
    ensures
        init_advances(m.world.classes, m.stepped().world.classes),
        begins_init(m, m.stepped()) ==> {
            let c = m.stepped().tasks.last()->Init_0.class;
            m.world.classes[c.0 as int].init is Loaded
                && m.stepped().world.classes[c.0 as int].init is Initializing
        },
{
    if m.tasks.len() > 0 && !m.settled() {
        let below = MachineView { tasks: m.tasks.drop_last(), ..m };
        let t = m.tasks.last();
        assert(below.tasks.push(t) =~= m.tasks);
        if m.control is Run {
            match t {
                TaskView::Frame(f) => {
                    if f.at is Some && f.at->0 < frame_body(
                        below,
                        f,
                    ).method.blocks[f.block.0 as int].nodes.len() {
                        lemma_noded_advances(below, f);
                    }
                },
                TaskView::Init(i) => {
                    lemma_init_stepped_advances(below, i);
                },
            }
        }
    }
}

/// No class is left half initialised: whenever a step takes an initialisation off the stack, the class
/// is initialised, or it has failed, because its own `<clinit>` or its superclass has, and whoever
/// waits for it learns which.
pub proof fn lemma_every_initialisation_ends(m: MachineView)
    requires
        m.wf(),
        m.tasks.len() > 0,
        m.tasks.last() is Init,
        m.stepped().tasks.len() < m.tasks.len(),
    ensures
        ({
            let c = m.tasks.last()->Init_0.class;
            match m.stepped().control {
                Control::Ready(Ok(_)) => m.stepped().world.classes[c.0 as int].init is Initialized,
                Control::Ready(Err(_)) => m.stepped().world.classes[c.0 as int].init is Failed,
                _ => false,
            }
        }),
{
    let below = MachineView { tasks: m.tasks.drop_last(), ..m };
    let t = m.tasks.last()->Init_0;
    assert(t.class.0 < m.world.classes.len());
    if m.control is Run {
        let k = m.world.classes[t.class.0 as int];
        if let Some(method) = k.method_index("<clinit>"@, "()V"@) {
            lemma_called_keeps_classes(
                below.with_task(TaskView::Init(InitView { stage: InitStage::Running, ..t })),
                t.class,
                method,
                Seq::empty(),
                t.depth + 1,
            );
        }
    }
}

/// The value that a result hands over.
pub open spec fn handed_over(result: CallResult) -> Option<Val128> {
    match result {
        Ok(v) => v,
        Err(_) => None,
    }
}

/// Whether a machine has just left a frame: some environment of the frame was torn down.
pub open spec fn left_a_frame(m: MachineView) -> bool {
    m.control matches Control::Returned(result) && exists|env: EnvView, heap: HeapView|
        m.world.heap == #[trigger] frame_left(env, heap, handed_over(result))
}

/// No frame is left without releasing what its slots hold: whenever a step takes a frame off the
/// stack, well or not, it tears the frame down.
pub proof fn lemma_every_exit_releases(m: MachineView)
    requires
        m.wf(),
        m.tasks.len() > 0,
        m.tasks.last() is Frame,
        m.stepped().tasks.len() < m.tasks.len(),
    ensures
        left_a_frame(m.stepped()),
{
    let below = MachineView { tasks: m.tasks.drop_last(), ..m };
    let f = m.tasks.last()->Frame_0;
    match m.control {
        Control::Run => {
            match f.at {
                None => {
                    lemma_left_leaves(below, f, Err(ExecError::StepLimit));
                    lemma_left_leaves(below, f, Err(ExecError::BadBlock));
                    lemma_left_leaves(below, f, Err(ExecError::BadPhi));
                },
                Some(i) => {
                    let b = frame_body(below, f);
                    let block = b.method.blocks[f.block.0 as int];
                    if i < block.nodes.len() {
                        let node = block.nodes[i as int];
                        let (env, heap) = if node.effect is Extern {
                            chain_landed(f.env, m.world.heap)
                        } else {
                            (f.env, m.world.heap)
                        };
                        let w = WorldView { heap, ..m.world };
                        let vals = operand_values(env, node.ins);
                        let g = FrameView { env, ..f };
                        let m1 = MachineView { world: w, ..below };
                        match node_outcome(w, env, f.owner, node.id, node.op, node.ty, vals) {
                            NodeOutcome::Fault(e) => {
                                lemma_left_leaves(m1, g, Err(e));
                            },
                            NodeOutcome::Call { class, method } => {
                                lemma_called_keeps_classes(
                                    m1.with_task(TaskView::Frame(g)),
                                    class,
                                    method,
                                    vals,
                                    f.depth + 1,
                                );
                            },
                            _ => {},
                        }
                    } else {
                        match block.term {
                            Terminator::Return(Some(v)) => {
                                lemma_left_leaves(
                                    below,
                                    f,
                                    Ok(Some(slot_value(f.env, v))),
                                );
                            },
                            Terminator::Return(None) => {
                                lemma_left_leaves(below, f, Ok(None));
                            },
                            Terminator::Throw(_) => {
                                lemma_left_leaves(below, f, Err(ExecError::Thrown));
                            },
                            _ => {},
                        }
                    }
                },
            }
        },
        Control::Returned(Err(e)) => {
            lemma_left_leaves(below, f, Err(e));
        },
        Control::Ready(Err(e)) => {
            lemma_left_leaves(below, f, Err(e));
        },
        _ => {},
    }
}

proof fn lemma_left_leaves(m: MachineView, f: FrameView, result: CallResult)
    ensures
        left_a_frame(m.left(f, result)),
{
    let after = m.left(f, result);
    assert(after.world.heap == frame_left(f.env, m.world.heap, handed_over(result)));
}

/// `null` is an instance of no class, and can be cast to every class.
pub proof fn lemma_null_is_no_instance(
    w: WorldView,
    env: EnvView,
    owner: ClassId,
    id: ValId,
    cp: u16,
    vals: Seq<Val128>,
)
    requires
        vals.len() > 0,
        vals[0].tag() is Null,
    ensures
        type_outcome(w, env, owner, id, cp, false, vals) == (NodeOutcome::Next {
            world: w,
            env: env.written(SlotId(id.offset), Val128::from_i32(0)),
        }),
        type_outcome(w, env, owner, id, cp, true, vals) == (NodeOutcome::Next {
            world: w,
            env: env.written(SlotId(id.offset), vals[0]),
        }),
{
}

/// A call beyond the depth limit is refused, and changes nothing else.
pub proof fn lemma_depth_limit_refuses(
    m: MachineView,
    class: ClassId,
    method: u16,
    args: Seq<Val128>,
    depth: nat,
)
    requires
        body_at(m.world.classes, class, method) matches Some(BodyView::Bytecode(_)),
        depth > m.max_depth,
    ensures
        m.called(class, method, args, depth) == m.then_do(
            Control::Returned(Err(ExecError::StackOverflow)),
        ),
{
}

/// How many of the first `n` slots hold a shared reference to an object.
pub open spec fn slots_naming(slots: Seq<Val128>, r: RefIndex, n: int) -> nat
    decreases n,
{
    if n <= 0 {
        0
    } else {
        slots_naming(slots, r, n - 1) + (if slots[n - 1].tag() is Ptr && slots[n - 1].ref_index()
            == r {
            1nat
        } else {
            0
        })
    }
}

proof fn lemma_releases_add_up(slots: Seq<Val128>, r: RefIndex, n: int)
    requires
        0 <= n <= slots.len(),
    ensures
        net_delta(slot_releases(slots, n), r) == -slots_naming(slots, r, n),
        slot_releases(slots, n).len() <= n,
    decreases n,
{
    if n > 0 {
        lemma_releases_add_up(slots, r, n - 1);
        let v = slots[n - 1];
        if v.tag() is Ptr {
            assert(slot_releases(slots, n).drop_last() =~= slot_releases(slots, n - 1));
        }
    }
}

proof fn lemma_net_of_sum(a: Seq<(RefIndex, i32)>, b: Seq<(RefIndex, i32)>, r: RefIndex)
    ensures
        net_delta(a + b, r) == net_delta(a, r) + net_delta(b, r),
    decreases b.len(),
{
    if b.len() == 0 {
        assert(a + b =~= a);
    } else {
        lemma_net_of_sum(a, b.drop_last(), r);
        assert((a + b).drop_last() =~= a + b.drop_last());
    }
}

/// A returned reference is safe while its frame is torn down: before anything is reclaimed, it
/// counts once for the caller and no longer for the slots that named it, so that it stays counted
/// if those slots were.
pub proof fn lemma_returned_reference_stays_counted(
    heap: HeapView,
    slots: Seq<Val128>,
    v: Val128,
)
    requires
        v.tag() is Ptr,
        slots.len() <= 0xFFFF,
        heap.object(v.ref_index()) is Some,
        !(heap.object(v.ref_index())->0.escape is S1),
        slots_naming(slots, v.ref_index(), slots.len() as int) <= heap.object(v.ref_index())->0.rc
            <= 0x1000_0000_0000_0000,
        usize::MAX == u64::MAX,
    ensures
        ({
            let r = v.ref_index();
            let k = slots_naming(slots, r, slots.len() as int);
            let batch = in_transit(Some(v)) + slot_releases(slots, slots.len() as int);
            let after = heap.all_counted(batch).object(r);
            after is Some && after->0.rc == heap.object(r)->0.rc + 1 - k && after->0.rc >= 1
        }),
{
    let r = v.ref_index();
    let n = slots.len() as int;
    let (a, b) = (in_transit(Some(v)), slot_releases(slots, n));
    lemma_releases_add_up(slots, r, n);
    lemma_net_of_sum(a, b, r);
    assert(a.drop_last() =~= Seq::<(RefIndex, i32)>::empty());
    reveal_with_fuel(net_delta, 2);
    assert(net_delta(a, r) == 1);
    lemma_batch_adds_up(heap, a + b, r);
}

proof fn lemma_source_found(sources: Seq<(BlockId, ValId)>, p: BlockId, i: int, k: int)
    requires
        0 <= i <= k < sources.len(),
        sources[k].0 == p,
    ensures
        source_from(sources, p, i) is Some,
    decreases sources.len() - i,
{
    if sources[i].0 != p {
        lemma_source_found(sources, p, i + 1, k);
    }
}

proof fn lemma_writes_found(
    env: EnvView,
    phis: Seq<PhiView>,
    p: BlockId,
    k: int,
    writes: Seq<(u16, Val128)>,
)
    requires
        0 <= k,
        forall|j: int|
            0 <= j < phis.len() ==> source_blocks((#[trigger] phis[j]).sources).contains(p),
    ensures
        phi_writes(env, phis, p, k, writes) is Some,
    decreases phis.len() - k,
{
    if k < phis.len() {
        let sources = phis[k].sources;
        assert(source_blocks(sources).contains(p));
        let i = source_blocks(sources).index_of(p);
        assert(source_blocks(sources)[i] == p);
        lemma_source_found(sources, p, 0, i);
        let v = source_from(sources, p, 0)->0;
        lemma_writes_found(
            env,
            phis,
            p,
            k + 1,
            writes.push((phis[k].slot.offset, slot_value(env, v))),
        );
    }
}

/// Entering a block never fails for want of a φ operand, if its φ have one for the block that control
/// comes from.
pub proof fn lemma_phis_resolve(env: EnvView, block: BlockView, p: BlockId)
    requires
        forall|j: int|
            0 <= j < block.phis.len() ==> source_blocks(
                (#[trigger] block.phis[j]).sources,
            ).contains(p),
    ensures
        phis_resolved(env, block, Some(p)) is Some,
{
    lemma_writes_found(env, block.phis, p, 0, Seq::empty());
}

} // verus!
