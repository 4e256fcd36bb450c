//! What every step keeps, and why every call ends.

use vstd::prelude::*;
use crate::diff::EscapeState;
use crate::env::{lemma_landing_is_invisible, EnvView};
use crate::heap::HeapView;
use crate::ids::{BlockId, ClassId, SlotId, ValId};
use crate::interp::error::ExecError;
use crate::interp::eval::{evaluated, Outcome};
use crate::interp::machine::{
    all_written, args_written, body_at, chain_landed, frame_body, frame_of, frame_slots,
    get_field_outcome, init_need, invoke_outcome, load_string_outcome, new_outcome, node_outcome,
    operand_values, phi_writes, phis_resolved, put_field_outcome, slot_value, source_from,
    static_outcome, type_outcome, CallResult, Control, FrameView, InitNeed, InitStage, InitView,
    MAX_BLOCKS, MachineView, NodeOutcome, TaskView,
};
use crate::ir::{BlockView, Op, PhiView, Terminator};
use crate::loader::{with_init, BodyView, InitState, RegistryView};
use crate::stdlib::native_result;
use crate::value::{Tag, Val128};
use crate::world::WorldView;

verus! {

/// Whether two registries have the same methods: only statics and initialisation states differ.
pub open spec fn same_code(a: RegistryView, b: RegistryView) -> bool {
    &&& a.len() == b.len()
    &&& forall|i: int| 0 <= i < a.len() ==> (#[trigger] b[i]).methods == a[i].methods
}

/// Whether two registries have the same initialisation states.
pub open spec fn same_init(a: RegistryView, b: RegistryView) -> bool {
    &&& a.len() == b.len()
    &&& forall|i: int| 0 <= i < a.len() ==> (#[trigger] b[i]).init == a[i].init
}

/// Whether the code, the initialisation states and the shape of an environment stay as they were.
pub open spec fn keeps_shape(w0: WorldView, e0: EnvView, w1: WorldView, e1: EnvView) -> bool {
    &&& same_code(w0.classes, w1.classes)
    &&& same_init(w0.classes, w1.classes)
    &&& e1.wf()
    &&& e1.slots.len() == e0.slots.len()
}

/// Every built method is well-formed.
pub open spec fn code_fits(r: RegistryView) -> bool {
    forall|class: ClassId, method: u16|
        (#[trigger] body_at(r, class, method)) matches Some(BodyView::Bytecode(b)) ==> b.wf()
}

/// A frame fits its method, and its depth the limit.
pub open spec fn frame_fits(r: RegistryView, f: FrameView, max_depth: nat) -> bool {
    match body_at(r, f.owner, f.method) {
        Some(BodyView::Bytecode(b)) => {
            &&& f.env.wf()
            &&& f.env.slots.len() == frame_slots(b)
            &&& f.block.0 < b.method.blocks.len()
            &&& f.steps <= MAX_BLOCKS
            &&& f.depth <= max_depth
            &&& match f.at {
                Some(i) => i <= b.method.blocks[f.block.0 as int].nodes.len(),
                None => true,
            }
        },
        _ => false,
    }
}

/// A task fits.
pub open spec fn task_fits(r: RegistryView, t: TaskView, max_depth: nat) -> bool {
    match t {
        TaskView::Frame(f) => frame_fits(r, f, max_depth),
        TaskView::Init(t) => t.class.0 < r.len() && t.depth <= max_depth,
    }
}

/// Whether a frame stands at a node.
pub open spec fn at_node(r: RegistryView, f: FrameView) -> bool {
    match body_at(r, f.owner, f.method) {
        Some(BodyView::Bytecode(b)) => match f.at {
            Some(i) => i < b.method.blocks[f.block.0 as int].nodes.len(),
            None => false,
        },
        _ => false,
    }
}

/// Whether a task can wait for a call.
pub open spec fn awaits_call(r: RegistryView, t: TaskView) -> bool {
    match t {
        TaskView::Frame(f) => at_node(r, f),
        TaskView::Init(t) => t.stage is Running,
    }
}

/// Whether a task can wait for a class initialisation.
pub open spec fn awaits_class(r: RegistryView, t: TaskView) -> bool {
    match t {
        TaskView::Frame(f) => at_node(r, f),
        TaskView::Init(t) => t.stage is Clinit,
    }
}

/// Whether a task can stand on top of others.
pub open spec fn stands_on(r: RegistryView, tasks: Seq<TaskView>, t: TaskView) -> bool {
    match t {
        TaskView::Frame(_) => tasks.len() == 0 || awaits_call(r, tasks.last()),
        TaskView::Init(_) => tasks.len() > 0 && awaits_class(r, tasks.last()),
    }
}

/// Every task fits, and waits for the one on top of it.
pub open spec fn stack_fits(r: RegistryView, tasks: Seq<TaskView>, max_depth: nat) -> bool
    decreases tasks.len(),
{
    tasks.len() == 0 || {
        &&& stack_fits(r, tasks.drop_last(), max_depth)
        &&& task_fits(r, tasks.last(), max_depth)
        &&& stands_on(r, tasks.drop_last(), tasks.last())
    }
}

impl MachineView {
    /// The machine is in a state that running can lead to.
    pub open spec fn wf(self) -> bool {
        let r = self.world.classes;
        &&& code_fits(r)
        &&& stack_fits(r, self.tasks, self.max_depth)
        &&& match self.control {
            Control::Run => self.tasks.len() > 0 && match self.tasks.last() {
                TaskView::Frame(_) => true,
                TaskView::Init(t) => !(t.stage is Running),
            },
            Control::Returned(_) => self.tasks.len() == 0 || awaits_call(r, self.tasks.last()),
            Control::Ready(_) => self.tasks.len() > 0 && awaits_class(r, self.tasks.last()),
            Control::Float(_) => self.tasks.len() > 0 && self.tasks.last() is Frame && awaits_call(
                r,
                self.tasks.last(),
            ),
            Control::Done(_) => self.tasks.len() == 0,
        }
    }

    /// Whether nothing is left to do but to answer a request or to take the result.
    pub open spec fn settled(self) -> bool {
        self.control is Done || self.control is Float
    }

    /// The machine that running leads to.
    pub open spec fn run_out(self) -> MachineView {
        self.advanced(choose|k: nat| (#[trigger] self.advanced(k)).settled())
    }
}

/// The same code means the same bodies.
pub proof fn lemma_same_body(a: RegistryView, b: RegistryView, class: ClassId, method: u16)
    requires
        same_code(a, b),
    ensures
        body_at(a, class, method) == body_at(b, class, method),
{
    if class.0 < a.len() {
        assert(b[class.0 as int].methods == a[class.0 as int].methods);
    }
}

proof fn lemma_same_code_fits(a: RegistryView, b: RegistryView)
    requires
        same_code(a, b),
        code_fits(a),
    ensures
        code_fits(b),
{
    assert forall|class: ClassId, method: u16|
        (#[trigger] body_at(b, class, method)) matches Some(BodyView::Bytecode(x)) implies body_at(
        b,
        class,
        method,
    )->0->Bytecode_0.wf() by {
        lemma_same_body(a, b, class, method);
    }
}

proof fn lemma_same_stack_fits(a: RegistryView, b: RegistryView, tasks: Seq<TaskView>, max: nat)
    requires
        same_code(a, b),
        stack_fits(a, tasks, max),
    ensures
        stack_fits(b, tasks, max),
        tasks.len() > 0 ==> awaits_call(a, tasks.last()) == awaits_call(b, tasks.last()),
        tasks.len() > 0 ==> awaits_class(a, tasks.last()) == awaits_class(b, tasks.last()),
    decreases tasks.len(),
{
    if tasks.len() > 0 {
        lemma_same_stack_fits(a, b, tasks.drop_last(), max);
        if let TaskView::Frame(f) = tasks.last() {
            lemma_same_body(a, b, f.owner, f.method);
        }
    }
}

proof fn lemma_args_written_fits(env: EnvView, slots: Seq<ValId>, args: Seq<Val128>, k: int)
    requires
        env.wf(),
        0 <= k,
        forall|i: int| 0 <= i < slots.len() ==> (#[trigger] slots[i]).fits(env.slots.len() as int),
    ensures
        args_written(env, slots, args, k).wf(),
        args_written(env, slots, args, k).slots.len() == env.slots.len(),
    decreases slots.len() - k,
{
    if k < slots.len() {
        assert(slots[k].fits(env.slots.len() as int));
        lemma_args_written_fits(
            env.written(SlotId(slots[k].offset), args[k]),
            slots,
            args,
            k + 1,
        );
    }
}

pub proof fn lemma_phi_writes_fit(
    env: EnvView,
    phis: Seq<PhiView>,
    p: BlockId,
    k: int,
    writes: Seq<(u16, Val128)>,
    n: int,
)
    requires
        0 <= k,
        forall|i: int| 0 <= i < phis.len() ==> (#[trigger] phis[i]).fits(n),
        forall|i: int| 0 <= i < writes.len() ==> (#[trigger] writes[i]).0 < n,
    ensures
        phi_writes(env, phis, p, k, writes) matches Some(ws) ==> forall|i: int|
            0 <= i < ws.len() ==> (#[trigger] ws[i]).0 < n,
    decreases phis.len() - k,
{
    if k < phis.len() {
        assert(phis[k].fits(n));
        if let Some(v) = source_from(phis[k].sources, p, 0) {
            lemma_phi_writes_fit(
                env,
                phis,
                p,
                k + 1,
                writes.push(
                    (phis[k].slot.offset, slot_value(env, v)),
                ),
                n,
            );
        }
    }
}

proof fn lemma_all_written_fits(env: EnvView, writes: Seq<(u16, Val128)>, k: int)
    requires
        env.wf(),
        0 <= k,
        forall|i: int| 0 <= i < writes.len() ==> (#[trigger] writes[i]).0 < env.slots.len(),
    ensures
        all_written(env, writes, k).wf(),
        all_written(env, writes, k).slots.len() == env.slots.len(),
    decreases writes.len() - k,
{
    if k < writes.len() {
        lemma_all_written_fits(env.written(SlotId(writes[k].0), writes[k].1), writes, k + 1);
    }
}

/// Resolving the φ of a block keeps the shape of the environment.
pub proof fn lemma_phis_resolved_fit(env: EnvView, b: BlockView, prev: Option<BlockId>)
    requires
        env.wf(),
        forall|i: int|
            0 <= i < b.phis.len() ==> (#[trigger] b.phis[i]).fits(env.slots.len() as int),
    ensures
        phis_resolved(env, b, prev) matches Some(e) ==> e.wf() && e.slots.len() == env.slots.len(),
{
    if let Some(p) = prev {
        lemma_phi_writes_fit(env, b.phis, p, 0, Seq::empty(), env.slots.len() as int);
        if let Some(ws) = phi_writes(env, b.phis, p, 0, Seq::empty()) {
            lemma_all_written_fits(env, ws, 0);
        }
    }
}

proof fn lemma_chain_landed_fits(env: EnvView, heap: HeapView)
    requires
        env.wf(),
    ensures
        chain_landed(env, heap).0.wf(),
        chain_landed(env, heap).0.slots.len() == env.slots.len(),
{
    lemma_landing_is_invisible(EnvView { deltas: Seq::empty(), ..env });
}

proof fn lemma_written_fits(env: EnvView, s: SlotId, v: Val128)
    requires
        env.wf(),
        s.0 < env.slots.len(),
    ensures
        env.written(s, v).wf(),
        env.written(s, v).slots.len() == env.slots.len(),
{
}

proof fn lemma_new_keeps_shape(
    w: WorldView,
    env: EnvView,
    owner: ClassId,
    id: ValId,
    class_cp: u16,
    escape: EscapeState,
)
    requires
        env.wf(),
        id.offset < env.slots.len(),
    ensures
        outcome_keeps_shape(w, env, new_outcome(w, env, owner, id, class_cp, escape)),
{
}

proof fn lemma_static_keeps_shape(
    w: WorldView,
    env: EnvView,
    owner: ClassId,
    id: ValId,
    cp: u16,
    is_write: bool,
    vals: Seq<Val128>,
)
    requires
        env.wf(),
        id.offset < env.slots.len(),
    ensures
        outcome_keeps_shape(w, env, static_outcome(w, env, owner, id, cp, is_write, vals)),
{
}

proof fn lemma_fields_keep_shape(
    w: WorldView,
    env: EnvView,
    owner: ClassId,
    id: ValId,
    cp: u16,
    vals: Seq<Val128>,
)
    requires
        env.wf(),
        id.offset < env.slots.len(),
    ensures
        outcome_keeps_shape(w, env, get_field_outcome(w, env, owner, id, cp, vals)),
        outcome_keeps_shape(w, env, put_field_outcome(w, env, owner, cp, vals)),
        outcome_keeps_shape(w, env, load_string_outcome(w, env, owner, id, cp)),
{
}

proof fn lemma_types_keep_shape(
    w: WorldView,
    env: EnvView,
    owner: ClassId,
    id: ValId,
    cp: u16,
    is_cast: bool,
    vals: Seq<Val128>,
)
    requires
        env.wf(),
        id.offset < env.slots.len(),
    ensures
        outcome_keeps_shape(w, env, type_outcome(w, env, owner, id, cp, is_cast, vals)),
{
}

proof fn lemma_invoke_keeps_shape(
    w: WorldView,
    env: EnvView,
    owner: ClassId,
    op: Op,
    vals: Seq<Val128>,
)
    requires
        env.wf(),
    ensures
        outcome_keeps_shape(w, env, invoke_outcome(w, env, owner, op, vals)),
{
}

/// Whether an outcome changes no code and no initialisation state, and asks only for the
/// initialisation of a class that is not initialised.
pub open spec fn outcome_keeps_shape(w: WorldView, env: EnvView, o: NodeOutcome) -> bool {
    match o {
        NodeOutcome::Next { world, env: e } => keeps_shape(w, env, world, e),
        NodeOutcome::Init(c) => init_need(w.classes, c) is Begin,
        _ => true,
    }
}

/// Running a node changes no code and no initialisation state, and asks only for the
/// initialisation of classes that are not initialised.
pub proof fn lemma_node_keeps_shape(
    w: WorldView,
    env: EnvView,
    owner: ClassId,
    id: ValId,
    op: Op,
    ty: Tag,
    vals: Seq<Val128>,
)
    requires
        env.wf(),
        id.offset < env.slots.len(),
    ensures
        outcome_keeps_shape(w, env, node_outcome(w, env, owner, id, op, ty, vals)),
{
    match op {
        Op::InvokeStatic(_) | Op::InvokeSpecial(_) | Op::InvokeVirtual(_) => {
            lemma_invoke_keeps_shape(w, env, owner, op, vals);
        },
        Op::New { class_cp, escape } => {
            lemma_new_keeps_shape(w, env, owner, id, class_cp, escape);
        },
        Op::GetField(cp) | Op::PutField(cp) | Op::LoadString(cp) => {
            lemma_fields_keep_shape(w, env, owner, id, cp, vals);
        },
        Op::GetStatic(cp) => {
            lemma_static_keeps_shape(w, env, owner, id, cp, false, vals);
        },
        Op::PutStatic(cp) => {
            lemma_static_keeps_shape(w, env, owner, id, cp, true, vals);
        },
        Op::InstanceOf(cp) => {
            lemma_types_keep_shape(w, env, owner, id, cp, false, vals);
        },
        Op::CheckCast(cp) => {
            lemma_types_keep_shape(w, env, owner, id, cp, true, vals);
        },
        _ => {
            if let Outcome::Value(v) = evaluated(op, ty, vals) {
                lemma_written_fits(env, SlotId(id.offset), v);
            }
        },
    }
}

/// A native method changes no class.
pub proof fn lemma_native_keeps_classes(
    f: crate::native::NativeFn,
    w: WorldView,
    args: Seq<Val128>,
)
    ensures
        native_result(f, w, args).0.classes == w.classes,
{
}

/// How many classes are not initialised yet.
pub open spec fn loaded(r: RegistryView) -> nat
    decreases r.len(),
{
    if r.len() == 0 {
        0
    } else {
        loaded(r.drop_last()) + (if r.last().init is Loaded {
            1nat
        } else {
            0
        })
    }
}

proof fn lemma_loaded_same(a: RegistryView, b: RegistryView)
    requires
        same_init(a, b),
    ensures
        loaded(a) == loaded(b),
    decreases a.len(),
{
    if a.len() > 0 {
        assert(b[a.len() - 1].init == a[a.len() - 1].init);
        assert forall|i: int| 0 <= i < a.len() - 1 implies (#[trigger] b.drop_last()[i]).init
            == a.drop_last()[i].init by {
            assert(b[i].init == a[i].init);
        }
        lemma_loaded_same(a.drop_last(), b.drop_last());
    }
}

proof fn lemma_loaded_with_init(r: RegistryView, id: ClassId, s: InitState)
    requires
        id.0 < r.len(),
        !(s is Loaded),
    ensures
        loaded(with_init(r, id, s)) == loaded(r) - (if r[id.0 as int].init is Loaded {
            1int
        } else {
            0
        }),
        same_code(r, with_init(r, id, s)),
    decreases r.len(),
{
    let q = with_init(r, id, s);
    if id.0 == r.len() - 1 {
        assert(q.drop_last() =~= r.drop_last());
    } else {
        lemma_loaded_with_init(r.drop_last(), id, s);
        assert(q.drop_last() =~= with_init(r.drop_last(), id, s));
        assert(q.last() == r.last());
    }
}

/// No block of the code has more than `n` nodes.
pub open spec fn nodes_below(r: RegistryView, n: nat) -> bool {
    forall|class: ClassId, method: u16|
        (#[trigger] body_at(r, class, method)) matches Some(BodyView::Bytecode(b)) ==> blocks_below(
            b.method.blocks,
            n,
        )
}

/// No block has more than `n` nodes.
pub open spec fn blocks_below(blocks: Seq<BlockView>, n: nat) -> bool {
    forall|i: int| 0 <= i < blocks.len() ==> (#[trigger] blocks[i]).nodes.len() <= n
}

/// An upper bound on the work left to a frame, in steps of its own.
pub open spec fn frame_rank(n: nat, f: FrameView) -> nat {
    ((MAX_BLOCKS - f.steps) * (2 * n + 4) + match f.at {
        None => 1,
        Some(i) => 2 + 2 * (n - i),
    }) as nat
}

/// More than the work left to any frame.
pub open spec fn base(n: nat) -> nat {
    ((MAX_BLOCKS + 1) * (2 * n + 4) + 5) as nat
}

/// What a step counts for, `k` calls below the depth limit: more than all the steps of a call.
pub open spec fn unit(n: nat, k: nat) -> nat
    decreases k,
{
    if k == 0 {
        1
    } else {
        base(n) * unit(n, (k - 1) as nat)
    }
}

/// An upper bound on the work left to a task, in steps of its own.
pub open spec fn own_work(n: nat, t: TaskView, called: bool) -> nat {
    match t {
        TaskView::Frame(f) => if called {
            (frame_rank(n, f) - 1) as nat
        } else {
            frame_rank(n, f)
        },
        TaskView::Init(t) => match t.stage {
            InitStage::Super => 4,
            InitStage::Clinit => 3,
            InitStage::Running => 2,
        },
    }
}

/// How far below the depth limit a task stands.
pub open spec fn headroom(t: TaskView, max_depth: nat) -> nat {
    match t {
        TaskView::Frame(f) => (max_depth - f.depth) as nat,
        TaskView::Init(t) => (max_depth - t.depth) as nat,
    }
}

/// An upper bound on the work left to a stack of tasks.
pub open spec fn work(n: nat, max_depth: nat, tasks: Seq<TaskView>, called: bool) -> nat
    decreases tasks.len(),
{
    if tasks.len() == 0 {
        0
    } else {
        own_work(n, tasks.last(), called) * unit(n, headroom(tasks.last(), max_depth)) + work(
            n,
            max_depth,
            tasks.drop_last(),
            tasks.last() is Frame,
        )
    }
}

/// An upper bound on the work left to a machine between two class initialisations.
pub open spec fn work_left(n: nat, m: MachineView) -> nat {
    work(n, m.max_depth, m.tasks, m.control is Returned) + (if m.control is Ready {
        1nat
    } else {
        0
    })
}

/// Whether a machine is well-formed and has less to do than given.
pub open spec fn closer(n: nat, classes: nat, steps: nat, m: MachineView) -> bool {
    &&& m.wf()
    &&& nodes_below(m.world.classes, n)
    &&& m.settled() || loaded(m.world.classes) < classes || (loaded(m.world.classes) == classes
        && work_left(n, m) < steps)
}

proof fn lemma_unit_positive(n: nat, k: nat)
    ensures
        unit(n, k) >= 1,
    decreases k,
{
    if k > 0 {
        lemma_unit_positive(n, (k - 1) as nat);
        assert(base(n) >= 1) by {
            assert((MAX_BLOCKS + 1) * (2 * n + 4) >= 0) by (nonlinear_arith)
                requires
                    n >= 0,
                    MAX_BLOCKS >= 0,
            ;
        }
        let (a, b) = (base(n), unit(n, (k - 1) as nat));
        assert(a * b >= 1) by (nonlinear_arith)
            requires
                a >= 1,
                b >= 1,
        ;
    }
}

proof fn lemma_scaled(a: nat, b: nat, u: nat)
    requires
        a < b,
        u >= 1,
    ensures
        a * u + u <= b * u,
        a * u < b * u,
{
    assert(a * u + u <= b * u) by (nonlinear_arith)
        requires
            a < b,
            u >= 1,
    ;
}

proof fn lemma_push_work(n: nat, max: nat, tasks: Seq<TaskView>, t: TaskView, called: bool)
    ensures
        work(n, max, tasks.push(t), called) == own_work(n, t, called) * unit(n, headroom(t, max))
            + work(n, max, tasks, t is Frame),
{
    assert(tasks.push(t).drop_last() =~= tasks);
}

proof fn lemma_push_fits(r: RegistryView, tasks: Seq<TaskView>, t: TaskView, max: nat)
    requires
        stack_fits(r, tasks, max),
        task_fits(r, t, max),
        stands_on(r, tasks, t),
    ensures
        stack_fits(r, tasks.push(t), max),
{
    assert(tasks.push(t).drop_last() =~= tasks);
}

proof fn lemma_same_nodes_below(a: RegistryView, b: RegistryView, n: nat)
    requires
        same_code(a, b),
        nodes_below(a, n),
    ensures
        nodes_below(b, n),
{
    assert forall|class: ClassId, method: u16|
        (#[trigger] body_at(b, class, method)) matches Some(BodyView::Bytecode(x)) implies blocks_below(
        body_at(b, class, method)->0->Bytecode_0.method.blocks,
        n,
    ) by {
        lemma_same_body(a, b, class, method);
    }
}

proof fn lemma_left_closer(n: nat, m: MachineView, f: FrameView, result: CallResult, steps: nat)
    requires
        code_fits(m.world.classes),
        nodes_below(m.world.classes, n),
        stack_fits(m.world.classes, m.tasks, m.max_depth),
        stands_on(m.world.classes, m.tasks, TaskView::Frame(f)),
        work(n, m.max_depth, m.tasks, true) < steps,
    ensures
        closer(n, loaded(m.world.classes), steps, m.left(f, result)),
{
}

proof fn lemma_called_closer(
    n: nat,
    m: MachineView,
    class: ClassId,
    method: u16,
    args: Seq<Val128>,
    depth: nat,
    u: nat,
)
    requires
        code_fits(m.world.classes),
        nodes_below(m.world.classes, n),
        stack_fits(m.world.classes, m.tasks, m.max_depth),
        m.tasks.len() == 0 || awaits_call(m.world.classes, m.tasks.last()),
        u >= 1,
        depth <= m.max_depth ==> u == unit(n, (m.max_depth - depth + 1) as nat),
    ensures
        closer(
            n,
            loaded(m.world.classes),
            work(n, m.max_depth, m.tasks, true) + u,
            m.called(class, method, args, depth),
        ),
{
    let r = m.world.classes;
    let m1 = m.called(class, method, args, depth);
    match body_at(r, class, method) {
        Some(BodyView::Native(f)) => {
            lemma_native_keeps_classes(f, m.world, args);
        },
        Some(BodyView::Bytecode(b)) => {
            if depth <= m.max_depth && args.len() == b.arg_vals.len() {
                let f = frame_of(class, method, b, args, depth);
                let fresh = EnvView::fresh(
                    frame_slots(b),
                    crate::env::LogicalFrame(method as u32),
                );
                assert(b.wf());
                assert forall|i: int| 0 <= i < b.arg_vals.len() implies (
                #[trigger] b.arg_vals[i]).fits(fresh.slots.len() as int) by {
                    assert(b.arg_vals[i].fits(b.n_slots as int));
                }
                lemma_args_written_fits(fresh, b.arg_vals, args, 0);
                lemma_push_fits(r, m.tasks, TaskView::Frame(f), m.max_depth);
                lemma_push_work(n, m.max_depth, m.tasks, TaskView::Frame(f), false);
                assert(m1.tasks.last() == TaskView::Frame(f));
                let k = (m.max_depth - depth) as nat;
                assert(headroom(TaskView::Frame(f), m.max_depth) == k);
                lemma_unit_positive(n, k);
                assert(frame_rank(n, f) < base(n)) by (nonlinear_arith)
                    requires
                        frame_rank(n, f) == MAX_BLOCKS * (2 * n + 4) + 1,
                        base(n) == (MAX_BLOCKS + 1) * (2 * n + 4) + 5,
                        n >= 0,
                ;
                lemma_scaled(frame_rank(n, f), base(n), unit(n, k));
                assert(unit(n, k + 1) == base(n) * unit(n, k));
            }
        },
        _ => {},
    }
}

proof fn lemma_init_begun_closer(n: nat, m: MachineView, class: ClassId, depth: nat, steps: nat)
    requires
        m.control is Run,
        code_fits(m.world.classes),
        nodes_below(m.world.classes, n),
        stack_fits(m.world.classes, m.tasks, m.max_depth),
        m.tasks.len() > 0,
        awaits_class(m.world.classes, m.tasks.last()),
        init_need(m.world.classes, class) is Begin,
        depth <= m.max_depth,
    ensures
        closer(n, loaded(m.world.classes), steps, m.init_begun(class, depth)),
{
    let a = m.world.classes;
    let b = with_init(a, class, InitState::Initializing(0));
    let t = TaskView::Init(InitView { class, depth, stage: InitStage::Super });
    lemma_loaded_with_init(a, class, InitState::Initializing(0));
    lemma_same_code_fits(a, b);
    lemma_same_nodes_below(a, b, n);
    lemma_same_stack_fits(a, b, m.tasks, m.max_depth);
    lemma_push_fits(b, m.tasks, t, m.max_depth);
    assert(m.init_begun(class, depth).tasks.last() == t);
}

/// Replacing the top frame by one with less to do.
proof fn lemma_frame_goes_on(
    n: nat,
    m: MachineView,
    w: WorldView,
    f: FrameView,
    g: FrameView,
    was_called: bool,
)
    requires
        code_fits(m.world.classes),
        nodes_below(m.world.classes, n),
        stack_fits(m.world.classes, m.tasks, m.max_depth),
        stands_on(m.world.classes, m.tasks, TaskView::Frame(f)),
        same_code(m.world.classes, w.classes),
        same_init(m.world.classes, w.classes),
        frame_fits(m.world.classes, f, m.max_depth),
        frame_fits(m.world.classes, g, m.max_depth),
        g.depth == f.depth,
        frame_rank(n, g) < own_work(n, TaskView::Frame(f), was_called),
    ensures
        closer(
            n,
            loaded(m.world.classes),
            work(n, m.max_depth, m.tasks.push(TaskView::Frame(f)), was_called),
            (MachineView { world: w, ..m }).with_task(TaskView::Frame(g)).then_do(Control::Run),
        ),
{
    let (a, b) = (m.world.classes, w.classes);
    let (tf, tg) = (TaskView::Frame(f), TaskView::Frame(g));
    lemma_same_code_fits(a, b);
    lemma_same_nodes_below(a, b, n);
    lemma_same_stack_fits(a, b, m.tasks, m.max_depth);
    lemma_loaded_same(a, b);
    lemma_same_body(a, b, g.owner, g.method);
    lemma_push_fits(b, m.tasks, tg, m.max_depth);
    lemma_push_work(n, m.max_depth, m.tasks, tf, was_called);
    lemma_push_work(n, m.max_depth, m.tasks, tg, false);
    let u = unit(n, (m.max_depth - f.depth) as nat);
    lemma_unit_positive(n, (m.max_depth - f.depth) as nat);
    lemma_scaled(frame_rank(n, g), own_work(n, tf, was_called), u);
    assert(m.tasks.push(tg).last() == tg);
}

/// Leaving a frame, whether it ran or waited.
proof fn lemma_frame_ends(
    n: nat,
    m: MachineView,
    f: FrameView,
    g: FrameView,
    heap: HeapView,
    result: CallResult,
    was_called: bool,
)
    requires
        code_fits(m.world.classes),
        nodes_below(m.world.classes, n),
        stack_fits(m.world.classes, m.tasks, m.max_depth),
        stands_on(m.world.classes, m.tasks, TaskView::Frame(f)),
        frame_fits(m.world.classes, f, m.max_depth),
        own_work(n, TaskView::Frame(f), was_called) >= 1,
    ensures
        closer(
            n,
            loaded(m.world.classes),
            work(n, m.max_depth, m.tasks.push(TaskView::Frame(f)), was_called),
            (MachineView { world: WorldView { heap, ..m.world }, ..m }).left(g, result),
        ),
{
    let tf = TaskView::Frame(f);
    lemma_push_work(n, m.max_depth, m.tasks, tf, was_called);
    lemma_unit_positive(n, (m.max_depth - f.depth) as nat);
    lemma_scaled(0, own_work(n, tf, was_called), unit(n, (m.max_depth - f.depth) as nat));
    lemma_left_closer(
        n,
        MachineView { world: WorldView { heap, ..m.world }, ..m },
        g,
        result,
        work(n, m.max_depth, m.tasks.push(tf), was_called),
    );
}

proof fn lemma_rank_positive(n: nat, f: FrameView)
    requires
        f.steps <= MAX_BLOCKS,
        f.at matches Some(i) ==> i <= n,
    ensures
        frame_rank(n, f) >= 1,
        f.at matches Some(i) ==> frame_rank(n, f) >= 2 + 2 * (n - i),
{
    assert((MAX_BLOCKS - f.steps) * (2 * n + 4) >= 0) by (nonlinear_arith)
        requires
            f.steps <= MAX_BLOCKS,
            n >= 0,
    ;
}

proof fn lemma_entered_closer(n: nat, m: MachineView, f: FrameView)
    requires
        m.control is Run,
        code_fits(m.world.classes),
        nodes_below(m.world.classes, n),
        stack_fits(m.world.classes, m.tasks, m.max_depth),
        stands_on(m.world.classes, m.tasks, TaskView::Frame(f)),
        frame_fits(m.world.classes, f, m.max_depth),
        f.at is None,
    ensures
        closer(
            n,
            loaded(m.world.classes),
            work(n, m.max_depth, m.tasks.push(TaskView::Frame(f)), false),
            m.entered(f),
        ),
{
    let b = frame_body(m, f);
    assert(b.wf());
    let steps = (f.steps + 1) as u64;
    let block = b.method.blocks[f.block.0 as int];
    lemma_rank_positive(n, f);
    if steps > MAX_BLOCKS {
        lemma_frame_ends(n, m, f, f, m.world.heap, Err(ExecError::StepLimit), false);
    } else {
        assert(block.fits(b.n_slots as int, b.method.blocks.len() as int));
        assert forall|i: int| 0 <= i < block.phis.len() implies (#[trigger] block.phis[i]).fits(
            f.env.slots.len() as int,
        ) by {
            assert(block.phis[i].fits(b.n_slots as int));
        }
        lemma_phis_resolved_fit(f.env, block, f.prev);
        match phis_resolved(f.env, block, f.prev) {
            None => {
                lemma_frame_ends(n, m, f, f, m.world.heap, Err(ExecError::BadPhi), false);
            },
            Some(env) => {
                let g = FrameView { env, at: Some(0), steps, ..f };
                assert(frame_rank(n, g) < frame_rank(n, f)) by (nonlinear_arith)
                    requires
                        frame_rank(n, g) == (MAX_BLOCKS - (f.steps + 1)) * (2 * n + 4) + 2 + 2 * n,
                        frame_rank(n, f) == (MAX_BLOCKS - f.steps) * (2 * n + 4) + 1,
                ;
                lemma_frame_goes_on(n, m, m.world, f, g, false);
                assert(m.entered(f) == (MachineView { world: m.world, ..m }).with_task(
                    TaskView::Frame(g),
                ).then_do(Control::Run));
            },
        }
    }
}

/// The node that a frame stands at has its values in the frame's slots.
pub proof fn lemma_node_fits(r: RegistryView, f: FrameView, max_depth: nat)
    requires
        code_fits(r),
        frame_fits(r, f, max_depth),
        at_node(r, f),
    ensures
        body_at(r, f.owner, f.method)->0->Bytecode_0.method.blocks[f.block.0 as int].nodes[f.at->0 as int].fits(
            f.env.slots.len() as int,
        ),
{
    let b = body_at(r, f.owner, f.method)->0->Bytecode_0;
    assert(b.wf());
    let block = b.method.blocks[f.block.0 as int];
    assert(block.fits(b.n_slots as int, b.method.blocks.len() as int));
    let node = block.nodes[f.at->0 as int];
    assert(node.fits(b.n_slots as int));
    assert forall|i: int| 0 <= i < node.ins.len() implies (#[trigger] node.ins[i]).fits(
        f.env.slots.len() as int,
    ) by {
        assert(node.ins[i].fits(b.n_slots as int));
    }
}

proof fn lemma_at_node_below(n: nat, r: RegistryView, f: FrameView, max_depth: nat)
    requires
        nodes_below(r, n),
        frame_fits(r, f, max_depth),
    ensures
        f.at matches Some(i) ==> i <= n,
        at_node(r, f) ==> f.at->0 < n,
{
    let b = body_at(r, f.owner, f.method)->0->Bytecode_0;
    assert(blocks_below(b.method.blocks, n));
    assert(b.method.blocks[f.block.0 as int].nodes.len() <= n);
}

proof fn lemma_rank_of_next(n: nat, f: FrameView, g: FrameView)
    requires
        f.at is Some,
        f.at->0 < n,
        g.at == Some(f.at->0 + 1),
        g.steps == f.steps,
        f.steps <= MAX_BLOCKS,
    ensures
        frame_rank(n, g) + 2 == frame_rank(n, f),
{
    assert((MAX_BLOCKS - f.steps) * (2 * n + 4) >= 0) by (nonlinear_arith)
        requires
            f.steps <= MAX_BLOCKS,
            n >= 0,
    ;
}

proof fn lemma_noded_closer(n: nat, m: MachineView, f: FrameView)
    requires
        m.control is Run,
        code_fits(m.world.classes),
        nodes_below(m.world.classes, n),
        stack_fits(m.world.classes, m.tasks, m.max_depth),
        stands_on(m.world.classes, m.tasks, TaskView::Frame(f)),
        frame_fits(m.world.classes, f, m.max_depth),
        at_node(m.world.classes, f),
    ensures
        closer(
            n,
            loaded(m.world.classes),
            work(n, m.max_depth, m.tasks.push(TaskView::Frame(f)), false),
            m.noded(f, f.at->0),
        ),
{
    let r = m.world.classes;
    let i = f.at->0;
    let node = frame_body(m, f).method.blocks[f.block.0 as int].nodes[i as int];
    let (env, heap) = if node.effect is Extern {
        chain_landed(f.env, m.world.heap)
    } else {
        (f.env, m.world.heap)
    };
    lemma_chain_landed_fits(f.env, m.world.heap);
    lemma_node_fits(r, f, m.max_depth);
    lemma_at_node_below(n, r, f, m.max_depth);
    lemma_rank_positive(n, f);
    let w = WorldView { heap, ..m.world };
    let m1 = MachineView { world: w, ..m };
    let g = FrameView { env, ..f };
    let vals = operand_values(env, node.ins);
    lemma_node_keeps_shape(w, env, f.owner, node.id, node.op, node.ty, vals);
    lemma_push_fits(r, m.tasks, TaskView::Frame(g), m.max_depth);
    assert(m.tasks.push(TaskView::Frame(g)).last() == TaskView::Frame(g));
    lemma_push_work(n, m.max_depth, m.tasks, TaskView::Frame(f), false);
    lemma_push_work(n, m.max_depth, m.tasks, TaskView::Frame(g), true);
    let k = (m.max_depth - f.depth) as nat;
    lemma_unit_positive(n, k);
    assert(frame_rank(n, g) == frame_rank(n, f));
    match node_outcome(w, env, f.owner, node.id, node.op, node.ty, vals) {
        NodeOutcome::Next { world, env: e } => {
            let h = FrameView { env: e, at: Some(i + 1), ..f };
            lemma_rank_of_next(n, f, h);
            lemma_frame_goes_on(n, m, world, f, h, false);
            assert(m.noded(f, i) == (MachineView { world, ..m }).with_task(
                TaskView::Frame(h),
            ).then_do(Control::Run));
        },
        NodeOutcome::Fault(e) => {
            lemma_frame_ends(n, m, f, g, heap, Err(e), false);
        },
        NodeOutcome::Call { class, method } => {
            let m2 = m1.with_task(TaskView::Frame(g));
            lemma_called_closer(n, m2, class, method, vals, f.depth + 1, unit(n, k));
            lemma_scaled((frame_rank(n, f) - 1) as nat, frame_rank(n, f), unit(n, k));
        },
        NodeOutcome::Init(class) => {
            let m2 = m1.with_task(TaskView::Frame(g));
            lemma_init_begun_closer(
                n,
                m2,
                class,
                f.depth,
                work(n, m.max_depth, m.tasks.push(TaskView::Frame(f)), false),
            );
        },
        NodeOutcome::Float(request) => {},
    }
}

proof fn lemma_terminated_closer(n: nat, m: MachineView, f: FrameView)
    requires
        m.control is Run,
        code_fits(m.world.classes),
        nodes_below(m.world.classes, n),
        stack_fits(m.world.classes, m.tasks, m.max_depth),
        stands_on(m.world.classes, m.tasks, TaskView::Frame(f)),
        frame_fits(m.world.classes, f, m.max_depth),
        f.at is Some,
    ensures
        closer(
            n,
            loaded(m.world.classes),
            work(n, m.max_depth, m.tasks.push(TaskView::Frame(f)), false),
            m.terminated(f),
        ),
{
    let r = m.world.classes;
    let b = frame_body(m, f);
    assert(b.wf());
    let block = b.method.blocks[f.block.0 as int];
    assert(block.fits(b.n_slots as int, b.method.blocks.len() as int));
    lemma_at_node_below(n, r, f, m.max_depth);
    lemma_rank_positive(n, f);
    lemma_chain_landed_fits(f.env, m.world.heap);
    let (env, heap) = chain_landed(f.env, m.world.heap);
    match block.term {
        Terminator::Return(Some(v)) => {
            lemma_frame_ends(
                n,
                m,
                f,
                f,
                m.world.heap,
                Ok(Some(slot_value(f.env, v))),
                false,
            );
        },
        Terminator::Return(None) => {
            lemma_frame_ends(n, m, f, f, m.world.heap, Ok(None), false);
        },
        Terminator::Throw(_) => {
            lemma_frame_ends(n, m, f, f, m.world.heap, Err(ExecError::Thrown), false);
        },
        Terminator::Goto(_) | Terminator::CondBranch { .. } => {
            let to = match block.term {
                Terminator::Goto(b) => b,
                Terminator::CondBranch { cond, taken, not_taken } => if slot_value(
                    f.env,
                    cond,
                ).as_i32() != 0 {
                    taken
                } else {
                    not_taken
                },
                _ => f.block,
            };
            let g = FrameView { env, block: to, prev: Some(f.block), at: None, ..f };
            lemma_frame_goes_on(n, m, WorldView { heap, ..m.world }, f, g, false);
            assert(m.terminated(f) == (MachineView {
                world: WorldView { heap, ..m.world },
                ..m
            }).with_task(TaskView::Frame(g)).then_do(Control::Run));
        },
    }
}

proof fn lemma_init_ended_closer(
    n: nat,
    m: MachineView,
    t: InitView,
    result: Result<(), ExecError>,
    called: bool,
)
    requires
        code_fits(m.world.classes),
        nodes_below(m.world.classes, n),
        stack_fits(m.world.classes, m.tasks, m.max_depth),
        stands_on(m.world.classes, m.tasks, TaskView::Init(t)),
        task_fits(m.world.classes, TaskView::Init(t), m.max_depth),
    ensures
        closer(
            n,
            loaded(m.world.classes),
            work(n, m.max_depth, m.tasks.push(TaskView::Init(t)), called),
            m.init_ended(t.class, result),
        ),
{
    let a = m.world.classes;
    let state = match result {
        Ok(_) => InitState::Initialized,
        Err(_) => InitState::Failed,
    };
    let b = with_init(a, t.class, state);
    lemma_loaded_with_init(a, t.class, state);
    lemma_same_code_fits(a, b);
    lemma_same_nodes_below(a, b, n);
    lemma_same_stack_fits(a, b, m.tasks, m.max_depth);
    lemma_push_work(n, m.max_depth, m.tasks, TaskView::Init(t), called);
    let u = unit(n, (m.max_depth - t.depth) as nat);
    lemma_unit_positive(n, (m.max_depth - t.depth) as nat);
    lemma_scaled(1, own_work(n, TaskView::Init(t), called), u);
}

proof fn lemma_init_stepped_closer(n: nat, m: MachineView, t: InitView)
    requires
        m.control is Run,
        code_fits(m.world.classes),
        nodes_below(m.world.classes, n),
        stack_fits(m.world.classes, m.tasks, m.max_depth),
        stands_on(m.world.classes, m.tasks, TaskView::Init(t)),
        task_fits(m.world.classes, TaskView::Init(t), m.max_depth),
        !(t.stage is Running),
    ensures
        closer(
            n,
            loaded(m.world.classes),
            work(n, m.max_depth, m.tasks.push(TaskView::Init(t)), false),
            m.init_stepped(t),
        ),
{
    let r = m.world.classes;
    let tt = TaskView::Init(t);
    let next = TaskView::Init(InitView { stage: InitStage::Clinit, ..t });
    let running = TaskView::Init(InitView { stage: InitStage::Running, ..t });
    let k = (m.max_depth - t.depth) as nat;
    lemma_unit_positive(n, k);
    lemma_push_work(n, m.max_depth, m.tasks, tt, false);
    lemma_push_fits(r, m.tasks, next, m.max_depth);
    lemma_push_fits(r, m.tasks, running, m.max_depth);
    lemma_push_work(n, m.max_depth, m.tasks, next, false);
    lemma_push_work(n, m.max_depth, m.tasks, running, true);
    assert(m.tasks.push(next).last() == next);
    assert(m.tasks.push(running).last() == running);
    lemma_scaled(3, 4, unit(n, k));
    lemma_scaled(2, 3, unit(n, k));
    let class = r[t.class.0 as int];
    match t.stage {
        InitStage::Super => {
            if let Some(s) = class.super_id {
                if init_need(r, s) is Begin {
                    lemma_init_begun_closer(
                        n,
                        m.with_task(next),
                        s,
                        t.depth,
                        work(n, m.max_depth, m.tasks.push(tt), false),
                    );
                } else if let InitNeed::Fault(e) = init_need(r, s) {
                    lemma_init_ended_closer(n, m, t, Err(e), false);
                }
            }
        },
        _ => {
            match class.method_index("<clinit>"@, "()V"@) {
                None => {
                    lemma_init_ended_closer(n, m, t, Ok(()), false);
                },
                Some(method) => {
                    lemma_called_closer(
                        n,
                        m.with_task(running),
                        t.class,
                        method,
                        Seq::empty(),
                        t.depth + 1,
                        unit(n, k),
                    );
                },
            }
        },
    }
}

proof fn lemma_returned_to_closer(n: nat, m: MachineView, t: TaskView, result: CallResult)
    requires
        code_fits(m.world.classes),
        nodes_below(m.world.classes, n),
        stack_fits(m.world.classes, m.tasks, m.max_depth),
        stands_on(m.world.classes, m.tasks, t),
        task_fits(m.world.classes, t, m.max_depth),
        awaits_call(m.world.classes, t),
    ensures
        closer(
            n,
            loaded(m.world.classes),
            work(n, m.max_depth, m.tasks.push(t), true),
            m.returned_to(t, result),
        ),
{
    let r = m.world.classes;
    match t {
        TaskView::Frame(f) => {
            lemma_at_node_below(n, r, f, m.max_depth);
            lemma_rank_positive(n, f);
            match result {
                Err(e) => {
                    lemma_frame_ends(n, m, f, f, m.world.heap, Err(e), true);
                },
                Ok(v) => {
                    lemma_node_fits(r, f, m.max_depth);
                    let i = f.at->0;
                    let node = frame_body(m, f).method.blocks[f.block.0 as int].nodes[i as int];
                    let env = match v {
                        None => f.env,
                        Some(x) => {
                            let env1 = f.env.written(SlotId(node.id.offset), x);
                            if x.tag().is_ref() {
                                env1.with_delta(x.ref_index(), -1i32)
                            } else {
                                env1
                            }
                        },
                    };
                    let g = FrameView { env, at: Some(i + 1), ..f };
                    lemma_rank_of_next(n, f, g);
                    lemma_frame_goes_on(n, m, m.world, f, g, true);
                    assert(m.returned_to(t, result) == (MachineView {
                        world: m.world,
                        ..m
                    }).with_task(TaskView::Frame(g)).then_do(Control::Run));
                },
            }
        },
        TaskView::Init(i) => {
            lemma_init_ended_closer(
                n,
                m,
                i,
                match result {
                    Ok(_) => Ok(()),
                    Err(e) => Err(e),
                },
                true,
            );
        },
    }
}

proof fn lemma_ready_for_closer(
    n: nat,
    m: MachineView,
    t: TaskView,
    result: Result<(), ExecError>,
)
    requires
        m.control is Ready,
        code_fits(m.world.classes),
        nodes_below(m.world.classes, n),
        stack_fits(m.world.classes, m.tasks, m.max_depth),
        stands_on(m.world.classes, m.tasks, t),
        task_fits(m.world.classes, t, m.max_depth),
        awaits_class(m.world.classes, t),
    ensures
        closer(
            n,
            loaded(m.world.classes),
            work(n, m.max_depth, m.tasks.push(t), false) + 1,
            m.ready_for(t, result),
        ),
{
    let r = m.world.classes;
    lemma_push_fits(r, m.tasks, t, m.max_depth);
    assert(m.tasks.push(t).last() == t);
    match result {
        Ok(_) => {},
        Err(e) => match t {
            TaskView::Frame(f) => {
                lemma_at_node_below(n, r, f, m.max_depth);
                lemma_rank_positive(n, f);
                lemma_frame_ends(n, m, f, f, m.world.heap, Err(e), false);
            },
            TaskView::Init(i) => {
                lemma_init_ended_closer(n, m, i, Err(e), false);
            },
        },
    }
}

/// Every step of a run brings its end closer.
pub proof fn lemma_step_closer(n: nat, m: MachineView)
    requires
        m.wf(),
        nodes_below(m.world.classes, n),
        !m.settled(),
    ensures
        closer(n, loaded(m.world.classes), work_left(n, m), m.stepped()),
{
    if m.tasks.len() > 0 {
        let below = MachineView { tasks: m.tasks.drop_last(), ..m };
        let t = m.tasks.last();
        assert(below.tasks.push(t) =~= m.tasks);
        match m.control {
            Control::Run => match t {
                TaskView::Frame(f) => match f.at {
                    None => {
                        lemma_entered_closer(n, below, f);
                    },
                    Some(i) => {
                        if i < frame_body(below, f).method.blocks[f.block.0 as int].nodes.len() {
                            lemma_noded_closer(n, below, f);
                        } else {
                            lemma_terminated_closer(n, below, f);
                        }
                    },
                },
                TaskView::Init(i) => {
                    lemma_init_stepped_closer(n, below, i);
                },
            },
            Control::Returned(result) => {
                lemma_returned_to_closer(n, below, t, result);
            },
            Control::Ready(result) => {
                lemma_ready_for_closer(n, below, t, result);
            },
            _ => {},
        }
    }
}

/// The most nodes of any of the first `k` blocks.
pub open spec fn most_in_blocks(blocks: Seq<BlockView>, k: nat) -> nat
    decreases k,
{
    if k == 0 {
        0
    } else {
        let n = most_in_blocks(blocks, (k - 1) as nat);
        if blocks[k - 1].nodes.len() > n {
            blocks[k - 1].nodes.len()
        } else {
            n
        }
    }
}

/// The most nodes of any block of the first `k` methods.
pub open spec fn most_in_bodies(bodies: Seq<BodyView>, k: nat) -> nat
    decreases k,
{
    if k == 0 {
        0
    } else {
        let n = most_in_bodies(bodies, (k - 1) as nat);
        match bodies[k - 1] {
            BodyView::Bytecode(b) => {
                let x = most_in_blocks(b.method.blocks, b.method.blocks.len());
                if x > n {
                    x
                } else {
                    n
                }
            },
            _ => n,
        }
    }
}

/// The most nodes of any block of the first `k` classes.
pub open spec fn most_in_classes(r: RegistryView, k: nat) -> nat
    decreases k,
{
    if k == 0 {
        0
    } else {
        let n = most_in_classes(r, (k - 1) as nat);
        let x = most_in_bodies(r[k - 1].methods, r[k - 1].methods.len());
        if x > n {
            x
        } else {
            n
        }
    }
}

proof fn lemma_most_in_blocks(blocks: Seq<BlockView>, k: nat, i: int)
    requires
        0 <= i < k <= blocks.len(),
    ensures
        blocks[i].nodes.len() <= most_in_blocks(blocks, k),
    decreases k,
{
    if i < k - 1 {
        lemma_most_in_blocks(blocks, (k - 1) as nat, i);
    }
}

proof fn lemma_most_in_bodies(bodies: Seq<BodyView>, k: nat, i: int)
    requires
        0 <= i < k <= bodies.len(),
    ensures
        bodies[i] matches BodyView::Bytecode(b) ==> blocks_below(
            b.method.blocks,
            most_in_bodies(bodies, k),
        ),
    decreases k,
{
    if i < k - 1 {
        lemma_most_in_bodies(bodies, (k - 1) as nat, i);
    } else if let BodyView::Bytecode(b) = bodies[i] {
        let blocks = b.method.blocks;
        assert forall|j: int| 0 <= j < blocks.len() implies (#[trigger] blocks[j]).nodes.len()
            <= most_in_bodies(bodies, k) by {
            lemma_most_in_blocks(blocks, blocks.len(), j);
        }
    }
}

proof fn lemma_most_in_classes(r: RegistryView, k: nat, i: int)
    requires
        0 <= i < k <= r.len(),
    ensures
        most_in_bodies(r[i].methods, r[i].methods.len()) <= most_in_classes(r, k),
    decreases k,
{
    if i < k - 1 {
        lemma_most_in_classes(r, (k - 1) as nat, i);
    }
}

/// The number of nodes of a block is bounded.
pub proof fn lemma_nodes_bounded(r: RegistryView)
    ensures
        nodes_below(r, most_in_classes(r, r.len())),
{
    let n = most_in_classes(r, r.len());
    assert forall|class: ClassId, method: u16|
        (#[trigger] body_at(r, class, method)) matches Some(BodyView::Bytecode(x)) implies blocks_below(
        body_at(r, class, method)->0->Bytecode_0.method.blocks,
        n,
    ) by {
        let bodies = r[class.0 as int].methods;
        lemma_most_in_bodies(bodies, bodies.len(), method as int);
        lemma_most_in_classes(r, r.len(), class.0 as int);
    }
}

/// Every step leads from a well-formed machine to a well-formed machine.
pub proof fn lemma_stepped_wf(m: MachineView)
    requires
        m.wf(),
    ensures
        m.stepped().wf(),
{
    if !m.settled() {
        let n = most_in_classes(m.world.classes, m.world.classes.len());
        lemma_nodes_bounded(m.world.classes);
        lemma_step_closer(n, m);
    }
}

/// Beginning a call makes a well-formed machine.
pub proof fn lemma_started_wf(
    m: MachineView,
    class: ClassId,
    method: u16,
    args: Seq<Val128>,
    depth: nat,
)
    requires
        code_fits(m.world.classes),
    ensures
        m.started(class, method, args, depth).wf(),
{
    let n = most_in_classes(m.world.classes, m.world.classes.len());
    lemma_nodes_bounded(m.world.classes);
    let u = if depth <= m.max_depth {
        unit(n, (m.max_depth - depth + 1) as nat)
    } else {
        1
    };
    if depth <= m.max_depth {
        lemma_unit_positive(n, (m.max_depth - depth + 1) as nat);
    }
    lemma_called_closer(
        n,
        MachineView { tasks: Seq::empty(), ..m },
        class,
        method,
        args,
        depth,
        u,
    );
}

/// An answer from the floating-point unit lets a well-formed machine go on.
pub proof fn lemma_answered_wf(m: MachineView, v: Val128)
    requires
        m.wf(),
    ensures
        m.answered(v).wf(),
{
    if m.control is Float {
        let r = m.world.classes;
        let f = m.tasks.last()->Frame_0;
        lemma_node_fits(r, f, m.max_depth);
        let node = frame_body(m, f).method.blocks[f.block.0 as int].nodes[f.at->0 as int];
        lemma_written_fits(f.env, SlotId(node.id.offset), v);
        let g = FrameView {
            env: f.env.written(SlotId(node.id.offset), v),
            at: Some(f.at->0 + 1),
            ..f
        };
        lemma_push_fits(r, m.tasks.drop_last(), TaskView::Frame(g), m.max_depth);
        assert(m.answered(v).tasks.last() == TaskView::Frame(g));
    }
}

proof fn lemma_settles(n: nat, m: MachineView)
    requires
        m.wf(),
        nodes_below(m.world.classes, n),
    ensures
        exists|k: nat| (#[trigger] m.advanced(k)).settled(),
    decreases loaded(m.world.classes), work_left(n, m),
{
    if m.settled() {
        assert(m.advanced(0).settled());
    } else {
        lemma_step_closer(n, m);
        let m1 = m.stepped();
        if m1.settled() {
            assert(m1.advanced(0) == m1);
            assert(m.advanced(1).settled());
        } else {
            lemma_settles(n, m1);
            let k = choose|k: nat| (#[trigger] m1.advanced(k)).settled();
            assert(m.advanced(k + 1) == m1.advanced(k));
        }
    }
}

/// Every run ends: after finitely many steps the call has its result, or the floating-point unit is
/// asked something.
pub proof fn lemma_every_run_ends(m: MachineView)
    requires
        m.wf(),
    ensures
        exists|k: nat| (#[trigger] m.advanced(k)).settled(),
        m.run_out().settled(),
{
    let n = most_in_classes(m.world.classes, m.world.classes.len());
    lemma_nodes_bounded(m.world.classes);
    lemma_settles(n, m);
}

/// Once a call has its result, or waits for the floating-point unit, stepping changes nothing.
pub proof fn lemma_settled_is_stable(m: MachineView, k: nat)
    requires
        m.settled(),
    ensures
        m.advanced(k) == m,
    decreases k,
{
    if k > 0 {
        lemma_settled_is_stable(m, (k - 1) as nat);
    }
}

/// Steps add up.
pub proof fn lemma_steps_add_up(m: MachineView, j: nat, k: nat)
    ensures
        m.advanced(j + k) == m.advanced(j).advanced(k),
    decreases j,
{
    if j > 0 {
        lemma_steps_add_up(m.stepped(), (j - 1) as nat, k);
    }
}

/// Running is deterministic: however many steps it takes to an end, it is the same end.
pub proof fn lemma_end_is_unique(m: MachineView, j: nat, k: nat)
    requires
        m.advanced(j).settled(),
        m.advanced(k).settled(),
    ensures
        m.advanced(j) == m.advanced(k),
{
    if j <= k {
        lemma_steps_add_up(m, j, (k - j) as nat);
        lemma_settled_is_stable(m.advanced(j), (k - j) as nat);
    } else {
        lemma_steps_add_up(m, k, (j - k) as nat);
        lemma_settled_is_stable(m.advanced(k), (j - k) as nat);
    }
}

} // verus!
