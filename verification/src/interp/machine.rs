//! The machine: what one step of execution does.
//!
//! Calls do not recurse on the host stack: the machine keeps its own stack of tasks, each a method
//! frame or a class initialisation. A step either enters a block, runs one node or one terminator,
//! or hands a result to the task that waits for it.

use vstd::prelude::*;
use crate::diff::EscapeState;
use crate::env::{EnvView, LogicalFrame};
use crate::heap::HeapView;
use crate::ids::{BlockId, ClassId, RefIndex, SlotId, ValId};
use crate::interp::error::ExecError;
use crate::interp::eval::{evaluated, FloatRequest, Outcome};
use crate::ir::{BlockView, BuiltView, Op, PhiView, Terminator};
use crate::loader::{
    class_at, descends_from, resolved_class, resolved_field, resolved_method, resolved_virtual,
    with_init, with_static, BodyView, InitState, RegistryView, Resolved,
};
use crate::classfile::constant_pool::{pool_utf8, Constant, ConstantView};
use crate::stdlib::native_result;
use crate::value::{Tag, Val128};
use crate::world::WorldView;

verus! {

/// How many blocks a frame may run before it is stopped.
pub const MAX_BLOCKS: u64 = 100_000_000;

/// The result of a call.
pub type CallResult = Result<Option<Val128>, ExecError>;

/// A method in progress.
#[verifier::ext_equal]
pub struct FrameView {
    pub owner: ClassId,
    pub method: u16,
    pub env: EnvView,
    pub block: BlockId,
    pub prev: Option<BlockId>,
    /// The node to run next (one past the last for the terminator); `None` before the block is
    /// entered.
    pub at: Option<nat>,
    /// Blocks entered so far.
    pub steps: u64,
    pub depth: nat,
}

/// How far a class initialisation has come.
#[derive(Clone, Copy, PartialEq, Eq, Debug, Structural)]
pub enum InitStage {
    /// The superclass is next.
    Super,
    /// The superclass is done; `<clinit>` is next.
    Clinit,
    /// `<clinit>` is running.
    Running,
}

/// A class initialisation in progress.
#[verifier::ext_equal]
pub struct InitView {
    pub class: ClassId,
    pub depth: nat,
    pub stage: InitStage,
}

/// A task on the machine's stack.
pub enum TaskView {
    Frame(FrameView),
    Init(InitView),
}

/// What the machine does next.
#[derive(Clone, Copy, PartialEq, Eq, Debug)]
pub enum Control {
    /// Continue the topmost task.
    Run,
    /// Hand the result of a call to the topmost task.
    Returned(Result<Option<Val128>, ExecError>),
    /// Hand the result of a class initialisation to the topmost task.
    Ready(Result<(), ExecError>),
    /// Wait for the floating-point unit.
    Float(FloatRequest),
    /// Nothing: the call has ended.
    Done(Result<Option<Val128>, ExecError>),
}

/// A machine.
#[verifier::ext_equal]
pub struct MachineView {
    pub world: WorldView,
    /// Tasks; the last is on top.
    pub tasks: Seq<TaskView>,
    pub control: Control,
    pub max_depth: nat,
}

/// The visible value of a slot.
pub open spec fn slot_value(env: EnvView, v: ValId) -> Val128 {
    env.visible()[v.offset as int]
}

/// The values of a node's operands.
pub open spec fn operand_values(env: EnvView, ins: Seq<ValId>) -> Seq<Val128> {
    Seq::new(ins.len(), |i: int| slot_value(env, ins[i]))
}

/// A chain landed: its reference-count deltas applied to the heap in program order, then its slot
/// writes committed.
pub open spec fn chain_landed(env: EnvView, heap: HeapView) -> (EnvView, HeapView) {
    (
        EnvView { deltas: Seq::empty(), ..env }.after_land(),
        heap.batch_applied(env.deltas),
    )
}

/// One release for each of the first `n` slots that holds a shared reference.
pub open spec fn slot_releases(slots: Seq<Val128>, n: int) -> Seq<(RefIndex, i32)>
    decreases n,
{
    if n <= 0 {
        Seq::empty()
    } else if slots[n - 1].tag() is Ptr {
        slot_releases(slots, n - 1).push((slots[n - 1].ref_index(), -1i32))
    } else {
        slot_releases(slots, n - 1)
    }
}

/// The heap after the scope-exclusive objects in the first `n` slots are reclaimed.
pub open spec fn handles_freed(heap: HeapView, slots: Seq<Val128>, n: int) -> HeapView
    decreases n,
{
    if n <= 0 {
        heap
    } else {
        let h = handles_freed(heap, slots, n - 1);
        if slots[n - 1].tag() is Handle {
            h.freed(slots[n - 1].ref_index())
        } else {
            h
        }
    }
}

/// The reference that travels to the caller, as one acquisition.
pub open spec fn in_transit(returned: Option<Val128>) -> Seq<(RefIndex, i32)> {
    match returned {
        Some(v) => if v.tag().is_ref() {
            seq![(v.ref_index(), 1i32)]
        } else {
            Seq::empty()
        },
        None => Seq::empty(),
    }
}

/// The heap after a frame is left: whatever is pending lands, the returned reference is acquired
/// for the caller in the same batch that releases the slots, and exclusive objects die with the
/// scope.
pub open spec fn frame_left(env: EnvView, heap: HeapView, returned: Option<Val128>) -> HeapView {
    let (env1, heap1) = chain_landed(env, heap);
    let n = env1.slots.len() as int;
    let batch = in_transit(returned) + slot_releases(env1.slots, n);
    handles_freed(heap1.batch_applied(batch), env1.slots, n)
}

/// An environment with the arguments from `k` on bound.
pub open spec fn args_written(
    env: EnvView,
    slots: Seq<ValId>,
    args: Seq<Val128>,
    k: int,
) -> EnvView
    decreases slots.len() - k,
{
    if k >= slots.len() {
        env
    } else {
        args_written(env.written(SlotId(slots[k].offset), args[k]), slots, args, k + 1)
    }
}

/// The slots that a method's frame needs: at least one.
pub open spec fn frame_slots(b: BuiltView) -> nat {
    if b.n_slots > 1 {
        b.n_slots
    } else {
        1
    }
}

/// A fresh frame.
pub open spec fn frame_of(
    class: ClassId,
    method: u16,
    b: BuiltView,
    args: Seq<Val128>,
    depth: nat,
) -> FrameView {
    FrameView {
        owner: class,
        method,
        env: args_written(
            EnvView::fresh(frame_slots(b), LogicalFrame(method as u32)),
            b.arg_vals,
            args,
            0,
        ),
        block: b.method.entry,
        prev: None,
        at: None,
        steps: 0,
        depth,
    }
}

/// The body of a method.
pub open spec fn body_at(r: RegistryView, class: ClassId, method: u16) -> Option<BodyView> {
    match class_at(r, class) {
        None => None,
        Some(k) => if method < k.methods.len() {
            Some(k.methods[method as int])
        } else {
            None
        },
    }
}

impl MachineView {
    /// With a task on top.
    pub open spec fn with_task(self, t: TaskView) -> MachineView {
        MachineView { tasks: self.tasks.push(t), ..self }
    }

    /// Doing something else next.
    pub open spec fn then_do(self, control: Control) -> MachineView {
        MachineView { control, ..self }
    }

    /// With a call begun: a native method runs at once, and hands its result over with an
    /// in-transit reference; a bytecode method gets a frame.
    pub open spec fn called(
        self,
        class: ClassId,
        method: u16,
        args: Seq<Val128>,
        depth: nat,
    ) -> MachineView {
        match body_at(self.world.classes, class, method) {
            None | Some(BodyView::Absent) => self.then_do(
                Control::Returned(Err(ExecError::NoMethod)),
            ),
            Some(BodyView::Native(f)) => {
                let (w, r) = native_result(f, self.world, args);
                match r {
                    Err(e) => (MachineView { world: w, ..self }).then_do(
                        Control::Returned(Err(ExecError::of_native(e))),
                    ),
                    Ok(v) => (MachineView {
                        world: WorldView {
                            heap: match v {
                                Some(x) => if x.tag().is_ref() {
                                    w.heap.delta_applied(x.ref_index(), 1)
                                } else {
                                    w.heap
                                },
                                None => w.heap,
                            },
                            ..w
                        },
                        ..self
                    }).then_do(Control::Returned(Ok(v))),
                }
            },
            Some(BodyView::Bytecode(b)) => if depth > self.max_depth {
                self.then_do(Control::Returned(Err(ExecError::StackOverflow)))
            } else if args.len() != b.arg_vals.len() {
                self.then_do(Control::Returned(Err(ExecError::BadArgs)))
            } else {
                self.with_task(
                    TaskView::Frame(frame_of(class, method, b, args, depth)),
                ).then_do(Control::Run)
            },
        }
    }

    /// With a frame left, which was taken off the stack before.
    pub open spec fn left(self, f: FrameView, result: CallResult) -> MachineView {
        let returned = match result {
            Ok(v) => v,
            Err(_) => None,
        };
        (MachineView {
            world: WorldView {
                heap: frame_left(f.env, self.world.heap, returned),
                ..self.world
            },
            ..self
        }).then_do(Control::Returned(result))
    }
}

/// What using a class for the first time calls for.
pub enum InitNeed {
    /// Nothing: it is initialised, or being initialised by this very thread.
    Nothing,
    /// Its initialisation.
    Begin,
    Fault(ExecError),
}

/// What using a class calls for.
pub open spec fn init_need(r: RegistryView, class: ClassId) -> InitNeed {
    match class_at(r, class) {
        None => InitNeed::Fault(ExecError::NoMethod),
        Some(k) => match k.init {
            InitState::Initialized => InitNeed::Nothing,
            InitState::Initializing(_) => InitNeed::Nothing,
            InitState::Failed => InitNeed::Fault(ExecError::ClassInitFailed),
            InitState::Loaded => InitNeed::Begin,
        },
    }
}

/// What running a node comes to.
pub enum NodeOutcome {
    /// The next node.
    Next { world: WorldView, env: EnvView },
    Fault(ExecError),
    /// A call; its result belongs to the node.
    Call { class: ClassId, method: u16 },
    /// The initialisation of a class; then the node again.
    Init(ClassId),
    Float(FloatRequest),
}

/// The next node, with a value for this one.
pub open spec fn defines(w: WorldView, env: EnvView, id: ValId, v: Val128) -> NodeOutcome {
    NodeOutcome::Next { world: w, env: env.written(SlotId(id.offset), v) }
}

/// An environment in which a field's new referent has gained a reference and its old one lost one.
pub open spec fn field_deltas(env: EnvView, new: Val128, old_value: Val128) -> EnvView {
    let env1 = if new.tag().is_ref() {
        env.with_delta(new.ref_index(), 1)
    } else {
        env
    };
    if old_value.tag().is_ref() {
        env1.with_delta(old_value.ref_index(), -1i32)
    } else {
        env1
    }
}

/// The method in a slot of a class's dispatch table.
pub open spec fn dispatched(r: RegistryView, class: ClassId, slot: usize) -> Result<
    (ClassId, u16),
    ExecError,
> {
    match class_at(r, class) {
        None => Err(ExecError::Unresolved),
        Some(k) => if slot < k.vtable.len() {
            Ok((k.vtable[slot as int].class, k.vtable[slot as int].method))
        } else {
            Err(ExecError::Unresolved)
        },
    }
}

/// The method that a virtual call runs: the entry of the receiver's own dispatch table, never of
/// the class named at the call site.
pub open spec fn virtual_target(w: WorldView, owner: ClassId, cp: u16, vals: Seq<Val128>) -> Result<
    (ClassId, u16),
    ExecError,
> {
    if vals.len() == 0 {
        Err(ExecError::BadValue)
    } else if vals[0].tag() is Null {
        Err(ExecError::NullPointer)
    } else {
        match resolved_virtual(w.classes, owner, cp) {
            Some(Resolved::VirtualSlot { slot }) => match w.heap.object(vals[0].ref_index()) {
                None => Err(ExecError::BadValue),
                Some(o) => dispatched(w.classes, o.class, slot),
            },
            _ => Err(ExecError::Unresolved),
        }
    }
}

/// A call node.
pub open spec fn invoke_outcome(
    w: WorldView,
    env: EnvView,
    owner: ClassId,
    op: Op,
    vals: Seq<Val128>,
) -> NodeOutcome {
    match op {
        Op::InvokeVirtual(cp) => match virtual_target(w, owner, cp, vals) {
            Err(e) => NodeOutcome::Fault(e),
            Ok((class, method)) => NodeOutcome::Call { class, method },
        },
        Op::InvokeSpecial(cp) => match resolved_method(w.classes, owner, cp) {
            Some(Resolved::Method { class, method }) => NodeOutcome::Call { class, method },
            Some(Resolved::NoOp) => NodeOutcome::Next { world: w, env },
            _ => NodeOutcome::Fault(ExecError::Unresolved),
        },
        Op::InvokeStatic(cp) => match resolved_method(w.classes, owner, cp) {
            Some(Resolved::Method { class, method }) => match init_need(w.classes, class) {
                InitNeed::Nothing => NodeOutcome::Call { class, method },
                InitNeed::Begin => NodeOutcome::Init(class),
                InitNeed::Fault(e) => NodeOutcome::Fault(e),
            },
            Some(Resolved::NoOp) => NodeOutcome::Next { world: w, env },
            _ => NodeOutcome::Fault(ExecError::Unresolved),
        },
        _ => NodeOutcome::Fault(ExecError::UnsupportedOp),
    }
}

/// An allocation node.
pub open spec fn new_outcome(
    w: WorldView,
    env: EnvView,
    owner: ClassId,
    id: ValId,
    class_cp: u16,
    escape: EscapeState,
) -> NodeOutcome {
    match resolved_class(w.classes, owner, class_cp) {
        None => NodeOutcome::Fault(ExecError::Unresolved),
        Some(class) => match init_need(w.classes, class) {
            InitNeed::Begin => NodeOutcome::Init(class),
            InitNeed::Fault(e) => NodeOutcome::Fault(e),
            InitNeed::Nothing => if w.heap.live() >= w.heap.limit {
                NodeOutcome::Fault(ExecError::OutOfMemory)
            } else {
                let r = w.heap.next_ref();
                let fields = w.classes[class.0 as int].field_defaults;
                defines(
                    WorldView { heap: w.heap.allocated(class, escape, fields), ..w },
                    env,
                    id,
                    if escape is S1 {
                        Val128::handle(r)
                    } else {
                        Val128::ptr(r)
                    },
                )
            },
        },
    }
}

/// The slot of the instance field that a reference names.
pub open spec fn instance_slot(w: WorldView, owner: ClassId, cp: u16) -> Option<u16> {
    match resolved_field(w.classes, owner, cp) {
        Some(Resolved::InstanceField { class, slot }) => Some(slot),
        _ => None,
    }
}

/// A field read.
pub open spec fn get_field_outcome(
    w: WorldView,
    env: EnvView,
    owner: ClassId,
    id: ValId,
    cp: u16,
    vals: Seq<Val128>,
) -> NodeOutcome {
    if vals.len() == 0 {
        NodeOutcome::Fault(ExecError::BadValue)
    } else if vals[0].tag() is Null {
        NodeOutcome::Fault(ExecError::NullPointer)
    } else {
        match instance_slot(w, owner, cp) {
            None => NodeOutcome::Fault(ExecError::Unresolved),
            Some(slot) => if w.heap.has_field(vals[0].ref_index(), slot as int) {
                defines(
                    w,
                    env,
                    id,
                    w.heap.object(vals[0].ref_index())->0.fields[slot as int],
                )
            } else {
                NodeOutcome::Fault(ExecError::BadValue)
            },
        }
    }
}

/// A field write. A field is a strong reference, too.
pub open spec fn put_field_outcome(
    w: WorldView,
    env: EnvView,
    owner: ClassId,
    cp: u16,
    vals: Seq<Val128>,
) -> NodeOutcome {
    if vals.len() < 2 {
        NodeOutcome::Fault(ExecError::BadValue)
    } else if vals[0].tag() is Null {
        NodeOutcome::Fault(ExecError::NullPointer)
    } else {
        let r = vals[0].ref_index();
        match instance_slot(w, owner, cp) {
            None => NodeOutcome::Fault(ExecError::Unresolved),
            Some(slot) => if w.heap.has_field(r, slot as int) {
                NodeOutcome::Next {
                    world: WorldView {
                        heap: w.heap.with_field(r, slot as int, vals[1]),
                        ..w
                    },
                    env: field_deltas(env, vals[1], w.heap.object(r)->0.fields[slot as int]),
                }
            } else {
                NodeOutcome::Fault(ExecError::BadValue)
            },
        }
    }
}

/// The text that a string constant names.
pub open spec fn string_constant(w: WorldView, owner: ClassId, cp: u16) -> Option<Seq<char>> {
    match class_at(w.classes, owner) {
        None => None,
        Some(k) => match k.pool() {
            None => None,
            Some(pool) => if cp < pool.len() {
                match pool[cp as int] {
                    ConstantView::Plain(Constant::String { string_index }) => pool_utf8(
                        pool,
                        string_index,
                    ),
                    _ => None,
                }
            } else {
                None
            },
        },
    }
}

/// A string literal.
pub open spec fn load_string_outcome(
    w: WorldView,
    env: EnvView,
    owner: ClassId,
    id: ValId,
    cp: u16,
) -> NodeOutcome {
    match string_constant(w, owner, cp) {
        None => NodeOutcome::Fault(ExecError::Unresolved),
        Some(text) => match w.string_interned(text) {
            (_, Err(e)) => NodeOutcome::Fault(e),
            (w1, Ok(v)) => defines(w1, env, id, v),
        },
    }
}

/// A static-field access; a write if there is a value to write.
pub open spec fn static_outcome(
    w: WorldView,
    env: EnvView,
    owner: ClassId,
    id: ValId,
    cp: u16,
    is_write: bool,
    vals: Seq<Val128>,
) -> NodeOutcome {
    match resolved_field(w.classes, owner, cp) {
        Some(Resolved::StaticField { class, slot }) => match init_need(w.classes, class) {
            InitNeed::Begin => NodeOutcome::Init(class),
            InitNeed::Fault(e) => NodeOutcome::Fault(e),
            InitNeed::Nothing => {
                let statics = w.classes[class.0 as int].statics;
                if is_write && vals.len() == 0 {
                    NodeOutcome::Fault(ExecError::BadValue)
                } else if slot >= statics.len() {
                    NodeOutcome::Fault(ExecError::BadValue)
                } else if is_write {
                    NodeOutcome::Next {
                        world: WorldView {
                            classes: with_static(w.classes, class, slot as int, vals[0]),
                            ..w
                        },
                        env: field_deltas(env, vals[0], statics[slot as int]),
                    }
                } else {
                    defines(w, env, id, statics[slot as int])
                }
            },
        },
        _ => NodeOutcome::Fault(ExecError::Unresolved),
    }
}

/// Whether an object is an instance of the class that a reference names.
pub open spec fn instance_of(w: WorldView, owner: ClassId, cp: u16, obj: Val128) -> Result<
    bool,
    ExecError,
> {
    if obj.tag() is Null {
        Ok(false)
    } else {
        match resolved_class(w.classes, owner, cp) {
            None => Err(ExecError::Unresolved),
            Some(class) => match w.heap.object(obj.ref_index()) {
                None => Err(ExecError::BadValue),
                Some(o) => Ok(descends_from(w.classes, o.class, class)),
            },
        }
    }
}

/// A type test or a cast. `null` is no instance of anything, and a cast of it always succeeds.
pub open spec fn type_outcome(
    w: WorldView,
    env: EnvView,
    owner: ClassId,
    id: ValId,
    cp: u16,
    is_cast: bool,
    vals: Seq<Val128>,
) -> NodeOutcome {
    if vals.len() == 0 {
        NodeOutcome::Fault(ExecError::BadValue)
    } else {
        match instance_of(w, owner, cp, vals[0]) {
            Err(e) => NodeOutcome::Fault(e),
            Ok(yes) => if !is_cast {
                defines(
                    w,
                    env,
                    id,
                    if yes {
                        Val128::from_i32(1)
                    } else {
                        Val128::from_i32(0)
                    },
                )
            } else if !yes && !(vals[0].tag() is Null) {
                NodeOutcome::Fault(ExecError::ClassCast)
            } else {
                defines(w, env, id, vals[0])
            },
        }
    }
}

/// What running a node comes to, given the values of its operands.
pub open spec fn node_outcome(
    w: WorldView,
    env: EnvView,
    owner: ClassId,
    id: ValId,
    op: Op,
    ty: Tag,
    vals: Seq<Val128>,
) -> NodeOutcome {
    match op {
        Op::InvokeStatic(_) | Op::InvokeSpecial(_) | Op::InvokeVirtual(_) => invoke_outcome(
            w,
            env,
            owner,
            op,
            vals,
        ),
        Op::New { class_cp, escape } => new_outcome(w, env, owner, id, class_cp, escape),
        Op::GetField(cp) => get_field_outcome(w, env, owner, id, cp, vals),
        Op::PutField(cp) => put_field_outcome(w, env, owner, cp, vals),
        Op::LoadString(cp) => load_string_outcome(w, env, owner, id, cp),
        Op::GetStatic(cp) => static_outcome(w, env, owner, id, cp, false, vals),
        Op::PutStatic(cp) => static_outcome(w, env, owner, id, cp, true, vals),
        Op::InstanceOf(cp) => type_outcome(w, env, owner, id, cp, false, vals),
        Op::CheckCast(cp) => type_outcome(w, env, owner, id, cp, true, vals),
        _ => match evaluated(op, ty, vals) {
            Outcome::Value(v) => defines(w, env, id, v),
            Outcome::Float(request) => NodeOutcome::Float(request),
            Outcome::Fault(e) => NodeOutcome::Fault(e),
        },
    }
}

/// The source of a φ for the edge from block `p`, from position `i` on.
pub open spec fn source_from(sources: Seq<(BlockId, ValId)>, p: BlockId, i: int) -> Option<ValId>
    decreases sources.len() - i,
{
    if i >= sources.len() {
        None
    } else if sources[i].0 == p {
        Some(sources[i].1)
    } else {
        source_from(sources, p, i + 1)
    }
}

/// The slot writes of the φ from `k` on, for the edge from block `p`: all are read before any is
/// written.
pub open spec fn phi_writes(
    env: EnvView,
    phis: Seq<PhiView>,
    p: BlockId,
    k: int,
    writes: Seq<(u16, Val128)>,
) -> Option<Seq<(u16, Val128)>>
    decreases phis.len() - k,
{
    if k >= phis.len() {
        Some(writes)
    } else {
        match source_from(phis[k].sources, p, 0) {
            None => None,
            Some(v) => phi_writes(
                env,
                phis,
                p,
                k + 1,
                writes.push((phis[k].slot.offset, slot_value(env, v))),
            ),
        }
    }
}

/// An environment after the writes from `k` on.
pub open spec fn all_written(env: EnvView, writes: Seq<(u16, Val128)>, k: int) -> EnvView
    decreases writes.len() - k,
{
    if k >= writes.len() {
        env
    } else {
        all_written(env.written(SlotId(writes[k].0), writes[k].1), writes, k + 1)
    }
}

/// The environment in which a block runs, once its φ are resolved.
pub open spec fn phis_resolved(env: EnvView, b: BlockView, prev: Option<BlockId>) -> Option<
    EnvView,
> {
    match prev {
        None => Some(env),
        Some(p) => match phi_writes(env, b.phis, p, 0, Seq::empty()) {
            None => None,
            Some(writes) => Some(all_written(env, writes, 0)),
        },
    }
}

/// A frame's own code.
pub open spec fn frame_body(m: MachineView, f: FrameView) -> BuiltView {
    match body_at(m.world.classes, f.owner, f.method) {
        Some(BodyView::Bytecode(b)) => b,
        _ => arbitrary(),
    }
}

impl MachineView {
    /// A frame, taken off the stack before, enters its block.
    pub open spec fn entered(self, f: FrameView) -> MachineView {
        let b = frame_body(self, f);
        let steps = (f.steps + 1) as u64;
        if steps > MAX_BLOCKS {
            self.left(f, Err(ExecError::StepLimit))
        } else if f.block.0 >= b.method.blocks.len() {
            self.left(f, Err(ExecError::BadBlock))
        } else {
            match phis_resolved(f.env, b.method.blocks[f.block.0 as int], f.prev) {
                None => self.left(f, Err(ExecError::BadPhi)),
                Some(env) => self.with_task(
                    TaskView::Frame(FrameView { env, at: Some(0), steps, ..f }),
                ),
            }
        }
    }

    /// A frame, taken off the stack before, runs node `i`. An external operation is a fence: what
    /// precedes it lands first.
    pub open spec fn noded(self, f: FrameView, i: nat) -> MachineView {
        let n = frame_body(self, f).method.blocks[f.block.0 as int].nodes[i as int];
        let (env, heap) = if n.effect is Extern {
            chain_landed(f.env, self.world.heap)
        } else {
            (f.env, self.world.heap)
        };
        let w = WorldView { heap, ..self.world };
        let m = MachineView { world: w, ..self };
        let g = FrameView { env, ..f };
        let vals = operand_values(env, n.ins);
        m.node_done(g, i, vals, node_outcome(w, env, f.owner, n.id, n.op, n.ty, vals))
    }

    /// A frame, taken off the stack before, has run node `i` to an outcome.
    pub open spec fn node_done(
        self,
        f: FrameView,
        i: nat,
        vals: Seq<Val128>,
        outcome: NodeOutcome,
    ) -> MachineView {
        match outcome {
            NodeOutcome::Next { world, env } => (MachineView { world, ..self }).with_task(
                TaskView::Frame(FrameView { env, at: Some(i + 1), ..f }),
            ),
            NodeOutcome::Fault(e) => self.left(f, Err(e)),
            NodeOutcome::Call { class, method } => self.with_task(TaskView::Frame(f)).called(
                class,
                method,
                vals,
                f.depth + 1,
            ),
            NodeOutcome::Init(class) => self.with_task(TaskView::Frame(f)).init_begun(
                class,
                f.depth,
            ),
            NodeOutcome::Float(request) => self.with_task(TaskView::Frame(f)).then_do(
                Control::Float(request),
            ),
        }
    }

    /// With the initialisation of a class begun.
    pub open spec fn init_begun(self, class: ClassId, depth: nat) -> MachineView {
        MachineView {
            world: WorldView {
                classes: with_init(self.world.classes, class, InitState::Initializing(0)),
                ..self.world
            },
            ..self.with_task(
                TaskView::Init(InitView { class, depth, stage: InitStage::Super }),
            )
        }
    }

    /// A frame, taken off the stack before, goes to another block: the chain ends and lands.
    pub open spec fn moved(self, f: FrameView, to: BlockId) -> MachineView {
        let (env, heap) = chain_landed(f.env, self.world.heap);
        (MachineView { world: WorldView { heap, ..self.world }, ..self }).with_task(
            TaskView::Frame(
                FrameView { env, block: to, prev: Some(f.block), at: None, ..f },
            ),
        )
    }

    /// A frame, taken off the stack before, runs its block's terminator.
    pub open spec fn terminated(self, f: FrameView) -> MachineView {
        match frame_body(self, f).method.blocks[f.block.0 as int].term {
            Terminator::Return(Some(v)) => self.left(f, Ok(Some(slot_value(f.env, v)))),
            Terminator::Return(None) => self.left(f, Ok(None)),
            Terminator::Goto(b) => self.moved(f, b),
            Terminator::CondBranch { cond, taken, not_taken } => self.moved(
                f,
                if slot_value(f.env, cond).as_i32() != 0 {
                    taken
                } else {
                    not_taken
                },
            ),
            Terminator::Throw(_) => self.left(f, Err(ExecError::Thrown)),
        }
    }

    /// A frame, taken off the stack before, goes on.
    pub open spec fn frame_stepped(self, f: FrameView) -> MachineView {
        match f.at {
            None => self.entered(f),
            Some(i) => if i < frame_body(self, f).method.blocks[f.block.0 as int].nodes.len() {
                self.noded(f, i)
            } else {
                self.terminated(f)
            },
        }
    }

    /// A class initialisation, taken off the stack before, goes on: the superclass first, then
    /// `<clinit>`. A class whose superclass has failed fails, too.
    pub open spec fn init_stepped(self, t: InitView) -> MachineView {
        let k = self.world.classes[t.class.0 as int];
        let next = InitView { stage: InitStage::Clinit, ..t };
        match t.stage {
            InitStage::Super => match k.super_id {
                None => self.with_task(TaskView::Init(next)),
                Some(s) => match init_need(self.world.classes, s) {
                    InitNeed::Nothing => self.with_task(TaskView::Init(next)),
                    InitNeed::Fault(e) => self.init_ended(t.class, Err(e)),
                    InitNeed::Begin => self.with_task(TaskView::Init(next)).init_begun(
                        s,
                        t.depth,
                    ),
                },
            },
            _ => match k.method_index("<clinit>"@, "()V"@) {
                None => self.init_ended(t.class, Ok(())),
                Some(method) => self.with_task(
                    TaskView::Init(InitView { stage: InitStage::Running, ..t }),
                ).called(t.class, method, Seq::empty(), t.depth + 1),
            },
        }
    }

    /// A class's own initialisation has ended, well or not.
    pub open spec fn init_ended(self, class: ClassId, result: Result<(), ExecError>) -> MachineView {
        let state = match result {
            Ok(_) => InitState::Initialized,
            Err(_) => InitState::Failed,
        };
        (MachineView {
            world: WorldView {
                classes: with_init(self.world.classes, class, state),
                ..self.world
            },
            ..self
        }).then_do(Control::Ready(result))
    }

    /// A task, taken off the stack before, gets the result of the call it waits for. A frame's slot
    /// now owns a returned reference, so the in-transit one is dropped.
    pub open spec fn returned_to(self, t: TaskView, result: CallResult) -> MachineView {
        match t {
            TaskView::Frame(f) => match result {
                Err(e) => self.left(f, Err(e)),
                Ok(v) => {
                    let i = f.at->0;
                    let n = frame_body(self, f).method.blocks[f.block.0 as int].nodes[i as int];
                    let env = match v {
                        None => f.env,
                        Some(x) => {
                            let env1 = f.env.written(SlotId(n.id.offset), x);
                            if x.tag().is_ref() {
                                env1.with_delta(x.ref_index(), -1i32)
                            } else {
                                env1
                            }
                        },
                    };
                    self.with_task(
                        TaskView::Frame(FrameView { env, at: Some(i + 1), ..f }),
                    ).then_do(Control::Run)
                },
            },
            TaskView::Init(t) => self.init_ended(
                t.class,
                match result {
                    Ok(_) => Ok(()),
                    Err(e) => Err(e),
                },
            ),
        }
    }

    /// A task, taken off the stack before, gets the result of the initialisation it waits for. A class
    /// whose superclass fails to initialise fails, too.
    pub open spec fn ready_for(self, t: TaskView, result: Result<(), ExecError>) -> MachineView {
        match result {
            Ok(_) => self.with_task(t).then_do(Control::Run),
            Err(e) => match t {
                TaskView::Frame(f) => self.left(f, Err(e)),
                TaskView::Init(t) => self.init_ended(t.class, Err(e)),
            },
        }
    }

    /// The machine after one step.
    pub open spec fn stepped(self) -> MachineView {
        match self.control {
            Control::Done(_) | Control::Float(_) => self,
            Control::Run => if self.tasks.len() == 0 {
                self
            } else {
                let below = MachineView { tasks: self.tasks.drop_last(), ..self };
                match self.tasks.last() {
                    TaskView::Frame(f) => below.frame_stepped(f),
                    TaskView::Init(t) => below.init_stepped(t),
                }
            },
            Control::Returned(result) => if self.tasks.len() == 0 {
                self.then_do(Control::Done(result))
            } else {
                let below = MachineView { tasks: self.tasks.drop_last(), ..self };
                below.returned_to(self.tasks.last(), result)
            },
            Control::Ready(result) => if self.tasks.len() == 0 {
                self
            } else {
                let below = MachineView { tasks: self.tasks.drop_last(), ..self };
                below.ready_for(self.tasks.last(), result)
            },
        }
    }

    /// The machine after at most `n` steps.
    pub open spec fn advanced(self, n: nat) -> MachineView
        decreases n,
    {
        if n == 0 {
            self
        } else {
            self.stepped().advanced((n - 1) as nat)
        }
    }

    /// The machine after the floating-point unit has answered.
    pub open spec fn answered(self, v: Val128) -> MachineView {
        match (self.control, self.tasks.last()) {
            (Control::Float(_), TaskView::Frame(f)) => {
                let i = f.at->0;
                let n = frame_body(self, f).method.blocks[f.block.0 as int].nodes[i as int];
                (MachineView { tasks: self.tasks.drop_last(), ..self }).with_task(
                    TaskView::Frame(
                        FrameView {
                            env: f.env.written(SlotId(n.id.offset), v),
                            at: Some(i + 1),
                            ..f
                        },
                    ),
                ).then_do(Control::Run)
            },
            _ => self,
        }
    }

    /// The machine with a call begun, and nothing else.
    pub open spec fn started(
        self,
        class: ClassId,
        method: u16,
        args: Seq<Val128>,
        depth: nat,
    ) -> MachineView {
        (MachineView { tasks: Seq::empty(), ..self }).called(class, method, args, depth)
    }
}

} // verus!
