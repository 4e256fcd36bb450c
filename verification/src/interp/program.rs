//! Running programs.

use vstd::prelude::*;
use crate::classfile::ClassFile;
use crate::env::{Env, EnvView, LogicalFrame};
use crate::heap::{Heap, HeapView};
use crate::ids::{BlockId, ClassId, SlotId, ValId};
use crate::inline::{Operands, PendingWrites, ValueList};
use crate::interp::error::ExecError;
use crate::interp::eval::FloatRequest;
use crate::interp::machine::{
    all_written, args_written, body_at, chain_landed, frame_body, frame_slots, node_outcome,
    operand_values, phi_writes, phis_resolved, source_from, Control, FrameView, InitStage, InitView,
    MAX_BLOCKS, MachineView, NodeOutcome, TaskView,
};
use crate::interp::nodes::{check_init, land_chain, leave_frame, run_node, NodeStep};
use crate::interp::soundness::{
    at_node, awaits_call, code_fits, frame_fits, lemma_answered_wf, lemma_end_is_unique,
    lemma_every_run_ends, lemma_node_fits, lemma_node_keeps_shape, lemma_nodes_bounded,
    lemma_phis_resolved_fit, lemma_started_wf, lemma_step_closer, lemma_stepped_wf,
    lemma_steps_add_up, loaded, most_in_classes, nodes_below, task_fits, work_left,
};
use crate::ir::{Block, BuiltMethod, Effect, Op, Phi, Terminator};
use crate::loader::{
    class_at, class_from_builtin, class_named, found_views, load_result, registry_wf, with_file,
    BodyView, ClassRegistry, InitState, LoaderError, LoaderErrorView, MethodBody, RegistryView,
};
use crate::native::{BuiltinView, NativeFn};
use crate::stdlib::{builtin_views, builtins, invoke};
use crate::value::{Tag, Val128};
use crate::world::{World, WorldView};

verus! {

/// Default guest call-stack limit, in frames.
pub const DEFAULT_MAX_CALL_DEPTH: usize = 256;

/// A method in progress.
pub struct Frame {
    owner: ClassId,
    method: u16,
    env: Env,
    block: BlockId,
    prev: Option<BlockId>,
    at: Option<usize>,
    steps: u64,
    depth: usize,
}

impl View for Frame {
    type V = FrameView;

    closed spec fn view(&self) -> FrameView {
        FrameView {
            owner: self.owner,
            method: self.method,
            env: self.env@,
            block: self.block,
            prev: self.prev,
            at: match self.at {
                Some(i) => Some(i as nat),
                None => None,
            },
            steps: self.steps,
            depth: self.depth as nat,
        }
    }
}

/// A class initialisation in progress.
#[derive(Clone, Copy)]
pub struct Init {
    class: ClassId,
    depth: usize,
    stage: InitStage,
}

impl View for Init {
    type V = InitView;

    closed spec fn view(&self) -> InitView {
        InitView { class: self.class, depth: self.depth as nat, stage: self.stage }
    }
}

/// A task on the machine's stack.
pub enum Task {
    Frame(Frame),
    Init(Init),
}

impl View for Task {
    type V = TaskView;

    open spec fn view(&self) -> TaskView {
        match *self {
            Task::Frame(f) => TaskView::Frame(f@),
            Task::Init(t) => TaskView::Init(t@),
        }
    }
}

/// What a list of tasks holds.
pub open spec fn task_views(s: Seq<Task>) -> Seq<TaskView> {
    Seq::new(s.len(), |i: int| s[i]@)
}

/// How far a call has come.
#[derive(Clone, Copy, PartialEq, Eq, Debug)]
pub enum Progress {
    /// It has ended.
    Done(Result<Option<Val128>, ExecError>),
    /// It waits for the floating-point unit.
    Float(FloatRequest),
}

impl MachineView {
    /// A machine over linked classes that nothing has run on.
    pub open spec fn at_rest(classes: RegistryView) -> MachineView {
        MachineView {
            world: WorldView {
                classes,
                heap: HeapView::fresh(0x100_0000),
                interned: Seq::empty(),
                captured: None,
                outgoing: Seq::empty(),
            },
            tasks: Seq::empty(),
            control: Control::Done(Ok(None)),
            max_depth: DEFAULT_MAX_CALL_DEPTH as nat,
        }
    }

    /// The index of a class's method, by name and descriptor.
    pub open spec fn method_named(self, class: ClassId, name: Seq<char>, desc: Seq<char>) -> Option<
        u16,
    > {
        match class_at(self.world.classes, class) {
            None => None,
            Some(k) => k.method_index(name, desc),
        }
    }

    /// A call by name: the standard streams are installed first. The machine it leads to, and the
    /// error if the call could not begin.
    pub open spec fn named_call(
        self,
        entry: ClassId,
        name: Seq<char>,
        desc: Seq<char>,
        args: Seq<Val128>,
    ) -> (MachineView, Option<ExecError>) {
        match self.method_named(entry, name, desc) {
            None => (self, Some(ExecError::NoMethod)),
            Some(index) => match self.world.streams_installed() {
                (world, Err(e)) => (MachineView { world, ..self }, Some(e)),
                (world, Ok(_)) => (
                    (MachineView { world, ..self }).started(entry, index, args, 0).run_out(),
                    None,
                ),
            },
        }
    }

    /// Whether the machine has come that far.
    pub open spec fn shows(self, p: Progress) -> bool {
        match p {
            Progress::Done(r) => self.control == Control::Done(r),
            Progress::Float(q) => self.control == Control::Float(q),
        }
    }
}

/// A loaded program: what guest code acts on, the entry class used by the name-based helpers, and
/// the call in progress.
pub struct Program {
    world: World,
    entry: ClassId,
    max_call_depth: usize,
    tasks: Vec<Task>,
    control: Control,
}

impl View for Program {
    type V = MachineView;

    closed spec fn view(&self) -> MachineView {
        MachineView {
            world: self.world@,
            tasks: task_views(self.tasks@),
            control: self.control,
            max_depth: self.max_call_depth as nat,
        }
    }
}

proof fn lemma_pushed(s: Seq<Task>, t: Task)
    ensures
        task_views(s.push(t)) == task_views(s).push(t@),
{
    assert(task_views(s.push(t)) =~= task_views(s).push(t@));
}

proof fn lemma_popped(s: Seq<Task>)
    requires
        s.len() > 0,
    ensures
        task_views(s.drop_last()) == task_views(s).drop_last(),
        s.last()@ == task_views(s).last(),
{
    assert(task_views(s.drop_last()) =~= task_views(s).drop_last());
}

/// Well-formed classes have well-formed code.
pub proof fn lemma_registry_code_fits(r: RegistryView)
    requires
        registry_wf(r),
    ensures
        code_fits(r),
{
    assert forall|class: ClassId, method: u16|
        (#[trigger] body_at(r, class, method)) matches Some(BodyView::Bytecode(x)) implies body_at(
        r,
        class,
        method,
    )->0->Bytecode_0.wf() by {
        assert(r[class.0 as int].wf(class.0 as int));
        assert(r[class.0 as int].methods[method as int] is Bytecode);
    }
}

/// The code of a bytecode method.
fn code_of(r: &ClassRegistry, class: ClassId, method: u16) -> (b: Option<&BuiltMethod>)
    ensures
        match body_at(r@, class, method) {
            Some(BodyView::Bytecode(x)) => b is Some && b->0@ == x,
            _ => b is None,
        },
{
    match r.get(class) {
        None => None,
        Some(k) => {
            if (method as usize) < k.methods.len() {
                match &k.methods[method as usize] {
                    MethodBody::Bytecode(b) => Some(b),
                    _ => None,
                }
            } else {
                None
            }
        },
    }
}

/// How a method runs.
enum Kind {
    Bytecode,
    Native(NativeFn),
    Absent,
}

fn kind_of(r: &ClassRegistry, class: ClassId, method: u16) -> (k: Kind)
    ensures
        match body_at(r@, class, method) {
            Some(BodyView::Bytecode(_)) => k is Bytecode,
            Some(BodyView::Native(f)) => k == Kind::Native(f),
            _ => k is Absent,
        },
{
    match r.get(class) {
        None => Kind::Absent,
        Some(k) => {
            if (method as usize) < k.methods.len() {
                match &k.methods[method as usize] {
                    MethodBody::Bytecode(_) => Kind::Bytecode,
                    MethodBody::Native(f) => Kind::Native(*f),
                    MethodBody::Absent => Kind::Absent,
                }
            } else {
                Kind::Absent
            }
        },
    }
}

/// A fresh environment with the arguments bound.
fn bind_args(b: &BuiltMethod, args: &[Val128], frame: LogicalFrame) -> (env: Env)
    requires
        b@.wf(),
        args@.len() == b@.arg_vals.len(),
    ensures
        env@ == args_written(EnvView::fresh(frame_slots(b@), frame), b@.arg_vals, args@, 0),
        env@.wf(),
        env@.slots.len() == frame_slots(b@),
{
    let n: usize = if b.n_slots > 1 {
        b.n_slots
    } else {
        1
    };
    let mut env = Env::new(n, frame);
    let ghost start = env@;
    let mut i: usize = 0;
    while i < args.len()
        invariant
            i <= args@.len() == b@.arg_vals.len(),
            b@.wf(),
            env@.wf(),
            env@.slots.len() == n == frame_slots(b@),
            args_written(env@, b@.arg_vals, args@, i as int) == args_written(
                start,
                b@.arg_vals,
                args@,
                0,
            ),
        decreases args@.len() - i,
    {
        assert(b@.arg_vals[i as int].fits(b@.n_slots as int));
        env.write_slot(SlotId(b.arg_vals[i].offset), args[i]);
        i += 1;
    }
    env
}

/// The source of a φ for the edge from block `p`.
fn find_source(phi: &Phi, p: BlockId) -> (r: Option<ValId>)
    ensures
        r == source_from(phi@.sources, p, 0),
        r matches Some(v) ==> exists|i: int| 0 <= i < phi@.sources.len() && v == (
        #[trigger] phi@.sources[i]).1,
{
    let n: usize = phi.sources.len();
    let mut i: usize = 0;
    while i < n
        invariant
            i <= n == phi@.sources.len(),
            source_from(phi@.sources, p, i as int) == source_from(phi@.sources, p, 0),
        decreases n - i,
    {
        if let Some((block, v)) = phi.sources.get(i) {
            if block == p {
                assert(v == phi@.sources[i as int].1);
                return Some(v);
            }
        }
        i += 1;
    }
    None
}

/// Resolve the φ of a block for the edge taken: read every source before writing any slot.
fn resolve_phis(env: &mut Env, b: &Block, prev: Option<BlockId>) -> (ok: bool)
    requires
        old(env)@.wf(),
        forall|i: int|
            0 <= i < b@.phis.len() ==> (#[trigger] b@.phis[i]).fits(old(env)@.slots.len() as int),
    ensures
        match phis_resolved(old(env)@, b@, prev) {
            Some(e) => ok && final(env)@ == e,
            None => !ok && final(env)@ == old(env)@,
        },
{
    let p = match prev {
        Some(p) => p,
        None => {
            return true;
        },
    };
    let ghost n = env@.slots.len() as int;
    let mut writes = PendingWrites::empty();
    let mut k: usize = 0;
    while k < b.phis.len()
        invariant
            k <= b.phis@.len() == b@.phis.len(),
            prev == Some(p),
            env@ == old(env)@,
            env@.wf(),
            n == env@.slots.len(),
            forall|i: int| 0 <= i < b@.phis.len() ==> (#[trigger] b@.phis[i]).fits(n),
            forall|i: int| 0 <= i < writes@.len() ==> (#[trigger] writes@[i]).0 < n,
            phi_writes(env@, b@.phis, p, k as int, writes@) == phi_writes(
                env@,
                b@.phis,
                p,
                0,
                Seq::empty(),
            ),
        decreases b.phis@.len() - k,
    {
        let phi = &b.phis[k];
        assert(phi@ == b@.phis[k as int]);
        assert(b@.phis[k as int].fits(n));
        match find_source(phi, p) {
            None => {
                return false;
            },
            Some(v) => {
                writes.append(phi.slot.offset, env.read_slot(SlotId(v.offset)));
            },
        }
        k += 1;
    }
    let ghost start = env@;
    let count: usize = writes.count();
    let mut j: usize = 0;
    while j < count
        invariant
            j <= count == writes@.len(),
            env@.wf(),
            n == env@.slots.len(),
            forall|i: int| 0 <= i < writes@.len() ==> (#[trigger] writes@[i]).0 < n,
            all_written(env@, writes@, j as int) == all_written(start, writes@, 0),
        decreases writes@.len() - j,
    {
        let (slot, v) = writes.item(j);
        assert(writes@[j as int].0 < n);
        env.write_slot(SlotId(slot), v);
        j += 1;
    }
    true
}

/// The values of a node's operands.
fn read_operands(env: &Env, ins: &Operands) -> (vals: ValueList)
    requires
        env@.wf(),
        forall|i: int| 0 <= i < ins@.len() ==> (#[trigger] ins@[i]).fits(env@.slots.len() as int),
    ensures
        vals@ == operand_values(env@, ins@),
{
    let mut vals = ValueList::empty();
    let n: usize = ins.len();
    let mut i: usize = 0;
    while i < n
        invariant
            i <= n == ins@.len(),
            env@.wf(),
            forall|j: int|
                0 <= j < ins@.len() ==> (#[trigger] ins@[j]).fits(env@.slots.len() as int),
            vals@ == operand_values(env@, ins@).take(i as int),
        decreases n - i,
    {
        assert(ins@[i as int].fits(env@.slots.len() as int));
        let v = ins.item(i);
        vals.append(env.read_slot(SlotId(v.offset)));
        i += 1;
        assert(vals@ =~= operand_values(env@, ins@).take(i as int));
    }
    assert(vals@ =~= operand_values(env@, ins@));
    vals
}

impl Program {
    /// Classes and heap are well-formed.
    pub closed spec fn world_fits(&self) -> bool {
        self.world.wf()
    }

    /// The class of the name-based helpers.
    pub closed spec fn entry(&self) -> ClassId {
        self.entry
    }

    /// The program is in a state that running can lead to.
    pub open spec fn wf(&self) -> bool {
        &&& self.world_fits()
        &&& self@.wf()
    }

    /// Leave a frame, well or not.
    fn finish(&mut self, f: Frame, result: Result<Option<Val128>, ExecError>)
        requires
            old(self).world_fits(),
            f@.env.wf(),
            f@.env.slots.len() <= 0xFFFF,
        ensures
            final(self).world_fits(),
            final(self).entry() == old(self).entry(),
            final(self)@ == old(self)@.left(f@, result),
    {
        let returned = match result {
            Ok(v) => v,
            Err(_) => None,
        };
        leave_frame(f.env, &mut self.world.heap, returned);
        self.control = Control::Returned(result);
    }

    /// Put a task on top.
    fn push(&mut self, t: Task)
        requires
            old(self).world_fits(),
        ensures
            final(self).world_fits(),
            final(self).entry() == old(self).entry(),
            final(self)@ == old(self)@.with_task(t@),
    {
        proof {
            lemma_pushed(self.tasks@, t);
        }
        self.tasks.push(t);
    }

    /// Begin a call. `depth` is its depth, or `None` where that exceeds the limit.
    fn begin_call(
        &mut self,
        class: ClassId,
        method: u16,
        args: &[Val128],
        depth: Option<usize>,
        Ghost(d): Ghost<nat>,
    )
        requires
            old(self).world_fits(),
            code_fits(old(self)@.world.classes),
            match depth {
                Some(x) => d == x,
                None => d > old(self)@.max_depth,
            },
        ensures
            final(self).world_fits(),
            final(self).entry() == old(self).entry(),
            final(self)@ == old(self)@.called(class, method, args@, d),
    {
        match kind_of(&self.world.registry, class, method) {
            Kind::Absent => {
                self.control = Control::Returned(Err(ExecError::NoMethod));
            },
            Kind::Native(f) => match invoke(f, &mut self.world, args) {
                Err(e) => {
                    self.control = Control::Returned(Err(ExecError::from(e)));
                },
                Ok(v) => {
                    if let Some(x) = v {
                        if x.tag().is_ref() {
                            self.world.heap.add_rc(x.ref_index(), 1);
                        }
                    }
                    self.control = Control::Returned(Ok(v));
                },
            },
            Kind::Bytecode => {
                let depth: usize = match depth {
                    Some(x) => x,
                    None => {
                        self.control = Control::Returned(Err(ExecError::StackOverflow));
                        return;
                    },
                };
                if depth > self.max_call_depth {
                    self.control = Control::Returned(Err(ExecError::StackOverflow));
                    return;
                }
                let frame = match code_of(&self.world.registry, class, method) {
                    None => {
                        return;
                    },
                    Some(b) => {
                        if args.len() != b.arg_vals.len() {
                            None
                        } else {
                            assert(b@.wf());
                            Some(
                                Frame {
                                    owner: class,
                                    method,
                                    env: bind_args(b, args, LogicalFrame(method as u32)),
                                    block: b.method.entry,
                                    prev: None,
                                    at: None,
                                    steps: 0,
                                    depth,
                                },
                            )
                        }
                    },
                };
                match frame {
                    None => {
                        self.control = Control::Returned(Err(ExecError::BadArgs));
                    },
                    Some(f) => {
                        self.push(Task::Frame(f));
                        self.control = Control::Run;
                    },
                }
            },
        }
    }

    /// Begin a class initialisation.
    fn begin_init(&mut self, class: ClassId, depth: usize)
        requires
            old(self).world_fits(),
            class.0 < old(self)@.world.classes.len(),
        ensures
            final(self).world_fits(),
            final(self).entry() == old(self).entry(),
            final(self)@ == old(self)@.init_begun(class, depth as nat),
    {
        self.push(Task::Init(Init { class, depth, stage: InitStage::Super }));
        self.world.registry.set_init_state(class, InitState::Initializing(0));
    }

    /// End a class initialisation.
    fn end_init(&mut self, class: ClassId, result: Result<(), ExecError>)
        requires
            old(self).world_fits(),
            class.0 < old(self)@.world.classes.len(),
        ensures
            final(self).world_fits(),
            final(self).entry() == old(self).entry(),
            final(self)@ == old(self)@.init_ended(class, result),
    {
        let state = match result {
            Ok(_) => InitState::Initialized,
            Err(_) => InitState::Failed,
        };
        self.world.registry.set_init_state(class, state);
        self.control = Control::Ready(result);
    }

    /// The depth of a call from `depth`, unless it exceeds the limit.
    fn deeper(&self, depth: usize) -> (d: Option<usize>)
        ensures
            match d {
                Some(x) => x == depth + 1,
                None => depth + 1 > self@.max_depth,
            },
    {
        if depth < self.max_call_depth {
            Some(depth + 1)
        } else {
            None
        }
    }
}

impl Program {
    /// Enter the block a frame has come to.
    fn enter(&mut self, f: Frame)
        requires
            old(self).world_fits(),
            code_fits(old(self)@.world.classes),
            frame_fits(old(self)@.world.classes, f@, old(self)@.max_depth),
        ensures
            final(self).world_fits(),
            final(self).entry() == old(self).entry(),
            final(self)@ == old(self)@.entered(f@),
    {
        let mut f = f;
        let ghost b = frame_body(self@, f@);
        assert(b.wf());
        if f.steps >= MAX_BLOCKS {
            self.finish(f, Err(ExecError::StepLimit));
            return;
        }
        let ok = match code_of(&self.world.registry, f.owner, f.method) {
            None => false,
            Some(built) => {
                let block = &built.method.blocks[f.block.0 as usize];
                let ghost bv = b.method.blocks[f.block.0 as int];
                proof {
                    assert(block@ == bv);
                    assert(bv.fits(b.n_slots as int, b.method.blocks.len() as int));
                    assert forall|i: int| 0 <= i < bv.phis.len() implies (
                    #[trigger] bv.phis[i]).fits(f.env@.slots.len() as int) by {
                        assert(bv.phis[i].fits(b.n_slots as int));
                    }
                    lemma_phis_resolved_fit(f.env@, bv, f.prev);
                }
                resolve_phis(&mut f.env, block, f.prev)
            },
        };
        if !ok {
            self.finish(f, Err(ExecError::BadPhi));
            return;
        }
        f.at = Some(0);
        f.steps = f.steps + 1;
        self.push(Task::Frame(f));
    }

    /// Go to another block: the chain ends and lands.
    fn jump(&mut self, f: Frame, to: BlockId)
        requires
            old(self).world_fits(),
            f@.env.wf(),
        ensures
            final(self).world_fits(),
            final(self).entry() == old(self).entry(),
            final(self)@ == old(self)@.moved(f@, to),
    {
        let mut f = f;
        land_chain(&mut f.env, &mut self.world.heap);
        f.prev = Some(f.block);
        f.block = to;
        f.at = None;
        self.push(Task::Frame(f));
    }

    /// Run a block's terminator.
    fn terminate(&mut self, f: Frame)
        requires
            old(self).world_fits(),
            code_fits(old(self)@.world.classes),
            frame_fits(old(self)@.world.classes, f@, old(self)@.max_depth),
        ensures
            final(self).world_fits(),
            final(self).entry() == old(self).entry(),
            final(self)@ == old(self)@.terminated(f@),
    {
        let ghost b = frame_body(self@, f@);
        proof {
            assert(b.wf());
            assert(b.method.blocks[f.block.0 as int].fits(
                b.n_slots as int,
                b.method.blocks.len() as int,
            ));
        }
        let term = match code_of(&self.world.registry, f.owner, f.method) {
            None => {
                return;
            },
            Some(built) => built.method.blocks[f.block.0 as usize].term,
        };
        match term {
            Terminator::Return(Some(v)) => {
                let x = f.env.read_slot(SlotId(v.offset));
                self.finish(f, Ok(Some(x)));
            },
            Terminator::Return(None) => {
                self.finish(f, Ok(None));
            },
            Terminator::Goto(to) => {
                self.jump(f, to);
            },
            Terminator::CondBranch { cond, taken, not_taken } => {
                let to = if f.env.read_slot(SlotId(cond.offset)).as_i32() != 0 {
                    taken
                } else {
                    not_taken
                };
                self.jump(f, to);
            },
            Terminator::Throw(_) => {
                self.finish(f, Err(ExecError::Thrown));
            },
        }
    }

    /// Fetch a node: its header, the values of its operands and the node after it. An external
    /// operation is a fence: what precedes it lands first.
    fn fetch(&mut self, f: &mut Frame, i: usize) -> (r: Option<(ValId, Op, Tag, ValueList, usize)>)
        requires
            old(self).world_fits(),
            code_fits(old(self)@.world.classes),
            frame_fits(old(self)@.world.classes, old(f)@, old(self)@.max_depth),
            at_node(old(self)@.world.classes, old(f)@),
            old(f)@.at == Some(i as nat),
        ensures
            final(self).world_fits(),
            final(self).entry() == old(self).entry(),
            final(f)@.env.wf(),
            final(f)@.env.slots.len() == old(f)@.env.slots.len(),
            ({
                let n = frame_body(old(self)@, old(f)@).method.blocks[old(
                    f,
                )@.block.0 as int].nodes[i as int];
                let (env, heap) = if n.effect is Extern {
                    chain_landed(old(f)@.env, old(self)@.world.heap)
                } else {
                    (old(f)@.env, old(self)@.world.heap)
                };
                &&& final(self)@ == (MachineView {
                    world: WorldView { heap, ..old(self)@.world },
                    ..old(self)@
                })
                &&& final(f)@ == (FrameView { env, ..old(f)@ })
                &&& r is Some
                &&& (r->0).0 == n.id
                &&& (r->0).1 == n.op
                &&& (r->0).2 == n.ty
                &&& (r->0).3@ == operand_values(env, n.ins)
                &&& (r->0).4 == i + 1
            }),
    {
        let ghost b = frame_body(self@, f@);
        let ghost n = b.method.blocks[f@.block.0 as int].nodes[i as int];
        proof {
            assert(b.wf());
            lemma_node_fits(self@.world.classes, f@, self@.max_depth);
        }
        match code_of(&self.world.registry, f.owner, f.method) {
            None => None,
            Some(built) => {
                let block = &built.method.blocks[f.block.0 as usize];
                let count: usize = block.nodes.len();
                assert(i < count);
                let node = &block.nodes[i];
                assert(node@ == n);
                if node.effect == Effect::Extern {
                    land_chain(&mut f.env, &mut self.world.heap);
                }
                assert(node.ins@ == n.ins);
                assert forall|j: int| 0 <= j < node.ins@.len() implies (
                #[trigger] node.ins@[j]).fits(f.env@.slots.len() as int) by {
                    assert(n.ins[j].fits(old(f)@.env.slots.len() as int));
                }
                let vals = read_operands(&f.env, &node.ins);
                Some((node.id, node.op, node.ty, vals, i + 1))
            },
        }
    }

    /// Run a node.
    fn node(&mut self, f: Frame, i: usize)
        requires
            old(self).world_fits(),
            code_fits(old(self)@.world.classes),
            frame_fits(old(self)@.world.classes, f@, old(self)@.max_depth),
            at_node(old(self)@.world.classes, f@),
            f@.at == Some(i as nat),
        ensures
            final(self).world_fits(),
            final(self).entry() == old(self).entry(),
            final(self)@ == old(self)@.noded(f@, i as nat),
    {
        let mut f = f;
        proof {
            lemma_node_fits(self@.world.classes, f@, self@.max_depth);
        }
        let ghost b = frame_body(self@, f@);
        assert(b.wf());
        let (id, op, ty, vals, next) = match self.fetch(&mut f, i) {
            Some(x) => x,
            None => {
                return;
            },
        };
        let ghost outcome = node_outcome(self@.world, f@.env, f@.owner, id, op, ty, vals@);
        proof {
            lemma_node_keeps_shape(self@.world, f@.env, f@.owner, id, op, ty, vals@);
        }
        self.dispatch(f, id, op, ty, vals, next, Ghost(outcome));
    }

    /// Run a node over its operands, and do what it came to.
    fn dispatch(
        &mut self,
        f: Frame,
        id: ValId,
        op: Op,
        ty: Tag,
        vals: ValueList,
        next: usize,
        Ghost(outcome): Ghost<NodeOutcome>,
    )
        requires
            old(self).world_fits(),
            code_fits(old(self)@.world.classes),
            f@.env.wf(),
            f@.env.slots.len() <= 0xFFFF,
            id.offset < f@.env.slots.len(),
            next > 0,
            outcome == node_outcome(old(self)@.world, f@.env, f@.owner, id, op, ty, vals@),
            outcome matches NodeOutcome::Init(c) ==> c.0 < old(self)@.world.classes.len(),
        ensures
            final(self).world_fits(),
            final(self).entry() == old(self).entry(),
            final(self)@ == old(self)@.node_done(f@, (next - 1) as nat, vals@, outcome),
    {
        let mut f = f;
        match run_node(&mut self.world, &mut f.env, f.owner, id, op, ty, vals.as_slice()) {
            NodeStep::Next => {
                f.at = Some(next);
                self.push(Task::Frame(f));
            },
            NodeStep::Fault(e) => {
                self.finish(f, Err(e));
            },
            NodeStep::Call { class, method } => {
                let depth = self.deeper(f.depth);
                let ghost d = (f.depth + 1) as nat;
                self.push(Task::Frame(f));
                self.begin_call(class, method, vals.as_slice(), depth, Ghost(d));
            },
            NodeStep::Init(class) => {
                let depth = f.depth;
                self.push(Task::Frame(f));
                self.begin_init(class, depth);
            },
            NodeStep::Float(request) => {
                self.push(Task::Frame(f));
                self.control = Control::Float(request);
            },
        }
    }
}

impl Program {
    /// Go on with a class initialisation: the superclass first, then `<clinit>`.
    fn init_step(&mut self, t: Init)
        requires
            old(self).world_fits(),
            code_fits(old(self)@.world.classes),
            t@.class.0 < old(self)@.world.classes.len(),
            !(t@.stage is Running),
        ensures
            final(self).world_fits(),
            final(self).entry() == old(self).entry(),
            final(self)@ == old(self)@.init_stepped(t@),
    {
        let (super_id, clinit) = match self.world.registry.get(t.class) {
            None => {
                return;
            },
            Some(k) => (k.super_id, k.method_index("<clinit>", "()V")),
        };
        match t.stage {
            InitStage::Super => {
                let next = Task::Init(
                    Init { class: t.class, depth: t.depth, stage: InitStage::Clinit },
                );
                match super_id {
                    None => {
                        self.push(next);
                    },
                    Some(s) => match check_init(&self.world.registry, s) {
                        NodeStep::Fault(e) => {
                            self.end_init(t.class, Err(e));
                        },
                        NodeStep::Init(s) => {
                            self.push(next);
                            self.begin_init(s, t.depth);
                        },
                        _ => {
                            self.push(next);
                        },
                    },
                }
            },
            _ => match clinit {
                None => {
                    self.end_init(t.class, Ok(()));
                },
                Some(method) => {
                    let depth = self.deeper(t.depth);
                    self.push(
                        Task::Init(
                            Init { class: t.class, depth: t.depth, stage: InitStage::Running },
                        ),
                    );
                    let args: [Val128; 0] = [];
                    assert(args@ =~= Seq::<Val128>::empty());
                    self.begin_call(
                        t.class,
                        method,
                        args.as_slice(),
                        depth,
                        Ghost((t.depth + 1) as nat),
                    );
                },
            },
        }
    }

    /// The slot of the node that a frame stands at, and the node after it.
    fn waiting_node(&self, f: &Frame) -> (r: Option<(ValId, usize)>)
        requires
            code_fits(self@.world.classes),
            frame_fits(self@.world.classes, f@, self@.max_depth),
            at_node(self@.world.classes, f@),
        ensures
            r is Some,
            (r->0).0 == frame_body(self@, f@).method.blocks[f@.block.0 as int].nodes[f@.at->0 as int].id,
            (r->0).1 == f@.at->0 + 1,
    {
        match code_of(&self.world.registry, f.owner, f.method) {
            None => None,
            Some(built) => {
                let block = &built.method.blocks[f.block.0 as usize];
                match f.at {
                    None => None,
                    Some(i) => {
                        let count: usize = block.nodes.len();
                        assert(i < count);
                        let node = &block.nodes[i];
                        assert(node@ == block@.nodes[i as int]);
                        Some((node.id, i + 1))
                    },
                }
            },
        }
    }

    /// Hand the result of a call to the task that waits for it.
    fn deliver(&mut self, t: Task, result: Result<Option<Val128>, ExecError>)
        requires
            old(self).world_fits(),
            code_fits(old(self)@.world.classes),
            task_fits(old(self)@.world.classes, t@, old(self)@.max_depth),
            awaits_call(old(self)@.world.classes, t@),
        ensures
            final(self).world_fits(),
            final(self).entry() == old(self).entry(),
            final(self)@ == old(self)@.returned_to(t@, result),
    {
        match t {
            Task::Init(t) => {
                self.end_init(
                    t.class,
                    match result {
                        Ok(_) => Ok(()),
                        Err(e) => Err(e),
                    },
                );
            },
            Task::Frame(f) => {
                let mut f = f;
                let ghost b = frame_body(self@, f@);
                proof {
                    assert(b.wf());
                    lemma_node_fits(self@.world.classes, f@, self@.max_depth);
                }
                match result {
                    Err(e) => {
                        self.finish(f, Err(e));
                    },
                    Ok(v) => {
                        let (id, next) = match self.waiting_node(&f) {
                            Some(x) => x,
                            None => {
                                return;
                            },
                        };
                        if let Some(x) = v {
                            f.env.write_slot(SlotId(id.offset), x);
                            if x.tag().is_ref() {
                                // The slot now owns the reference; drop the in-transit one.
                                f.env.record_ref_delta(x.ref_index(), -1);
                            }
                        }
                        f.at = Some(next);
                        self.push(Task::Frame(f));
                        self.control = Control::Run;
                    },
                }
            },
        }
    }

    /// Hand the result of a class initialisation to the task that waits for it.
    fn deliver_init(&mut self, t: Task, result: Result<(), ExecError>)
        requires
            old(self).world_fits(),
            code_fits(old(self)@.world.classes),
            task_fits(old(self)@.world.classes, t@, old(self)@.max_depth),
        ensures
            final(self).world_fits(),
            final(self).entry() == old(self).entry(),
            final(self)@ == old(self)@.ready_for(t@, result),
    {
        match result {
            Ok(_) => {
                self.push(t);
                self.control = Control::Run;
            },
            Err(e) => match t {
                Task::Frame(f) => {
                    let ghost b = frame_body(self@, f@);
                    assert(b.wf());
                    self.finish(f, Err(e));
                },
                Task::Init(t) => {
                    self.end_init(t.class, Err(e));
                },
            },
        }
    }

    /// Continue the topmost task.
    fn go_on(&mut self, t: Task)
        requires
            old(self).world_fits(),
            code_fits(old(self)@.world.classes),
            task_fits(old(self)@.world.classes, t@, old(self)@.max_depth),
            t@ matches TaskView::Init(i) ==> !(i.stage is Running),
        ensures
            final(self).world_fits(),
            final(self).entry() == old(self).entry(),
            match t@ {
                TaskView::Frame(f) => final(self)@ == old(self)@.frame_stepped(f),
                TaskView::Init(i) => final(self)@ == old(self)@.init_stepped(i),
            },
    {
        match t {
            Task::Init(i) => {
                self.init_step(i);
            },
            Task::Frame(f) => match f.at {
                None => {
                    self.enter(f);
                },
                Some(i) => {
                    let ghost b = frame_body(self@, f@);
                    let n: usize = match code_of(&self.world.registry, f.owner, f.method) {
                        None => 0,
                        Some(built) => built.method.blocks[f.block.0 as usize].nodes.len(),
                    };
                    if i < n {
                        self.node(f, i);
                    } else {
                        self.terminate(f);
                    }
                },
            },
        }
    }

    /// One step.
    fn step(&mut self)
        requires
            old(self).wf(),
        ensures
            final(self).wf(),
            final(self).entry() == old(self).entry(),
            final(self)@ == old(self)@.stepped(),
    {
        proof {
            lemma_stepped_wf(self@);
        }
        let control = self.control;
        match control {
            Control::Done(_) | Control::Float(_) => {
                return;
            },
            _ => {},
        }
        let ghost before = self.tasks@;
        match self.tasks.pop() {
            None => {
                if let Control::Returned(result) = control {
                    self.control = Control::Done(result);
                }
            },
            Some(t) => {
                proof {
                    lemma_popped(before);
                    assert(self.tasks@ =~= before.drop_last());
                }
                match control {
                    Control::Run => {
                        self.go_on(t);
                    },
                    Control::Returned(result) => {
                        self.deliver(t, result);
                    },
                    Control::Ready(result) => {
                        self.deliver_init(t, result);
                    },
                    _ => {},
                }
            },
        }
    }

    /// Run until the call has its result or the floating-point unit is needed.
    fn run(&mut self) -> (p: Progress)
        requires
            old(self).wf(),
        ensures
            final(self).wf(),
            final(self).entry() == old(self).entry(),
            final(self)@ == old(self)@.run_out(),
            final(self)@.shows(p),
    {
        let ghost start = self@;
        let ghost n = most_in_classes(self@.world.classes, self@.world.classes.len());
        let ghost mut k: nat = 0;
        proof {
            lemma_nodes_bounded(self@.world.classes);
            lemma_every_run_ends(start);
        }
        while !self.settled()
            invariant
                self.wf(),
                self.entry() == old(self).entry(),
                self@ == start.advanced(k),
                nodes_below(self@.world.classes, n),
            decreases
                    if self@.settled() {
                        0int
                    } else {
                        1
                    },
                    loaded(self@.world.classes),
                    work_left(n, self@),
        {
            proof {
                lemma_step_closer(n, self@);
                lemma_steps_add_up(start, k, 1);
                assert(self@.advanced(1) == self@.stepped().advanced(0));
                k = k + 1;
            }
            self.step();
        }
        proof {
            lemma_end_is_unique(
                start,
                k,
                choose|k: nat| (#[trigger] start.advanced(k)).settled(),
            );
        }
        match self.control {
            Control::Float(request) => Progress::Float(request),
            Control::Done(result) => Progress::Done(result),
            _ => Progress::Done(Ok(None)),
        }
    }

    /// Whether nothing is left to do but to answer a request or to take the result.
    fn settled(&self) -> (b: bool)
        ensures
            b == self@.settled(),
    {
        match self.control {
            Control::Done(_) | Control::Float(_) => true,
            _ => false,
        }
    }
}

/// A registry with the builtin classes from `k` on registered.
pub open spec fn builtins_registered(r: RegistryView, bs: Seq<BuiltinView>, k: int) -> RegistryView
    decreases bs.len() - k,
{
    if k >= bs.len() {
        r
    } else {
        builtins_registered(r.push(class_from_builtin(r, bs[k])), bs, k + 1)
    }
}

/// Register the builtin classes.
pub fn install_builtins(registry: &mut ClassRegistry)
    requires
        registry_wf(old(registry)@),
        old(registry)@.len() < 0xFFFF_FFF0,
    ensures
        registry_wf(final(registry)@),
        final(registry)@ == builtins_registered(old(registry)@, builtin_views(), 0),
        final(registry)@.len() == old(registry)@.len() + 4,
{
    let all = builtins();
    let ghost views = builtin_views();
    assert(views.len() == 4);
    let mut i: usize = 0;
    while i < all.len()
        invariant
            i <= all@.len() == views.len() == 4,
            forall|j: int| 0 <= j < all@.len() ==> (#[trigger] all@[j])@ == views[j],
            registry_wf(registry@),
            registry@.len() == old(registry)@.len() + i,
            old(registry)@.len() < 0xFFFF_FFF0,
            builtins_registered(registry@, views, i as int) == builtins_registered(
                old(registry)@,
                views,
                0,
            ),
        decreases all@.len() - i,
    {
        registry.register_builtin(&all[i]);
        i += 1;
    }
}

impl Program {
    /// A program over linked classes.
    pub fn with_registry(registry: ClassRegistry, entry: ClassId) -> (p: Program)
        requires
            registry_wf(registry@),
        ensures
            p.wf(),
            p.entry() == entry,
            p@ == MachineView::at_rest(registry@),
    {
        proof {
            lemma_registry_code_fits(registry@);
        }
        let p = Program {
            world: World::new(registry),
            entry,
            max_call_depth: DEFAULT_MAX_CALL_DEPTH,
            tasks: Vec::new(),
            control: Control::Done(Ok(None)),
        };
        assert(p@.tasks =~= Seq::empty());
        p
    }

    /// Build a single-class program.
    pub fn from_class(cf: &ClassFile) -> (p: Program)
        ensures
            p.wf(),
            p.entry() == ClassId(4),
            p@ == MachineView::at_rest(
                with_file(builtins_registered(Seq::empty(), builtin_views(), 0), cf@),
            ),
    {
        let mut registry = ClassRegistry::new();
        install_builtins(&mut registry);
        let entry = registry.link_class(cf.clone());
        Program::with_registry(registry, entry)
    }

    /// Load and link the class files of a classpath directory (the path of each, with what reading it
    /// gave), with `entry_class` as the class of the name-based helpers.
    pub fn from_classpath(files: Vec<(String, Option<Vec<u8>>)>, entry_class: &str) -> (r: Result<
        Program,
        LoaderError,
    >)
        requires
            files@.len() < 0xFFFF_FFF0,
        ensures
            match load_result(
                builtins_registered(Seq::empty(), builtin_views(), 0),
                found_views(files@),
            ) {
                (_, Err(e)) => r is Err && r->Err_0@ == e,
                (classes, Ok(_)) => match class_named(classes, entry_class@) {
                    None => r is Err && r->Err_0@ == LoaderErrorView::NotFound(entry_class@),
                    Some(entry) => {
                        &&& r is Ok
                        &&& r->Ok_0.wf()
                        &&& r->Ok_0.entry() == entry
                        &&& r->Ok_0@ == MachineView::at_rest(classes)
                    },
                },
            },
    {
        let mut registry = ClassRegistry::new();
        install_builtins(&mut registry);
        match registry.load_dir(files) {
            Err(e) => Err(e),
            Ok(_) => match registry.by_name(entry_class) {
                None => Err(LoaderError::NotFound(entry_class.to_string())),
                Some(entry) => Ok(Program::with_registry(registry, entry)),
            },
        }
    }

    /// Cap the number of simultaneously live objects. The heap starts empty.
    pub fn with_heap_limit(self, objects: usize) -> (p: Program)
        requires
            self.wf(),
        ensures
            p.wf(),
            p.entry() == self.entry(),
            p@ == (MachineView {
                world: WorldView { heap: HeapView::fresh(objects as nat), ..self@.world },
                ..self@
            }),
    {
        let mut p = self;
        p.world.heap = Heap::with_limit(objects);
        p
    }

    /// Number of live objects on the heap.
    pub fn heap_live(&self) -> (n: usize)
        requires
            self.wf(),
        ensures
            n == self@.world.heap.live(),
    {
        self.world.heap.live()
    }

    /// Keep guest output for the embedder.
    pub fn capturing(self) -> (p: Program)
        requires
            self.wf(),
        ensures
            p.wf(),
            p.entry() == self.entry(),
            p@ == (MachineView {
                world: WorldView { captured: Some(Seq::empty()), ..self@.world },
                ..self@
            }),
    {
        let mut p = self;
        p.world.captured = Some(Vec::new());
        assert(p@.world.captured->0 =~= Seq::<u8>::empty());
        p
    }

    /// Take everything the guest has printed since the last call, if output is captured.
    pub fn take_output(&mut self) -> (bytes: Vec<u8>)
        requires
            old(self).wf(),
        ensures
            final(self).wf(),
            final(self).entry() == old(self).entry(),
            match old(self)@.world.captured {
                Some(b) => bytes@ == b && final(self)@ == (MachineView {
                    world: WorldView { captured: Some(Seq::empty()), ..old(self)@.world },
                    ..old(self)@
                }),
                None => bytes@ == Seq::<u8>::empty() && final(self)@ == old(self)@,
            },
    {
        let mut bytes: Vec<u8> = Vec::new();
        if let Some(b) = &mut self.world.captured {
            bytes.append(b);
        }
        proof {
            if let Some(b) = old(self)@.world.captured {
                assert(bytes@ =~= b);
                assert(self@.world.captured->0 =~= Seq::<u8>::empty());
            }
        }
        bytes
    }

    /// Take what the guest has printed for the process's standard output.
    pub fn take_outgoing(&mut self) -> (bytes: Vec<u8>)
        requires
            old(self).wf(),
        ensures
            final(self).wf(),
            final(self).entry() == old(self).entry(),
            bytes@ == old(self)@.world.outgoing,
            final(self)@ == (MachineView {
                world: WorldView { outgoing: Seq::empty(), ..old(self)@.world },
                ..old(self)@
            }),
    {
        let mut bytes: Vec<u8> = Vec::new();
        bytes.append(&mut self.world.outgoing);
        assert(bytes@ =~= old(self)@.world.outgoing);
        assert(self@.world.outgoing =~= Seq::<u8>::empty());
        bytes
    }

    /// The classes.
    pub fn registry(&self) -> (r: &ClassRegistry)
        ensures
            r@ == self@.world.classes,
    {
        &self.world.registry
    }

    /// Raise or lower the guest call-stack limit.
    pub fn with_max_call_depth(self, frames: usize) -> (p: Program)
        requires
            self.wf(),
            self@.control is Done,
        ensures
            p.wf(),
            p.entry() == self.entry(),
            p@ == (MachineView { max_depth: frames as nat, ..self@ }),
    {
        let mut p = self;
        p.max_call_depth = frames;
        p
    }

    /// Invoke a method of `class` by its index in that class's method table.
    pub fn call(&mut self, class: ClassId, index: u16, args: &[Val128], depth: usize) -> (p:
        Progress)
        requires
            old(self).wf(),
            old(self)@.control is Done,
        ensures
            final(self).wf(),
            final(self).entry() == old(self).entry(),
            final(self)@ == old(self)@.started(class, index, args@, depth as nat).run_out(),
            final(self)@.shows(p),
    {
        proof {
            lemma_started_wf(self@, class, index, args@, depth as nat);
            assert(self@.tasks =~= Seq::empty());
        }
        self.begin_call(class, index, args, Some(depth), Ghost(depth as nat));
        self.run()
    }

    /// Answer the floating-point request that the call waits for, and go on with the call.
    pub fn supply(&mut self, v: Val128) -> (p: Progress)
        requires
            old(self).wf(),
        ensures
            final(self).wf(),
            final(self).entry() == old(self).entry(),
            final(self)@ == old(self)@.answered(v).run_out(),
            final(self)@.shows(p),
    {
        proof {
            lemma_answered_wf(self@, v);
        }
        if let Control::Float(_) = self.control {
            let ghost before = self.tasks@;
            if let Some(t) = self.tasks.pop() {
                proof {
                    lemma_popped(before);
                    assert(self.tasks@ =~= before.drop_last());
                }
                if let Task::Frame(f) = t {
                    let mut f = f;
                    proof {
                        lemma_node_fits(self@.world.classes, f@, self@.max_depth);
                    }
                    if let Some((id, next)) = self.waiting_node(&f) {
                        f.env.write_slot(SlotId(id.offset), v);
                        f.at = Some(next);
                        self.push(Task::Frame(f));
                        self.control = Control::Run;
                    }
                }
            }
        }
        self.run()
    }

    /// The entry class's index for a method, by name and descriptor.
    pub fn method_index(&self, name: &str, desc: &str) -> (i: Option<u16>)
        ensures
            i == self@.method_named(self.entry(), name@, desc@),
    {
        match self.world.registry.get(self.entry) {
            None => None,
            Some(k) => k.method_index(name, desc),
        }
    }

    /// Invoke a method of the entry class by name and descriptor.
    pub fn call_named(&mut self, name: &str, desc: &str, args: &[Val128]) -> (p: Progress)
        requires
            old(self).wf(),
            old(self)@.control is Done,
        ensures
            final(self).wf(),
            final(self).entry() == old(self).entry(),
            ({
                let (m, failed) = old(self)@.named_call(old(self).entry(), name@, desc@, args@);
                &&& final(self)@ == m
                &&& match failed {
                    Some(e) => p == Progress::Done(Err(e)),
                    None => m.shows(p),
                }
            }),
    {
        match self.method_index(name, desc) {
            None => Progress::Done(Err(ExecError::NoMethod)),
            Some(index) => {
                let installed = self.world.init_system_streams();
                proof {
                    lemma_registry_code_fits(self@.world.classes);
                }
                match installed {
                    Err(e) => Progress::Done(Err(e)),
                    Ok(_) => self.call(self.entry, index, args, 0),
                }
            },
        }
    }
}

} // verus!
