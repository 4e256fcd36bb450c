//! Calling a verified method computes what its bytecode means.

use vstd::prelude::*;
use crate::classfile::constant_pool::PoolView;
use crate::env::{
    landed, lemma_landed_len, lemma_landed_newest, lemma_landing_is_invisible, writes_fit, EnvView,
    LogicalFrame,
};
use crate::ids::{BlockId, ClassId, SlotId, ValId};
use crate::interp::error::ExecError;
use crate::interp::machine::{
    all_written, args_written, body_at, chain_landed, frame_body, frame_of, frame_slots,
    operand_values, phi_writes, phis_resolved, slot_value, source_from, string_constant, CallResult,
    Control, FrameView, MAX_BLOCKS, MachineView, TaskView,
};
use crate::interp::soundness::{
    code_fits, lemma_answered_wf, lemma_phis_resolved_fit, lemma_started_wf, lemma_stepped_wf,
    task_fits,
};
use crate::ir::{BlockView, BuiltView, NodeView, Op, PhiView, Terminator};
use crate::loader::{class_named, BodyView, RegistryView};
use crate::ssa::built;
use crate::ssa::faithful::arg_local;
use crate::ssa::laws::lemma_values_are_defined_once;
use crate::ssa::meaning::{Floats, Machine, Strings};
use crate::ssa::preserved::{
    all_compute, code_ends, code_run, lemma_argument_count, lemma_blocks_within_instructions,
    lemma_occurs_once, lemma_ssa_computes_what_bytecode_means, lemma_ssa_stays_ended,
    lemma_verified_methods_compute, node_computes, phi_moves, phis_known, runs_well, ssa_ends,
    ssa_run, ssa_stepped, starts_with, went, CodePlace, Ending, SsaPlace,
};
use crate::ssa::runs::{node_value, nodes_run, slot_values};
use crate::value::Val128;
use crate::verify::{initial_items, VerifiedView};
use crate::world::{interned_from, WorldView};

verus! {

/// A machine one step further, with the floating-point unit's answer where it is waited for.
pub open spec fn worked(m: MachineView, floats: Floats) -> MachineView {
    match m.control {
        Control::Float(q) => m.answered(floats(q)),
        _ => m.stepped(),
    }
}

/// A machine `n` steps further.
pub open spec fn worked_on(m: MachineView, floats: Floats, n: nat) -> MachineView
    decreases n,
{
    if n == 0 {
        m
    } else {
        worked_on(worked(m, floats), floats, (n - 1) as nat)
    }
}

proof fn lemma_work_adds_up(m: MachineView, floats: Floats, n: nat, more: nat)
    ensures
        worked_on(worked_on(m, floats, n), floats, more) == worked_on(m, floats, n + more),
    decreases n,
{
    if n > 0 {
        lemma_work_adds_up(worked(m, floats), floats, (n - 1) as nat, more);
        assert((n + more - 1) as nat == (n - 1) as nat + more);
    }
}

/// Whether every node of a method is a computation on its operands alone, or loads a string.
pub open spec fn computes(b: BuiltView) -> bool {
    forall|c: int|
        0 <= c < b.method.blocks.len() ==> all_compute((#[trigger] b.method.blocks[c]).nodes)
}

/// What a string constant is loaded as in a world.
pub open spec fn loaded_as(w: WorldView, owner: ClassId, cp: u16) -> Result<Val128, ExecError> {
    match string_constant(w, owner, cp) {
        None => Err(ExecError::Unresolved),
        Some(text) => w.string_interned(text).1,
    }
}

/// The world in which a frame runs a node: an external operation is a fence.
pub open spec fn world_at(m: MachineView, f: FrameView, n: NodeView) -> WorldView {
    WorldView {
        heap: if n.effect is Extern {
            chain_landed(f.env, m.world.heap).1
        } else {
            m.world.heap
        },
        ..m.world
    }
}

/// Whether a machine that is about to load a string constant loads what is said.
pub open spec fn loads_alike(m: MachineView, strings: Strings) -> bool {
    m.control is Run && m.tasks.len() > 0 ==> (m.tasks.last() matches TaskView::Frame(f)
        ==> (f.at matches Some(i) ==> {
        let nodes = frame_body(m, f).method.blocks[f.block.0 as int].nodes;
        i < nodes.len() ==> (nodes[i as int].op matches Op::LoadString(cp) ==> strings(cp)
            == loaded_as(world_at(m, f, nodes[i as int]), f.owner, cp))
    }))
}

/// Whether a machine always loads string constants as is said.
pub open spec fn always_alike(m: MachineView, floats: Floats, strings: Strings) -> bool {
    forall|n: nat| loads_alike(#[trigger] worked_on(m, floats, n), strings)
}

proof fn lemma_stays_alike(m: MachineView, floats: Floats, strings: Strings, k: nat)
    requires
        always_alike(m, floats, strings),
    ensures
        always_alike(worked_on(m, floats, k), floats, strings),
{
    assert forall|n: nat| loads_alike(
        #[trigger] worked_on(worked_on(m, floats, k), floats, n),
        strings,
    ) by {
        lemma_work_adds_up(m, floats, k, n);
        assert(loads_alike(worked_on(m, floats, k + n), strings));
    }
}

/// A frame and what it stands on.
pub struct Stand {
    pub below: Seq<TaskView>,
    pub class: ClassId,
    pub method: u16,
    pub body: BuiltView,
}

impl Stand {
    /// Whether the machine is about to run node `at` of a block, on given slots.
    pub open spec fn stands(
        self,
        m: MachineView,
        block: BlockId,
        at: nat,
        steps: u64,
        slots: Seq<Val128>,
    ) -> bool {
        &&& m.control is Run
        &&& m.tasks.len() == self.below.len() + 1
        &&& m.tasks.drop_last() == self.below
        &&& body_at(m.world.classes, self.class, self.method) == Some(
            BodyView::Bytecode(self.body),
        )
        &&& slots.len() == frame_slots(self.body)
        &&& m.tasks.last() matches TaskView::Frame(f) && {
            &&& f.owner == self.class
            &&& f.method == self.method
            &&& f.block == block
            &&& f.at == Some(at)
            &&& f.steps == steps
            &&& f.env.wf()
            &&& f.env.visible() == slots
            &&& f.env.slots.len() == slots.len()
        }
    }

    /// Whether the machine is about to enter a block.
    pub open spec fn stands_before(
        self,
        m: MachineView,
        block: BlockId,
        prev: Option<BlockId>,
        steps: u64,
        slots: Seq<Val128>,
    ) -> bool {
        &&& m.control is Run
        &&& m.tasks.len() == self.below.len() + 1
        &&& m.tasks.drop_last() == self.below
        &&& body_at(m.world.classes, self.class, self.method) == Some(
            BodyView::Bytecode(self.body),
        )
        &&& slots.len() == frame_slots(self.body)
        &&& m.tasks.last() matches TaskView::Frame(f) && {
            &&& f.owner == self.class
            &&& f.method == self.method
            &&& f.block == block
            &&& f.prev == prev
            &&& f.at is None
            &&& f.steps == steps
            &&& f.env.wf()
            &&& f.env.visible() == slots
            &&& f.env.slots.len() == slots.len()
        }
    }

    /// Whether the frame has been left with a result.
    pub open spec fn came_back(self, m: MachineView, r: CallResult) -> bool {
        m.control == Control::Returned(r) && m.tasks == self.below
    }

    /// The method's body is well-formed and computes.
    pub open spec fn wf(self) -> bool {
        self.body.wf() && computes(self.body)
    }
}

/// What an ending is as the result of a call.
pub open spec fn as_result(e: Ending) -> CallResult {
    match e {
        Ending::Returned(v) => Ok(v),
        Ending::Failed(e) => Err(e),
    }
}

proof fn lemma_written_visible(env: EnvView, s: u16, v: Val128)
    requires
        env.wf(),
        s < env.slots.len(),
    ensures
        env.written(SlotId(s), v).wf(),
        env.written(SlotId(s), v).visible() == env.visible().update(s as int, v),
        env.written(SlotId(s), v).slots.len() == env.slots.len(),
{
    assert(env.written(SlotId(s), v).pending.drop_last() =~= env.pending);
}

/// A node runs.
#[verifier::rlimit(40)]
proof fn lemma_node_works(
    st: Stand,
    m: MachineView,
    floats: Floats,
    strings: Strings,
    block: BlockId,
    i: nat,
    steps: u64,
    slots: Seq<Val128>,
) -> (k: nat)
    requires
        st.wf(),
        always_alike(m, floats, strings),
        block.0 < st.body.method.blocks.len(),
        i < st.body.method.blocks[block.0 as int].nodes.len(),
        st.stands(m, block, i, steps, slots),
    ensures
        ({
            let n = st.body.method.blocks[block.0 as int].nodes[i as int];
            match node_value(n, slots, floats, strings) {
                Ok(v) => st.stands(
                    worked_on(m, floats, k),
                    block,
                    i + 1,
                    steps,
                    slots.update(n.id.offset as int, v),
                ),
                Err(e) => st.came_back(worked_on(m, floats, k), Err(e)),
            }
        }),
{
    let b = st.body.method.blocks[block.0 as int];
    let n = b.nodes[i as int];
    let f = m.tasks.last()->Frame_0;
    assert(node_computes(n));
    assert(worked_on(m, floats, 0) == m);
    assert(loads_alike(m, strings));
    assert(b.fits(st.body.n_slots as int, st.body.method.blocks.len() as int));
    assert(n.fits(st.body.n_slots as int));
    let below = MachineView { tasks: m.tasks.drop_last(), ..m };
    let (env, heap) = if n.effect is Extern {
        chain_landed(f.env, m.world.heap)
    } else {
        (f.env, m.world.heap)
    };
    lemma_landing_is_invisible(EnvView { deltas: Seq::empty(), ..f.env });
    assert(env.wf() && env.visible() == slots && env.slots.len() == slots.len());
    let vals = operand_values(env, n.ins);
    assert(vals =~= slot_values(slots, n.ins));
    assert(frame_body(m, f) == st.body);
    let one = worked(m, floats);
    assert(one == below.noded(f, i));
    assert(worked_on(one, floats, 0) == one);
    assert(worked_on(m, floats, 1) == one);
    match node_value(n, slots, floats, strings) {
        Ok(v) => {
            lemma_written_visible(env, n.id.offset, v);
            if one.control is Float {
                let two = worked(one, floats);
                assert(one.tasks.drop_last() =~= st.below);
                assert(two.tasks.drop_last() =~= st.below);
                assert(worked_on(two, floats, 0) == two);
                assert(worked_on(one, floats, 1) == two);
                assert(worked_on(m, floats, 2) == two);
                2
            } else {
                assert(one.tasks.drop_last() =~= st.below);
                1
            }
        },
        Err(e) => 1,
    }
}

/// The nodes of a block run.
proof fn lemma_nodes_work(
    st: Stand,
    m: MachineView,
    floats: Floats,
    strings: Strings,
    block: BlockId,
    i: nat,
    steps: u64,
    slots: Seq<Val128>,
) -> (k: nat)
    requires
        st.wf(),
        always_alike(m, floats, strings),
        block.0 < st.body.method.blocks.len(),
        i <= st.body.method.blocks[block.0 as int].nodes.len(),
        st.stands(m, block, 0, steps, slots),
    ensures
        ({
            let nodes = st.body.method.blocks[block.0 as int].nodes;
            match nodes_run(slots, nodes.take(i as int), floats, strings) {
                Ok(s) => st.stands(worked_on(m, floats, k), block, i, steps, s),
                Err(e) => st.came_back(worked_on(m, floats, k), Err(e)),
            }
        }),
    decreases i,
{
    let nodes = st.body.method.blocks[block.0 as int].nodes;
    if i == 0 {
        0
    } else {
        let last = (i - 1) as nat;
        let k = lemma_nodes_work(st, m, floats, strings, block, last, steps, slots);
        assert(nodes.take(i as int).drop_last() =~= nodes.take(last as int));
        match nodes_run(slots, nodes.take(last as int), floats, strings) {
            Ok(s) => {
                let mid = worked_on(m, floats, k);
                lemma_stays_alike(m, floats, strings, k);
                let more = lemma_node_works(st, mid, floats, strings, block, last, steps, s);
                lemma_work_adds_up(m, floats, k, more);
                k + more
            },
            Err(e) => k,
        }
    }
}

proof fn lemma_landed_in_two(slots: Seq<Val128>, a: Seq<(u16, Val128)>, b: Seq<(u16, Val128)>)
    ensures
        landed(slots, a + b) == landed(landed(slots, a), b),
    decreases b.len(),
{
    if b.len() > 0 {
        assert((a + b).drop_last() =~= a + b.drop_last());
        lemma_landed_in_two(slots, a, b.drop_last());
    } else {
        assert(a + b =~= a);
    }
}

proof fn lemma_all_written(env: EnvView, writes: Seq<(u16, Val128)>, k: int)
    requires
        0 <= k <= writes.len(),
    ensures
        all_written(env, writes, k).pending == env.pending + writes.skip(k),
        all_written(env, writes, k).slots == env.slots,
    decreases writes.len() - k,
{
    if k < writes.len() {
        let next = env.written(SlotId(writes[k].0), writes[k].1);
        lemma_all_written(next, writes, k + 1);
        assert(next.pending + writes.skip(k + 1) =~= env.pending + writes.skip(k));
    } else {
        assert(env.pending + writes.skip(k) =~= env.pending);
    }
}

proof fn lemma_phi_writes_are_moves(
    env: EnvView,
    phis: Seq<PhiView>,
    p: BlockId,
    k: int,
    writes: Seq<(u16, Val128)>,
)
    requires
        0 <= k <= phis.len(),
        writes == phi_moves(env.visible(), phis, p).take(k),
        forall|j: int|
            0 <= j < k ==> source_from((#[trigger] phis[j]).sources, p, 0) is Some,
    ensures
        phi_writes(env, phis, p, k, writes) == if phis_known(phis, p) {
            Some(phi_moves(env.visible(), phis, p))
        } else {
            None
        },
    decreases phis.len() - k,
{
    let moves = phi_moves(env.visible(), phis, p);
    if k < phis.len() {
        if let Some(v) = source_from(phis[k].sources, p, 0) {
            let more = writes.push((phis[k].slot.offset, slot_value(env, v)));
            assert(more =~= moves.take(k + 1));
            lemma_phi_writes_are_moves(env, phis, p, k + 1, more);
        }
    } else {
        assert(moves.take(k) =~= moves);
    }
}

/// Resolving φ moves their values.
proof fn lemma_phis_resolve_as_moved(env: EnvView, b: BlockView, p: BlockId)
    ensures
        match phis_resolved(env, b, Some(p)) {
            None => !phis_known(b.phis, p),
            Some(e) => phis_known(b.phis, p) && e.visible() == landed(
                env.visible(),
                phi_moves(env.visible(), b.phis, p),
            ),
        },
{
    let moves = phi_moves(env.visible(), b.phis, p);
    assert(moves.take(0) =~= Seq::empty());
    lemma_phi_writes_are_moves(env, b.phis, p, 0, Seq::empty());
    if phis_known(b.phis, p) {
        lemma_all_written(env, moves, 0);
        assert(moves.skip(0) =~= moves);
        lemma_landed_in_two(env.slots, env.pending, moves);
    }
}

/// A block is entered.
proof fn lemma_entering_works(
    st: Stand,
    m: MachineView,
    floats: Floats,
    block: BlockId,
    prev: Option<BlockId>,
    steps: u64,
    slots: Seq<Val128>,
)
    requires
        st.wf(),
        block.0 < st.body.method.blocks.len(),
        st.stands_before(m, block, prev, steps, slots),
        steps <= MAX_BLOCKS,
    ensures
        steps >= MAX_BLOCKS ==> st.came_back(worked(m, floats), Err(ExecError::StepLimit)),
        steps < MAX_BLOCKS ==> match prev {
            None => st.stands(worked(m, floats), block, 0, (steps + 1) as u64, slots),
            Some(p) => match went(st.body.method.blocks, slots, p, block) {
                SsaPlace::Ended(e) => st.came_back(worked(m, floats), as_result(e)),
                SsaPlace::At { b, slots: s } => b == block && st.stands(
                    worked(m, floats),
                    b,
                    0,
                    (steps + 1) as u64,
                    s,
                ),
            },
        },
{
    let f = m.tasks.last()->Frame_0;
    let b = st.body.method.blocks[block.0 as int];
    let below = MachineView { tasks: st.below, ..m };
    let next = worked(m, floats);
    assert(next == below.entered(f));
    assert(frame_body(below, f) == st.body);
    if let Some(p) = prev {
        lemma_phis_resolve_as_moved(f.env, b, p);
    }
    assert(b.fits(st.body.n_slots as int, st.body.method.blocks.len() as int));
    assert forall|i: int| 0 <= i < b.phis.len() implies (#[trigger] b.phis[i]).fits(
        f.env.slots.len() as int,
    ) by {
        assert(b.phis[i].fits(st.body.n_slots as int));
    }
    lemma_phis_resolved_fit(f.env, b, prev);
    if let Some(e) = phis_resolved(f.env, b, prev) {
        lemma_landed_len(e.slots, e.pending);
        if steps < MAX_BLOCKS {
            assert(next.tasks.drop_last() =~= st.below);
        }
    }
}

/// Control leaves a block for another.
proof fn lemma_leaving_works(
    st: Stand,
    m: MachineView,
    block: BlockId,
    to: BlockId,
    steps: u64,
    slots: Seq<Val128>,
)
    requires
        block.0 < st.body.method.blocks.len(),
        st.stands(
            m,
            block,
            st.body.method.blocks[block.0 as int].nodes.len(),
            steps,
            slots,
        ),
    ensures
        st.stands_before(
            (MachineView { tasks: m.tasks.drop_last(), ..m }).moved(
                m.tasks.last()->Frame_0,
                to,
            ),
            to,
            Some(block),
            steps,
            slots,
        ),
{
    let f = m.tasks.last()->Frame_0;
    let next = (MachineView { tasks: m.tasks.drop_last(), ..m }).moved(f, to);
    assert(next.tasks.drop_last() =~= st.below);
    lemma_landing_is_invisible(EnvView { deltas: Seq::empty(), ..f.env });
}

/// Control goes to another block.
proof fn lemma_move_works(
    st: Stand,
    m: MachineView,
    floats: Floats,
    block: BlockId,
    to: BlockId,
    steps: u64,
    slots: Seq<Val128>,
)
    requires
        st.wf(),
        block.0 < st.body.method.blocks.len(),
        to.0 < st.body.method.blocks.len(),
        st.stands(
            m,
            block,
            st.body.method.blocks[block.0 as int].nodes.len(),
            steps,
            slots,
        ),
        steps <= MAX_BLOCKS,
        worked(m, floats) == (MachineView { tasks: m.tasks.drop_last(), ..m }).moved(
            m.tasks.last()->Frame_0,
            to,
        ),
    ensures
        steps >= MAX_BLOCKS ==> st.came_back(
            worked_on(m, floats, 2),
            Err(ExecError::StepLimit),
        ),
        steps < MAX_BLOCKS ==> match went(st.body.method.blocks, slots, block, to) {
            SsaPlace::Ended(e) => st.came_back(worked_on(m, floats, 2), as_result(e)),
            SsaPlace::At { b, slots: s } => b == to && st.stands(
                worked_on(m, floats, 2),
                b,
                0,
                (steps + 1) as u64,
                s,
            ),
        },
{
    let one = worked(m, floats);
    let two = worked(one, floats);
    assert(worked_on(two, floats, 0) == two);
    assert(worked_on(one, floats, 1) == two);
    assert(worked_on(m, floats, 2) == two);
    lemma_leaving_works(st, m, block, to, steps, slots);
    lemma_entering_works(st, one, floats, to, Some(block), steps, slots);
}

/// A block runs.
proof fn lemma_block_works(
    st: Stand,
    m: MachineView,
    floats: Floats,
    strings: Strings,
    block: BlockId,
    steps: u64,
    slots: Seq<Val128>,
) -> (k: nat)
    requires
        st.wf(),
        always_alike(m, floats, strings),
        block.0 < st.body.method.blocks.len(),
        st.stands(m, block, 0, steps, slots),
        steps <= MAX_BLOCKS,
    ensures
        ({
            let after = worked_on(m, floats, k);
            ||| steps >= MAX_BLOCKS && st.came_back(after, Err(ExecError::StepLimit))
            ||| match ssa_stepped(
                st.body.method.blocks,
                floats,
                strings,
                SsaPlace::At { b: block, slots },
            ) {
                SsaPlace::Ended(e) => st.came_back(after, as_result(e)),
                SsaPlace::At { b, slots: s } => {
                    &&& steps < MAX_BLOCKS
                    &&& b.0 < st.body.method.blocks.len()
                    &&& st.stands(after, b, 0, (steps + 1) as u64, s)
                },
            }
        }),
{
    let blocks = st.body.method.blocks;
    let b = blocks[block.0 as int];
    let k = lemma_nodes_work(st, m, floats, strings, block, b.nodes.len(), steps, slots);
    assert(b.nodes.take(b.nodes.len() as int) =~= b.nodes);
    assert(b.fits(st.body.n_slots as int, blocks.len() as int));
    match nodes_run(slots, b.nodes, floats, strings) {
        Err(e) => k,
        Ok(s) => {
            let mid = worked_on(m, floats, k);
            let one = worked(mid, floats);
            let f = mid.tasks.last()->Frame_0;
            assert(one == (MachineView { tasks: mid.tasks.drop_last(), ..mid }).terminated(f));
            assert(worked_on(one, floats, 0) == one);
            assert(worked_on(mid, floats, 1) == one);
            match b.term {
                Terminator::Goto(c) => {
                    lemma_move_works(st, mid, floats, block, c, steps, s);
                    lemma_work_adds_up(m, floats, k, 2);
                    k + 2
                },
                Terminator::CondBranch { cond, taken, not_taken } => {
                    let to = if s[cond.offset as int].as_i32() != 0 {
                        taken
                    } else {
                        not_taken
                    };
                    lemma_move_works(st, mid, floats, block, to, steps, s);
                    lemma_work_adds_up(m, floats, k, 2);
                    k + 2
                },
                _ => {
                    lemma_work_adds_up(m, floats, k, 1);
                    k + 1
                },
            }
        },
    }
}

/// The machine runs the SSA form, block by block, up to its limit.
proof fn lemma_frame_works(
    st: Stand,
    m: MachineView,
    floats: Floats,
    strings: Strings,
    block: BlockId,
    steps: u64,
    slots: Seq<Val128>,
    n: nat,
) -> (k: nat)
    requires
        st.wf(),
        always_alike(m, floats, strings),
        block.0 < st.body.method.blocks.len(),
        st.stands(m, block, 0, steps, slots),
        steps <= MAX_BLOCKS,
    ensures
        ({
            let after = worked_on(m, floats, k);
            ||| steps + n > MAX_BLOCKS && st.came_back(after, Err(ExecError::StepLimit))
            ||| match ssa_run(
                st.body.method.blocks,
                floats,
                strings,
                SsaPlace::At { b: block, slots },
                n,
            ) {
                SsaPlace::Ended(e) => st.came_back(after, as_result(e)),
                SsaPlace::At { b, slots: s } => steps + n <= MAX_BLOCKS,
            }
        }),
    decreases n,
{
    let blocks = st.body.method.blocks;
    if n == 0 {
        0
    } else {
        let k = lemma_block_works(st, m, floats, strings, block, steps, slots);
        let mid = worked_on(m, floats, k);
        let next = ssa_stepped(blocks, floats, strings, SsaPlace::At { b: block, slots });
        if steps >= MAX_BLOCKS && st.came_back(mid, Err(ExecError::StepLimit)) {
            k
        } else {
            match next {
                SsaPlace::Ended(e) => {
                    lemma_ssa_stays_ended(blocks, floats, strings, e, (n - 1) as nat);
                    k
                },
                SsaPlace::At { b, slots: s } => {
                    lemma_stays_alike(m, floats, strings, k);
                    let more = lemma_frame_works(
                        st,
                        mid,
                        floats,
                        strings,
                        b,
                        (steps + 1) as u64,
                        s,
                        (n - 1) as nat,
                    );
                    lemma_work_adds_up(m, floats, k, more);
                    k + more
                },
            }
        }
    }
}

/// The writes that bind arguments.
pub open spec fn arg_moves(vals: Seq<ValId>, args: Seq<Val128>) -> Seq<(u16, Val128)> {
    Seq::new(vals.len(), |i: int| (vals[i].offset, args[i]))
}

proof fn lemma_args_written(env: EnvView, vals: Seq<ValId>, args: Seq<Val128>, k: int)
    requires
        0 <= k <= vals.len(),
    ensures
        args_written(env, vals, args, k).pending == env.pending + arg_moves(vals, args).skip(k),
        args_written(env, vals, args, k).slots == env.slots,
    decreases vals.len() - k,
{
    let moves = arg_moves(vals, args);
    if k < vals.len() {
        let next = env.written(SlotId(vals[k].offset), args[k]);
        lemma_args_written(next, vals, args, k + 1);
        assert(next.pending + moves.skip(k + 1) =~= env.pending + moves.skip(k));
    } else {
        assert(env.pending + moves.skip(k) =~= env.pending);
    }
}

/// The slots that a call starts with.
pub open spec fn first_slots(b: BuiltView, args: Seq<Val128>) -> Seq<Val128> {
    landed(Seq::new(frame_slots(b), |i: int| Val128::null()), arg_moves(b.arg_vals, args))
}

/// A frame starts with its arguments in their slots.
proof fn lemma_frame_starts(class: ClassId, method: u16, b: BuiltView, args: Seq<Val128>, depth: nat)
    requires
        b.wf(),
        b.defined_once(),
        args.len() == b.arg_vals.len(),
    ensures
        ({
            let env = frame_of(class, method, b, args, depth).env;
            let slots = first_slots(b, args);
            &&& env.wf()
            &&& env.visible() == slots
            &&& env.slots.len() == slots.len()
            &&& slots.len() == frame_slots(b)
            &&& forall|i: int|
                0 <= i < args.len() ==> slots[(#[trigger] b.arg_vals[i]).offset as int] == args[i]
        }),
{
    let fresh = EnvView::fresh(frame_slots(b), LogicalFrame(method as u32));
    let moves = arg_moves(b.arg_vals, args);
    lemma_args_written(fresh, b.arg_vals, args, 0);
    assert(fresh.pending + moves.skip(0) =~= moves);
    assert(writes_fit(moves, fresh.slots.len())) by {
        assert forall|i: int| 0 <= i < moves.len() implies (
        #[trigger] moves[i]).0 < fresh.slots.len() by {
            assert(b.arg_vals[i].fits(b.n_slots as int));
        }
    }
    lemma_landed_len(fresh.slots, moves);
    assert forall|i: int| 0 <= i < args.len() implies first_slots(b, args)[(
    #[trigger] b.arg_vals[i]).offset as int] == args[i] by {
        assert forall|l: int| i < l < moves.len() implies (#[trigger] moves[l]).0 != moves[i].0 by {
            assert(b.definitions(b.arg_vals[i].offset) <= 1);
            lemma_occurs_once(b.arg_vals, i, l);
        }
        lemma_landed_newest(fresh.slots, moves, i);
    }
}

/// Whether a call comes to an end with a result, if the floating-point unit answers as given.
pub open spec fn call_ends(m: MachineView, floats: Floats, r: CallResult) -> bool {
    exists|n: nat| (#[trigger] worked_on(m, floats, n)).control == Control::Done(r)
}

proof fn lemma_done_stays(m: MachineView, floats: Floats, r: CallResult, n: nat)
    requires
        m.control == Control::Done(r),
    ensures
        worked_on(m, floats, n) == m,
    decreases n,
{
    if n > 0 {
        lemma_done_stays(m, floats, r, (n - 1) as nat);
    }
}

/// A call has one result.
pub proof fn lemma_call_ends_once(m: MachineView, floats: Floats, r: CallResult, q: CallResult)
    requires
        call_ends(m, floats, r),
        call_ends(m, floats, q),
    ensures
        r == q,
{
    let i = choose|n: nat| (#[trigger] worked_on(m, floats, n)).control == Control::Done(r);
    let j = choose|n: nat| (#[trigger] worked_on(m, floats, n)).control == Control::Done(q);
    if i <= j {
        lemma_work_adds_up(m, floats, i, (j - i) as nat);
        lemma_done_stays(worked_on(m, floats, i), floats, r, (j - i) as nat);
    } else {
        lemma_work_adds_up(m, floats, j, (i - j) as nat);
        lemma_done_stays(worked_on(m, floats, j), floats, q, (i - j) as nat);
    }
}

/// A call runs the SSA form of its method, up to the limit on blocks.
proof fn lemma_call_works(
    m: MachineView,
    class: ClassId,
    method: u16,
    b: BuiltView,
    args: Seq<Val128>,
    depth: nat,
    floats: Floats,
    strings: Strings,
    n: nat,
)
    requires
        body_at(m.world.classes, class, method) == Some(BodyView::Bytecode(b)),
        b.wf(),
        b.defined_once(),
        computes(b),
        args.len() == b.arg_vals.len(),
        depth <= m.max_depth,
        always_alike(m.started(class, method, args, depth), floats, strings),
    ensures
        ({
            let call = m.started(class, method, args, depth);
            ||| 1 + n > MAX_BLOCKS && call_ends(call, floats, Err(ExecError::StepLimit))
            ||| match ssa_run(
                b.method.blocks,
                floats,
                strings,
                SsaPlace::At { b: b.method.entry, slots: first_slots(b, args) },
                n,
            ) {
                SsaPlace::Ended(e) => call_ends(call, floats, as_result(e)),
                SsaPlace::At { .. } => 1 + n <= MAX_BLOCKS,
            }
        }),
{
    let call = m.started(class, method, args, depth);
    let st = Stand { below: Seq::empty(), class, method, body: b };
    let slots = first_slots(b, args);
    let entry = b.method.entry;
    lemma_frame_starts(class, method, b, args, depth);
    assert(call.tasks.drop_last() =~= st.below);
    lemma_entering_works(st, call, floats, entry, None, 0, slots);
    let one = worked(call, floats);
    assert(worked_on(one, floats, 0) == one);
    assert(worked_on(call, floats, 1) == one);
    lemma_stays_alike(call, floats, strings, 1);
    let k = lemma_frame_works(st, one, floats, strings, entry, 1, slots, n);
    lemma_work_adds_up(call, floats, 1, k);
    let after = worked_on(call, floats, 1 + k);
    if let Control::Returned(r) = after.control {
        if after.tasks == st.below {
            let last = worked(after, floats);
            assert(last.control == Control::Done(r));
            assert(worked_on(last, floats, 0) == last);
            assert(worked_on(after, floats, 1) == last);
            lemma_work_adds_up(call, floats, 1 + k, 1);
            assert(worked_on(call, floats, 1 + k + 1).control == Control::Done(r));
            assert(call_ends(call, floats, r));
        }
    }
}

/// Whether bytecode starts with given arguments in its locals.
pub open spec fn code_starts_with(vm: VerifiedView, args: Seq<Val128>, start: Machine) -> bool {
    let items = initial_items(vm.is_static, vm.arg_types);
    &&& start.locals.len() == vm.max_locals
    &&& start.stack.len() == 0
    &&& forall|i: int|
        0 <= i < args.len() ==> start.locals[#[trigger] arg_local(items, i)] == args[i]
}

/// Whether a machine runs one method, on its own: in a frame, or with its result.
pub open spec fn alone(m: MachineView, classes: RegistryView, class: ClassId, method: u16) -> bool {
    &&& m.wf()
    &&& m.world.classes == classes
    &&& match m.control {
        Control::Run | Control::Float(_) => m.tasks.len() == 1 && (m.tasks.last() matches
            TaskView::Frame(f) && f.owner == class && f.method == method),
        Control::Returned(_) | Control::Done(_) => m.tasks.len() == 0,
        Control::Ready(_) => false,
    }
}

/// A text that is interned stays so.
proof fn lemma_interned_stays(
    a: Seq<(Seq<char>, Val128)>,
    b: Seq<(Seq<char>, Val128)>,
    text: Seq<char>,
    i: int,
)
    requires
        0 <= i,
        a.is_prefix_of(b),
        interned_from(a, text, i) is Some,
    ensures
        interned_from(b, text, i) == interned_from(a, text, i),
    decreases a.len() - i,
{
    if i < a.len() {
        assert(a[i] == b[i]);
        if a[i].0 != text {
            lemma_interned_stays(a, b, text, i + 1);
        }
    }
}

/// A text that was not interned is interned as what is put behind.
proof fn lemma_interned_last(a: Seq<(Seq<char>, Val128)>, text: Seq<char>, v: Val128, i: int)
    requires
        0 <= i <= a.len(),
        interned_from(a, text, i) is None,
    ensures
        interned_from(a.push((text, v)), text, i) == Some(v),
    decreases a.len() - i,
{
    let b = a.push((text, v));
    if i < a.len() {
        assert(b[i] == a[i]);
        lemma_interned_last(a, text, v, i + 1);
    } else {
        assert(b[i] == (text, v));
    }
}

/// What loading a string constant does to the interned strings: its text is among them afterwards, or
/// nothing has changed.
proof fn lemma_interning(w: WorldView, text: Seq<char>)
    ensures
        ({
            let (after, r) = w.string_interned(text);
            &&& after.classes == w.classes
            &&& w.interned.is_prefix_of(after.interned)
            &&& match r {
                Ok(v) => interned_from(after.interned, text, 0) == Some(v),
                Err(e) => interned_from(w.interned, text, 0) is None && e == no_string(w),
            }
        }),
{
    if interned_from(w.interned, text, 0) is None {
        if let Ok(v) = w.string_made(text).1 {
            lemma_interned_last(w.interned, text, v, 0);
        }
    }
}

/// What a step at a node that loads a string constant comes to.
pub open spec fn load_works(
    m: MachineView,
    after: MachineView,
    f: FrameView,
    n: NodeView,
    cp: u16,
) -> bool {
    let w = world_at(m, f, n);
    string_constant(w, f.owner, cp) matches Some(text) ==> match loaded_as(w, f.owner, cp) {
        Ok(v) => interned_from(after.world.interned, text, 0) == Some(v),
        Err(e) => {
            &&& after.tasks.len() == 0
            &&& after.world.interned == m.world.interned
            &&& interned_from(m.world.interned, text, 0) is None
            &&& e == no_string(w)
        },
    }
}

/// Whether a step stays in the frame of a method, or leaves it for good.
pub open spec fn goes_on_alone(
    m: MachineView,
    after: MachineView,
    class: ClassId,
    method: u16,
) -> bool {
    &&& after.world.classes == m.world.classes
    &&& m.world.interned.is_prefix_of(after.world.interned)
    &&& match after.control {
        Control::Run | Control::Float(_) => after.tasks.len() == 1 && (after.tasks.last() matches
            TaskView::Frame(f) && f.owner == class && f.method == method),
        Control::Returned(_) | Control::Done(_) => after.tasks.len() == 0,
        Control::Ready(_) => false,
    }
}

/// A frame, taken off a stack that is otherwise empty, runs a node that computes or loads a string.
proof fn lemma_node_alone(m: MachineView, f: FrameView, i: nat)
    requires
        m.control is Run,
        m.tasks.len() == 0,
        i < frame_body(m, f).method.blocks[f.block.0 as int].nodes.len(),
        node_computes(frame_body(m, f).method.blocks[f.block.0 as int].nodes[i as int]),
    ensures
        goes_on_alone(m, m.noded(f, i), f.owner, f.method),
        ({
            let n = frame_body(m, f).method.blocks[f.block.0 as int].nodes[i as int];
            n.op matches Op::LoadString(cp) ==> load_works(m, m.noded(f, i), f, n, cp)
        }),
{
    let n = frame_body(m, f).method.blocks[f.block.0 as int].nodes[i as int];
    if let Op::LoadString(cp) = n.op {
        let w = world_at(m, f, n);
        if let Some(text) = string_constant(w, f.owner, cp) {
            lemma_interning(w, text);
        }
    }
}

/// A frame, taken off a stack that is otherwise empty, enters a block or leaves one.
proof fn lemma_block_alone(m: MachineView, f: FrameView)
    requires
        m.control is Run,
        m.tasks.len() == 0,
    ensures
        goes_on_alone(m, m.entered(f), f.owner, f.method),
        goes_on_alone(m, m.terminated(f), f.owner, f.method),
{
}

/// What a step of a machine that runs one method does to the interned strings: it puts one behind them
/// where it loads a constant for the first time, and ends the method where that fails.
proof fn lemma_alone_works(
    m: MachineView,
    floats: Floats,
    class: ClassId,
    method: u16,
    b: BuiltView,
)
    requires
        alone(m, m.world.classes, class, method),
        body_at(m.world.classes, class, method) == Some(BodyView::Bytecode(b)),
        b.wf(),
        computes(b),
    ensures
        alone(worked(m, floats), m.world.classes, class, method),
        m.world.interned.is_prefix_of(worked(m, floats).world.interned),
        m.tasks.len() == 0 ==> worked(m, floats).world.interned == m.world.interned
            && worked(m, floats).tasks.len() == 0,
        m.control is Run ==> {
            let f = m.tasks.last()->Frame_0;
            f.at matches Some(i) ==> {
                let nodes = b.method.blocks[f.block.0 as int].nodes;
                i < nodes.len() ==> (nodes[i as int].op matches Op::LoadString(cp) ==> load_works(
                    m,
                    worked(m, floats),
                    f,
                    nodes[i as int],
                    cp,
                ))
            }
        },
{
    let after = worked(m, floats);
    match m.control {
        Control::Float(q) => {
            lemma_answered_wf(m, floats(q));
        },
        _ => {
            lemma_stepped_wf(m);
        },
    }
    assert(goes_on_alone(m, after, class, method)) by {
        if m.control is Run {
            let f = m.tasks.last()->Frame_0;
            let below = MachineView { tasks: m.tasks.drop_last(), ..m };
            lemma_block_alone(below, f);
            assert(task_fits(m.world.classes, m.tasks.last(), m.max_depth));
            if let Some(i) = f.at {
                assert(all_compute(b.method.blocks[f.block.0 as int].nodes));
                if i < b.method.blocks[f.block.0 as int].nodes.len() {
                    lemma_node_alone(below, f, i);
                }
            }
        }
    }
    if m.control is Run {
        let f = m.tasks.last()->Frame_0;
        let below = MachineView { tasks: m.tasks.drop_last(), ..m };
        assert(task_fits(m.world.classes, m.tasks.last(), m.max_depth));
        if let Some(i) = f.at {
            assert(all_compute(b.method.blocks[f.block.0 as int].nodes));
            if i < b.method.blocks[f.block.0 as int].nodes.len() {
                lemma_node_alone(below, f, i);
                assert(after == below.noded(f, i));
            }
        }
    }
}

/// Why a string cannot be made.
pub open spec fn no_string(w: WorldView) -> ExecError {
    match class_named(w.classes, "java/lang/String"@) {
        None => ExecError::Unresolved,
        Some(_) => ExecError::OutOfMemory,
    }
}

proof fn lemma_alone_works_on(
    m: MachineView,
    floats: Floats,
    class: ClassId,
    method: u16,
    b: BuiltView,
    n: nat,
)
    requires
        alone(m, m.world.classes, class, method),
        body_at(m.world.classes, class, method) == Some(BodyView::Bytecode(b)),
        b.wf(),
        computes(b),
    ensures
        alone(worked_on(m, floats, n), m.world.classes, class, method),
        m.world.interned.is_prefix_of(worked_on(m, floats, n).world.interned),
        m.tasks.len() == 0 ==> worked_on(m, floats, n).world.interned == m.world.interned,
    decreases n,
{
    if n > 0 {
        lemma_alone_works(m, floats, class, method, b);
        lemma_alone_works_on(worked(m, floats), floats, class, method, b, (n - 1) as nat);
    }
}

/// Whether a text is interned after some steps.
pub open spec fn interned_after(m: MachineView, floats: Floats, text: Seq<char>, n: nat) -> bool {
    interned_from(worked_on(m, floats, n).world.interned, text, 0) is Some
}

/// What a string constant is in a call: what its text is interned as at the latest when the call has
/// loaded it.
pub open spec fn string_in(m: MachineView, floats: Floats, owner: ClassId, cp: u16) -> Result<
    Val128,
    ExecError,
> {
    match string_constant(m.world, owner, cp) {
        None => Err(ExecError::Unresolved),
        Some(text) => if exists|n: nat| interned_after(m, floats, text, n) {
            let n = choose|n: nat| interned_after(m, floats, text, n);
            Ok(interned_from(worked_on(m, floats, n).world.interned, text, 0)->0)
        } else {
            Err(no_string(m.world))
        },
    }
}

/// What string constants are in a call.
pub open spec fn strings_in(m: MachineView, floats: Floats, owner: ClassId) -> Strings {
    |cp: u16| string_in(m, floats, owner, cp)
}

/// A machine that runs one method loads its string constants always alike.
proof fn lemma_loads_alike(
    m: MachineView,
    floats: Floats,
    class: ClassId,
    method: u16,
    b: BuiltView,
)
    requires
        alone(m, m.world.classes, class, method),
        body_at(m.world.classes, class, method) == Some(BodyView::Bytecode(b)),
        b.wf(),
        computes(b),
    ensures
        always_alike(m, floats, strings_in(m, floats, class)),
{
    let strings = strings_in(m, floats, class);
    assert forall|n: nat| loads_alike(#[trigger] worked_on(m, floats, n), strings) by {
        lemma_load_alike(m, floats, class, method, b, n);
    }
}

proof fn lemma_load_alike(
    m: MachineView,
    floats: Floats,
    class: ClassId,
    method: u16,
    b: BuiltView,
    n: nat,
)
    requires
        alone(m, m.world.classes, class, method),
        body_at(m.world.classes, class, method) == Some(BodyView::Bytecode(b)),
        b.wf(),
        computes(b),
    ensures
        loads_alike(worked_on(m, floats, n), strings_in(m, floats, class)),
{
    let now = worked_on(m, floats, n);
    let next = worked(now, floats);
    lemma_alone_works_on(m, floats, class, method, b, n);
    lemma_alone_works(now, floats, class, method, b);
    assert(worked_on(now, floats, 1) == next) by {
        assert(worked_on(next, floats, 0) == next);
    }
    lemma_work_adds_up(m, floats, n, 1);
    if now.control is Run {
        let f = now.tasks.last()->Frame_0;
        assert(frame_body(now, f) == b);
        let nodes = b.method.blocks[f.block.0 as int].nodes;
        if f.at is Some && f.at->0 < nodes.len() && nodes[f.at->0 as int].op is LoadString {
            let cp = nodes[f.at->0 as int].op->LoadString_0;
            let w = world_at(now, f, nodes[f.at->0 as int]);
            assert(string_constant(w, class, cp) == string_constant(m.world, class, cp));
            if let Some(text) = string_constant(w, class, cp) {
                match loaded_as(w, class, cp) {
                    Ok(v) => {
                        assert(interned_after(m, floats, text, n + 1));
                        let k = choose|k: nat| interned_after(m, floats, text, k);
                        lemma_interned_alike(m, floats, class, method, b, text, k, n + 1);
                    },
                    Err(e) => {
                        assert forall|k: nat| !interned_after(m, floats, text, k) by {
                            if interned_after(m, floats, text, k) {
                                lemma_not_interned(m, floats, class, method, b, text, n, k);
                            }
                        }
                        assert(no_string(w) == no_string(m.world));
                    },
                }
            }
        }
    }
}

/// A text is interned as the same string whenever it is.
proof fn lemma_interned_alike(
    m: MachineView,
    floats: Floats,
    class: ClassId,
    method: u16,
    b: BuiltView,
    text: Seq<char>,
    j: nat,
    k: nat,
)
    requires
        alone(m, m.world.classes, class, method),
        body_at(m.world.classes, class, method) == Some(BodyView::Bytecode(b)),
        b.wf(),
        computes(b),
        interned_after(m, floats, text, j),
        interned_after(m, floats, text, k),
    ensures
        interned_from(worked_on(m, floats, j).world.interned, text, 0) == interned_from(
            worked_on(m, floats, k).world.interned,
            text,
            0,
        ),
    decreases
        if j <= k {
            0int
        } else {
            1int
        },
{
    if j <= k {
        let at = worked_on(m, floats, j);
        lemma_alone_works_on(m, floats, class, method, b, j);
        lemma_alone_works_on(at, floats, class, method, b, (k - j) as nat);
        lemma_work_adds_up(m, floats, j, (k - j) as nat);
        lemma_interned_stays(
            at.world.interned,
            worked_on(m, floats, k).world.interned,
            text,
            0,
        );
    } else {
        lemma_interned_alike(m, floats, class, method, b, text, k, j);
    }
}

/// Where loading a constant fails, its text is never interned.
proof fn lemma_not_interned(
    m: MachineView,
    floats: Floats,
    class: ClassId,
    method: u16,
    b: BuiltView,
    text: Seq<char>,
    n: nat,
    k: nat,
)
    requires
        alone(m, m.world.classes, class, method),
        body_at(m.world.classes, class, method) == Some(BodyView::Bytecode(b)),
        b.wf(),
        computes(b),
        interned_from(worked_on(m, floats, n).world.interned, text, 0) is None,
        worked(worked_on(m, floats, n), floats).tasks.len() == 0,
        worked(worked_on(m, floats, n), floats).world.interned == worked_on(
            m,
            floats,
            n,
        ).world.interned,
    ensures
        !interned_after(m, floats, text, k),
{
    let now = worked_on(m, floats, n);
    let next = worked(now, floats);
    lemma_alone_works_on(m, floats, class, method, b, n);
    lemma_alone_works(now, floats, class, method, b);
    if k <= n {
        let at = worked_on(m, floats, k);
        lemma_alone_works_on(m, floats, class, method, b, k);
        lemma_alone_works_on(at, floats, class, method, b, (n - k) as nat);
        lemma_work_adds_up(m, floats, k, (n - k) as nat);
        if interned_after(m, floats, text, k) {
            lemma_interned_stays(at.world.interned, now.world.interned, text, 0);
        }
    } else {
        assert(worked_on(now, floats, 1) == next) by {
            assert(worked_on(next, floats, 0) == next);
        }
        lemma_work_adds_up(m, floats, n, 1);
        lemma_alone_works_on(next, floats, class, method, b, (k - n - 1) as nat);
        lemma_work_adds_up(m, floats, n + 1, (k - n - 1) as nat);
    }
}

/// What a call of a verified method comes to is what its bytecode means: every call ends; its result
/// is the value that the bytecode returns or the failure it comes to, unless the limit on blocks
/// stops it first; and the limit does not stop bytecode that ends within fewer instructions. A string
/// constant is, throughout the call, the string that its text is interned as.
pub proof fn lemma_calls_compute_what_bytecode_means(
    m: MachineView,
    class: ClassId,
    method: u16,
    args: Seq<Val128>,
    depth: nat,
    vm: VerifiedView,
    pool: PoolView,
    floats: Floats,
    start: Machine,
)
    requires
        code_fits(m.world.classes),
        runs_well(vm, pool),
        body_at(m.world.classes, class, method) == Some(
            BodyView::Bytecode(built(vm, pool)->Ok_0),
        ),
        args.len() == initial_items(vm.is_static, vm.arg_types).len(),
        depth <= m.max_depth,
        code_starts_with(vm, args, start),
    ensures
        exists|r: CallResult|
            #[trigger] call_ends(m.started(class, method, args, depth), floats, r),
        forall|r: CallResult| #[trigger]
            call_ends(m.started(class, method, args, depth), floats, r) ==> r == Err::<
                Option<Val128>,
                ExecError,
            >(ExecError::StepLimit) || exists|e: Ending| #[trigger]
                code_ends(
                    vm.insns,
                    pool,
                    floats,
                    strings_in(m.started(class, method, args, depth), floats, class),
                    start,
                    e,
                ) && r == as_result(e),
        forall|n: nat, e: Ending|
            #[trigger] code_run(
                vm.insns,
                pool,
                floats,
                strings_in(m.started(class, method, args, depth), floats, class),
                CodePlace::At { k: 0, m: start },
                n,
            ) == CodePlace::Ended(e) && n + 2 <= MAX_BLOCKS ==> #[trigger] call_ends(
                m.started(class, method, args, depth),
                floats,
                as_result(e),
            ),
{
    let b = built(vm, pool)->Ok_0;
    let call = m.started(class, method, args, depth);
    let strings = strings_in(call, floats, class);
    let slots = first_slots(b, args);
    let at = SsaPlace::At { b: b.method.entry, slots };
    assert(computes(b)) by {
        assert forall|c: int| 0 <= c < b.method.blocks.len() implies all_compute(
            (#[trigger] b.method.blocks[c]).nodes,
        ) by {
            lemma_verified_methods_compute(vm, pool, c);
        }
    }
    lemma_started_wf(m, class, method, args, depth);
    lemma_values_are_defined_once(vm, pool);
    lemma_argument_count(vm, pool);
    lemma_frame_starts(class, method, b, args, depth);
    assert(starts_with(vm, pool, args, slots, start));
    assert(call.tasks.drop_last() =~= Seq::empty());
    lemma_loads_alike(call, floats, class, method, b);
    // Run as far as the limit allows.
    let n = MAX_BLOCKS as nat;
    lemma_call_works(m, class, method, b, args, depth, floats, strings, n);
    let r = if call_ends(call, floats, Err(ExecError::StepLimit)) {
        Err(ExecError::StepLimit)
    } else {
        as_result(ssa_run(b.method.blocks, floats, strings, at, n)->Ended_0)
    };
    assert(call_ends(call, floats, r));
    assert forall|q: CallResult| #[trigger] call_ends(call, floats, q) implies q == Err::<
        Option<Val128>,
        ExecError,
    >(ExecError::StepLimit) || exists|e: Ending| #[trigger]
        code_ends(vm.insns, pool, floats, strings, start, e) && q == as_result(e) by {
        lemma_call_ends_once(call, floats, r, q);
        if !call_ends(call, floats, Err(ExecError::StepLimit)) {
            let e = ssa_run(b.method.blocks, floats, strings, at, n)->Ended_0;
            assert(ssa_ends(b, floats, strings, slots, e));
            lemma_ssa_computes_what_bytecode_means(
                vm,
                pool,
                floats,
                strings,
                args,
                slots,
                start,
                e,
            );
            assert(code_ends(vm.insns, pool, floats, strings, start, e));
        }
    }
    assert forall|k: nat, e: Ending|
        #[trigger] code_run(
            vm.insns,
            pool,
            floats,
            strings,
            CodePlace::At { k: 0, m: start },
            k,
        ) == CodePlace::Ended(e) && k + 2 <= MAX_BLOCKS implies #[trigger] call_ends(
        call,
        floats,
        as_result(e),
    ) by {
        lemma_blocks_within_instructions(vm, pool, floats, strings, args, slots, start, k, e);
        lemma_call_works(m, class, method, b, args, depth, floats, strings, k + 1);
    }
}

} // verus!
