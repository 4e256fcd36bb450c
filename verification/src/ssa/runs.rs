//! Running a block of the SSA form computes what its bytecode means.

use vstd::prelude::*;
use crate::classfile::constant_pool::PoolView;
use crate::ids::{BlockId, ValId};
use crate::interp::error::ExecError;
use crate::ir::{Effect, NodeView, Op, Terminator};
use crate::ssa::accepted::{
    bound, flow_at, graph_sound, in_state, lemma_bound, lemma_bounds_increase, lemma_entered_live,
    lemma_inside_falls_through, lemma_operated_depth, lemma_other_matches, lemma_parts,
    lemma_rule_matches, lemma_steps_checked, live, live_in, live_out, out_state, partly_entered,
    state_after, state_at,
};
use crate::ssa::cfg::leaders_of;
use crate::ssa::error::IrError;
use crate::ssa::faithful::{recorded, Record};
use crate::ssa::laws::shaped;
use crate::ssa::lower::{
    entered_from, inc_delta, is_string_constant, left_from, lowered, lowered_from, lowering_of,
    numeric_constant, stack_variable, ContextView, LowerView, Lowering,
};
use crate::ssa::meaning::{
    computed, lemma_operations_do_what_instructions_mean, meaning, Floats, Machine, Moved, Strings,
};
use crate::ssa::state::{read, SsaView};
use crate::ssa::trace::{
    begun, block_start, definition_ok, key, later, lemma_block_lowers, lemma_entered_from_lowers,
    lemma_key, lemma_later_trans, lemma_left_from_lowers, lemma_loaded_lowers,
    lemma_lowered_from_lowers, lemma_lowered_lowers, lemma_node_tracks, lemma_pushed_lowers,
    lemma_read_lowers, lemma_restacked, lemma_start_lowers, lemma_stored_lowers,
    lemma_through_later, lowers, lowers_on, phi_ok, settled, through, tracks, with_nodes, Trace,
};
use crate::ssa::{context_of, graph_of, BuildView, GraphView};
use crate::value::{Tag, Val128};
use crate::verify::insn::Insn;
use crate::verify::stackmap::FrameView;
use crate::verify::typecheck::{inc_local, load_of, stack_rule, store_of};
use crate::verify::VerifiedView;

verus! {

/// The values of operands, by slot.
pub open spec fn slot_values(slots: Seq<Val128>, ins: Seq<ValId>) -> Seq<Val128> {
    Seq::new(ins.len(), |i: int| slots[ins[i].offset as int])
}

/// What a node computes.
pub open spec fn node_value(
    n: NodeView,
    slots: Seq<Val128>,
    floats: Floats,
    strings: Strings,
) -> Result<Val128, ExecError> {
    match n.op {
        Op::LoadString(cp) => strings(cp),
        _ => computed(n.op, n.ty, slot_values(slots, n.ins), floats),
    }
}

/// The slots after the nodes of a block have run, in order.
pub open spec fn nodes_run(
    slots: Seq<Val128>,
    nodes: Seq<NodeView>,
    floats: Floats,
    strings: Strings,
) -> Result<Seq<Val128>, ExecError>
    decreases nodes.len(),
{
    if nodes.len() == 0 {
        Ok(slots)
    } else {
        match nodes_run(slots, nodes.drop_last(), floats, strings) {
            Err(e) => Err(e),
            Ok(s) => match node_value(nodes.last(), s, floats, strings) {
                Err(e) => Err(e),
                Ok(v) => Ok(s.update(nodes.last().id.offset as int, v)),
            },
        }
    }
}

/// What the instructions of a block, from position `j` on, do: the state they leave, and the value
/// that the last one tests or hands over.
pub open spec fn block_meaning(
    m: Machine,
    part: Seq<Insn>,
    j: int,
    pool: PoolView,
    floats: Floats,
    strings: Strings,
) -> Result<Moved, ExecError>
    decreases part.len() - j,
{
    if j >= part.len() {
        Ok(Moved { to: m, value: None })
    } else {
        match meaning(m, part[j], pool, floats, strings) {
            Err(e) => Err(e),
            Ok(moved) => if j + 1 < part.len() {
                block_meaning(moved.to, part, j + 1, pool, floats, strings)
            } else {
                Ok(moved)
            },
        }
    }
}

/// The value of a variable: a local, or a position of the operand stack.
pub open spec fn var_value(m: Machine, v: u16, max_locals: u16) -> Val128 {
    if v < max_locals {
        m.locals[v as int]
    } else {
        m.stack[v - max_locals]
    }
}

/// Whether slots and variables agree where block `b` is entered: every variable that has a value there
/// is in the slot that it is entered in.
pub open spec fn enters(
    vm: VerifiedView,
    pool: PoolView,
    ssa: SsaView,
    t: Trace,
    b: int,
    slots: Seq<Val128>,
    m: Machine,
) -> bool {
    &&& slots.len() >= ssa.next
    &&& m.locals.len() == vm.max_locals
    &&& m.stack.len() == in_state(vm, pool, b).stack.len()
    &&& forall|v: u16, x: ValId| #[trigger]
        through(graph_of(vm.insns), ssa, t, b, v, x) && live_in(vm, pool, b, v)
            ==> slots[x.offset as int] == var_value(m, v, vm.max_locals)
}

/// A block about to run: the method as built, how the block was lowered, and the slots, locals and
/// stack that it is entered with.
pub struct Scene {
    pub vm: VerifiedView,
    pub pool: PoolView,
    pub built: BuildView,
    pub trace: Trace,
    pub b: int,
    pub record: Record,
    pub floats: Floats,
    pub strings: Strings,
    pub slots: Seq<Val128>,
    pub from: Machine,
}

impl Scene {
    /// The method's graph.
    pub open spec fn graph(self) -> GraphView {
        graph_of(self.vm.insns)
    }

    /// What lowering the block needed to know.
    pub open spec fn context(self) -> ContextView {
        context_of(self.graph(), self.pool, self.vm.max_locals, BlockId(self.b as u32))
    }

    /// Whether `x` is what a variable is where the block is entered.
    pub open spec fn enters_as(self, v: u16, x: ValId) -> bool {
        through(self.graph(), self.built.ssa, self.trace, self.b, v, x)
    }

    /// Whether slots and variables agree where the block is entered.
    pub open spec fn wf(self) -> bool {
        let g = self.graph();
        &&& self.vm.accepted(self.pool)
        &&& self.vm.insns.len() > 0
        &&& graph_sound(self.vm.insns)
        &&& recorded(self.vm, self.pool, self.built, self.trace, self.b, self.record)
        &&& tracks(g, self.built.ssa, self.trace, self.built.processed, -1)
        &&& self.built.processed[self.b]
        &&& forall|v: u16|
            v >= self.vm.max_locals ==> !self.trace.args.contains_key(#[trigger] key(v, self.b))
        &&& enters(
            self.vm,
            self.pool,
            self.built.ssa,
            self.trace,
            self.b,
            self.slots,
            self.from,
        )
    }

    /// Whether the slots agree with locals and stack at some point of the block, where the verifier's
    /// frame is `f`.
    pub open spec fn agrees(
        self,
        st: LowerView,
        slots: Seq<Val128>,
        m: Machine,
        f: FrameView,
    ) -> bool {
        &&& lowers(self.graph(), st, self.record.trace, self.record.done, self.b)
        &&& later(self.graph(), st.ssa, self.record.end.ssa, self.b)
        &&& st.nodes.is_prefix_of(self.record.end.nodes)
        &&& nodes_run(self.slots, st.nodes, self.floats, self.strings) == Ok::<
            Seq<Val128>,
            ExecError,
        >(slots)
        &&& slots.len() == self.slots.len()
        &&& m.locals.len() == self.vm.max_locals
        &&& st.stack.len() == m.stack.len()
        &&& st.stack.len() == f.stack.len()
        &&& forall|i: int|
            0 <= i < st.stack.len() ==> slots[(#[trigger] st.stack[i]).offset as int] == m.stack[i]
        &&& forall|v: u16|
            v < self.vm.max_locals && #[trigger] live(f, v, self.vm.max_locals)
                ==> self.local_agrees(st, slots, m, v)
        &&& forall|v: u16, x: ValId| #[trigger]
            self.enters_as(v, x) ==> slots[x.offset as int] == self.slots[x.offset as int]
    }

    /// Whether a local is in the slot of its definition, or as the block was entered with it.
    pub open spec fn local_agrees(
        self,
        st: LowerView,
        slots: Seq<Val128>,
        m: Machine,
        v: u16,
    ) -> bool {
        if st.ssa.defs.contains_key(key(v, self.b)) {
            slots[st.ssa.defs[key(v, self.b)].offset as int] == m.locals[v as int]
        } else {
            m.locals[v as int] == self.from.locals[v as int] && live_in(
                self.vm,
                self.pool,
                self.b,
                v,
            )
        }
    }

    /// What running an instruction, or the rest of the block, comes to in slots, given what it comes
    /// to in locals and stack.
    pub open spec fn follows(
        self,
        st: LowerView,
        r: Result<Moved, ExecError>,
        f: FrameView,
    ) -> bool {
        match r {
            Err(e) => nodes_run(self.slots, st.nodes, self.floats, self.strings) == Err::<
                Seq<Val128>,
                ExecError,
            >(e),
            Ok(moved) => {
                let after = nodes_run(self.slots, st.nodes, self.floats, self.strings);
                &&& after is Ok
                &&& self.agrees(st, after->Ok_0, moved.to, f)
                &&& value_agrees(st.term, after->Ok_0, moved.value)
            },
        }
    }
}

/// Whether a terminator tests or hands over the value that it should.
pub open spec fn value_agrees(
    term: Option<Terminator>,
    slots: Seq<Val128>,
    value: Option<Val128>,
) -> bool {
    match value {
        None => true,
        Some(v) => match term {
            Some(Terminator::CondBranch { cond, .. }) => slots[cond.offset as int] == v,
            Some(Terminator::Return(Some(x))) => slots[x.offset as int] == v,
            _ => false,
        },
    }
}

/// A failure stays one, whatever runs after it.
proof fn lemma_failed_run(
    slots: Seq<Val128>,
    a: Seq<NodeView>,
    b: Seq<NodeView>,
    floats: Floats,
    strings: Strings,
)
    requires
        a.is_prefix_of(b),
        nodes_run(slots, a, floats, strings) is Err,
    ensures
        nodes_run(slots, b, floats, strings) == nodes_run(slots, a, floats, strings),
    decreases b.len(),
{
    if a.len() < b.len() {
        assert(a.is_prefix_of(b.drop_last()));
        lemma_failed_run(slots, a, b.drop_last(), floats, strings);
    } else {
        assert(a =~= b);
    }
}

/// No node of a block changes a value that the block is entered with.
proof fn lemma_nodes_spare_entry(sc: Scene, i: int, v: u16, x: ValId)
    requires
        sc.wf(),
        0 <= i < sc.record.end.nodes.len(),
        sc.enters_as(v, x),
    ensures
        sc.record.end.nodes[i].id.offset != x.offset,
        x.offset < sc.slots.len(),
{
    let g = sc.graph();
    let (s, t) = (sc.built.ssa, sc.trace);
    let o = sc.record.end.nodes[i].id.offset;
    assert(t.homes.contains_key(o) && t.homes[o] == g.cfg.level(BlockId(sc.b as u32)));
    if g.cfg.preds[sc.b].len() == 1 {
        let p = g.cfg.preds[sc.b][0];
        assert(p.0 < g.cfg.preds.len());
        assert(BlockId(p.0 as int as u32) == p);
        assert(begun(sc.built.processed, -1, sc.b));
        assert(s.sealed[sc.b]);
        assert(g.cfg.descends(sc.b));
        if s.defs.contains_key(key(v, p.0 as int)) {
            assert(definition_ok(g, s, t, sc.built.processed, -1, p.0 as int, v));
        }
    } else if g.cfg.preds[sc.b].len() >= 2 {
        let k = choose|k: int|
            0 <= k < s.phis.len() && (#[trigger] s.phis[k]).block.0 == sc.b && s.phis[k].var == v
                && s.phis[k].val == x;
        assert(phi_ok(g, s, t, sc.built.processed, -1, k));
    }
}

/// A node runs: its value is what it computes, and nothing else changes.
proof fn lemma_noded_runs(
    sc: Scene,
    st: LowerView,
    slots: Seq<Val128>,
    m: Machine,
    f: FrameView,
    op: Op,
    ins: Seq<ValId>,
    ty: Tag,
    effect: Effect,
)
    requires
        sc.wf(),
        sc.agrees(st, slots, m, f),
        st.noded(op, ins, ty, effect) is Ok,
        (st.noded(op, ins, ty, effect)->Ok_0).1.nodes.is_prefix_of(sc.record.end.nodes),
        later(
            sc.graph(),
            (st.noded(op, ins, ty, effect)->Ok_0).1.ssa,
            sc.record.end.ssa,
            sc.b,
        ),
    ensures
        ({
            let (x, e) = st.noded(op, ins, ty, effect)->Ok_0;
            let node = NodeView { id: x, op, ins, ty, effect };
            let run = nodes_run(sc.slots, e.nodes, sc.floats, sc.strings);
            &&& x.offset < sc.slots.len()
            &&& lowers_on(sc.graph(), st, e, sc.record.trace, sc.record.done, sc.b)
            &&& settled(
                e.ssa,
                with_nodes(
                    sc.record.trace,
                    e.nodes,
                    sc.graph().cfg.level(BlockId(sc.b as u32)),
                ),
                x,
                sc.graph().cfg.level(BlockId(sc.b as u32)),
            )
            &&& match node_value(node, slots, sc.floats, sc.strings) {
                Err(err) => run == Err::<Seq<Val128>, ExecError>(err),
                Ok(v) => {
                    let after = slots.update(x.offset as int, v);
                    &&& run == Ok::<Seq<Val128>, ExecError>(after)
                    &&& sc.agrees(e, after, m, f)
                    &&& after[x.offset as int] == v
                },
            }
        }),
{
    let g = sc.graph();
    let (x, e) = st.noded(op, ins, ty, effect)->Ok_0;
    let node = NodeView { id: x, op, ins, ty, effect };
    let (t, done, b) = (sc.record.trace, sc.record.done, sc.b);
    lemma_node_tracks(g, st, t, done, b, op, ins, ty, effect);
    lemma_later_trans(g, e.ssa, sc.record.end.ssa, sc.built.ssa, b);
    assert(e.nodes.drop_last() =~= st.nodes);
    assert(e.nodes.last() == node);
    let at = st.nodes.len() as int;
    assert(sc.record.end.nodes[at] == e.nodes[at]);
    if let Ok(v) = node_value(node, slots, sc.floats, sc.strings) {
        let after = slots.update(x.offset as int, v);
        let n = g.cfg.level(BlockId(b as u32));
        assert forall|i: int| 0 <= i < e.stack.len() implies after[(
        #[trigger] e.stack[i]).offset as int] == m.stack[i] by {
            assert(settled(st.ssa, with_nodes(t, st.nodes, n), st.stack[i], n));
        }
        assert forall|w: u16|
            w < sc.vm.max_locals && #[trigger] live(
                f,
                w,
                sc.vm.max_locals,
            ) implies sc.local_agrees(e, after, m, w) by {
            assert(sc.local_agrees(st, slots, m, w));
            if st.ssa.defs.contains_key(key(w, b)) {
                assert(definition_ok(g, st.ssa, with_nodes(t, st.nodes, n), done, b, b, w));
            }
        }
        assert forall|w: u16, y: ValId| #[trigger] sc.enters_as(w, y) implies after[y.offset as int]
            == sc.slots[y.offset as int] by {
            lemma_nodes_spare_entry(sc, at, w, y);
        }
    }
}

/// Stack and frame change together, and no local does.
proof fn lemma_restack_agrees(
    sc: Scene,
    st: LowerView,
    slots: Seq<Val128>,
    m: Machine,
    f: FrameView,
    st1: LowerView,
    m1: Machine,
    f1: FrameView,
)
    requires
        sc.agrees(st, slots, m, f),
        lowers(sc.graph(), st1, sc.record.trace, sc.record.done, sc.b),
        st1.ssa == st.ssa,
        st1.nodes == st.nodes,
        m1.locals == m.locals,
        f1.locals == f.locals,
        st1.stack.len() == m1.stack.len(),
        st1.stack.len() == f1.stack.len(),
        forall|i: int|
            0 <= i < st1.stack.len() ==> slots[(#[trigger] st1.stack[i]).offset as int]
                == m1.stack[i],
    ensures
        sc.agrees(st1, slots, m1, f1),
{
    assert forall|v: u16|
        v < sc.vm.max_locals && #[trigger] live(f1, v, sc.vm.max_locals) implies sc.local_agrees(
        st1,
        slots,
        m1,
        v,
    ) by {
        assert(live(f, v, sc.vm.max_locals));
        assert(sc.local_agrees(st, slots, m, v));
    }
}

/// The state that the block was left in has the graph's shape.
proof fn lemma_end_shaped(sc: Scene)
    requires
        sc.wf(),
    ensures
        shaped(sc.record.end.ssa, sc.graph().cfg),
{
    let g = sc.graph();
    let r = sc.record;
    lemma_block_lowers(
        g,
        r.start,
        sc.context(),
        r.trace,
        r.done,
        sc.b,
        g.parts[sc.b],
        in_state(sc.vm, sc.pool, sc.b).stack.len() as int,
    );
}

/// Reading a variable in the block finds its value.
proof fn lemma_read_agrees(
    sc: Scene,
    st: LowerView,
    slots: Seq<Val128>,
    m: Machine,
    f: FrameView,
    v: u16,
)
    requires
        sc.wf(),
        sc.agrees(st, slots, m, f),
        read(st.ssa, sc.graph().cfg, v, BlockId(sc.b as u32)) is Ok,
        later(
            sc.graph(),
            (read(st.ssa, sc.graph().cfg, v, BlockId(sc.b as u32))->Ok_0).1,
            sc.record.end.ssa,
            sc.b,
        ),
    ensures
        ({
            let (x, s1) = read(st.ssa, sc.graph().cfg, v, BlockId(sc.b as u32))->Ok_0;
            let n = sc.graph().cfg.level(BlockId(sc.b as u32));
            &&& sc.agrees(LowerView { ssa: s1, ..st }, slots, m, f)
            &&& settled(s1, with_nodes(sc.record.trace, st.nodes, n), x, n)
            &&& s1.defs.contains_key(key(v, sc.b)) && s1.defs[key(v, sc.b)] == x
            &&& v < sc.vm.max_locals && live(f, v, sc.vm.max_locals) ==> slots[x.offset as int]
                == m.locals[v as int]
            &&& !st.ssa.defs.contains_key(key(v, sc.b)) && live_in(sc.vm, sc.pool, sc.b, v)
                ==> slots[x.offset as int] == var_value(sc.from, v, sc.vm.max_locals)
        }),
{
    let g = sc.graph();
    let (t, done, b) = (sc.record.trace, sc.record.done, sc.b);
    let n = g.cfg.level(BlockId(b as u32));
    let tn = with_nodes(t, st.nodes, n);
    let (x, s1) = read(st.ssa, g.cfg, v, BlockId(b as u32))->Ok_0;
    lemma_read_lowers(g, st, t, done, b, v);
    if !st.ssa.defs.contains_key(key(v, b)) {
        assert(through(g, s1, tn, b, v, x));
        if g.cfg.preds[b].len() == 1 {
            let p = g.cfg.preds[b][0];
            assert(begun(sc.built.processed, -1, b));
            assert(sc.built.ssa.sealed[b]);
            assert(g.cfg.descends(b));
        }
        lemma_through_later(g, s1, sc.record.end.ssa, tn, b, v, x, b);
        lemma_end_shaped(sc);
        lemma_through_later(g, sc.record.end.ssa, sc.built.ssa, tn, b, v, x, -1);
        assert(sc.enters_as(v, x));
    }
    let st1 = LowerView { ssa: s1, ..st };
    assert forall|u: u16|
        u < sc.vm.max_locals && #[trigger] live(f, u, sc.vm.max_locals) implies sc.local_agrees(
        st1,
        slots,
        m,
        u,
    ) by {
        assert(sc.local_agrees(st, slots, m, u));
        if u != v {
            assert(s1.defs.contains_key(key(u, b)) ==> st.ssa.defs.contains_key(key(u, b)));
        }
    }
    if v < sc.vm.max_locals && live(f, v, sc.vm.max_locals) {
        assert(sc.local_agrees(st, slots, m, v));
        assert(sc.local_agrees(st1, slots, m, v));
    }
}

/// Whether the state of lowering lies on the way to the state that the block was left in.
pub open spec fn on_the_way(sc: Scene, st: LowerView) -> bool {
    &&& later(sc.graph(), st.ssa, sc.record.end.ssa, sc.b)
    &&& st.nodes.is_prefix_of(sc.record.end.nodes)
}

/// What an operation comes to on operands.
pub open spec fn operation(sc: Scene, op: Op, ty: Tag, vals: Seq<Val128>) -> Result<
    Val128,
    ExecError,
> {
    match op {
        Op::LoadString(cp) => (sc.strings)(cp),
        _ => computed(op, ty, vals, sc.floats),
    }
}

/// A frame without its `n` topmost items.
pub open spec fn frame_dropped(f: FrameView, n: int) -> FrameView {
    FrameView { stack: f.stack.take(f.stack.len() - n), ..f }
}

proof fn lemma_dropped_agrees(
    sc: Scene,
    st: LowerView,
    slots: Seq<Val128>,
    m: Machine,
    f: FrameView,
    n: int,
)
    requires
        sc.agrees(st, slots, m, f),
        0 <= n <= st.stack.len(),
    ensures
        sc.agrees(st.dropped(n), slots, m.dropped(n), frame_dropped(f, n)),
        slot_values(slots, st.stack.skip(st.stack.len() - n)) == m.top(n),
{
    let g = sc.graph();
    let d = st.dropped(n);
    let level = g.cfg.level(BlockId(sc.b as u32));
    assert forall|i: int| 0 <= i < d.stack.len() implies settled(
        st.ssa,
        with_nodes(sc.record.trace, st.nodes, level),
        #[trigger] d.stack[i],
        level,
    ) by {
        assert(d.stack[i] == st.stack[i]);
    }
    lemma_restacked(g, st, d, sc.record.trace, sc.record.done, sc.b);
    assert forall|i: int| 0 <= i < d.stack.len() implies slots[(
    #[trigger] d.stack[i]).offset as int] == m.dropped(n).stack[i] by {
        assert(d.stack[i] == st.stack[i]);
    }
    lemma_restack_agrees(sc, st, slots, m, f, d, m.dropped(n), frame_dropped(f, n));
    let ins = st.stack.skip(st.stack.len() - n);
    assert forall|i: int| 0 <= i < n implies #[trigger] slot_values(slots, ins)[i] == m.top(
        n,
    )[i] by {
        assert(ins[i] == st.stack[st.stack.len() - n + i]);
    }
    assert(slot_values(slots, ins) =~= m.top(n));
}

/// An item that is settled goes on the stack.
proof fn lemma_pushed_agrees(
    sc: Scene,
    st: LowerView,
    slots: Seq<Val128>,
    m: Machine,
    f: FrameView,
    x: ValId,
    f1: FrameView,
)
    requires
        sc.agrees(st, slots, m, f),
        settled(
            st.ssa,
            with_nodes(sc.record.trace, st.nodes, sc.graph().cfg.level(BlockId(sc.b as u32))),
            x,
            sc.graph().cfg.level(BlockId(sc.b as u32)),
        ),
        f1.locals == f.locals,
        f1.stack.len() == f.stack.len() + 1,
    ensures
        sc.agrees(st.pushed(x), slots, m.pushed(slots[x.offset as int]), f1),
{
    let p = st.pushed(x);
    let m1 = m.pushed(slots[x.offset as int]);
    lemma_pushed_lowers(sc.graph(), st, sc.record.trace, sc.record.done, sc.b, x);
    assert forall|i: int| 0 <= i < p.stack.len() implies slots[(
    #[trigger] p.stack[i]).offset as int] == m1.stack[i] by {
        if i < st.stack.len() {
            assert(p.stack[i] == st.stack[i]);
        }
    }
    lemma_restack_agrees(sc, st, slots, m, f, p, m1, f1);
}

/// A node over the topmost items runs.
proof fn lemma_consumed_runs(
    sc: Scene,
    st: LowerView,
    slots: Seq<Val128>,
    m: Machine,
    f: FrameView,
    n: int,
    op: Op,
    ty: Tag,
    effect: Effect,
)
    requires
        sc.wf(),
        sc.agrees(st, slots, m, f),
        0 <= n <= st.stack.len(),
        st.dropped(n).noded(op, st.stack.skip(st.stack.len() - n), ty, effect) is Ok,
        on_the_way(
            sc,
            (st.dropped(n).noded(op, st.stack.skip(st.stack.len() - n), ty, effect)->Ok_0).1,
        ),
    ensures
        ({
            let (x, e) = st.dropped(n).noded(
                op,
                st.stack.skip(st.stack.len() - n),
                ty,
                effect,
            )->Ok_0;
            let level = sc.graph().cfg.level(BlockId(sc.b as u32));
            let run = nodes_run(sc.slots, e.nodes, sc.floats, sc.strings);
            &&& settled(e.ssa, with_nodes(sc.record.trace, e.nodes, level), x, level)
            &&& match operation(sc, op, ty, m.top(n)) {
                Err(err) => run == Err::<Seq<Val128>, ExecError>(err),
                Ok(v) => {
                    &&& run is Ok
                    &&& sc.agrees(e, run->Ok_0, m.dropped(n), frame_dropped(f, n))
                    &&& run->Ok_0[x.offset as int] == v
                },
            }
        }),
{
    let ins = st.stack.skip(st.stack.len() - n);
    let d = st.dropped(n);
    lemma_dropped_agrees(sc, st, slots, m, f, n);
    lemma_noded_runs(sc, d, slots, m.dropped(n), frame_dropped(f, n), op, ins, ty, effect);
}

/// A node whose value takes the place of the topmost items runs.
proof fn lemma_emitted_runs(
    sc: Scene,
    st: LowerView,
    slots: Seq<Val128>,
    m: Machine,
    f: FrameView,
    n: int,
    op: Op,
    ty: Tag,
    effect: Effect,
    pc: u32,
    f1: FrameView,
)
    requires
        sc.wf(),
        sc.agrees(st, slots, m, f),
        0 <= n,
        st.emitted(n, op, ty, effect, pc) is Ok,
        on_the_way(sc, st.emitted(n, op, ty, effect, pc)->Ok_0),
        f1.locals == f.locals,
        f1.stack.len() == f.stack.len() - n + 1,
    ensures
        sc.follows(
            st.emitted(n, op, ty, effect, pc)->Ok_0,
            match operation(sc, op, ty, m.top(n)) {
                Ok(v) => Ok(Moved { to: m.dropped(n).pushed(v), value: None }),
                Err(e) => Err(e),
            },
            f1,
        ),
{
    let ins = st.stack.skip(st.stack.len() - n);
    let (x, e) = st.dropped(n).noded(op, ins, ty, effect)->Ok_0;
    let st1 = st.emitted(n, op, ty, effect, pc)->Ok_0;
    assert(st1 == e.pushed(x));
    lemma_consumed_runs(sc, st, slots, m, f, n, op, ty, effect);
    if let Ok(v) = operation(sc, op, ty, m.top(n)) {
        let after = nodes_run(sc.slots, e.nodes, sc.floats, sc.strings)->Ok_0;
        lemma_pushed_agrees(sc, e, after, m.dropped(n), frame_dropped(f, n), x, f1);
    }
}

/// A branch tests what it should.
proof fn lemma_branched_runs(
    sc: Scene,
    st: LowerView,
    slots: Seq<Val128>,
    m: Machine,
    f: FrameView,
    n: int,
    op: Op,
    ins: Insn,
    f1: FrameView,
)
    requires
        sc.wf(),
        sc.agrees(st, slots, m, f),
        0 <= n,
        !(op is LoadString),
        st.branched(sc.context(), n, op, ins) is Ok,
        on_the_way(sc, st.branched(sc.context(), n, op, ins)->Ok_0),
        f1.locals == f.locals,
        f1.stack.len() == f.stack.len() - n,
    ensures
        sc.follows(
            st.branched(sc.context(), n, op, ins)->Ok_0,
            m.tested(n, op, sc.floats),
            f1,
        ),
{
    let over = st.stack.skip(st.stack.len() - n);
    let (x, e) = st.dropped(n).noded(op, over, Tag::I32, Effect::Pure)->Ok_0;
    let st1 = st.branched(sc.context(), n, op, ins)->Ok_0;
    lemma_consumed_runs(sc, st, slots, m, f, n, op, Tag::I32, Effect::Pure);
    if let Ok(v) = operation(sc, op, Tag::I32, m.top(n)) {
        let after = nodes_run(sc.slots, e.nodes, sc.floats, sc.strings)->Ok_0;
        lemma_restacked(sc.graph(), e, st1, sc.record.trace, sc.record.done, sc.b);
        lemma_restack_agrees(
            sc,
            e,
            after,
            m.dropped(n),
            frame_dropped(f, n),
            st1,
            m.dropped(n),
            f1,
        );
    }
}

/// A local is written.
proof fn lemma_wrote_agrees(
    sc: Scene,
    st: LowerView,
    slots: Seq<Val128>,
    m: Machine,
    f: FrameView,
    v: u16,
    x: ValId,
    f1: FrameView,
)
    requires
        sc.agrees(st, slots, m, f),
        v < sc.vm.max_locals,
        settled(
            st.ssa,
            with_nodes(sc.record.trace, st.nodes, sc.graph().cfg.level(BlockId(sc.b as u32))),
            x,
            sc.graph().cfg.level(BlockId(sc.b as u32)),
        ),
        later(
            sc.graph(),
            st.ssa.wrote(v, BlockId(sc.b as u32), x),
            sc.record.end.ssa,
            sc.b,
        ),
        f1.stack.len() == f.stack.len(),
        forall|u: u16|
            u < sc.vm.max_locals && u != v && #[trigger] live(f1, u, sc.vm.max_locals) ==> live(
                f,
                u,
                sc.vm.max_locals,
            ),
    ensures
        sc.agrees(
            LowerView { ssa: st.ssa.wrote(v, BlockId(sc.b as u32), x), ..st },
            slots,
            Machine { locals: m.locals.update(v as int, slots[x.offset as int]), ..m },
            f1,
        ),
{
    let st1 = LowerView { ssa: st.ssa.wrote(v, BlockId(sc.b as u32), x), ..st };
    let m1 = Machine { locals: m.locals.update(v as int, slots[x.offset as int]), ..m };
    lemma_stored_lowers(sc.graph(), st, sc.record.trace, sc.record.done, sc.b, v, x);
    assert forall|u: u16|
        u < sc.vm.max_locals && #[trigger] live(f1, u, sc.vm.max_locals) implies sc.local_agrees(
        st1,
        slots,
        m1,
        u,
    ) by {
        lemma_key(u, sc.b, v, sc.b);
        if u != v {
            assert(live(f, u, sc.vm.max_locals));
            assert(sc.local_agrees(st, slots, m, u));
        }
    }
}

proof fn lemma_load_runs(
    sc: Scene,
    st: LowerView,
    slots: Seq<Val128>,
    m: Machine,
    f: FrameView,
    v: u16,
    f1: FrameView,
)
    requires
        sc.wf(),
        sc.agrees(st, slots, m, f),
        v < sc.vm.max_locals,
        live(f, v, sc.vm.max_locals),
        st.loaded(sc.context(), v) is Ok,
        on_the_way(sc, st.loaded(sc.context(), v)->Ok_0),
        f1.locals == f.locals,
        f1.stack.len() == f.stack.len() + 1,
    ensures
        sc.agrees(
            st.loaded(sc.context(), v)->Ok_0,
            slots,
            m.pushed(m.locals[v as int]),
            f1,
        ),
{
    lemma_read_agrees(sc, st, slots, m, f, v);
    let (x, s1) = read(st.ssa, sc.graph().cfg, v, BlockId(sc.b as u32))->Ok_0;
    lemma_pushed_agrees(sc, LowerView { ssa: s1, ..st }, slots, m, f, x, f1);
}

proof fn lemma_store_runs(
    sc: Scene,
    st: LowerView,
    slots: Seq<Val128>,
    m: Machine,
    f: FrameView,
    v: u16,
    pc: u32,
    f1: FrameView,
)
    requires
        sc.wf(),
        sc.agrees(st, slots, m, f),
        v < sc.vm.max_locals,
        st.stored(sc.context(), v, pc) is Ok,
        on_the_way(sc, st.stored(sc.context(), v, pc)->Ok_0),
        f1.stack.len() == f.stack.len() - 1,
        forall|u: u16|
            u < sc.vm.max_locals && u != v && #[trigger] live(f1, u, sc.vm.max_locals) ==> live(
                f,
                u,
                sc.vm.max_locals,
            ),
    ensures
        sc.agrees(
            st.stored(sc.context(), v, pc)->Ok_0,
            slots,
            Machine { locals: m.locals.update(v as int, m.stack.last()), ..m.dropped(1) },
            f1,
        ),
{
    let x = st.stack.last();
    assert(st.stack[st.stack.len() - 1] == x);
    lemma_dropped_agrees(sc, st, slots, m, f, 1);
    let fd = frame_dropped(f, 1);
    assert forall|u: u16|
        u < sc.vm.max_locals && u != v && #[trigger] live(f1, u, sc.vm.max_locals) implies live(
        fd,
        u,
        sc.vm.max_locals,
    ) by {
        assert(live(f, u, sc.vm.max_locals));
    }
    lemma_wrote_agrees(sc, st.dropped(1), slots, m.dropped(1), fd, v, x, f1);
}

#[verifier::rlimit(40)]
proof fn lemma_increment_runs(
    sc: Scene,
    st: LowerView,
    slots: Seq<Val128>,
    m: Machine,
    f: FrameView,
    ins: Insn,
)
    requires
        sc.wf(),
        sc.agrees(st, slots, m, f),
        lowering_of(ins) is Increment,
        inc_local(ins) < sc.vm.max_locals,
        live(f, inc_local(ins), sc.vm.max_locals),
        st.incremented(sc.context(), ins) is Ok,
        on_the_way(sc, st.incremented(sc.context(), ins)->Ok_0),
    ensures
        sc.follows(
            st.incremented(sc.context(), ins)->Ok_0,
            meaning(m, ins, sc.pool, sc.floats, sc.strings),
            f,
        ),
{
    let g = sc.graph();
    let (t, done, b) = (sc.record.trace, sc.record.done, sc.b);
    let v = inc_local(ins);
    let by = Val128::from_i32(inc_delta(ins));
    lemma_operations_do_what_instructions_mean(m, ins, sc.pool, sc.floats, sc.strings);
    let op = Op::Const(by);
    let end = sc.record.end;
    let (cur, s1) = read(st.ssa, g.cfg, v, BlockId(b as u32))->Ok_0;
    let st1 = LowerView { ssa: s1, ..st };
    let (k, st2) = st1.noded(op, Seq::empty(), Tag::I32, Effect::Pure)->Ok_0;
    let both = seq![cur, k];
    let (r, st3) = st2.noded(Op::Add, both, Tag::I32, Effect::Pure)->Ok_0;
    let st4 = LowerView { ssa: st3.ssa.wrote(v, BlockId(b as u32), r), ..st3 };
    assert(st.incremented(sc.context(), ins) == Ok::<LowerView, IrError>(st4));
    // Every state on the way comes before the end.
    lemma_read_lowers(g, st, t, done, b, v);
    lemma_node_tracks(g, st1, t, done, b, op, Seq::empty(), Tag::I32, Effect::Pure);
    lemma_node_tracks(g, st2, t, done, b, Op::Add, both, Tag::I32, Effect::Pure);
    lemma_stored_lowers(g, st3, t, done, b, v, r);
    lemma_later_trans(g, st3.ssa, st4.ssa, end.ssa, b);
    lemma_later_trans(g, st2.ssa, st3.ssa, end.ssa, b);
    lemma_later_trans(g, st1.ssa, st2.ssa, end.ssa, b);
    assert(st2.nodes.is_prefix_of(end.nodes));
    lemma_read_agrees(sc, st, slots, m, f, v);
    lemma_noded_runs(sc, st1, slots, m, f, op, Seq::empty(), Tag::I32, Effect::Pure);
    let n2 = NodeView { id: k, op, ins: Seq::empty(), ty: Tag::I32, effect: Effect::Pure };
    assert(node_value(n2, slots, sc.floats, sc.strings) == Ok::<Val128, ExecError>(by));
    let slots2 = slots.update(k.offset as int, by);
    assert(slots2[cur.offset as int] == m.locals[v as int]) by {
        assert(cur.offset < s1.next);
    }
    lemma_noded_runs(sc, st2, slots2, m, f, Op::Add, both, Tag::I32, Effect::Pure);
    assert(slot_values(slots2, both) =~= seq![m.locals[v as int], by]);
    if let Ok(w) = computed(Op::Add, Tag::I32, seq![m.locals[v as int], by], sc.floats) {
        let slots3 = slots2.update(r.offset as int, w);
        lemma_wrote_agrees(sc, st3, slots3, m, f, v, r, f);
    }
}

/// An instruction with a plain stack effect runs.
#[verifier::rlimit(40)]
proof fn lemma_plain_runs(sc: Scene, st: LowerView, slots: Seq<Val128>, m: Machine, k: int)
    requires
        sc.wf(),
        0 <= k < sc.vm.insns.len(),
        stack_rule(sc.vm.insns[k].op) is Some,
        sc.agrees(st, slots, m, state_at(sc.vm, sc.pool, k)),
        lowered(st, sc.context(), sc.vm.insns[k]) is Ok,
        on_the_way(sc, lowered(st, sc.context(), sc.vm.insns[k])->Ok_0),
    ensures
        sc.follows(
            lowered(st, sc.context(), sc.vm.insns[k])->Ok_0,
            meaning(m, sc.vm.insns[k], sc.pool, sc.floats, sc.strings),
            state_after(sc.vm, sc.pool, k),
        ),
{
    let ins = sc.vm.insns[k];
    let (f, f1) = (state_at(sc.vm, sc.pool, k), state_after(sc.vm, sc.pool, k));
    let st1 = lowered(st, sc.context(), ins)->Ok_0;
    lemma_operations_do_what_instructions_mean(m, ins, sc.pool, sc.floats, sc.strings);
    lemma_steps_checked(sc.vm, sc.pool, k);
    lemma_rule_matches(ins);
    lemma_operated_depth(f, ins.op, sc.vm.max_stack, ins.pc);
    lemma_not_a_string(ins);
    match lowering_of(ins) {
        Lowering::Const(v) => {
            lemma_emitted_runs(
                sc,
                st,
                slots,
                m,
                f,
                0,
                Op::Const(v),
                v.tag(),
                Effect::Pure,
                ins.pc,
                f1,
            );
            assert(m.dropped(0).stack =~= m.stack);
        },
        Lowering::Unary { op, ty, effect } => {
            lemma_emitted_runs(sc, st, slots, m, f, 1, op, ty, effect, ins.pc, f1);
        },
        Lowering::Binary { op, ty, effect } => {
            lemma_emitted_runs(sc, st, slots, m, f, 2, op, ty, effect, ins.pc, f1);
        },
        Lowering::BranchOnOne(op) => {
            lemma_branched_runs(sc, st, slots, m, f, 1, op, ins, f1);
        },
        Lowering::BranchOnTwo(op) => {
            lemma_branched_runs(sc, st, slots, m, f, 2, op, ins, f1);
        },
        _ => {
            lemma_restacked(sc.graph(), st, st1, sc.record.trace, sc.record.done, sc.b);
            lemma_restack_agrees(sc, st, slots, m, f, st1, m, f1);
        },
    }
}

/// No plain stack effect is lowered to the loading of a string.
proof fn lemma_not_a_string(ins: Insn)
    requires
        stack_rule(ins.op) is Some,
    ensures
        match lowering_of(ins) {
            Lowering::Unary { op, .. } => !(op is LoadString),
            Lowering::Binary { op, .. } => !(op is LoadString),
            Lowering::BranchOnOne(op) => !(op is LoadString),
            Lowering::BranchOnTwo(op) => !(op is LoadString),
            _ => true,
        },
{
    lemma_rule_matches(ins);
}

/// An instruction's nodes compute what the instruction means.
#[verifier::rlimit(40)]
proof fn lemma_lowered_runs(sc: Scene, st: LowerView, slots: Seq<Val128>, m: Machine, k: int)
    requires
        sc.wf(),
        0 <= k < sc.vm.insns.len(),
        sc.agrees(st, slots, m, state_at(sc.vm, sc.pool, k)),
        lowered(st, sc.context(), sc.vm.insns[k]) is Ok,
        on_the_way(sc, lowered(st, sc.context(), sc.vm.insns[k])->Ok_0),
    ensures
        sc.follows(
            lowered(st, sc.context(), sc.vm.insns[k])->Ok_0,
            meaning(m, sc.vm.insns[k], sc.pool, sc.floats, sc.strings),
            state_after(sc.vm, sc.pool, k),
        ),
{
    let ins = sc.vm.insns[k];
    let (f, f1) = (state_at(sc.vm, sc.pool, k), state_after(sc.vm, sc.pool, k));
    let st1 = lowered(st, sc.context(), ins)->Ok_0;
    lemma_operations_do_what_instructions_mean(m, ins, sc.pool, sc.floats, sc.strings);
    lemma_steps_checked(sc.vm, sc.pool, k);
    lemma_other_matches(ins);
    if stack_rule(ins.op) is Some {
        lemma_plain_runs(sc, st, slots, m, k);
    } else if load_of(ins) is Some {
        let (var, t) = load_of(ins)->0;
        assert(live(f, var, sc.vm.max_locals));
        lemma_load_runs(sc, st, slots, m, f, var, f1);
    } else if store_of(ins) is Some {
        let (var, t) = store_of(ins)->0;
        lemma_store_runs(sc, st, slots, m, f, var, ins.pc, f1);
    } else if 0x12 <= ins.op <= 0x14 {
        assert(m.dropped(0).stack =~= m.stack);
        if is_string_constant(sc.pool, ins.arg) {
            let op = Op::LoadString(ins.arg as u16);
            lemma_emitted_runs(
                sc,
                st,
                slots,
                m,
                f,
                0,
                op,
                Tag::Ptr,
                Effect::ReadHeap,
                ins.pc,
                f1,
            );
        } else {
            let v = numeric_constant(sc.pool, ins.arg)->0;
            lemma_emitted_runs(
                sc,
                st,
                slots,
                m,
                f,
                0,
                Op::Const(v),
                v.tag(),
                Effect::Pure,
                ins.pc,
                f1,
            );
        }
    } else if ins.op == 0x84 {
        assert(live(f, inc_local(ins), sc.vm.max_locals));
        lemma_increment_runs(sc, st, slots, m, f, ins);
    } else {
        lemma_dropped_agrees(sc, st, slots, m, f, 1);
        let d = st.dropped(1);
        lemma_restacked(sc.graph(), d, st1, sc.record.trace, sc.record.done, sc.b);
        lemma_restack_agrees(
            sc,
            d,
            slots,
            m.dropped(1),
            frame_dropped(f, 1),
            st1,
            m.dropped(1),
            f1,
        );
        assert(st.stack[st.stack.len() - 1] == st.stack.last());
    }
}

/// The nodes of a block's instructions from position `j` on compute what the instructions mean.
proof fn lemma_lowered_from_runs(
    sc: Scene,
    st: LowerView,
    slots: Seq<Val128>,
    m: Machine,
    j: int,
)
    requires
        sc.wf(),
        0 <= j < sc.graph().parts[sc.b].len(),
        sc.agrees(
            st,
            slots,
            m,
            state_at(sc.vm, sc.pool, bound(sc.vm.insns, leaders_of(sc.vm.insns), sc.b) + j),
        ),
        lowered_from(st, sc.context(), sc.graph().parts[sc.b], j) is Ok,
        on_the_way(sc, lowered_from(st, sc.context(), sc.graph().parts[sc.b], j)->Ok_0),
    ensures
        sc.follows(
            lowered_from(st, sc.context(), sc.graph().parts[sc.b], j)->Ok_0,
            block_meaning(m, sc.graph().parts[sc.b], j, sc.pool, sc.floats, sc.strings),
            out_state(sc.vm, sc.pool, sc.b),
        ),
    decreases sc.graph().parts[sc.b].len() - j,
{
    let (vm, pool, b) = (sc.vm, sc.pool, sc.b);
    let insns = vm.insns;
    let g = sc.graph();
    let leaders = leaders_of(insns);
    let part = g.parts[b];
    let ctx = sc.context();
    let (t, done) = (sc.record.trace, sc.record.done);
    lemma_parts(vm, pool, b);
    lemma_bound(vm, pool, b);
    lemma_bounds_increase(vm, pool, b, b + 1);
    if b + 1 < leaders.len() {
        lemma_bound(vm, pool, b + 1);
    }
    let k = bound(insns, leaders, b) + j;
    assert(part[j] == insns[k]);
    let st1 = lowered(st, ctx, part[j])->Ok_0;
    let last = lowered_from(st, ctx, part, j)->Ok_0;
    assert(last == lowered_from(st1, ctx, part, j + 1)->Ok_0);
    lemma_lowered_lowers(g, st, ctx, t, done, b, part[j]);
    lemma_lowered_from_lowers(g, st1, ctx, t, done, b, part, j + 1);
    lemma_later_trans(g, st1.ssa, last.ssa, sc.record.end.ssa, b);
    lemma_lowered_runs(sc, st, slots, m, k);
    let r = meaning(m, part[j], pool, sc.floats, sc.strings);
    if r is Err {
        lemma_failed_run(sc.slots, st1.nodes, last.nodes, sc.floats, sc.strings);
    } else if j + 1 < part.len() {
        let moved = r->Ok_0;
        let after = nodes_run(sc.slots, st1.nodes, sc.floats, sc.strings)->Ok_0;
        lemma_inside_falls_through(vm, pool, b, k);
        lemma_steps_checked(vm, pool, k);
        lemma_steps_checked(vm, pool, k + 1);
        let (f, f1) = (state_after(vm, pool, k), state_at(vm, pool, k + 1));
        assert(flow_at(vm, pool, k + 1) == Some(f));
        lemma_entered_live(f, vm.frames, insns[k + 1].pc, vm.max_locals, 0);
        assert forall|v: u16|
            v < vm.max_locals && #[trigger] live(f1, v, vm.max_locals) implies sc.local_agrees(
            st1,
            after,
            moved.to,
            v,
        ) by {
            lemma_entered_live(f, vm.frames, insns[k + 1].pc, vm.max_locals, v);
            assert(live(f, v, vm.max_locals));
        }
        lemma_lowered_from_runs(sc, st1, after, moved.to, j + 1);
    } else {
        assert(k == bound(insns, leaders, b + 1) - 1);
        assert(lowered_from(st1, ctx, part, j + 1) == Ok::<LowerView, IrError>(st1));
    }
}

/// The stack that a block is entered with is read from the variables of its positions.
proof fn lemma_entered_from_runs(sc: Scene, st: LowerView, s: int)
    requires
        sc.wf(),
        0 <= s <= sc.from.stack.len(),
        sc.agrees(
            st,
            sc.slots,
            Machine { stack: sc.from.stack.take(s), ..sc.from },
            partly_entered(in_state(sc.vm, sc.pool, sc.b), s),
        ),
        forall|v: u16|
            v >= sc.vm.max_locals + s ==> !st.ssa.defs.contains_key(#[trigger] key(v, sc.b)),
        entered_from(st, sc.context(), s, sc.from.stack.len() as int) is Ok,
        on_the_way(sc, entered_from(st, sc.context(), s, sc.from.stack.len() as int)->Ok_0),
    ensures
        sc.agrees(
            entered_from(st, sc.context(), s, sc.from.stack.len() as int)->Ok_0,
            sc.slots,
            sc.from,
            in_state(sc.vm, sc.pool, sc.b),
        ),
    decreases sc.from.stack.len() - s,
{
    let g = sc.graph();
    let f = in_state(sc.vm, sc.pool, sc.b);
    let depth = sc.from.stack.len() as int;
    let ctx = sc.context();
    let (t, done, b) = (sc.record.trace, sc.record.done, sc.b);
    let m = Machine { stack: sc.from.stack.take(s), ..sc.from };
    if s < depth {
        let var = stack_variable(sc.vm.max_locals, s)->Ok_0;
        let st1 = st.loaded(ctx, var)->Ok_0;
        let last = entered_from(st, ctx, s, depth)->Ok_0;
        let (x, s1) = read(st.ssa, g.cfg, var, BlockId(b as u32))->Ok_0;
        assert(last == entered_from(st1, ctx, s + 1, depth)->Ok_0);
        lemma_loaded_lowers(g, st, ctx, t, done, b, var);
        lemma_entered_from_lowers(g, st1, ctx, t, done, b, s + 1, depth);
        lemma_later_trans(g, st1.ssa, last.ssa, sc.record.end.ssa, b);
        lemma_read_agrees(sc, st, sc.slots, m, partly_entered(f, s), var);
        lemma_read_lowers(g, st, t, done, b, var);
        assert(live_in(sc.vm, sc.pool, b, var));
        assert(sc.slots[x.offset as int] == sc.from.stack[s]);
        lemma_pushed_agrees(
            sc,
            LowerView { ssa: s1, ..st },
            sc.slots,
            m,
            partly_entered(f, s),
            x,
            partly_entered(f, s + 1),
        );
        assert(m.pushed(sc.from.stack[s]).stack =~= sc.from.stack.take(s + 1));
        lemma_entered_from_runs(sc, st1, s + 1);
    } else {
        assert(sc.from.stack.take(s) =~= sc.from.stack);
        assert(partly_entered(f, s).stack =~= f.stack);
    }
}

/// What noting the stack that a block is left with adds.
proof fn lemma_left_defines(
    ssa: SsaView,
    ctx: ContextView,
    stack: Seq<ValId>,
    s: int,
    b: int,
    v: u16,
)
    requires
        ctx.block == BlockId(b as u32),
        0 <= b <= u32::MAX,
        0 <= s <= stack.len(),
        left_from(ssa, ctx, stack, s) is Ok,
    ensures
        ({
            let s1 = left_from(ssa, ctx, stack, s)->Ok_0;
            if ctx.max_locals + s <= v < ctx.max_locals + stack.len() {
                s1.defs.contains_key(key(v, b)) && s1.defs[key(v, b)] == stack[v - ctx.max_locals]
            } else {
                &&& s1.defs.contains_key(key(v, b)) <==> ssa.defs.contains_key(key(v, b))
                &&& ssa.defs.contains_key(key(v, b)) ==> s1.defs[key(v, b)] == ssa.defs[key(v, b)]
            }
        }),
    decreases stack.len() - s,
{
    if s < stack.len() {
        let var = stack_variable(ctx.max_locals, s)->Ok_0;
        lemma_key(v, b, var, b);
        lemma_left_defines(ssa.wrote(var, ctx.block, stack[s]), ctx, stack, s + 1, b, v);
    }
}

/// Whether slots and variables agree where block `b` is left: every variable that has a value there is
/// in the slot of its definition.
pub open spec fn leaves(
    vm: VerifiedView,
    pool: PoolView,
    ssa: SsaView,
    b: int,
    slots: Seq<Val128>,
    m: Machine,
) -> bool {
    &&& m.locals.len() == vm.max_locals
    &&& m.stack.len() == out_state(vm, pool, b).stack.len()
    &&& slots.len() >= ssa.next
    &&& forall|v: u16|
        live_out(vm, pool, b, v) && ssa.defs.contains_key(#[trigger] key(v, b))
            ==> slots[ssa.defs[key(v, b)].offset as int] == var_value(m, v, vm.max_locals)
}

/// Before anything is lowered, slots and locals agree.
proof fn lemma_start_agrees(sc: Scene)
    requires
        sc.wf(),
    ensures
        sc.agrees(
            block_start(sc.record.start),
            sc.slots,
            Machine { stack: sc.from.stack.take(0), ..sc.from },
            partly_entered(in_state(sc.vm, sc.pool, sc.b), 0),
        ),
{
    let g = sc.graph();
    let r = sc.record;
    let start = block_start(r.start);
    let f = in_state(sc.vm, sc.pool, sc.b);
    let m = Machine { stack: sc.from.stack.take(0), ..sc.from };
    lemma_block_lowers(
        g,
        r.start,
        sc.context(),
        r.trace,
        r.done,
        sc.b,
        g.parts[sc.b],
        f.stack.len() as int,
    );
    lemma_start_lowers(g, r.start, r.trace, r.done, sc.b);
    assert forall|v: u16|
        v < sc.vm.max_locals && #[trigger] live(
            partly_entered(f, 0),
            v,
            sc.vm.max_locals,
        ) implies sc.local_agrees(start, sc.slots, m, v) by {
        assert(live_in(sc.vm, sc.pool, sc.b, v));
        if r.start.defs.contains_key(key(v, sc.b)) {
            assert(sc.enters_as(v, r.start.defs[key(v, sc.b)]));
        }
    }
}

/// A variable that the block's own code leaves undefined is left as it was entered.
proof fn lemma_left_variable(sc: Scene, st: LowerView, slots: Seq<Val128>, m: Machine, v: u16)
    requires
        sc.wf(),
        sc.agrees(st, slots, m, out_state(sc.vm, sc.pool, sc.b)),
        left_from(st.ssa, sc.context(), st.stack, 0) == Ok::<SsaView, IrError>(sc.record.end.ssa),
        live_out(sc.vm, sc.pool, sc.b, v),
        sc.built.ssa.defs.contains_key(key(v, sc.b)),
    ensures
        slots[sc.built.ssa.defs[key(v, sc.b)].offset as int] == var_value(
            m,
            v,
            sc.vm.max_locals,
        ),
{
    let g = sc.graph();
    let b = sc.b;
    let f = out_state(sc.vm, sc.pool, b);
    let end = sc.record.end;
    let x = sc.built.ssa.defs[key(v, b)];
    lemma_left_defines(st.ssa, sc.context(), st.stack, 0, b, v);
    assert(definition_ok(g, sc.built.ssa, sc.trace, sc.built.processed, -1, b, v));
    if v < sc.vm.max_locals {
        assert(live(f, v, sc.vm.max_locals));
        assert(sc.local_agrees(st, slots, m, v));
    }
    if end.ssa.defs.contains_key(key(v, b)) {
        assert(x == end.ssa.defs[key(v, b)]);
        if v >= sc.vm.max_locals {
            assert(x == st.stack[v - sc.vm.max_locals]);
        }
    } else {
        assert(!sc.trace.code.contains_key(key(v, b)));
        assert(sc.enters_as(v, x));
    }
}

/// What running a block's nodes comes to: the failure that its instructions come to, or slots that
/// agree with the locals and the stack that they leave, and the value that the block ends with.
pub open spec fn block_runs(
    vm: VerifiedView,
    pool: PoolView,
    built: BuildView,
    b: int,
    r: Result<Moved, ExecError>,
    run: Result<Seq<Val128>, ExecError>,
) -> bool {
    match r {
        Err(e) => run == Err::<Seq<Val128>, ExecError>(e),
        Ok(moved) => {
            &&& run is Ok
            &&& leaves(vm, pool, built.ssa, b, run->Ok_0, moved.to)
            &&& value_agrees(built.terms[b], run->Ok_0, moved.value)
        },
    }
}

/// A block's nodes compute what its instructions mean.
pub proof fn lemma_block_runs(sc: Scene)
    requires
        sc.wf(),
    ensures
        block_runs(
            sc.vm,
            sc.pool,
            sc.built,
            sc.b,
            block_meaning(
                sc.from,
                sc.graph().parts[sc.b],
                0,
                sc.pool,
                sc.floats,
                sc.strings,
            ),
            nodes_run(sc.slots, sc.built.nodes[sc.b], sc.floats, sc.strings),
        ),
{
    let (vm, pool, b) = (sc.vm, sc.pool, sc.b);
    let g = sc.graph();
    let leaders = leaders_of(vm.insns);
    let r = sc.record;
    let ctx = sc.context();
    let f = in_state(vm, pool, b);
    let part = g.parts[b];
    let depth = f.stack.len() as int;
    let start = block_start(r.start);
    let st = entered_from(start, ctx, 0, depth)->Ok_0;
    let st1 = lowered_from(st, ctx, part, 0)->Ok_0;
    assert(r.end == (LowerView { ssa: left_from(st1.ssa, ctx, st1.stack, 0)->Ok_0, ..st1 }));
    lemma_start_lowers(g, r.start, r.trace, r.done, b);
    lemma_entered_from_lowers(g, start, ctx, r.trace, r.done, b, 0, depth);
    lemma_lowered_from_lowers(g, st, ctx, r.trace, r.done, b, part, 0);
    lemma_left_from_lowers(g, st1, ctx, r.trace, r.done, b, 0);
    lemma_later_trans(g, st.ssa, st1.ssa, r.end.ssa, b);
    lemma_start_agrees(sc);
    assert forall|v: u16| v >= vm.max_locals implies !r.start.defs.contains_key(
        #[trigger] key(v, b),
    ) by {
    }
    lemma_entered_from_runs(sc, start, 0);
    lemma_parts(vm, pool, b);
    lemma_bound(vm, pool, b);
    lemma_bounds_increase(vm, pool, b, b + 1);
    if b + 1 < leaders.len() {
        lemma_bound(vm, pool, b + 1);
    }
    lemma_lowered_from_runs(sc, st, sc.slots, sc.from, 0);
    if let Ok(moved) = block_meaning(sc.from, part, 0, pool, sc.floats, sc.strings) {
        let after = nodes_run(sc.slots, r.end.nodes, sc.floats, sc.strings)->Ok_0;
        assert forall|v: u16|
            live_out(vm, pool, b, v) && sc.built.ssa.defs.contains_key(
                #[trigger] key(v, b),
            ) implies after[sc.built.ssa.defs[key(v, b)].offset as int] == var_value(
            moved.to,
            v,
            vm.max_locals,
        ) by {
            lemma_left_variable(sc, st1, after, moved.to, v);
        }
    }
}

} // verus!
