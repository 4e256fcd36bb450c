//! Static single assignment: every value has at most one definition.

use vstd::prelude::*;
use crate::classfile::constant_pool::PoolView;
use crate::ids::{BlockId, ValId};
use crate::ir::{BlockView, BuiltView, Effect, NodeView, Op, PhiView};
use crate::ssa::accepted::lemma_graph_sound;
use crate::ssa::cfg::ids_below;
use crate::ssa::escape::marked;
use crate::ssa::lower::{
    block_lowered, callee_types, entered_from, field_tag, inc_delta, left_from, lowered,
    lowered_from, lowering_of, numeric_constant, result_tag, stack_variable, ContextView, LowerView,
    Lowering,
};
use crate::ssa::state::{completed, operands, read, seal, CfgView, PhiDefView, SsaView};
use crate::ssa::{
    args_bound, assembled, built, coded, context_of, entry_depth, graph_of, phis_of, processed_from,
    processed_one, sealable, sealed_ready, unbuilt, BuildView, GraphView,
};
use crate::value::{Tag, Val128};
use crate::verify::insn::Insn;
use crate::verify::typecheck::inc_local;
use crate::verify::vtype::VType;
use crate::verify::{initial_items, VerifiedView};

verus! {

/// How often a list names the value with offset `o`.
pub open spec fn occurrences(s: Seq<ValId>, o: u16) -> nat
    decreases s.len(),
{
    if s.len() == 0 {
        0
    } else {
        occurrences(s.drop_last(), o) + (if s.last().offset == o {
            1nat
        } else {
            0
        })
    }
}

/// The values that φ define.
pub open spec fn slots_of(phis: Seq<PhiView>) -> Seq<ValId> {
    Seq::new(phis.len(), |i: int| phis[i].slot)
}

/// The values that nodes define.
pub open spec fn ids_of(nodes: Seq<NodeView>) -> Seq<ValId> {
    Seq::new(nodes.len(), |i: int| nodes[i].id)
}

/// How often the first `k` blocks define the value with offset `o`.
pub open spec fn block_definitions(blocks: Seq<BlockView>, k: nat, o: u16) -> nat
    decreases k,
{
    if k == 0 {
        0
    } else {
        block_definitions(blocks, (k - 1) as nat, o) + occurrences(
            slots_of(blocks[k - 1].phis),
            o,
        ) + occurrences(ids_of(blocks[k - 1].nodes), o)
    }
}

impl BuiltView {
    /// How often the method defines the value with offset `o`: as an argument, by a φ or by a node.
    pub open spec fn definitions(self, o: u16) -> nat {
        occurrences(self.arg_vals, o) + block_definitions(
            self.method.blocks,
            self.method.blocks.len(),
            o,
        )
    }

    /// Every value has at most one definition.
    pub open spec fn defined_once(self) -> bool {
        forall|o: u16| #[trigger] self.definitions(o) <= 1
    }
}

/// The values of φ under construction.
pub open spec fn phi_vals(phis: Seq<PhiDefView>) -> Seq<ValId> {
    Seq::new(phis.len(), |i: int| phis[i].val)
}

/// 1 for an offset handed out between two states, else 0.
pub open spec fn handed_out(o: u16, from: u16, to: u16) -> nat {
    if from <= o < to {
        1
    } else {
        0
    }
}

/// How often a state's φ define the value with offset `o`.
pub open spec fn ssa_definitions(s: SsaView, o: u16) -> nat {
    occurrences(phi_vals(s.phis), o)
}

/// Whether a later state defines at most the values handed out in between, and each of them once.
pub open spec fn ssa_goes_on(a: SsaView, b: SsaView) -> bool {
    &&& a.next <= b.next
    &&& a.phis.len() <= b.phis.len()
    &&& forall|o: u16|
        #![trigger ssa_definitions(b, o)]
        ssa_definitions(b, o) <= ssa_definitions(a, o) + handed_out(o, a.next, b.next)
}

/// The graph's blocks are known to a state, and its incomplete φ exist.
pub open spec fn shaped(s: SsaView, cfg: CfgView) -> bool {
    &&& ids_below(cfg.preds, cfg.preds.len() as int)
    &&& s.incomplete.len() == cfg.preds.len()
    &&& forall|b: int, j: int|
        0 <= b < s.incomplete.len() && 0 <= j < s.incomplete[b].len() ==> (
        #[trigger] s.incomplete[b][j]) < s.phis.len()
    &&& forall|i: int|
        0 <= i < s.phis.len() ==> (#[trigger] s.phis[i]).block.0 < cfg.preds.len()
}

proof fn lemma_push_occurrences(s: Seq<ValId>, v: ValId, o: u16)
    ensures
        occurrences(s.push(v), o) == occurrences(s, o) + (if v.offset == o {
            1nat
        } else {
            0
        }),
{
    assert(s.push(v).drop_last() =~= s);
}

proof fn lemma_same_phis(a: SsaView, b: SsaView)
    requires
        phi_vals(a.phis) == phi_vals(b.phis),
        a.next <= b.next,
        a.phis.len() <= b.phis.len(),
    ensures
        ssa_goes_on(a, b),
{
}

proof fn lemma_ssa_trans(a: SsaView, b: SsaView, c: SsaView)
    requires
        ssa_goes_on(a, b),
        ssa_goes_on(b, c),
    ensures
        ssa_goes_on(a, c),
{
    assert forall|o: u16|
        #![trigger ssa_definitions(c, o)]
        ssa_definitions(c, o) <= ssa_definitions(a, o) + handed_out(o, a.next, c.next) by {
        assert(ssa_definitions(b, o) <= ssa_definitions(a, o) + handed_out(o, a.next, b.next));
    }
}

proof fn lemma_with_phi(s: SsaView, cfg: CfgView, block: BlockId, var: u16)
    requires
        shaped(s, cfg),
        block.0 < cfg.preds.len(),
    ensures
        s.with_phi(block, var) matches Ok((v, s1)) ==> ssa_goes_on(s, s1) && shaped(s1, cfg)
            && s1.next == s.next + 1 && s1.phis.len() == s.phis.len() + 1,
{
    if let Ok((v, s1)) = s.with_phi(block, var) {
        assert(phi_vals(s1.phis) =~= phi_vals(s.phis).push(v));
        assert forall|o: u16|
            #![trigger ssa_definitions(s1, o)]
            ssa_definitions(s1, o) <= ssa_definitions(s, o) + handed_out(
                o,
                s.next,
                s1.next,
            ) by {
            lemma_push_occurrences(phi_vals(s.phis), v, o);
        }
    }
}

proof fn lemma_with_source(s: SsaView, cfg: CfgView, idx: int, pred: BlockId, val: ValId)
    requires
        shaped(s, cfg),
        0 <= idx < s.phis.len(),
    ensures
        ssa_goes_on(s, s.with_source(idx, pred, val)),
        shaped(s.with_source(idx, pred, val), cfg),
        s.with_source(idx, pred, val).next == s.next,
{
    let s1 = s.with_source(idx, pred, val);
    assert(phi_vals(s1.phis) =~= phi_vals(s.phis));
}

proof fn lemma_read_goes_on(s: SsaView, cfg: CfgView, var: u16, block: BlockId)
    requires
        shaped(s, cfg),
        block.0 < cfg.preds.len(),
    ensures
        read(s, cfg, var, block) matches Ok((v, s1)) ==> ssa_goes_on(s, s1) && shaped(s1, cfg),
    decreases 0x1_0000 - s.next, cfg.level(block), 0int,
{
    let key = crate::ssa::state::var_key(var, block);
    let b = block.0 as int;
    lemma_with_phi(s, cfg, block, var);
    if s.defs.contains_key(key) {
    } else if !s.sealed[b] {
        if let Ok((val, s1)) = s.with_phi(block, var) {
            let s2 = s1.waiting(block).wrote(var, block, val);
            assert(phi_vals(s2.phis) == phi_vals(s1.phis));
            lemma_same_phis(s1, s2);
            lemma_ssa_trans(s, s1, s2);
            assert forall|c: int, j: int|
                0 <= c < s2.incomplete.len() && 0 <= j < s2.incomplete[c].len() implies (
            #[trigger] s2.incomplete[c][j]) < s2.phis.len() by {
                if c == b && j == s1.incomplete[b].len() {
                } else {
                    assert(s1.incomplete[c][j] < s1.phis.len());
                }
            }
        }
    } else if cfg.preds[b].len() == 0 {
    } else if cfg.preds[b].len() == 1 {
        assert(cfg.preds[b][0].0 < cfg.preds.len());
        if cfg.level(cfg.preds[b][0]) < cfg.level(block) {
            lemma_read_goes_on(s, cfg, var, cfg.preds[b][0]);
            if let Ok((val, s1)) = read(s, cfg, var, cfg.preds[b][0]) {
                let s2 = s1.wrote(var, block, val);
                lemma_same_phis(s1, s2);
                lemma_ssa_trans(s, s1, s2);
            }
        }
    } else {
        if let Ok((val, s1)) = s.with_phi(block, var) {
            let s2 = s1.wrote(var, block, val);
            lemma_same_phis(s1, s2);
            lemma_ssa_trans(s, s1, s2);
            assert forall|k: int| 0 <= k < cfg.preds[b].len() implies (
            #[trigger] cfg.preds[b][k]).0 < cfg.preds.len() by {}
            lemma_operands_go_on(s2, cfg, s.phis.len() as int, var, cfg.preds[b], 0);
            if let Ok(s3) = operands(s2, cfg, s.phis.len() as int, var, cfg.preds[b], 0) {
                lemma_ssa_trans(s, s2, s3);
                let s4 = s3.wrote(var, block, val);
                lemma_same_phis(s3, s4);
                lemma_ssa_trans(s, s3, s4);
            }
        }
    }
}

proof fn lemma_operands_go_on(
    s: SsaView,
    cfg: CfgView,
    idx: int,
    var: u16,
    from: Seq<BlockId>,
    k: int,
)
    requires
        shaped(s, cfg),
        0 <= idx < s.phis.len(),
        0 <= k,
        forall|i: int| 0 <= i < from.len() ==> (#[trigger] from[i]).0 < cfg.preds.len(),
    ensures
        operands(s, cfg, idx, var, from, k) matches Ok(s1) ==> ssa_goes_on(s, s1) && shaped(
            s1,
            cfg,
        ),
    decreases 0x1_0000 - s.next, cfg.rank.len() + 1, from.len() - k,
{
    if k < from.len() {
        lemma_read_goes_on(s, cfg, var, from[k]);
        if let Ok((val, s1)) = read(s, cfg, var, from[k]) {
            let s2 = s1.with_source(idx, from[k], val);
            lemma_with_source(s1, cfg, idx, from[k], val);
            lemma_ssa_trans(s, s1, s2);
            lemma_operands_go_on(s2, cfg, idx, var, from, k + 1);
            if let Ok(s3) = operands(s2, cfg, idx, var, from, k + 1) {
                lemma_ssa_trans(s, s2, s3);
            }
        }
    }
}

proof fn lemma_completed_goes_on(s: SsaView, cfg: CfgView, list: Seq<usize>, j: int)
    requires
        shaped(s, cfg),
        0 <= j,
        forall|i: int| 0 <= i < list.len() ==> (#[trigger] list[i]) < s.phis.len(),
    ensures
        completed(s, cfg, list, j) matches Ok(s1) ==> ssa_goes_on(s, s1) && shaped(s1, cfg),
    decreases list.len() - j,
{
    if j < list.len() {
        let idx = list[j] as int;
        let from = cfg.preds[s.phis[idx].block.0 as int];
        assert(s.phis[idx].block.0 < cfg.preds.len());
        assert forall|k: int| 0 <= k < from.len() implies (#[trigger] from[k]).0
            < cfg.preds.len() by {}
        lemma_operands_go_on(s, cfg, idx, s.phis[idx].var, from, 0);
        if let Ok(s1) = operands(s, cfg, idx, s.phis[idx].var, from, 0) {
            lemma_completed_goes_on(s1, cfg, list, j + 1);
            if let Ok(s2) = completed(s1, cfg, list, j + 1) {
                lemma_ssa_trans(s, s1, s2);
            }
        }
    }
}

proof fn lemma_seal_goes_on(s: SsaView, cfg: CfgView, block: BlockId)
    requires
        shaped(s, cfg),
        block.0 < cfg.preds.len(),
    ensures
        seal(s, cfg, block) matches Ok(s1) ==> ssa_goes_on(s, s1) && shaped(s1, cfg),
{
    let b = block.0 as int;
    let s0 = SsaView { incomplete: s.incomplete.update(b, Seq::empty()), ..s };
    assert forall|c: int, j: int|
        0 <= c < s0.incomplete.len() && 0 <= j < s0.incomplete[c].len() implies (
    #[trigger] s0.incomplete[c][j]) < s0.phis.len() by {
        if c != b {
            assert(s.incomplete[c][j] < s.phis.len());
        }
    }
    assert forall|i: int| 0 <= i < s.incomplete[b].len() implies (
    #[trigger] s.incomplete[b][i]) < s0.phis.len() by {}
    lemma_same_phis(s, s0);
    lemma_completed_goes_on(s0, cfg, s.incomplete[b], 0);
    if let Ok(s1) = completed(s0, cfg, s.incomplete[b], 0) {
        let s2 = SsaView { sealed: s1.sealed.update(b, true), ..s1 };
        lemma_same_phis(s1, s2);
        lemma_ssa_trans(s, s0, s1);
        lemma_ssa_trans(s, s1, s2);
    }
}

/// How often a block being lowered defines the value with offset `o`, by φ or by its nodes.
pub open spec fn lower_definitions(l: LowerView, o: u16) -> nat {
    ssa_definitions(l.ssa, o) + occurrences(ids_of(l.nodes), o)
}

/// Whether a later state defines at most the values handed out in between, and each of them once.
pub open spec fn lower_goes_on(a: LowerView, b: LowerView) -> bool {
    &&& a.ssa.next <= b.ssa.next
    &&& forall|o: u16|
        #![trigger lower_definitions(b, o)]
        lower_definitions(b, o) <= lower_definitions(a, o) + handed_out(
            o,
            a.ssa.next,
            b.ssa.next,
        )
}

proof fn lemma_lower_trans(a: LowerView, b: LowerView, c: LowerView)
    requires
        lower_goes_on(a, b),
        lower_goes_on(b, c),
    ensures
        lower_goes_on(a, c),
{
    assert forall|o: u16|
        #![trigger lower_definitions(c, o)]
        lower_definitions(c, o) <= lower_definitions(a, o) + handed_out(
            o,
            a.ssa.next,
            c.ssa.next,
        ) by {
        assert(lower_definitions(b, o) <= lower_definitions(a, o) + handed_out(
            o,
            a.ssa.next,
            b.ssa.next,
        ));
    }
}

proof fn lemma_lower_by_ssa(a: LowerView, b: LowerView)
    requires
        ssa_goes_on(a.ssa, b.ssa),
        a.nodes == b.nodes,
    ensures
        lower_goes_on(a, b),
{
    assert forall|o: u16|
        #![trigger lower_definitions(b, o)]
        lower_definitions(b, o) <= lower_definitions(a, o) + handed_out(
            o,
            a.ssa.next,
            b.ssa.next,
        ) by {
        assert(ssa_definitions(b.ssa, o) <= ssa_definitions(a.ssa, o) + handed_out(
            o,
            a.ssa.next,
            b.ssa.next,
        ));
    }
}

/// The state is shaped and goes on from another.
spec fn lower_ok(a: LowerView, b: LowerView, cfg: CfgView) -> bool {
    lower_goes_on(a, b) && shaped(b.ssa, cfg)
}

proof fn lemma_noded_goes_on(
    st: LowerView,
    cfg: CfgView,
    op: Op,
    ins: Seq<ValId>,
    ty: Tag,
    effect: Effect,
)
    requires
        shaped(st.ssa, cfg),
    ensures
        st.noded(op, ins, ty, effect) matches Ok((v, s1)) ==> lower_ok(st, s1, cfg),
{
    if let Ok((v, s1)) = st.noded(op, ins, ty, effect) {
        assert(ids_of(s1.nodes) =~= ids_of(st.nodes).push(v));
        assert forall|o: u16|
            #![trigger lower_definitions(s1, o)]
            lower_definitions(s1, o) <= lower_definitions(st, o) + handed_out(
                o,
                st.ssa.next,
                s1.ssa.next,
            ) by {
            lemma_push_occurrences(ids_of(st.nodes), v, o);
        }
    }
}

proof fn lemma_emitted_goes_on(
    st: LowerView,
    cfg: CfgView,
    n: int,
    op: Op,
    ty: Tag,
    effect: Effect,
    pc: u32,
)
    requires
        shaped(st.ssa, cfg),
    ensures
        st.emitted(n, op, ty, effect, pc) matches Ok(s1) ==> lower_ok(st, s1, cfg),
        st.consumed(n, op, ty, effect, pc) matches Ok(s1) ==> lower_ok(st, s1, cfg),
{
    if st.stack.len() >= n {
        let d = st.dropped(n);
        lemma_same_phis(st.ssa, d.ssa);
        lemma_lower_by_ssa(st, d);
        let ins = st.stack.skip(st.stack.len() - n);
        lemma_noded_goes_on(d, cfg, op, ins, ty, effect);
        if let Ok((v, s1)) = d.noded(op, ins, ty, effect) {
            lemma_lower_trans(st, d, s1);
            let s2 = s1.pushed(v);
            lemma_same_phis(s1.ssa, s2.ssa);
            lemma_lower_by_ssa(s1, s2);
            lemma_lower_trans(st, s1, s2);
        }
    }
}

proof fn lemma_loaded_goes_on(st: LowerView, ctx: ContextView, var: u16)
    requires
        shaped(st.ssa, ctx.cfg),
        ctx.block.0 < ctx.cfg.preds.len(),
    ensures
        st.loaded(ctx, var) matches Ok(s1) ==> lower_ok(st, s1, ctx.cfg),
{
    lemma_read_goes_on(st.ssa, ctx.cfg, var, ctx.block);
    if let Ok(s1) = st.loaded(ctx, var) {
        lemma_lower_by_ssa(st, s1);
    }
}

proof fn lemma_incremented_goes_on(st: LowerView, ctx: ContextView, ins: Insn)
    requires
        shaped(st.ssa, ctx.cfg),
        ctx.block.0 < ctx.cfg.preds.len(),
    ensures
        st.incremented(ctx, ins) matches Ok(s1) ==> lower_ok(st, s1, ctx.cfg),
{
    let var = inc_local(ins);
    lemma_read_goes_on(st.ssa, ctx.cfg, var, ctx.block);
    if let Ok((cur, ssa)) = read(st.ssa, ctx.cfg, var, ctx.block) {
        let s1 = LowerView { ssa, ..st };
        lemma_lower_by_ssa(st, s1);
        let op = Op::Const(Val128::from_i32(inc_delta(ins)));
        lemma_noded_goes_on(s1, ctx.cfg, op, Seq::empty(), Tag::I32, Effect::Pure);
        if let Ok((k, s2)) = s1.noded(op, Seq::empty(), Tag::I32, Effect::Pure) {
            lemma_lower_trans(st, s1, s2);
            lemma_noded_goes_on(s2, ctx.cfg, Op::Add, seq![cur, k], Tag::I32, Effect::Pure);
            if let Ok((r, s3)) = s2.noded(Op::Add, seq![cur, k], Tag::I32, Effect::Pure) {
                lemma_lower_trans(st, s2, s3);
                let s4 = LowerView { ssa: s3.ssa.wrote(var, ctx.block, r), ..s3 };
                lemma_same_phis(s3.ssa, s4.ssa);
                lemma_lower_by_ssa(s3, s4);
                lemma_lower_trans(st, s3, s4);
            }
        }
    }
}

proof fn lemma_branched_goes_on(st: LowerView, ctx: ContextView, n: int, op: Op, ins: Insn)
    requires
        shaped(st.ssa, ctx.cfg),
    ensures
        st.branched(ctx, n, op, ins) matches Ok(s1) ==> lower_ok(st, s1, ctx.cfg),
{
    lemma_emitted_goes_on(st, ctx.cfg, n, op, Tag::I32, Effect::Pure, ins.pc);
    if let Ok(s1) = st.branched(ctx, n, op, ins) {
        let s0 = st.consumed(n, op, Tag::I32, Effect::Pure, ins.pc)->Ok_0;
        lemma_same_phis(s0.ssa, s1.ssa);
        lemma_lower_by_ssa(s0, s1);
        lemma_lower_trans(st, s0, s1);
    }
}

proof fn lemma_called_goes_on(
    st: LowerView,
    ctx: ContextView,
    op: Op,
    has_receiver: bool,
    ins: Insn,
)
    requires
        shaped(st.ssa, ctx.cfg),
    ensures
        st.called(ctx, op, has_receiver, ins) matches Ok(s1) ==> lower_ok(st, s1, ctx.cfg),
{
    if let Some((args, ret)) = callee_types(ctx.pool, ins.arg as u16) {
        let n = args.len() + if has_receiver {
            1int
        } else {
            0int
        };
        if let Some(ty) = result_tag(ret) {
            lemma_emitted_goes_on(st, ctx.cfg, n, op, ty, Effect::Extern, ins.pc);
        }
    }
}

proof fn lemma_pool_constant_goes_on(st: LowerView, ctx: ContextView, ins: Insn)
    requires
        shaped(st.ssa, ctx.cfg),
    ensures
        st.pool_constant(ctx, ins) matches Ok(s1) ==> lower_ok(st, s1, ctx.cfg),
{
    lemma_emitted_goes_on(
        st,
        ctx.cfg,
        0,
        Op::LoadString(ins.arg as u16),
        Tag::Ptr,
        Effect::ReadHeap,
        ins.pc,
    );
    if let Some(v) = numeric_constant(ctx.pool, ins.arg) {
        lemma_emitted_goes_on(st, ctx.cfg, 0, Op::Const(v), v.tag(), Effect::Pure, ins.pc);
    }
}

proof fn lemma_same_code_goes_on(a: LowerView, b: LowerView, cfg: CfgView)
    requires
        shaped(a.ssa, cfg),
        a.nodes == b.nodes,
        a.ssa.phis == b.ssa.phis,
        a.ssa.incomplete == b.ssa.incomplete,
        a.ssa.next == b.ssa.next,
    ensures
        lower_ok(a, b, cfg),
{
    lemma_same_phis(a.ssa, b.ssa);
    lemma_lower_by_ssa(a, b);
}

proof fn lemma_lowered_goes_on(st: LowerView, ctx: ContextView, ins: Insn)
    requires
        shaped(st.ssa, ctx.cfg),
        ctx.block.0 < ctx.cfg.preds.len(),
    ensures
        lowered(st, ctx, ins) matches Ok(s1) ==> lower_ok(st, s1, ctx.cfg),
{
    let (cfg, pc) = (ctx.cfg, ins.pc);
    match lowering_of(ins) {
        Lowering::Const(v) => {
            lemma_emitted_goes_on(st, cfg, 0, Op::Const(v), v.tag(), Effect::Pure, pc);
        },
        Lowering::PoolConstant => {
            lemma_pool_constant_goes_on(st, ctx, ins);
        },
        Lowering::Load(var) => {
            lemma_loaded_goes_on(st, ctx, var);
        },
        Lowering::Increment => {
            lemma_incremented_goes_on(st, ctx, ins);
        },
        Lowering::Binary { op, ty, effect } => {
            lemma_emitted_goes_on(st, cfg, 2, op, ty, effect, pc);
        },
        Lowering::Unary { op, ty, effect } => {
            lemma_emitted_goes_on(st, cfg, 1, op, ty, effect, pc);
        },
        Lowering::Source { op, ty, effect } => {
            lemma_emitted_goes_on(st, cfg, 0, op, ty, effect, pc);
        },
        Lowering::FieldRead { op, of_object, effect } => {
            if let Some(ty) = field_tag(ctx.pool, ins.arg as u16) {
                let n = if of_object {
                    1int
                } else {
                    0
                };
                lemma_emitted_goes_on(st, cfg, n, op, ty, effect, pc);
            }
        },
        Lowering::FieldWrite { op, of_object, effect } => {
            let n = if of_object {
                2int
            } else {
                1
            };
            lemma_emitted_goes_on(st, cfg, n, op, Tag::I32, effect, pc);
        },
        Lowering::BranchOnOne(op) => {
            lemma_branched_goes_on(st, ctx, 1, op, ins);
        },
        Lowering::BranchOnTwo(op) => {
            lemma_branched_goes_on(st, ctx, 2, op, ins);
        },
        Lowering::Call { op, has_receiver } => {
            lemma_called_goes_on(st, ctx, op, has_receiver, ins);
        },
        _ => {
            if let Ok(s1) = lowered(st, ctx, ins) {
                lemma_same_code_goes_on(st, s1, cfg);
            }
        },
    }
}

proof fn lemma_lowered_from_goes_on(st: LowerView, ctx: ContextView, insns: Seq<Insn>, k: int)
    requires
        shaped(st.ssa, ctx.cfg),
        ctx.block.0 < ctx.cfg.preds.len(),
        0 <= k,
    ensures
        lowered_from(st, ctx, insns, k) matches Ok(s1) ==> lower_ok(st, s1, ctx.cfg),
    decreases insns.len() - k,
{
    if k < insns.len() {
        lemma_lowered_goes_on(st, ctx, insns[k]);
        if let Ok(s1) = lowered(st, ctx, insns[k]) {
            lemma_lowered_from_goes_on(s1, ctx, insns, k + 1);
            if let Ok(s2) = lowered_from(s1, ctx, insns, k + 1) {
                lemma_lower_trans(st, s1, s2);
            }
        }
    } else {
        lemma_same_code_goes_on(st, st, ctx.cfg);
    }
}

proof fn lemma_entered_from_goes_on(st: LowerView, ctx: ContextView, s: int, depth: int)
    requires
        shaped(st.ssa, ctx.cfg),
        ctx.block.0 < ctx.cfg.preds.len(),
    ensures
        entered_from(st, ctx, s, depth) matches Ok(s1) ==> lower_ok(st, s1, ctx.cfg),
    decreases depth - s,
{
    if s < depth {
        if let Ok(var) = stack_variable(ctx.max_locals, s) {
            lemma_loaded_goes_on(st, ctx, var);
            if let Ok(s1) = st.loaded(ctx, var) {
                lemma_entered_from_goes_on(s1, ctx, s + 1, depth);
                if let Ok(s2) = entered_from(s1, ctx, s + 1, depth) {
                    lemma_lower_trans(st, s1, s2);
                }
            }
        }
    } else {
        lemma_same_code_goes_on(st, st, ctx.cfg);
    }
}

proof fn lemma_left_from_keeps(ssa: SsaView, ctx: ContextView, stack: Seq<ValId>, s: int)
    ensures
        left_from(ssa, ctx, stack, s) matches Ok(s1) ==> s1.phis == ssa.phis && s1.next == ssa.next
            && s1.incomplete == ssa.incomplete,
    decreases stack.len() - s,
{
    if s < stack.len() {
        if let Ok(var) = stack_variable(ctx.max_locals, s) {
            lemma_left_from_keeps(ssa.wrote(var, ctx.block, stack[s]), ctx, stack, s + 1);
        }
    }
}

proof fn lemma_block_lowered_goes_on(ssa: SsaView, ctx: ContextView, insns: Seq<Insn>, depth: int)
    requires
        shaped(ssa, ctx.cfg),
        ctx.block.0 < ctx.cfg.preds.len(),
    ensures
        block_lowered(ssa, ctx, insns, depth) matches Ok(l) ==> lower_ok(
            LowerView { ssa, nodes: Seq::empty(), stack: Seq::empty(), term: None },
            l,
            ctx.cfg,
        ),
{
    let start = LowerView { ssa, nodes: Seq::empty(), stack: Seq::empty(), term: None };
    lemma_entered_from_goes_on(start, ctx, 0, depth);
    if let Ok(st) = entered_from(start, ctx, 0, depth) {
        lemma_lowered_from_goes_on(st, ctx, insns, 0);
        if let Ok(st1) = lowered_from(st, ctx, insns, 0) {
            lemma_lower_trans(start, st, st1);
            lemma_left_from_keeps(st1.ssa, ctx, st1.stack, 0);
            if let Ok(ssa1) = left_from(st1.ssa, ctx, st1.stack, 0) {
                let st2 = LowerView { ssa: ssa1, ..st1 };
                lemma_same_code_goes_on(st1, st2, ctx.cfg);
                lemma_lower_trans(start, st1, st2);
            }
        }
    }
}

/// How often the nodes of the first `k` blocks define the value with offset `o`.
pub open spec fn node_definitions(nodes: Seq<Seq<NodeView>>, k: nat, o: u16) -> nat
    decreases k,
{
    if k == 0 {
        0
    } else {
        node_definitions(nodes, (k - 1) as nat, o) + occurrences(ids_of(nodes[k - 1]), o)
    }
}

/// How often a method being built defines the value with offset `o`, by φ or by nodes.
pub open spec fn build_definitions(st: BuildView, o: u16) -> nat {
    ssa_definitions(st.ssa, o) + node_definitions(st.nodes, st.nodes.len(), o)
}

/// Whether a later state defines at most the values handed out in between, and each of them once.
pub open spec fn build_goes_on(a: BuildView, b: BuildView) -> bool {
    &&& a.ssa.next <= b.ssa.next
    &&& a.nodes.len() == b.nodes.len()
    &&& forall|o: u16|
        #![trigger build_definitions(b, o)]
        build_definitions(b, o) <= build_definitions(a, o) + handed_out(
            o,
            a.ssa.next,
            b.ssa.next,
        )
}

proof fn lemma_build_trans(a: BuildView, b: BuildView, c: BuildView)
    requires
        build_goes_on(a, b),
        build_goes_on(b, c),
    ensures
        build_goes_on(a, c),
{
    assert forall|o: u16|
        #![trigger build_definitions(c, o)]
        build_definitions(c, o) <= build_definitions(a, o) + handed_out(
            o,
            a.ssa.next,
            c.ssa.next,
        ) by {
        assert(build_definitions(b, o) <= build_definitions(a, o) + handed_out(
            o,
            a.ssa.next,
            b.ssa.next,
        ));
    }
}

proof fn lemma_build_by_ssa(a: BuildView, b: BuildView)
    requires
        ssa_goes_on(a.ssa, b.ssa),
        a.nodes == b.nodes,
    ensures
        build_goes_on(a, b),
{
    assert forall|o: u16|
        #![trigger build_definitions(b, o)]
        build_definitions(b, o) <= build_definitions(a, o) + handed_out(
            o,
            a.ssa.next,
            b.ssa.next,
        ) by {
        assert(ssa_definitions(b.ssa, o) <= ssa_definitions(a.ssa, o) + handed_out(
            o,
            a.ssa.next,
            b.ssa.next,
        ));
    }
}

proof fn lemma_update_definitions(
    nodes: Seq<Seq<NodeView>>,
    k: nat,
    i: int,
    x: Seq<NodeView>,
    o: u16,
)
    requires
        k <= nodes.len(),
        0 <= i < nodes.len(),
    ensures
        node_definitions(nodes.update(i, x), k, o) <= node_definitions(nodes, k, o) + (if i < k {
            occurrences(ids_of(x), o)
        } else {
            0
        }),
    decreases k,
{
    if k > 0 {
        lemma_update_definitions(nodes, (k - 1) as nat, i, x, o);
    }
}

proof fn lemma_coded_goes_on(
    st: BuildView,
    g: GraphView,
    vm: VerifiedView,
    pool: PoolView,
    b: BlockId,
)
    requires
        shaped(st.ssa, g.cfg),
        b.0 < g.cfg.preds.len(),
        st.nodes.len() == g.cfg.preds.len(),
    ensures
        coded(st, g, vm, pool, b) matches Ok(s1) ==> build_goes_on(st, s1) && shaped(
            s1.ssa,
            g.cfg,
        ),
{
    let i = b.0 as int;
    if i < g.leaders.len() {
        let ctx = context_of(g, pool, vm.max_locals, b);
        let depth = entry_depth(st, g, vm.frames, b) as int;
        lemma_block_lowered_goes_on(st.ssa, ctx, g.parts[i], depth);
        let start = LowerView {
            ssa: st.ssa,
            nodes: Seq::empty(),
            stack: Seq::empty(),
            term: None,
        };
        if let Ok(l) = block_lowered(st.ssa, ctx, g.parts[i], depth) {
            let s1 = coded(st, g, vm, pool, b)->Ok_0;
            assert forall|o: u16|
                #![trigger build_definitions(s1, o)]
                build_definitions(s1, o) <= build_definitions(st, o) + handed_out(
                    o,
                    st.ssa.next,
                    s1.ssa.next,
                ) by {
                lemma_update_definitions(st.nodes, st.nodes.len(), i, l.nodes, o);
                assert(lower_definitions(l, o) <= lower_definitions(start, o) + handed_out(
                    o,
                    st.ssa.next,
                    l.ssa.next,
                ));
                assert(ids_of(start.nodes) =~= Seq::empty());
            }
        }
    } else {
        if let Ok(s1) = coded(st, g, vm, pool, b) {
            lemma_same_phis(st.ssa, s1.ssa);
            lemma_build_by_ssa(st, s1);
        }
    }
}

/// Every listed block is one of the graph.
pub open spec fn order_fits(g: GraphView) -> bool {
    forall|j: int| 0 <= j < g.order.len() ==> (#[trigger] g.order[j]).0 < g.cfg.preds.len()
}

proof fn lemma_sealed_ready_goes_on(ssa: SsaView, g: GraphView, processed: Seq<bool>, k: int)
    requires
        shaped(ssa, g.cfg),
        order_fits(g),
        0 <= k,
    ensures
        sealed_ready(ssa, g.cfg, processed, g.order, k) matches Ok(s1) ==> ssa_goes_on(ssa, s1)
            && shaped(s1, g.cfg),
    decreases g.order.len() - k,
{
    if k < g.order.len() {
        let b = g.order[k];
        if sealable(ssa, g.cfg, processed, b) {
            lemma_seal_goes_on(ssa, g.cfg, b);
            if let Ok(s) = seal(ssa, g.cfg, b) {
                lemma_sealed_ready_goes_on(s, g, processed, k + 1);
                if let Ok(s1) = sealed_ready(s, g.cfg, processed, g.order, k + 1) {
                    lemma_ssa_trans(ssa, s, s1);
                }
            }
        } else {
            lemma_sealed_ready_goes_on(ssa, g, processed, k + 1);
        }
    }
}

proof fn lemma_processed_one_goes_on(
    st: BuildView,
    g: GraphView,
    vm: VerifiedView,
    pool: PoolView,
    b: BlockId,
)
    requires
        shaped(st.ssa, g.cfg),
        order_fits(g),
        b.0 < g.cfg.preds.len(),
        st.nodes.len() == g.cfg.preds.len(),
    ensures
        processed_one(st, g, vm, pool, b) matches Ok(s1) ==> build_goes_on(st, s1) && shaped(
            s1.ssa,
            g.cfg,
        ),
{
    lemma_seal_goes_on(st.ssa, g.cfg, b);
    lemma_same_phis(st.ssa, st.ssa);
    let first = if sealable(st.ssa, g.cfg, st.processed, b) {
        seal(st.ssa, g.cfg, b)
    } else {
        Ok(st.ssa)
    };
    if let Ok(ssa) = first {
        let s0 = BuildView { ssa, ..st };
        lemma_build_by_ssa(st, s0);
        lemma_coded_goes_on(s0, g, vm, pool, b);
        if let Ok(s1) = coded(s0, g, vm, pool, b) {
            lemma_build_trans(st, s0, s1);
            let processed = s1.processed.update(b.0 as int, true);
            lemma_sealed_ready_goes_on(s1.ssa, g, processed, 0);
            if let Ok(ssa1) = sealed_ready(s1.ssa, g.cfg, processed, g.order, 0) {
                let s2 = BuildView { ssa: ssa1, processed, ..s1 };
                lemma_build_by_ssa(s1, s2);
                lemma_build_trans(st, s1, s2);
            }
        }
    }
}

proof fn lemma_processed_from_goes_on(
    st: BuildView,
    g: GraphView,
    vm: VerifiedView,
    pool: PoolView,
    j: int,
)
    requires
        shaped(st.ssa, g.cfg),
        order_fits(g),
        st.nodes.len() == g.cfg.preds.len(),
        0 <= j,
    ensures
        processed_from(st, g, vm, pool, j) matches Ok(s1) ==> build_goes_on(st, s1) && shaped(
            s1.ssa,
            g.cfg,
        ),
    decreases g.order.len() - j,
{
    if j < g.order.len() {
        lemma_processed_one_goes_on(st, g, vm, pool, g.order[j]);
        if let Ok(s1) = processed_one(st, g, vm, pool, g.order[j]) {
            lemma_processed_from_goes_on(s1, g, vm, pool, j + 1);
            if let Ok(s2) = processed_from(s1, g, vm, pool, j + 1) {
                lemma_build_trans(st, s1, s2);
            }
        }
    } else {
        lemma_same_phis(st.ssa, st.ssa);
        lemma_build_by_ssa(st, st);
    }
}

proof fn lemma_args_define_once(
    ssa: SsaView,
    entry: BlockId,
    items: Seq<VType>,
    k: int,
    slot: u16,
    vals: Seq<ValId>,
    o: u16,
)
    requires
        0 <= k,
    ensures
        args_bound(ssa, entry, items, k, slot, vals) matches Ok((s1, vals1)) ==> {
            &&& s1.phis == ssa.phis
            &&& s1.incomplete == ssa.incomplete
            &&& ssa.next <= s1.next
            &&& occurrences(vals1, o) <= occurrences(vals, o) + handed_out(o, ssa.next, s1.next)
        },
    decreases items.len() - k,
{
    if k < items.len() {
        if let Ok((v, s)) = ssa.fresh() {
            lemma_push_occurrences(vals, v, o);
            lemma_args_define_once(
                s.wrote(slot, entry, v),
                entry,
                items,
                k + 1,
                (slot + items[k].slots()) as u16,
                vals.push(v),
                o,
            );
        }
    }
}

/// How often the φ of the first `k` blocks define the value with offset `o`.
pub open spec fn phi_definitions(phis: Seq<PhiDefView>, k: nat, o: u16) -> nat
    decreases k,
{
    if k == 0 {
        0
    } else {
        phi_definitions(phis, (k - 1) as nat, o) + occurrences(
            slots_of(phis_of(phis, k - 1)),
            o,
        )
    }
}

proof fn lemma_one_more_phi(phis: Seq<PhiDefView>, k: nat, o: u16)
    requires
        phis.len() > 0,
    ensures
        phi_definitions(phis, k, o) == phi_definitions(phis.drop_last(), k, o) + (if phis.last().block.0
            < k && phis.last().val.offset == o {
            1nat
        } else {
            0
        }),
    decreases k,
{
    if k > 0 {
        lemma_one_more_phi(phis, (k - 1) as nat, o);
        let b = k - 1;
        let rest = phis_of(phis.drop_last(), b);
        let p = phis.last();
        if p.block.0 == b {
            assert(slots_of(phis_of(phis, b)) =~= slots_of(rest).push(p.val));
            lemma_push_occurrences(slots_of(rest), p.val, o);
        }
    }
}

proof fn lemma_no_phis(k: nat, o: u16)
    ensures
        phi_definitions(Seq::empty(), k, o) == 0,
    decreases k,
{
    if k > 0 {
        lemma_no_phis((k - 1) as nat, o);
        assert(slots_of(phis_of(Seq::empty(), k - 1)) =~= Seq::empty());
    }
}

proof fn lemma_phis_split_by_block(phis: Seq<PhiDefView>, k: nat, o: u16)
    ensures
        phi_definitions(phis, k, o) <= occurrences(phi_vals(phis), o),
    decreases phis.len(),
{
    if phis.len() > 0 {
        lemma_one_more_phi(phis, k, o);
        lemma_phis_split_by_block(phis.drop_last(), k, o);
        assert(phi_vals(phis).drop_last() =~= phi_vals(phis.drop_last()));
    } else {
        assert(phis =~= Seq::empty());
        lemma_no_phis(k, o);
    }
}

proof fn lemma_assembled_definitions(st: BuildView, total: nat, k: nat, o: u16)
    requires
        k <= total,
        st.nodes.len() == total,
    ensures
        block_definitions(marked(assembled(st, total)), k, o) == phi_definitions(
            st.ssa.phis,
            k,
            o,
        ) + node_definitions(st.nodes, k, o),
    decreases k,
{
    if k > 0 {
        lemma_assembled_definitions(st, total, (k - 1) as nat, o);
        let plain = assembled(st, total)[k - 1];
        let m = marked(assembled(st, total))[k - 1];
        assert(m.phis == plain.phis);
        assert(ids_of(m.nodes) =~= ids_of(st.nodes[k - 1]));
    }
}

proof fn lemma_unbuilt_definitions(nodes: Seq<Seq<NodeView>>, k: nat, o: u16)
    requires
        k <= nodes.len(),
        forall|i: int| 0 <= i < nodes.len() ==> (#[trigger] nodes[i]).len() == 0,
    ensures
        node_definitions(nodes, k, o) == 0,
    decreases k,
{
    if k > 0 {
        lemma_unbuilt_definitions(nodes, (k - 1) as nat, o);
        assert(nodes[k - 1].len() == 0);
        assert(ids_of(nodes[k - 1]) =~= Seq::empty());
    }
}

/// Every value of a built method has at most one definition.
pub proof fn lemma_values_are_defined_once(vm: VerifiedView, pool: PoolView)
    ensures
        built(vm, pool) matches Ok(b) ==> b.defined_once(),
{
    if let Ok(b) = built(vm, pool) {
        lemma_graph_sound(vm.insns);
        let g = graph_of(vm.insns);
        let total = g.cfg.preds.len();
        let fresh = SsaView::fresh_state(total);
        lemma_seal_goes_on(fresh, g.cfg, g.entry);
        let s0 = seal(fresh, g.cfg, g.entry)->Ok_0;
        let items = initial_items(vm.is_static, vm.arg_types);
        let (s1, arg_vals) = args_bound(s0, g.entry, items, 0, 0, Seq::empty())->Ok_0;
        lemma_args_define_once(s0, g.entry, items, 0, 0, Seq::empty(), 0);
        let start = unbuilt(s1, total);
        lemma_processed_from_goes_on(start, g, vm, pool, 0);
        let st = processed_from(start, g, vm, pool, 0)->Ok_0;
        assert forall|o: u16| #[trigger] b.definitions(o) <= 1 by {
            lemma_args_define_once(s0, g.entry, items, 0, 0, Seq::empty(), o);
            lemma_assembled_definitions(st, total, total, o);
            lemma_phis_split_by_block(st.ssa.phis, total, o);
            lemma_unbuilt_definitions(start.nodes, total, o);
            assert(build_definitions(st, o) <= build_definitions(start, o) + handed_out(
                o,
                start.ssa.next,
                st.ssa.next,
            ));
            assert(ssa_definitions(s0, o) <= ssa_definitions(fresh, o) + handed_out(
                o,
                fresh.next,
                s0.next,
            ));
            assert(phi_vals(fresh.phis) =~= Seq::empty());
            assert(b.method.blocks.len() == total);
            assert(occurrences(Seq::<ValId>::empty(), o) == 0);
        }
    }
}

} // verus!
