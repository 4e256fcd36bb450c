//! The SSA form of a verified method computes what its bytecode means: both run in step, block by
//! block, and come to the same end.

use vstd::prelude::*;
use crate::classfile::constant_pool::PoolView;
use crate::env::{landed, lemma_landed_len, lemma_landed_newest, writes_fit};
use crate::ids::{BlockId, ValId};
use crate::interp::error::ExecError;
use crate::interp::eval::arity;
use crate::interp::machine::source_from;
use crate::ir::{BlockView, BuiltView, NodeView, PhiView, Terminator};
use crate::ssa::accepted::{
    bound, flow_at, graph_sound, in_state, lemma_accepted_code_ends, lemma_block_at, lemma_bound,
    lemma_bound_is_unique, lemma_bounds_increase, lemma_edge, lemma_entered_live, lemma_graph_sound,
    lemma_inside_does_not_branch, lemma_inside_falls_through, lemma_last_of_block, lemma_next_pc,
    lemma_other_matches, lemma_parts, lemma_rule_matches, lemma_start_in_step, lemma_steps_checked,
    live, live_in, live_out, method_succs, with_args,
};
use crate::ssa::cfg::{block_at, leaders_of};
use crate::ssa::error::IrError;
use crate::ssa::escape::{marked, marked_node};
use crate::ssa::faithful::{
    arg_local, first_trace, followed, has_record, lemma_arg_locals_increase,
    lemma_processed_from_followed, lemma_start_followed, recorded, Record,
};
use crate::ssa::laws::{block_definitions, lemma_values_are_defined_once, occurrences, slots_of};
use crate::ssa::lower::{
    branch_ends, entered_from, lowered, lowered_from, lowering_of, stack_variable, ContextView,
    LowerView, Lowering,
};
use crate::ssa::meaning::{
    lemma_operations_do_what_instructions_mean, meaning, Floats, Machine, Moved, Strings,
};
use crate::ssa::phis::{
    fully_reached, leads_into, leads_to, lemma_entered_keeps_term, lemma_phis_are_complete,
    lemma_phis_of_come_from, lemma_plain_keeps_term, lemma_processed_from_in_order,
    lemma_processed_terms, lemma_start_in_order, no_dead_ways_in, source_blocks, terms_follow,
};
use crate::ssa::runs::{
    block_meaning, enters, leaves, lemma_block_runs, nodes_run, var_value, Scene,
};
use crate::ssa::state::PhiDefView;
use crate::ssa::trace::{block_start, key, lemma_key, operand_ok, phi_ok, through, Trace};
use crate::ssa::{
    assembled, built, context_of, graph_of, phis_of, processed_from, unbuilt, BuildView,
};
use crate::value::Val128;
use crate::verify::insn::{contiguous, Insn};
use crate::verify::typecheck::stack_rule;
use crate::verify::{initial_items, is_boundary, VerifiedView};

verus! {

/// How a run ends.
pub enum Ending {
    Returned(Option<Val128>),
    Failed(ExecError),
}

/// Where a run of the SSA form is: at a block whose φ are resolved, or at its end.
#[verifier::ext_equal]
pub enum SsaPlace {
    At { b: BlockId, slots: Seq<Val128> },
    Ended(Ending),
}

/// What the φ of a block read on the edge from block `p`: all are read before any is written.
pub open spec fn phi_moves(slots: Seq<Val128>, phis: Seq<PhiView>, p: BlockId) -> Seq<
    (u16, Val128),
> {
    Seq::new(
        phis.len(),
        |j: int|
            (phis[j].slot.offset, slots[(source_from(phis[j].sources, p, 0)->0).offset as int]),
    )
}

/// Whether every φ has an operand for the edge from block `p`.
pub open spec fn phis_known(phis: Seq<PhiView>, p: BlockId) -> bool {
    forall|j: int|
        0 <= j < phis.len() ==> source_from((#[trigger] phis[j]).sources, p, 0) is Some
}

/// Control goes from block `p` to block `b`.
pub open spec fn went(blocks: Seq<BlockView>, slots: Seq<Val128>, p: BlockId, b: BlockId) -> SsaPlace {
    let phis = blocks[b.0 as int].phis;
    if phis_known(phis, p) {
        SsaPlace::At { b, slots: landed(slots, phi_moves(slots, phis, p)) }
    } else {
        SsaPlace::Ended(Ending::Failed(ExecError::BadPhi))
    }
}

/// A run of the SSA form one block further.
pub open spec fn ssa_stepped(
    blocks: Seq<BlockView>,
    floats: Floats,
    strings: Strings,
    at: SsaPlace,
) -> SsaPlace {
    match at {
        SsaPlace::Ended(_) => at,
        SsaPlace::At { b, slots } => match nodes_run(
            slots,
            blocks[b.0 as int].nodes,
            floats,
            strings,
        ) {
            Err(e) => SsaPlace::Ended(Ending::Failed(e)),
            Ok(s) => match blocks[b.0 as int].term {
                Terminator::Return(Some(x)) => SsaPlace::Ended(
                    Ending::Returned(Some(s[x.offset as int])),
                ),
                Terminator::Return(None) => SsaPlace::Ended(Ending::Returned(None)),
                Terminator::Goto(c) => went(blocks, s, b, c),
                Terminator::CondBranch { cond, taken, not_taken } => went(
                    blocks,
                    s,
                    b,
                    if s[cond.offset as int].as_i32() != 0 {
                        taken
                    } else {
                        not_taken
                    },
                ),
                Terminator::Throw(_) => SsaPlace::Ended(Ending::Failed(ExecError::Thrown)),
            },
        },
    }
}

/// Where a run of bytecode is: at an instruction, or at its end.
#[verifier::ext_equal]
pub enum CodePlace {
    At { k: int, m: Machine },
    Ended(Ending),
}

/// The instruction at a pc.
pub open spec fn pc_index(insns: Seq<Insn>, pc: u32) -> int {
    choose|k: int| 0 <= k < insns.len() && (#[trigger] insns[k]).pc == pc
}

/// Where control goes from instruction `k`.
pub open spec fn code_went(insns: Seq<Insn>, k: int, moved: Moved) -> CodePlace {
    let ins = insns[k];
    if ins.ends() && ins.target() is None {
        CodePlace::Ended(Ending::Returned(moved.value))
    } else if ins.target() is Some && (moved.value matches Some(v) ==> v.as_i32() != 0) {
        CodePlace::At { k: pc_index(insns, ins.target()->0), m: moved.to }
    } else {
        CodePlace::At { k: k + 1, m: moved.to }
    }
}

/// A run of bytecode one instruction further.
pub open spec fn code_stepped(
    insns: Seq<Insn>,
    pool: PoolView,
    floats: Floats,
    strings: Strings,
    at: CodePlace,
) -> CodePlace {
    match at {
        CodePlace::Ended(_) => at,
        CodePlace::At { k, m } => match meaning(m, insns[k], pool, floats, strings) {
            Err(e) => CodePlace::Ended(Ending::Failed(e)),
            Ok(moved) => code_went(insns, k, moved),
        },
    }
}

/// A method with all its blocks processed.
pub open spec fn finished(vm: VerifiedView, pool: PoolView) -> BuildView {
    let g = graph_of(vm.insns);
    processed_from(
        unbuilt((with_args(vm)->Ok_0).0, g.cfg.preds.len()),
        g,
        vm,
        pool,
        0,
    )->Ok_0
}

/// Methods that the law speaks of: the verifier accepts them, they can be built, and no block that
/// cannot be reached leads into one that can, which would leave φ without operands.
pub open spec fn runs_well(vm: VerifiedView, pool: PoolView) -> bool {
    &&& vm.accepted(pool)
    &&& no_dead_ways_in(vm.insns)
    &&& built(vm, pool) is Ok
}

/// Whether a block can be reached.
pub open spec fn reached(vm: VerifiedView, b: int) -> bool {
    graph_of(vm.insns).order.contains(BlockId(b as u32))
}

/// What is known of a method as built, where `t` is what is remembered of its construction.
pub open spec fn known(vm: VerifiedView, pool: PoolView, t: Trace) -> bool {
    let g = graph_of(vm.insns);
    let st = finished(vm, pool);
    let total = g.cfg.preds.len();
    &&& runs_well(vm, pool)
    &&& vm.insns.len() > 0
    &&& vm.insns.last().ends()
    &&& graph_sound(vm.insns)
    &&& followed(vm, pool, st, t, g.order.len() as int)
    &&& t.args == (with_args(vm)->Ok_0).0.defs
    &&& terms_follow(st, vm.insns)
    &&& st.processed.len() == total
    &&& forall|b: int| 0 <= b < total && #[trigger] reached(vm, b) ==> st.processed[b]
}

/// Everything is known of such a method.
proof fn lemma_known(vm: VerifiedView, pool: PoolView)
    requires
        runs_well(vm, pool),
    ensures
        exists|t: Trace| known(vm, pool, t),
{
    let g = graph_of(vm.insns);
    let total = g.cfg.preds.len();
    lemma_accepted_code_ends(vm, pool);
    lemma_graph_sound(vm.insns);
    let (s1, _) = with_args(vm)->Ok_0;
    let start = unbuilt(s1, total);
    let st = finished(vm, pool);
    lemma_start_in_step(vm, pool);
    lemma_start_in_order(vm);
    lemma_start_followed(vm, pool);
    lemma_processed_from_in_order(start, g, vm, pool, 0);
    lemma_processed_from_followed(vm, pool, start, first_trace(s1), 0);
    let t = choose|t: Trace|
        #![trigger followed(vm, pool, st, t, g.order.len() as int)]
        followed(vm, pool, st, t, g.order.len() as int) && t.args == s1.defs;
    lemma_processed_terms(vm, pool, start, 0);
    assert forall|b: int| 0 <= b < total && #[trigger] reached(vm, b) implies st.processed[b] by {
        let x = g.order.index_of(BlockId(b as u32));
        assert(st.processed[g.order[x].0 as int]);
    }
    assert(known(vm, pool, t));
}

/// A φ of a block is listed there.
proof fn lemma_phi_listed(phis: Seq<PhiDefView>, b: int, i: int)
    requires
        0 <= i < phis.len(),
        phis[i].block.0 == b,
    ensures
        exists|j: int|
            0 <= j < phis_of(phis, b).len() && #[trigger] phis_of(phis, b)[j] == (PhiView {
                slot: phis[i].val,
                sources: phis[i].sources,
            }),
    decreases phis.len(),
{
    let view = PhiView { slot: phis[i].val, sources: phis[i].sources };
    let rest = phis_of(phis.drop_last(), b);
    if i < phis.len() - 1 {
        assert(phis.drop_last()[i] == phis[i]);
        lemma_phi_listed(phis.drop_last(), b, i);
        let j = choose|j: int| 0 <= j < rest.len() && #[trigger] rest[j] == view;
        assert(phis_of(phis, b)[j] == view);
    } else {
        assert(phis_of(phis, b)[rest.len() as int] == view);
    }
}

/// What occurs at most once stands at one place.
proof fn lemma_occurs_at(s: Seq<ValId>, i: int)
    requires
        0 <= i < s.len(),
    ensures
        occurrences(s, s[i].offset) >= 1,
    decreases s.len(),
{
    if i < s.len() - 1 {
        assert(s.drop_last()[i] == s[i]);
        lemma_occurs_at(s.drop_last(), i);
    }
}

pub proof fn lemma_occurs_once(s: Seq<ValId>, i: int, j: int)
    requires
        0 <= i < j < s.len(),
        occurrences(s, s[i].offset) <= 1,
    ensures
        s[j].offset != s[i].offset,
    decreases s.len(),
{
    assert(s.drop_last()[i] == s[i]);
    if j < s.len() - 1 {
        assert(s.drop_last()[j] == s[j]);
        lemma_occurs_once(s.drop_last(), i, j);
    } else {
        lemma_occurs_at(s.drop_last(), i);
    }
}

proof fn lemma_block_counts(blocks: Seq<BlockView>, k: nat, b: int, o: u16)
    requires
        0 <= b < k,
    ensures
        occurrences(slots_of(blocks[b].phis), o) <= block_definitions(blocks, k, o),
    decreases k,
{
    if b < k - 1 {
        lemma_block_counts(blocks, (k - 1) as nat, b, o);
    }
}

/// A φ's operand for the edge from block `p` comes from there.
proof fn lemma_source_comes_from(sources: Seq<(BlockId, ValId)>, p: BlockId, i: int, k: int)
    requires
        0 <= i <= k < sources.len(),
        sources[k].0 == p,
    ensures
        exists|j: int|
            i <= j < sources.len() && (#[trigger] sources[j]).0 == p && source_from(sources, p, i)
                == Some(sources[j].1),
    decreases sources.len() - i,
{
    if sources[i].0 == p {
        assert(source_from(sources, p, i) == Some(sources[i].1));
    } else {
        lemma_source_comes_from(sources, p, i + 1, k);
        let j = choose|j: int|
            i + 1 <= j < sources.len() && (#[trigger] sources[j]).0 == p && source_from(
                sources,
                p,
                i + 1,
            ) == Some(sources[j].1);
        assert(source_from(sources, p, i) == Some(sources[j].1));
    }
}

/// The blocks of a method as built.
pub open spec fn blocks_of(vm: VerifiedView, pool: PoolView) -> Seq<BlockView> {
    built(vm, pool)->Ok_0.method.blocks
}

/// The blocks of a method are those processed.
proof fn lemma_blocks(vm: VerifiedView, pool: PoolView, t: Trace, b: int)
    requires
        known(vm, pool, t),
        0 <= b < graph_of(vm.insns).cfg.preds.len(),
    ensures
        ({
            let st = finished(vm, pool);
            let blocks = blocks_of(vm, pool);
            &&& blocks.len() == graph_of(vm.insns).cfg.preds.len()
            &&& blocks[b].phis == phis_of(st.ssa.phis, b)
            &&& blocks[b].nodes == marked(assembled(st, blocks.len()))[b].nodes
            &&& st.terms[b] matches Some(term) ==> blocks[b].term == term
        }),
{
    let st = finished(vm, pool);
    assert(blocks_of(vm, pool) == marked(assembled(st, graph_of(vm.insns).cfg.preds.len())));
}

/// On the edge from block `p`, a φ reads what its variable is where `p` is left.
proof fn lemma_phi_reads(vm: VerifiedView, pool: PoolView, t: Trace, p: int, b: int, i: int)
    requires
        known(vm, pool, t),
        0 <= p < graph_of(vm.insns).cfg.preds.len(),
        0 <= b < graph_of(vm.insns).cfg.preds.len(),
        reached(vm, b),
        graph_of(vm.insns).cfg.preds[b].contains(BlockId(p as u32)),
        0 <= i < finished(vm, pool).ssa.phis.len(),
        finished(vm, pool).ssa.phis[i].block.0 == b,
    ensures
        ({
            let s = finished(vm, pool).ssa;
            let phi = s.phis[i];
            &&& s.defs.contains_key(key(phi.var, p))
            &&& source_from(phi.sources, BlockId(p as u32), 0) == Some(s.defs[key(phi.var, p)])
        }),
{
    let g = graph_of(vm.insns);
    let st = finished(vm, pool);
    let s = st.ssa;
    let from = BlockId(p as u32);
    let phi = s.phis[i];
    lemma_blocks(vm, pool, t, b);
    lemma_phi_listed(s.phis, b, i);
    let view = PhiView { slot: phi.val, sources: phi.sources };
    let j = choose|j: int|
        0 <= j < phis_of(s.phis, b).len() && #[trigger] phis_of(s.phis, b)[j] == view;
    assert(fully_reached(vm.insns, b));
    lemma_phis_are_complete(vm, pool, b, j);
    assert(source_blocks(phi.sources) == g.cfg.preds[b]);
    let k = source_blocks(phi.sources).index_of(from);
    assert(source_blocks(phi.sources)[k] == from);
    assert(phi.sources[k].0 == from);
    lemma_source_comes_from(phi.sources, from, 0, k);
    let x = choose|x: int|
        0 <= x < phi.sources.len() && (#[trigger] phi.sources[x]).0 == from && source_from(
            phi.sources,
            from,
            0,
        ) == Some(phi.sources[x].1);
    assert(operand_ok(g, s, st.processed, i, x));
}

/// Going from block `p` to block `b`: where `p` is left in agreement, `b` is entered in agreement.
proof fn lemma_goes_on(
    vm: VerifiedView,
    pool: PoolView,
    t: Trace,
    p: int,
    b: int,
    slots: Seq<Val128>,
    m: Machine,
)
    requires
        known(vm, pool, t),
        0 <= p < graph_of(vm.insns).cfg.preds.len(),
        reached(vm, p),
        0 <= b <= u32::MAX,
        method_succs(vm.insns)[p].contains(BlockId(b as u32)),
        leaves(vm, pool, finished(vm, pool).ssa, p, slots, m),
    ensures
        0 <= b < leaders_of(vm.insns).len(),
        reached(vm, b),
        went(blocks_of(vm, pool), slots, BlockId(p as u32), BlockId(b as u32)) matches SsaPlace::At {
            b: c,
            slots: after,
        } && c == BlockId(b as u32) && enters(
            vm,
            pool,
            finished(vm, pool).ssa,
            t,
            b,
            after,
            m,
        ),
{
    let g = graph_of(vm.insns);
    let st = finished(vm, pool);
    let s = st.ssa;
    let succs = method_succs(vm.insns);
    let from = BlockId(p as u32);
    lemma_edge(vm, pool, p, b, 0);
    let k = succs[p].index_of(BlockId(b as u32));
    assert(succs[p][k] == BlockId(b as u32));
    assert(g.cfg.preds[b].contains(from));
    let o = g.order.index_of(from);
    assert(g.order[o] == from);
    assert(g.order.contains(succs[g.order[o].0 as int][k]));
    lemma_blocks(vm, pool, t, b);
    let blocks = blocks_of(vm, pool);
    let phis = blocks[b].phis;
    assert forall|j: int| 0 <= j < phis.len() implies source_from(
        (#[trigger] phis[j]).sources,
        from,
        0,
    ) is Some && phis[j].slot.offset < s.next by {
        lemma_phis_of_come_from(s.phis, b, j);
        let i = choose|i: int|
            0 <= i < s.phis.len() && (#[trigger] s.phis[i]).block.0 == b && phis_of(s.phis, b)[j]
                == (PhiView { slot: s.phis[i].val, sources: s.phis[i].sources });
        lemma_phi_reads(vm, pool, t, p, b, i);
        assert(phi_ok(g, s, t, st.processed, -1, i));
    }
    assert(phis_known(phis, from));
    let moves = phi_moves(slots, phis, from);
    let after = landed(slots, moves);
    assert(writes_fit(moves, slots.len())) by {
        assert forall|j: int| 0 <= j < moves.len() implies (#[trigger] moves[j]).0 < slots.len() by {
            assert(phis[j].slot.offset < s.next);
        }
    }
    lemma_landed_len(slots, moves);
    assert forall|v: u16, x: ValId| #[trigger]
        through(g, s, t, b, v, x) && live_in(vm, pool, b, v) implies after[x.offset as int]
        == var_value(m, v, vm.max_locals) by {
        lemma_edge(vm, pool, p, b, v);
        let y = g.cfg.preds[b].index_of(from);
        assert(g.cfg.preds[b][y] == from);
        assert(b != g.entry.0);
        if g.cfg.preds[b].len() == 1 {
            assert(y == 0);
            assert(moves =~= Seq::empty()) by {
                if moves.len() > 0 {
                    lemma_phis_of_come_from(s.phis, b, 0);
                    let i = choose|i: int|
                        0 <= i < s.phis.len() && (#[trigger] s.phis[i]).block.0 == b && phis_of(
                            s.phis,
                            b,
                        )[0] == (PhiView { slot: s.phis[i].val, sources: s.phis[i].sources });
                    assert(phi_ok(g, s, t, st.processed, -1, i));
                }
            }
            assert(live_out(vm, pool, p, v));
        } else {
            let i = choose|i: int|
                0 <= i < s.phis.len() && (#[trigger] s.phis[i]).block.0 == b && s.phis[i].var == v
                    && s.phis[i].val == x;
            lemma_phi_reads(vm, pool, t, p, b, i);
            lemma_phi_listed(s.phis, b, i);
            let view = PhiView { slot: x, sources: s.phis[i].sources };
            let j = choose|j: int|
                0 <= j < phis_of(s.phis, b).len() && #[trigger] phis_of(s.phis, b)[j] == view;
            assert(moves[j] == (x.offset, slots[s.defs[key(v, p)].offset as int]));
            assert forall|l: int| j < l < moves.len() implies (#[trigger] moves[l]).0
                != moves[j].0 by {
                lemma_values_are_defined_once(vm, pool);
                let all = built(vm, pool)->Ok_0;
                assert(all.definitions(x.offset) <= 1);
                lemma_block_counts(blocks, blocks.len(), b, x.offset);
                let listed = slots_of(phis);
                assert(listed[j].offset == x.offset);
                lemma_occurs_once(listed, j, l);
            }
            lemma_landed_newest(slots, moves, j);
            assert(live_out(vm, pool, p, v));
        }
    }
}

/// Whether a terminator is what the last instruction of a block becomes.
pub open spec fn term_fits(term: Option<Terminator>, ins: Insn, leaders: Seq<u32>) -> bool {
    match lowering_of(ins) {
        Lowering::ReturnValue => term matches Some(Terminator::Return(Some(_))),
        Lowering::ReturnVoid => term == Some(Terminator::Return(None)),
        Lowering::Jump => {
            &&& ins.target() matches Some(pc)
            &&& block_at(leaders, pc) matches Some(c)
            &&& term == Some(Terminator::Goto(c))
        },
        Lowering::BranchOnOne(_) | Lowering::BranchOnTwo(_) => {
            &&& term matches Some(Terminator::CondBranch { taken, not_taken, .. })
            &&& branch_ends(leaders, ins) == Some((taken, not_taken))
        },
        _ => term is None && ins.target() is None && !ins.ends(),
    }
}

/// Jumps and returns do not fall through, and returns go nowhere.
proof fn lemma_kinds(ins: Insn)
    ensures
        lowering_of(ins) is ReturnValue || lowering_of(ins) is ReturnVoid ==> ins.ends()
            && ins.target() is None,
        lowering_of(ins) is BranchOnOne || lowering_of(ins) is BranchOnTwo ==> !ins.ends(),
{
}

#[verifier::rlimit(40)]
proof fn lemma_lowered_term(st: LowerView, ctx: ContextView, ins: Insn)
    requires
        st.term is None,
    ensures
        lowered(st, ctx, ins) matches Ok(l) ==> term_fits(l.term, ins, ctx.leaders),
{
}

/// A block ends in the terminator that its last instruction becomes.
proof fn lemma_ends_in(vm: VerifiedView, pool: PoolView, st: LowerView, p: int, j: int)
    requires
        vm.accepted(pool),
        vm.insns.len() > 0,
        graph_sound(vm.insns),
        0 <= p < leaders_of(vm.insns).len(),
        0 <= j < graph_of(vm.insns).parts[p].len(),
        st.term is None,
    ensures
        lowered_from(
            st,
            context_of(graph_of(vm.insns), pool, vm.max_locals, BlockId(p as u32)),
            graph_of(vm.insns).parts[p],
            j,
        ) matches Ok(l) ==> term_fits(
            l.term,
            vm.insns[bound(vm.insns, leaders_of(vm.insns), p + 1) - 1],
            leaders_of(vm.insns),
        ),
    decreases graph_of(vm.insns).parts[p].len() - j,
{
    let g = graph_of(vm.insns);
    let part = g.parts[p];
    let ctx = context_of(g, pool, vm.max_locals, BlockId(p as u32));
    lemma_parts(vm, pool, p);
    lemma_last_of_block(vm, pool, p);
    lemma_bound(vm, pool, p);
    lemma_bounds_increase(vm, pool, p, p + 1);
    let lo = bound(vm.insns, g.leaders, p);
    assert(part[j] == vm.insns[lo + j]);
    if j + 1 < part.len() {
        lemma_inside_falls_through(vm, pool, p, lo + j);
        lemma_inside_does_not_branch(vm, pool, p, lo + j);
        lemma_plain_keeps_term(st, ctx, part[j]);
        if let Ok(s1) = lowered(st, ctx, part[j]) {
            lemma_ends_in(vm, pool, s1, p, j + 1);
        }
    } else {
        lemma_lowered_term(st, ctx, part[j]);
        if let Ok(s1) = lowered(st, ctx, part[j]) {
            assert(lowered_from(s1, ctx, part, j + 1) == Ok::<LowerView, IrError>(s1));
        }
    }
}

/// A run of bytecode `n` instructions further.
pub open spec fn code_run(
    insns: Seq<Insn>,
    pool: PoolView,
    floats: Floats,
    strings: Strings,
    at: CodePlace,
    n: nat,
) -> CodePlace
    decreases n,
{
    if n == 0 {
        at
    } else {
        code_run(
            insns,
            pool,
            floats,
            strings,
            code_stepped(insns, pool, floats, strings, at),
            (n - 1) as nat,
        )
    }
}

proof fn lemma_code_stays_ended(
    insns: Seq<Insn>,
    pool: PoolView,
    floats: Floats,
    strings: Strings,
    e: Ending,
    n: nat,
)
    ensures
        code_run(insns, pool, floats, strings, CodePlace::Ended(e), n) == CodePlace::Ended(e),
    decreases n,
{
    if n > 0 {
        lemma_code_stays_ended(insns, pool, floats, strings, e, (n - 1) as nat);
    }
}

/// Where a run of bytecode is when it has left a block.
pub open spec fn code_left(insns: Seq<Insn>, last: int, r: Result<Moved, ExecError>) -> CodePlace {
    match r {
        Err(e) => CodePlace::Ended(Ending::Failed(e)),
        Ok(moved) => code_went(insns, last, moved),
    }
}

/// Bytecode runs through a block as the block's meaning says.
proof fn lemma_code_runs_block(
    vm: VerifiedView,
    pool: PoolView,
    floats: Floats,
    strings: Strings,
    b: int,
    j: int,
    m: Machine,
)
    requires
        vm.accepted(pool),
        vm.insns.len() > 0,
        graph_sound(vm.insns),
        0 <= b < leaders_of(vm.insns).len(),
        0 <= j < graph_of(vm.insns).parts[b].len(),
    ensures
        code_run(
            vm.insns,
            pool,
            floats,
            strings,
            CodePlace::At { k: bound(vm.insns, leaders_of(vm.insns), b) + j, m },
            (graph_of(vm.insns).parts[b].len() - j) as nat,
        ) == code_left(
            vm.insns,
            bound(vm.insns, leaders_of(vm.insns), b + 1) - 1,
            block_meaning(m, graph_of(vm.insns).parts[b], j, pool, floats, strings),
        ),
    decreases graph_of(vm.insns).parts[b].len() - j,
{
    let insns = vm.insns;
    let g = graph_of(insns);
    let part = g.parts[b];
    lemma_parts(vm, pool, b);
    lemma_last_of_block(vm, pool, b);
    lemma_bound(vm, pool, b);
    lemma_bounds_increase(vm, pool, b, b + 1);
    let k = bound(insns, g.leaders, b) + j;
    assert(part[j] == insns[k]);
    let at = CodePlace::At { k, m };
    let next = code_stepped(insns, pool, floats, strings, at);
    let n = (part.len() - j) as nat;
    assert(code_run(insns, pool, floats, strings, at, n) == code_run(
        insns,
        pool,
        floats,
        strings,
        next,
        (n - 1) as nat,
    ));
    match meaning(m, insns[k], pool, floats, strings) {
        Err(e) => {
            lemma_code_stays_ended(insns, pool, floats, strings, Ending::Failed(e), (n - 1) as nat);
        },
        Ok(moved) => {
            if j + 1 < part.len() {
                lemma_inside_falls_through(vm, pool, b, k);
                lemma_inside_does_not_branch(vm, pool, b, k);
                lemma_code_runs_block(vm, pool, floats, strings, b, j + 1, moved.to);
            }
        },
    }
}

/// An instruction is found at its pc.
proof fn lemma_pc_index(vm: VerifiedView, pool: PoolView, b: int)
    requires
        vm.accepted(pool),
        vm.insns.len() > 0,
        0 <= b < leaders_of(vm.insns).len(),
    ensures
        pc_index(vm.insns, leaders_of(vm.insns)[b]) == bound(vm.insns, leaders_of(vm.insns), b),
{
    let insns = vm.insns;
    let pc = leaders_of(insns)[b];
    lemma_bound(vm, pool, b);
    let k = bound(insns, leaders_of(insns), b);
    assert(0 <= k < insns.len() && insns[k].pc == pc);
    lemma_bound_is_unique(vm, pool, b, pc_index(insns, pc));
}

/// Escape marks change no value.
proof fn lemma_marks_change_nothing(
    blocks: Seq<BlockView>,
    slots: Seq<Val128>,
    nodes: Seq<NodeView>,
    floats: Floats,
    strings: Strings,
)
    ensures
        nodes_run(
            slots,
            Seq::new(nodes.len(), |i: int| marked_node(blocks, nodes[i])),
            floats,
            strings,
        ) == nodes_run(slots, nodes, floats, strings),
    decreases nodes.len(),
{
    let all = Seq::new(nodes.len(), |i: int| marked_node(blocks, nodes[i]));
    if nodes.len() > 0 {
        let rest = nodes.drop_last();
        assert(all.drop_last() =~= Seq::new(rest.len(), |i: int| marked_node(blocks, rest[i])));
        lemma_marks_change_nothing(blocks, slots, rest, floats, strings);
    } else {
        assert(all =~= nodes);
    }
}

/// Whether a run of the SSA form and a run of the bytecode are at the same place.
pub open spec fn linked(
    vm: VerifiedView,
    pool: PoolView,
    t: Trace,
    at: SsaPlace,
    code: CodePlace,
) -> bool {
    let ssa = finished(vm, pool).ssa;
    match (at, code) {
        (SsaPlace::Ended(e), CodePlace::Ended(f)) => e == f,
        (SsaPlace::At { b, slots }, CodePlace::At { k, m }) => {
            let p = b.0 as int;
            if p < leaders_of(vm.insns).len() {
                &&& reached(vm, p)
                &&& k == bound(vm.insns, leaders_of(vm.insns), p)
                &&& enters(vm, pool, ssa, t, p, slots, m)
            } else {
                &&& b == graph_of(vm.insns).entry
                &&& k == 0
                &&& leaves(vm, pool, ssa, p, slots, m)
            }
        },
        _ => false,
    }
}

/// A block tests or hands over a value exactly if its last instruction does.
proof fn lemma_value_kind(
    m: Machine,
    part: Seq<Insn>,
    j: int,
    pool: PoolView,
    floats: Floats,
    strings: Strings,
)
    requires
        0 <= j < part.len(),
    ensures
        block_meaning(m, part, j, pool, floats, strings) matches Ok(moved) ==> (moved.value is Some
            <==> match lowering_of(part.last()) {
            Lowering::ReturnValue | Lowering::BranchOnOne(_) | Lowering::BranchOnTwo(_) => true,
            _ => false,
        }),
    decreases part.len() - j,
{
    lemma_operations_do_what_instructions_mean(m, part[j], pool, floats, strings);
    if j + 1 < part.len() {
        if let Ok(moved) = meaning(m, part[j], pool, floats, strings) {
            lemma_value_kind(moved.to, part, j + 1, pool, floats, strings);
        }
    }
}

/// The method's record of a block.
proof fn lemma_recorded(vm: VerifiedView, pool: PoolView, t: Trace, b: int)
    requires
        known(vm, pool, t),
        0 <= b < leaders_of(vm.insns).len(),
        reached(vm, b),
    ensures
        has_record(vm, pool, finished(vm, pool), t, b),
        forall|v: u16| v >= vm.max_locals ==> !t.args.contains_key(#[trigger] key(v, b)),
{
    let g = graph_of(vm.insns);
    assert(g.order.contains(BlockId(b as u32)));
    let i = g.order.index_of(BlockId(b as u32));
    assert(g.order[i] == BlockId(b as u32));
    assert(has_record(vm, pool, finished(vm, pool), t, g.order[i].0 as int));
    let items = initial_items(vm.is_static, vm.arg_types);
    let (s1, vals) = with_args(vm)->Ok_0;
    lemma_start_followed(vm, pool);
    assert forall|v: u16| v >= vm.max_locals implies !t.args.contains_key(#[trigger] key(v, b)) by {
        if t.args.contains_key(key(v, b)) {
            let n = choose|n: int|
                0 <= n < items.len() && key(v, b) == key(
                    #[trigger] arg_local(items, n) as u16,
                    g.entry.0 as int,
                );
            lemma_key(v, b, arg_local(items, n) as u16, g.entry.0 as int);
            lemma_arg_locals_increase(items, n, items.len() as int);
            assert(items.take(items.len() as int) =~= items);
        }
    }
}

/// The terminator of a block is what its last instruction becomes.
proof fn lemma_terminator(vm: VerifiedView, pool: PoolView, t: Trace, b: int, r: Record)
    requires
        known(vm, pool, t),
        recorded(vm, pool, finished(vm, pool), t, b, r),
    ensures
        term_fits(
            r.end.term,
            vm.insns[bound(vm.insns, leaders_of(vm.insns), b + 1) - 1],
            leaders_of(vm.insns),
        ),
{
    let g = graph_of(vm.insns);
    let ctx = context_of(g, pool, vm.max_locals, BlockId(b as u32));
    let depth = in_state(vm, pool, b).stack.len() as int;
    let start = block_start(r.start);
    lemma_entered_keeps_term(start, ctx, 0, depth);
    let st = entered_from(start, ctx, 0, depth)->Ok_0;
    lemma_parts(vm, pool, b);
    lemma_bound(vm, pool, b);
    lemma_bounds_increase(vm, pool, b, b + 1);
    lemma_last_of_block(vm, pool, b);
    lemma_ends_in(vm, pool, st, b, 0);
}

/// Control goes from a block to the block that the bytecode goes to.
proof fn lemma_lands(
    vm: VerifiedView,
    pool: PoolView,
    t: Trace,
    b: int,
    c: BlockId,
    slots: Seq<Val128>,
    m: Machine,
    k: int,
)
    requires
        known(vm, pool, t),
        0 <= b < leaders_of(vm.insns).len(),
        reached(vm, b),
        leaves(vm, pool, finished(vm, pool).ssa, b, slots, m),
        leads_to(blocks_of(vm, pool)[b].term, c),
        finished(vm, pool).terms[b] is Some,
        c.0 < leaders_of(vm.insns).len() ==> k == bound(
            vm.insns,
            leaders_of(vm.insns),
            c.0 as int,
        ),
    ensures
        c.0 < leaders_of(vm.insns).len(),
        linked(
            vm,
            pool,
            t,
            went(blocks_of(vm, pool), slots, BlockId(b as u32), c),
            CodePlace::At { k, m },
        ),
{
    let st = finished(vm, pool);
    lemma_blocks(vm, pool, t, b);
    assert(leads_into(st.terms[b]->0, method_succs(vm.insns)[b]));
    assert(BlockId(c.0 as int as u32) == c);
    lemma_goes_on(vm, pool, t, b, c.0 as int, slots, m);
}

/// A block of the SSA form and the instructions that it stands for lead to the same place.
proof fn lemma_block_step(
    vm: VerifiedView,
    pool: PoolView,
    t: Trace,
    floats: Floats,
    strings: Strings,
    b: int,
    slots: Seq<Val128>,
    m: Machine,
)
    requires
        known(vm, pool, t),
        0 <= b < leaders_of(vm.insns).len(),
        reached(vm, b),
        enters(vm, pool, finished(vm, pool).ssa, t, b, slots, m),
    ensures
        graph_of(vm.insns).parts[b].len() > 0,
        ssa_stepped(
            blocks_of(vm, pool),
            floats,
            strings,
            SsaPlace::At { b: BlockId(b as u32), slots },
        ) matches SsaPlace::At { b: c, .. } ==> c.0 < leaders_of(vm.insns).len(),
        linked(
            vm,
            pool,
            t,
            ssa_stepped(
                blocks_of(vm, pool),
                floats,
                strings,
                SsaPlace::At { b: BlockId(b as u32), slots },
            ),
            code_run(
                vm.insns,
                pool,
                floats,
                strings,
                CodePlace::At { k: bound(vm.insns, leaders_of(vm.insns), b), m },
                graph_of(vm.insns).parts[b].len(),
            ),
        ),
{
    let insns = vm.insns;
    let g = graph_of(insns);
    let leaders = g.leaders;
    let st = finished(vm, pool);
    let n = leaders.len() as int;
    let part = g.parts[b];
    lemma_recorded(vm, pool, t, b);
    let r = choose|r: Record| recorded(vm, pool, st, t, b, r);
    let sc = Scene { vm, pool, built: st, trace: t, b, record: r, floats, strings, slots, from: m };
    lemma_block_runs(sc);
    lemma_blocks(vm, pool, t, b);
    let blocks = blocks_of(vm, pool);
    let plain = assembled(st, blocks.len());
    lemma_marks_change_nothing(plain, slots, st.nodes[b], floats, strings);
    assert(blocks[b].nodes == Seq::new(
        plain[b].nodes.len(),
        |i: int| marked_node(plain, plain[b].nodes[i]),
    ));
    let run = nodes_run(slots, st.nodes[b], floats, strings);
    let came = block_meaning(m, part, 0, pool, floats, strings);
    lemma_parts(vm, pool, b);
    lemma_bound(vm, pool, b);
    lemma_bounds_increase(vm, pool, b, b + 1);
    lemma_last_of_block(vm, pool, b);
    let e = bound(insns, leaders, b + 1) - 1;
    let ins = insns[e];
    assert(part.last() == ins);
    lemma_code_runs_block(vm, pool, floats, strings, b, 0, m);
    lemma_value_kind(m, part, 0, pool, floats, strings);
    lemma_terminator(vm, pool, t, b, r);
    lemma_kinds(ins);
    if let Ok(moved) = came {
        let s = run->Ok_0;
        let to = moved.to;
        let end = choose|end: int| #[trigger] contiguous(insns, end) && end <= u32::MAX;
        lemma_next_pc(insns, end, e);
        match blocks[b].term {
            Terminator::Goto(c) => {
                if lowering_of(ins) is Jump {
                    lemma_block_at(leaders, ins.target()->0);
                    lemma_pc_index(vm, pool, c.0 as int);
                    lemma_lands(
                        vm,
                        pool,
                        t,
                        b,
                        c,
                        s,
                        to,
                        pc_index(insns, ins.target()->0),
                    );
                } else {
                    assert(e + 1 < insns.len());
                    assert(b + 1 < n);
                    lemma_lands(vm, pool, t, b, c, s, to, e + 1);
                }
            },
            Terminator::CondBranch { cond, taken, not_taken } => {
                let v = moved.value->0;
                lemma_block_at(leaders, ins.target()->0);
                lemma_block_at(leaders, ins.next_pc());
                if v.as_i32() != 0 {
                    lemma_pc_index(vm, pool, taken.0 as int);
                    lemma_lands(
                        vm,
                        pool,
                        t,
                        b,
                        taken,
                        s,
                        to,
                        pc_index(insns, ins.target()->0),
                    );
                } else {
                    lemma_bound(vm, pool, not_taken.0 as int);
                    assert(is_boundary(insns, ins.next_pc()));
                    lemma_bound_is_unique(vm, pool, not_taken.0 as int, e + 1);
                    lemma_lands(vm, pool, t, b, not_taken, s, to, e + 1);
                }
            },
            _ => {},
        }
    }
}

/// A run of the SSA form `n` blocks further.
pub open spec fn ssa_run(
    blocks: Seq<BlockView>,
    floats: Floats,
    strings: Strings,
    at: SsaPlace,
    n: nat,
) -> SsaPlace
    decreases n,
{
    if n == 0 {
        at
    } else {
        ssa_run(blocks, floats, strings, ssa_stepped(blocks, floats, strings, at), (n - 1) as nat)
    }
}

pub proof fn lemma_ssa_stays_ended(
    blocks: Seq<BlockView>,
    floats: Floats,
    strings: Strings,
    e: Ending,
    n: nat,
)
    ensures
        ssa_run(blocks, floats, strings, SsaPlace::Ended(e), n) == SsaPlace::Ended(e),
    decreases n,
{
    if n > 0 {
        lemma_ssa_stays_ended(blocks, floats, strings, e, (n - 1) as nat);
    }
}

proof fn lemma_code_run_adds_up(
    insns: Seq<Insn>,
    pool: PoolView,
    floats: Floats,
    strings: Strings,
    at: CodePlace,
    n: nat,
    more: nat,
)
    ensures
        code_run(
            insns,
            pool,
            floats,
            strings,
            code_run(insns, pool, floats, strings, at, n),
            more,
        ) == code_run(insns, pool, floats, strings, at, n + more),
    decreases n,
{
    if n > 0 {
        let next = code_stepped(insns, pool, floats, strings, at);
        lemma_code_run_adds_up(insns, pool, floats, strings, next, (n - 1) as nat, more);
        assert((n + more - 1) as nat == (n - 1) as nat + more);
    }
}

/// The synthetic entry block leads to the first instruction.
proof fn lemma_synthetic_step(
    vm: VerifiedView,
    pool: PoolView,
    t: Trace,
    floats: Floats,
    strings: Strings,
    slots: Seq<Val128>,
    m: Machine,
)
    requires
        known(vm, pool, t),
        graph_of(vm.insns).entry.0 >= leaders_of(vm.insns).len(),
        leaves(
            vm,
            pool,
            finished(vm, pool).ssa,
            graph_of(vm.insns).entry.0 as int,
            slots,
            m,
        ),
    ensures
        ({
            let next = ssa_stepped(
                blocks_of(vm, pool),
                floats,
                strings,
                SsaPlace::At { b: graph_of(vm.insns).entry, slots },
            );
            &&& next matches SsaPlace::At { b, .. }
            &&& b.0 < leaders_of(vm.insns).len()
            &&& linked(vm, pool, t, next, CodePlace::At { k: 0, m })
        }),
{
    let g = graph_of(vm.insns);
    let st = finished(vm, pool);
    let p = g.entry.0 as int;
    let succs = method_succs(vm.insns);
    assert(BlockId(p as u32) == g.entry);
    lemma_blocks(vm, pool, t, p);
    let blocks = blocks_of(vm, pool);
    assert(g.order[0] == g.entry);
    assert(st.terms[p] == Some(Terminator::Goto(BlockId(0))));
    assert(blocks[p].nodes =~= Seq::empty());
    assert(leads_into(st.terms[p]->0, succs[p]));
    assert(leads_to(st.terms[p]->0, BlockId(0)));
    lemma_goes_on(vm, pool, t, p, 0, slots, m);
    lemma_bound(vm, pool, 0);
}

/// Whether a run of the SSA form stands at the synthetic entry block.
pub open spec fn at_synthetic(vm: VerifiedView, at: SsaPlace) -> bool {
    at matches SsaPlace::At { b, .. } && b.0 >= leaders_of(vm.insns).len()
}

/// Runs that are at the same place stay so: for every number of blocks there is a number of
/// instructions, at least as great but for the synthetic entry block.
proof fn lemma_runs_stay_linked(
    vm: VerifiedView,
    pool: PoolView,
    t: Trace,
    floats: Floats,
    strings: Strings,
    at: SsaPlace,
    code: CodePlace,
    n: nat,
) -> (c: nat)
    requires
        known(vm, pool, t),
        linked(vm, pool, t, at, code),
    ensures
        linked(
            vm,
            pool,
            t,
            ssa_run(blocks_of(vm, pool), floats, strings, at, n),
            code_run(vm.insns, pool, floats, strings, code, c),
        ),
        c + 1 >= n,
        !at_synthetic(vm, at) ==> c >= n,
    decreases n,
{
    let blocks = blocks_of(vm, pool);
    if n == 0 {
        0
    } else {
        match (at, code) {
            (SsaPlace::Ended(e), CodePlace::Ended(f)) => {
                lemma_ssa_stays_ended(blocks, floats, strings, e, n);
                lemma_code_stays_ended(vm.insns, pool, floats, strings, e, n);
                n
            },
            (SsaPlace::At { b, slots }, CodePlace::At { k, m }) => {
                let next = ssa_stepped(blocks, floats, strings, at);
                let done = if b.0 < leaders_of(vm.insns).len() {
                    lemma_block_step(vm, pool, t, floats, strings, b.0 as int, slots, m);
                    assert(BlockId(b.0 as int as u32) == b);
                    graph_of(vm.insns).parts[b.0 as int].len()
                } else {
                    lemma_synthetic_step(vm, pool, t, floats, strings, slots, m);
                    0
                };
                let after = code_run(vm.insns, pool, floats, strings, code, done);
                let rest = lemma_runs_stay_linked(
                    vm,
                    pool,
                    t,
                    floats,
                    strings,
                    next,
                    after,
                    (n - 1) as nat,
                );
                lemma_code_run_adds_up(vm.insns, pool, floats, strings, code, done, rest);
                done + rest
            },
            _ => 0,
        }
    }
}

/// Whether arguments are where the SSA form and where the bytecode look for them.
pub open spec fn starts_with(
    vm: VerifiedView,
    pool: PoolView,
    args: Seq<Val128>,
    slots: Seq<Val128>,
    m: Machine,
) -> bool {
    let items = initial_items(vm.is_static, vm.arg_types);
    let b = built(vm, pool)->Ok_0;
    &&& args.len() == items.len()
    &&& slots.len() >= b.n_slots
    &&& forall|i: int|
        0 <= i < args.len() ==> slots[(#[trigger] b.arg_vals[i]).offset as int] == args[i]
    &&& m.locals.len() == vm.max_locals
    &&& m.stack.len() == 0
    &&& forall|i: int|
        0 <= i < args.len() ==> m.locals[#[trigger] arg_local(items, i)] == args[i]
}

/// Every argument has a value.
pub proof fn lemma_argument_count(vm: VerifiedView, pool: PoolView)
    requires
        vm.accepted(pool),
        built(vm, pool) is Ok,
    ensures
        built(vm, pool)->Ok_0.arg_vals.len() == initial_items(vm.is_static, vm.arg_types).len(),
{
    lemma_accepted_code_ends(vm, pool);
    lemma_graph_sound(vm.insns);
    lemma_start_followed(vm, pool);
    assert(built(vm, pool)->Ok_0.arg_vals == (with_args(vm)->Ok_0).1);
}

/// Both runs start at the same place.
#[verifier::rlimit(40)]
proof fn lemma_starts_linked(
    vm: VerifiedView,
    pool: PoolView,
    t: Trace,
    args: Seq<Val128>,
    slots: Seq<Val128>,
    m: Machine,
)
    requires
        known(vm, pool, t),
        starts_with(vm, pool, args, slots, m),
    ensures
        linked(
            vm,
            pool,
            t,
            SsaPlace::At { b: graph_of(vm.insns).entry, slots },
            CodePlace::At { k: 0, m },
        ),
{
    let g = graph_of(vm.insns);
    let st = finished(vm, pool);
    let items = initial_items(vm.is_static, vm.arg_types);
    let e = g.entry.0 as int;
    let (s1, vals) = with_args(vm)->Ok_0;
    assert(BlockId(e as u32) == g.entry);
    lemma_start_followed(vm, pool);
    lemma_start_in_step(vm, pool);
    assert(built(vm, pool)->Ok_0.arg_vals == vals);
    assert(built(vm, pool)->Ok_0.n_slots == st.ssa.next);
    assert forall|v: u16| t.args.contains_key(
        #[trigger] key(v, e),
    ) implies slots[t.args[key(v, e)].offset as int] == var_value(m, v, vm.max_locals) by {
        let i = choose|i: int|
            0 <= i < items.len() && key(v, e) == key(#[trigger] arg_local(items, i) as u16, e);
        lemma_key(v, e, arg_local(items, i) as u16, e);
        assert(t.args[key(v, e)] == vals[i]);
        lemma_arg_locals_increase(items, i, items.len() as int);
        assert(items.take(items.len() as int) =~= items);
        assert(slots[vals[i].offset as int] == args[i]);
        assert(m.locals[arg_local(items, i)] == args[i]);
    }
    lemma_bound(vm, pool, 0);
    if e < leaders_of(vm.insns).len() {
        lemma_steps_checked(vm, pool, 0);
        assert(flow_at(vm, pool, 0) == Some(vm.initial()));
        lemma_entered_live(vm.initial(), vm.frames, vm.insns[0].pc, vm.max_locals, 0);
    } else {
        assert forall|v: u16|
            live_out(vm, pool, e, v) && st.ssa.defs.contains_key(
                #[trigger] key(v, e),
            ) implies slots[st.ssa.defs[key(v, e)].offset as int] == var_value(
            m,
            v,
            vm.max_locals,
        ) by {
            assert(live(vm.initial(), v, vm.max_locals));
            assert(t.args.contains_key(key(v, e)));
        }
    }
}

/// Whether the SSA form of a method, run on given slots, comes to an end.
pub open spec fn ssa_ends(
    b: BuiltView,
    floats: Floats,
    strings: Strings,
    slots: Seq<Val128>,
    e: Ending,
) -> bool {
    exists|n: nat|
        #[trigger] ssa_run(
            b.method.blocks,
            floats,
            strings,
            SsaPlace::At { b: b.method.entry, slots },
            n,
        ) == SsaPlace::Ended(e)
}

/// Whether bytecode, run on given locals, comes to an end.
pub open spec fn code_ends(
    insns: Seq<Insn>,
    pool: PoolView,
    floats: Floats,
    strings: Strings,
    m: Machine,
    e: Ending,
) -> bool {
    exists|n: nat|
        #[trigger] code_run(insns, pool, floats, strings, CodePlace::At { k: 0, m }, n)
            == CodePlace::Ended(e)
}

/// The SSA form needs at most one block more than the bytecode needs instructions.
#[verifier::rlimit(40)]
pub proof fn lemma_blocks_within_instructions(
    vm: VerifiedView,
    pool: PoolView,
    floats: Floats,
    strings: Strings,
    args: Seq<Val128>,
    slots: Seq<Val128>,
    m: Machine,
    n: nat,
    e: Ending,
)
    requires
        runs_well(vm, pool),
        starts_with(vm, pool, args, slots, m),
        code_run(vm.insns, pool, floats, strings, CodePlace::At { k: 0, m }, n)
            == CodePlace::Ended(e),
    ensures
        ssa_run(
            blocks_of(vm, pool),
            floats,
            strings,
            SsaPlace::At { b: built(vm, pool)->Ok_0.method.entry, slots },
            n + 1,
        ) == SsaPlace::Ended(e),
{
    lemma_known(vm, pool);
    let t = choose|t: Trace| known(vm, pool, t);
    lemma_starts_linked(vm, pool, t, args, slots, m);
    let at = SsaPlace::At { b: built(vm, pool)->Ok_0.method.entry, slots };
    let code = CodePlace::At { k: 0, m };
    let c = lemma_runs_stay_linked(vm, pool, t, floats, strings, at, code, n + 1);
    lemma_code_run_adds_up(vm.insns, pool, floats, strings, code, n, (c - n) as nat);
    lemma_code_stays_ended(vm.insns, pool, floats, strings, e, (c - n) as nat);
}

/// The SSA form of a verified method computes what its bytecode means: on the same arguments both
/// return the same value, both fail in the same way, or both run forever.
pub proof fn lemma_ssa_computes_what_bytecode_means(
    vm: VerifiedView,
    pool: PoolView,
    floats: Floats,
    strings: Strings,
    args: Seq<Val128>,
    slots: Seq<Val128>,
    m: Machine,
    e: Ending,
)
    requires
        runs_well(vm, pool),
        starts_with(vm, pool, args, slots, m),
    ensures
        ssa_ends(built(vm, pool)->Ok_0, floats, strings, slots, e) <==> code_ends(
            vm.insns,
            pool,
            floats,
            strings,
            m,
            e,
        ),
{
    let b = built(vm, pool)->Ok_0;
    let blocks = blocks_of(vm, pool);
    let at = SsaPlace::At { b: b.method.entry, slots };
    let code = CodePlace::At { k: 0, m };
    if ssa_ends(b, floats, strings, slots, e) {
        let n = choose|n: nat| #[trigger] ssa_run(blocks, floats, strings, at, n)
            == SsaPlace::Ended(e);
        lemma_known(vm, pool);
        let t = choose|t: Trace| known(vm, pool, t);
        lemma_starts_linked(vm, pool, t, args, slots, m);
        let c = lemma_runs_stay_linked(vm, pool, t, floats, strings, at, code, n);
        assert(code_run(vm.insns, pool, floats, strings, code, c) == CodePlace::Ended(e));
    }
    if code_ends(vm.insns, pool, floats, strings, m, e) {
        let n = choose|n: nat| #[trigger] code_run(vm.insns, pool, floats, strings, code, n)
            == CodePlace::Ended(e);
        lemma_blocks_within_instructions(vm, pool, floats, strings, args, slots, m, n, e);
        assert(ssa_run(blocks, floats, strings, at, n + 1) == SsaPlace::Ended(e));
    }
}

/// Whether a node computes on its operands alone, or loads a string constant.
pub open spec fn node_computes(n: NodeView) -> bool {
    arity(n.op) is Some || n.op is LoadString
}

/// Whether all nodes do.
pub open spec fn all_compute(nodes: Seq<NodeView>) -> bool {
    forall|i: int| 0 <= i < nodes.len() ==> node_computes(#[trigger] nodes[i])
}

/// Opcodes with a plain stack effect become computations.
proof fn lemma_plain_computes(ins: Insn)
    requires
        stack_rule(ins.op) is Some,
    ensures
        match lowering_of(ins) {
            Lowering::Unary { op, .. } => arity(op) is Some,
            Lowering::Binary { op, .. } => arity(op) is Some,
            Lowering::BranchOnOne(op) => arity(op) is Some,
            Lowering::BranchOnTwo(op) => arity(op) is Some,
            _ => true,
        },
{
    lemma_rule_matches(ins);
}

proof fn lemma_lowered_computes(
    vm: VerifiedView,
    pool: PoolView,
    st: LowerView,
    ctx: ContextView,
    k: int,
)
    requires
        vm.accepted(pool),
        0 <= k < vm.insns.len(),
        ctx.pool == pool,
        all_compute(st.nodes),
    ensures
        lowered(st, ctx, vm.insns[k]) matches Ok(l) ==> all_compute(l.nodes),
{
    let ins = vm.insns[k];
    lemma_steps_checked(vm, pool, k);
    lemma_other_matches(ins);
    if stack_rule(ins.op) is Some {
        lemma_rule_matches(ins);
        lemma_plain_computes(ins);
    }
}

proof fn lemma_lowered_from_computes(
    vm: VerifiedView,
    pool: PoolView,
    st: LowerView,
    p: int,
    j: int,
)
    requires
        vm.accepted(pool),
        vm.insns.len() > 0,
        0 <= p < leaders_of(vm.insns).len(),
        0 <= j <= graph_of(vm.insns).parts[p].len(),
        all_compute(st.nodes),
    ensures
        lowered_from(
            st,
            context_of(graph_of(vm.insns), pool, vm.max_locals, BlockId(p as u32)),
            graph_of(vm.insns).parts[p],
            j,
        ) matches Ok(l) ==> all_compute(l.nodes),
    decreases graph_of(vm.insns).parts[p].len() - j,
{
    let g = graph_of(vm.insns);
    let part = g.parts[p];
    let ctx = context_of(g, pool, vm.max_locals, BlockId(p as u32));
    lemma_parts(vm, pool, p);
    lemma_last_of_block(vm, pool, p);
    lemma_bound(vm, pool, p);
    lemma_bounds_increase(vm, pool, p, p + 1);
    let lo = bound(vm.insns, g.leaders, p);
    if j < part.len() {
        assert(part[j] == vm.insns[lo + j]);
        lemma_lowered_computes(vm, pool, st, ctx, lo + j);
        if let Ok(s1) = lowered(st, ctx, part[j]) {
            lemma_lowered_from_computes(vm, pool, s1, p, j + 1);
        }
    }
}

pub proof fn lemma_entered_keeps_nodes(st: LowerView, ctx: ContextView, s: int, depth: int)
    ensures
        entered_from(st, ctx, s, depth) matches Ok(s1) ==> s1.nodes == st.nodes,
    decreases depth - s,
{
    if s < depth {
        if let Ok(var) = stack_variable(ctx.max_locals, s) {
            if let Ok(s1) = st.loaded(ctx, var) {
                lemma_entered_keeps_nodes(s1, ctx, s + 1, depth);
            }
        }
    }
}

/// A verified method needs no other method, and of the heap only strings: every node computes on its
/// operands alone, or loads a string constant.
pub proof fn lemma_verified_methods_compute(vm: VerifiedView, pool: PoolView, b: int)
    requires
        runs_well(vm, pool),
        0 <= b < blocks_of(vm, pool).len(),
    ensures
        all_compute(blocks_of(vm, pool)[b].nodes),
{
    lemma_known(vm, pool);
    let t = choose|t: Trace| known(vm, pool, t);
    let g = graph_of(vm.insns);
    let st = finished(vm, pool);
    let blocks = blocks_of(vm, pool);
    assert(blocks.len() == g.cfg.preds.len());
    lemma_blocks(vm, pool, t, b);
    if !reached(vm, b) {
        assert(!st.processed[b]);
    } else if b < g.leaders.len() {
        lemma_recorded(vm, pool, t, b);
        let r = choose|r: Record| recorded(vm, pool, st, t, b, r);
        let ctx = context_of(g, pool, vm.max_locals, BlockId(b as u32));
        let depth = in_state(vm, pool, b).stack.len() as int;
        let start = block_start(r.start);
        lemma_entered_keeps_nodes(start, ctx, 0, depth);
        lemma_lowered_from_computes(vm, pool, entered_from(start, ctx, 0, depth)->Ok_0, b, 0);
    } else {
        assert(g.order.contains(BlockId(b as u32)));
        let i = g.order.index_of(BlockId(b as u32));
        assert(g.order[i] == BlockId(b as u32));
    }
    assert(all_compute(st.nodes[b]));
    let plain = assembled(st, blocks.len());
    assert forall|i: int| 0 <= i < blocks[b].nodes.len() implies node_computes(
        #[trigger] blocks[b].nodes[i],
    ) by {
        assert(blocks[b].nodes[i] == marked_node(plain, st.nodes[b][i]));
    }
}

} // verus!
