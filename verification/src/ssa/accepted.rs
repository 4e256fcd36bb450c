//! Methods that the verifier accepts can be built: its frames say which variables have a value where
//! two blocks meet, and how deep the operand stack is.

use vstd::prelude::*;
use crate::classfile::constant_pool::{Constant, ConstantView, PoolView};
use crate::classfile::{first_code, ClassFileView, MemberView};
use crate::ids::{BlockId, ValId};
use crate::ir::{Effect, Op};
use crate::ssa::cfg::{
    advanced, block_at, closed_under, distinct_below, edges_known, empties, fall_through, ids_below,
    leaders_of, leads, lemma_leaders, lemma_order_is_closed, lemma_order_starts_at_entry,
    lemma_preds_and_succs_agree, parents_first, parts_from, parts_of, position_from,
    preds_are_edges, successors_of,
};
use crate::ssa::error::IrError;
use crate::ssa::laws::shaped;
use crate::ssa::lower::{
    block_lowered, branch_ends, entered_from, left_from, lowered, lowered_from, lowering_of,
    stack_variable, LowerView, Lowering,
};
use crate::ssa::state::{completed, operands, read, seal, var_key, SsaView};
use crate::ssa::{
    args_bound, built, coded, context_of, entry_depth, first_exit, graph_of, last_of,
    loops_to_first, plain_succs, processed_from, processed_one, sealable, sealed_ready, succs_of,
    unbuilt, BuildView, GraphView,
};
use crate::value::Tag;
use crate::verify::insn::{contiguous, decoded, lemma_decoding_covers_the_code, Insn};
use crate::verify::stackmap::FrameView;
use crate::verify::typecheck::{
    applied, branch_checked, checked_from, entered, inc_local, lemma_checked_code_ends, load_of,
    operated, padded, stack_rule, store_of, Limits,
};
use crate::verify::vtype::{assignable, expanded, VType};
use crate::verify::{initial_items, is_boundary, targets_checked, verified, VerifiedView};

verus! {

impl VerifiedView {
    /// The limits of the method's frames.
    pub open spec fn limits(self) -> Limits {
        Limits { max_stack: self.max_stack, max_locals: self.max_locals, ret: self.ret }
    }

    /// The frame that the method starts with.
    pub open spec fn initial(self) -> FrameView {
        FrameView {
            locals: padded(
                expanded(initial_items(self.is_static, self.arg_types)),
                self.max_locals as int,
            ),
            stack: Seq::empty(),
        }
    }

    /// Whether the method is what the verifier accepts: its instructions lie one behind the other in
    /// 32 bits, branches go to instructions, arguments fit, and the check passes.
    pub open spec fn accepted(self, pool: PoolView) -> bool {
        &&& exists|end: int| #[trigger] contiguous(self.insns, end) && end <= u32::MAX
        &&& targets_checked(self.insns, 0) is Ok
        &&& expanded(initial_items(self.is_static, self.arg_types)).len() <= self.max_locals
        &&& checked_from(
            self.insns,
            0,
            self.frames,
            Some(self.initial()),
            self.limits(),
            pool,
        ) is Ok
    }
}

/// The state that falls through to instruction `k`, given the state before the one in front of it.
pub open spec fn flow_to(vm: VerifiedView, pool: PoolView, k: int, before: FrameView) -> Option<
    FrameView,
> {
    if k <= 0 {
        Some(vm.initial())
    } else if vm.insns[k - 1].ends() {
        None
    } else {
        Some(applied(before, vm.insns[k - 1], pool, vm.limits())->Ok_0)
    }
}

/// The state in which the verifier reaches instruction `k`.
pub open spec fn state_at(vm: VerifiedView, pool: PoolView, k: int) -> FrameView
    decreases k,
{
    let before = if k <= 0 {
        vm.initial()
    } else {
        state_at(vm, pool, k - 1)
    };
    entered(flow_to(vm, pool, k, before), vm.frames, vm.insns[k].pc, vm.max_locals)->Ok_0
}

/// The state in which the verifier leaves instruction `k`.
pub open spec fn state_after(vm: VerifiedView, pool: PoolView, k: int) -> FrameView {
    applied(state_at(vm, pool, k), vm.insns[k], pool, vm.limits())->Ok_0
}

/// The state that falls through to instruction `k`.
pub open spec fn flow_at(vm: VerifiedView, pool: PoolView, k: int) -> Option<FrameView> {
    flow_to(vm, pool, k, state_at(vm, pool, k - 1))
}

/// What the check of instruction `k` establishes.
pub open spec fn step_checked(vm: VerifiedView, pool: PoolView, k: int) -> bool {
    &&& entered(flow_at(vm, pool, k), vm.frames, vm.insns[k].pc, vm.max_locals) is Ok
    &&& applied(state_at(vm, pool, k), vm.insns[k], pool, vm.limits()) is Ok
    &&& branch_checked(vm.insns[k], state_after(vm, pool, k), vm.frames) is Ok
    &&& state_at(vm, pool, k).locals.len() == vm.max_locals
    &&& state_after(vm, pool, k).locals.len() == vm.max_locals
}

proof fn lemma_applied_keeps_locals(f: FrameView, ins: Insn, pool: PoolView, lim: Limits)
    requires
        f.locals.len() == lim.max_locals,
        applied(f, ins, pool, lim) is Ok,
    ensures
        applied(f, ins, pool, lim)->Ok_0.locals.len() == lim.max_locals,
{
}

/// Every instruction of an accepted method is checked in the state that it is reached in.
pub proof fn lemma_steps_checked(vm: VerifiedView, pool: PoolView, k: int)
    requires
        vm.accepted(pool),
        0 <= k < vm.insns.len(),
    ensures
        checked_from(
            vm.insns,
            k,
            vm.frames,
            flow_at(vm, pool, k),
            vm.limits(),
            pool,
        ) is Ok,
        step_checked(vm, pool, k),
    decreases k,
{
    if k > 0 {
        lemma_steps_checked(vm, pool, k - 1);
    } else {
        assert(flow_at(vm, pool, 0) == Some(vm.initial()));
    }
    let cur = flow_at(vm, pool, k);
    assert(checked_from(vm.insns, k, vm.frames, cur, vm.limits(), pool) is Ok);
    let ins = vm.insns[k];
    assert(entered(cur, vm.frames, ins.pc, vm.max_locals) is Ok);
    let f = state_at(vm, pool, k);
    assert(f == entered(cur, vm.frames, ins.pc, vm.max_locals)->Ok_0);
    lemma_applied_keeps_locals(f, ins, pool, vm.limits());
}

/// An accepted method has an instruction, and its last one does not fall through.
pub proof fn lemma_accepted_code_ends(vm: VerifiedView, pool: PoolView)
    requires
        vm.accepted(pool),
    ensures
        vm.insns.len() > 0,
        vm.insns.last().ends(),
{
    let start = Some(vm.initial());
    lemma_checked_code_ends(vm.insns, 0, vm.frames, start, vm.limits(), pool);
}

/// The pcs of an accepted method increase.
proof fn lemma_pcs_increase(insns: Seq<Insn>, end: int, i: int, j: int)
    requires
        contiguous(insns, end),
        0 <= i < j < insns.len(),
    ensures
        insns[i].pc + insns[i].len <= insns[j].pc,
    decreases j - i,
{
    if j == i + 1 {
        assert(insns[i].pc + insns[i].len == insns[j].pc);
    } else {
        lemma_pcs_increase(insns, end, i, j - 1);
        assert(insns[j - 1].pc + insns[j - 1].len == insns[j].pc);
        assert(insns[j - 1].len > 0);
    }
}

/// Each instruction but the last is followed by the next.
pub proof fn lemma_next_pc(insns: Seq<Insn>, end: int, k: int)
    requires
        contiguous(insns, end),
        end <= u32::MAX,
        0 <= k < insns.len(),
    ensures
        insns[k].next_pc() == insns[k].pc + insns[k].len,
        k + 1 < insns.len() ==> insns[k].next_pc() == insns[k + 1].pc,
        k + 1 == insns.len() ==> insns[k].next_pc() == end && !is_boundary(insns, insns[k].next_pc()),
{
    if k + 1 < insns.len() {
        assert(insns[k].pc + insns[k].len == insns[k + 1].pc);
    } else {
        assert(insns[k].pc + insns[k].len == end);
        assert forall|i: int| 0 <= i < insns.len() implies (#[trigger] insns[i]).pc != end by {
            assert(insns[k].len > 0);
            if i < k {
                lemma_pcs_increase(insns, end, i, k);
            }
        }
    }
}

/// Where block `i` begins, as an index into the instructions; behind the last block, their number.
pub open spec fn bound(insns: Seq<Insn>, leaders: Seq<u32>, i: int) -> int {
    if 0 <= i < leaders.len() {
        choose|k: int| 0 <= k < insns.len() && (#[trigger] insns[k]).pc == leaders[i]
    } else {
        insns.len() as int
    }
}

proof fn lemma_targets_are_boundaries(insns: Seq<Insn>, k: int, i: int)
    requires
        0 <= k <= i < insns.len(),
        targets_checked(insns, k) is Ok,
    ensures
        insns[i].target() matches Some(t) ==> is_boundary(insns, t),
    decreases insns.len() - k,
{
    if k < i {
        lemma_targets_are_boundaries(insns, k + 1, i);
    }
}

/// Every leader is the pc of an instruction, and block 0 begins with the first.
pub proof fn lemma_bound(vm: VerifiedView, pool: PoolView, i: int)
    requires
        vm.accepted(pool),
        vm.insns.len() > 0,
        0 <= i < leaders_of(vm.insns).len(),
    ensures
        0 <= bound(vm.insns, leaders_of(vm.insns), i) < vm.insns.len(),
        vm.insns[bound(vm.insns, leaders_of(vm.insns), i)].pc == leaders_of(vm.insns)[i],
        i == 0 ==> bound(vm.insns, leaders_of(vm.insns), i) == 0,
{
    let insns = vm.insns;
    let leaders = leaders_of(insns);
    let end = choose|end: int| #[trigger] contiguous(insns, end) && end <= u32::MAX;
    lemma_leaders(insns, insns.len() as int);
    assert(leaders.contains(leaders[i]));
    assert(leads(insns, insns.len() as int, leaders[i]));
    assert(is_boundary(insns, leaders[i])) by {
        if leaders[i] == insns[0].pc {
        } else if exists|j: int|
            0 <= j < insns.len() && (#[trigger] insns[j]).target() == Some(leaders[i]) {
            let j = choose|j: int|
                0 <= j < insns.len() && (#[trigger] insns[j]).target() == Some(leaders[i]);
            lemma_targets_are_boundaries(insns, 0, j);
        }
    }
    let k = choose|k: int| 0 <= k < insns.len() && (#[trigger] insns[k]).pc == leaders[i];
    assert(bound(insns, leaders, i) == k);
    if i == 0 {
        assert(leads(insns, insns.len() as int, insns[0].pc));
        assert(leaders.contains(insns[0].pc));
        let z = leaders.index_of(insns[0].pc);
        assert(leaders[z] == 0);
        if z > 0 {
            assert(leaders[0] < leaders[z]);
        }
        if k > 0 {
            lemma_pcs_increase(insns, end, 0, k);
            assert(insns[0].len > 0);
        }
    }
}

/// Blocks begin one behind the other.
pub proof fn lemma_bounds_increase(vm: VerifiedView, pool: PoolView, i: int, j: int)
    requires
        vm.accepted(pool),
        vm.insns.len() > 0,
        0 <= i < j <= leaders_of(vm.insns).len(),
    ensures
        bound(vm.insns, leaders_of(vm.insns), i) < bound(vm.insns, leaders_of(vm.insns), j),
{
    let insns = vm.insns;
    let leaders = leaders_of(insns);
    let end = choose|end: int| #[trigger] contiguous(insns, end) && end <= u32::MAX;
    lemma_leaders(insns, insns.len() as int);
    lemma_bound(vm, pool, i);
    if j < leaders.len() {
        lemma_bound(vm, pool, j);
        let (a, b) = (bound(insns, leaders, i), bound(insns, leaders, j));
        assert(leaders[i] < leaders[j]);
        if b < a {
            lemma_pcs_increase(insns, end, b, a);
        }
    }
}

/// The block of instruction `k` while the blocks up to `bi` have begun.
proof fn lemma_advanced(vm: VerifiedView, pool: PoolView, bi: int, k: int)
    requires
        vm.accepted(pool),
        0 <= k < vm.insns.len(),
        0 <= bi < leaders_of(vm.insns).len(),
        bound(vm.insns, leaders_of(vm.insns), bi) <= k <= bound(
            vm.insns,
            leaders_of(vm.insns),
            bi + 1,
        ),
    ensures
        advanced(leaders_of(vm.insns), bi, vm.insns[k].pc) == (if k == bound(
            vm.insns,
            leaders_of(vm.insns),
            bi + 1,
        ) {
            bi + 1
        } else {
            bi
        }),
{
    let insns = vm.insns;
    let leaders = leaders_of(insns);
    let n = leaders.len() as int;
    let end = choose|end: int| #[trigger] contiguous(insns, end) && end <= u32::MAX;
    lemma_leaders(insns, insns.len() as int);
    if bi + 1 < n {
        lemma_bound(vm, pool, bi + 1);
        let b = bound(insns, leaders, bi + 1);
        if k < b {
            lemma_pcs_increase(insns, end, k, b);
            assert(insns[k].len > 0);
        } else if bi + 2 < n {
            assert(leaders[bi + 1] < leaders[bi + 2]);
        }
        reveal_with_fuel(advanced, 3);
    }
}

proof fn lemma_parts_from(
    vm: VerifiedView,
    pool: PoolView,
    k: int,
    bi: int,
    parts: Seq<Seq<Insn>>,
    i: int,
)
    requires
        vm.accepted(pool),
        vm.insns.len() > 0,
        0 <= k <= vm.insns.len(),
        0 <= bi < leaders_of(vm.insns).len(),
        0 <= i < leaders_of(vm.insns).len(),
        parts.len() == leaders_of(vm.insns).len(),
        bound(vm.insns, leaders_of(vm.insns), bi) <= k <= bound(
            vm.insns,
            leaders_of(vm.insns),
            bi + 1,
        ),
        i < bi ==> parts[i] == vm.insns.subrange(
            bound(vm.insns, leaders_of(vm.insns), i),
            bound(vm.insns, leaders_of(vm.insns), i + 1),
        ),
        i == bi ==> parts[i] == vm.insns.subrange(bound(vm.insns, leaders_of(vm.insns), i), k),
        i > bi ==> parts[i].len() == 0,
    ensures
        parts_from(leaders_of(vm.insns), vm.insns, k, bi, parts)[i] == vm.insns.subrange(
            bound(vm.insns, leaders_of(vm.insns), i),
            bound(vm.insns, leaders_of(vm.insns), i + 1),
        ),
    decreases vm.insns.len() - k,
{
    let insns = vm.insns;
    let leaders = leaders_of(insns);
    if k < insns.len() {
        lemma_advanced(vm, pool, bi, k);
        let b = advanced(leaders, bi, insns[k].pc);
        if b == bi + 1 {
            assert(b < leaders.len()) by {
                if bi + 1 == leaders.len() {
                    assert(bound(insns, leaders, bi + 1) == insns.len());
                }
            }
            lemma_bounds_increase(vm, pool, b, b + 1);
        }
        let next = parts.update(b, parts[b].push(insns[k]));
        lemma_bound(vm, pool, i);
        if i == b {
            if b == bi + 1 {
                assert(parts[b] =~= Seq::<Insn>::empty());
            }
            assert(next[i] =~= insns.subrange(bound(insns, leaders, i), k + 1));
        }
        lemma_parts_from(vm, pool, k + 1, b, next, i);
    } else {
        // The last block has begun, since every block has an instruction.
        if bi + 1 < leaders.len() {
            lemma_bound(vm, pool, bi + 1);
        }
    }
}

/// Block `i` holds the instructions from its leader to the next.
pub proof fn lemma_parts(vm: VerifiedView, pool: PoolView, i: int)
    requires
        vm.accepted(pool),
        vm.insns.len() > 0,
        0 <= i < leaders_of(vm.insns).len(),
    ensures
        parts_of(leaders_of(vm.insns), vm.insns)[i] == vm.insns.subrange(
            bound(vm.insns, leaders_of(vm.insns), i),
            bound(vm.insns, leaders_of(vm.insns), i + 1),
        ),
{
    let leaders = leaders_of(vm.insns);
    let parts = empties::<Insn>(leaders.len());
    lemma_bound(vm, pool, 0);
    lemma_bounds_increase(vm, pool, 0, 1);
    if i == 0 {
        assert(parts[i] =~= vm.insns.subrange(0, 0));
    }
    lemma_parts_from(vm, pool, 0, 0, parts, i);
}

/// Whether a variable, a local or a position of the operand stack, has a value in a frame.
pub open spec fn live(f: FrameView, v: u16, max_locals: u16) -> bool {
    if v < max_locals {
        v < f.locals.len() && !(f.locals[v as int] is Top)
    } else {
        v - max_locals < f.stack.len()
    }
}

/// The frame in which block `b` is entered.
pub open spec fn in_state(vm: VerifiedView, pool: PoolView, b: int) -> FrameView {
    state_at(vm, pool, bound(vm.insns, leaders_of(vm.insns), b))
}

/// The frame in which block `b` is left; the synthetic entry block leaves the initial frame.
pub open spec fn out_state(vm: VerifiedView, pool: PoolView, b: int) -> FrameView {
    if b < leaders_of(vm.insns).len() {
        state_after(vm, pool, bound(vm.insns, leaders_of(vm.insns), b + 1) - 1)
    } else {
        vm.initial()
    }
}

/// Whether a variable has a value where block `b` is entered.
pub open spec fn live_in(vm: VerifiedView, pool: PoolView, b: int, v: u16) -> bool {
    b < leaders_of(vm.insns).len() && live(in_state(vm, pool, b), v, vm.max_locals)
}

/// Whether a variable has a value where block `b` is left.
pub open spec fn live_out(vm: VerifiedView, pool: PoolView, b: int, v: u16) -> bool {
    live(out_state(vm, pool, b), v, vm.max_locals)
}

/// The successors of each block of a method, a synthetic entry block last.
pub open spec fn method_succs(insns: Seq<Insn>) -> Seq<Seq<BlockId>> {
    succs_of(graph_of(insns).leaders, graph_of(insns).parts)
}

/// The graph of a method is what its blocks make it: predecessors and successors agree, the entry
/// has no predecessor and comes first, every other block comes after one of its predecessors, and what
/// a reachable block leads to is reachable.
pub open spec fn graph_sound(insns: Seq<Insn>) -> bool {
    let g = graph_of(insns);
    let succs = method_succs(insns);
    let total = g.cfg.preds.len();
    &&& succs.len() == total
    &&& g.leaders.len() <= total <= g.leaders.len() + 1
    &&& total < u32::MAX
    &&& g.entry.0 < total
    &&& ids_below(succs, total as int)
    &&& ids_below(g.cfg.preds, total as int)
    &&& edges_known(succs, total as int, g.cfg.preds)
    &&& preds_are_edges(succs, g.cfg.preds)
    &&& distinct_below(g.order, total as int)
    &&& parents_first(g.order, succs)
    &&& closed_under(g.order, succs)
    &&& g.order.len() > 0
    &&& g.order[0] == g.entry
    &&& g.cfg.preds[g.entry.0 as int].len() == 0
    &&& forall|j: int| 0 <= j < g.order.len() ==> g.cfg.descends((#[trigger] g.order[j]).0 as int)
}

proof fn lemma_position(s: Seq<u32>, pc: u32, i: int)
    requires
        0 <= i,
    ensures
        match position_from(s, pc, i) {
            Some(k) => i <= k < s.len() && s[k] == pc,
            None => forall|j: int| i <= j < s.len() ==> s[j] != pc,
        },
    decreases s.len() - i,
{
    if i < s.len() && s[i] != pc {
        lemma_position(s, pc, i + 1);
    }
}

/// A block is found at every leader, and only there.
pub proof fn lemma_block_at(leaders: Seq<u32>, pc: u32)
    requires
        leaders.len() <= u32::MAX,
    ensures
        match block_at(leaders, pc) {
            Some(b) => b.0 < leaders.len() && leaders[b.0 as int] == pc,
            None => !leaders.contains(pc),
        },
{
    lemma_position(leaders, pc, 0);
}

/// An instruction is known by its pc.
pub proof fn lemma_bound_is_unique(vm: VerifiedView, pool: PoolView, b: int, k: int)
    requires
        vm.accepted(pool),
        vm.insns.len() > 0,
        0 <= b < leaders_of(vm.insns).len(),
        0 <= k < vm.insns.len(),
        vm.insns[k].pc == leaders_of(vm.insns)[b],
    ensures
        bound(vm.insns, leaders_of(vm.insns), b) == k,
{
    let insns = vm.insns;
    let end = choose|end: int| #[trigger] contiguous(insns, end) && end <= u32::MAX;
    lemma_bound(vm, pool, b);
    let c = bound(insns, leaders_of(insns), b);
    if c < k {
        lemma_pcs_increase(insns, end, c, k);
        assert(insns[c].len > 0);
    } else if k < c {
        lemma_pcs_increase(insns, end, k, c);
        assert(insns[k].len > 0);
    }
}

/// Entering an instruction loses no variable that is still counted on.
pub proof fn lemma_entered_live(
    cur: FrameView,
    frames: Map<u32, FrameView>,
    pc: u32,
    max_locals: u16,
    v: u16,
)
    requires
        cur.locals.len() == max_locals,
        entered(Some(cur), frames, pc, max_locals) is Ok,
    ensures
        ({
            let f = entered(Some(cur), frames, pc, max_locals)->Ok_0;
            &&& f.stack.len() == cur.stack.len()
            &&& live(f, v, max_locals) ==> live(cur, v, max_locals)
        }),
{
    if frames.contains_key(pc) && v < max_locals {
        let d = frames[pc];
        if v < d.locals.len() {
            assert(assignable(cur.locals[v as int], d.locals[v as int]));
        }
    }
}

proof fn lemma_satisfies_live(
    cur: FrameView,
    frames: Map<u32, FrameView>,
    from: Option<FrameView>,
    pc: u32,
    max_locals: u16,
    v: u16,
)
    requires
        cur.locals.len() == max_locals,
        frames.contains_key(pc),
        cur.satisfies(frames[pc]),
        entered(from, frames, pc, max_locals) is Ok,
    ensures
        ({
            let f = entered(from, frames, pc, max_locals)->Ok_0;
            &&& f.stack.len() == cur.stack.len()
            &&& live(f, v, max_locals) ==> live(cur, v, max_locals)
        }),
{
    let d = frames[pc];
    if v < max_locals && v < d.locals.len() {
        assert(assignable(cur.locals[v as int], d.locals[v as int]));
    }
}

/// The last instruction of block `p`.
pub proof fn lemma_last_of_block(vm: VerifiedView, pool: PoolView, p: int)
    requires
        vm.accepted(pool),
        vm.insns.len() > 0,
        0 <= p < leaders_of(vm.insns).len(),
    ensures
        ({
            let e = bound(vm.insns, leaders_of(vm.insns), p + 1) - 1;
            &&& 0 <= e < vm.insns.len()
            &&& last_of(graph_of(vm.insns).parts[p]) == Some(vm.insns[e])
        }),
{
    lemma_parts(vm, pool, p);
    lemma_bound(vm, pool, p);
    lemma_bounds_increase(vm, pool, p, p + 1);
    if p + 1 < leaders_of(vm.insns).len() {
        lemma_bound(vm, pool, p + 1);
    }
}

/// Where one block follows another, what has a value where the second is entered has one where the
/// first is left, and the operand stack is as deep. An edge into a block without a declared frame
/// comes from the block in front of it.
pub proof fn lemma_edge(vm: VerifiedView, pool: PoolView, p: int, b: int, v: u16)
    requires
        vm.accepted(pool),
        vm.insns.len() > 0,
        graph_sound(vm.insns),
        0 <= p < method_succs(vm.insns).len(),
        0 <= b <= u32::MAX,
        method_succs(vm.insns)[p].contains(BlockId(b as u32)),
    ensures
        0 <= b < leaders_of(vm.insns).len(),
        live_in(vm, pool, b, v) ==> live_out(vm, pool, p, v),
        in_state(vm, pool, b).stack.len() == out_state(vm, pool, p).stack.len(),
        !vm.frames.contains_key(leaders_of(vm.insns)[b]) ==> p == b - 1 || (p
            == leaders_of(vm.insns).len() && b == 0),
{
    let insns = vm.insns;
    let leaders = leaders_of(insns);
    let n = leaders.len() as int;
    let succs = method_succs(insns);
    let end = choose|end: int| #[trigger] contiguous(insns, end) && end <= u32::MAX;
    lemma_leaders(insns, insns.len() as int);
    let j = succs[p].index_of(BlockId(b as u32));
    assert(succs[p][j] == BlockId(b as u32));
    if p >= n {
        assert(succs[p] == seq![BlockId(0)]);
        assert(b == 0);
        lemma_bound(vm, pool, 0);
        lemma_steps_checked(vm, pool, 0);
        lemma_entered_live(vm.initial(), vm.frames, insns[0].pc, vm.max_locals, v);
    } else {
        lemma_last_of_block(vm, pool, p);
        let e = bound(insns, leaders, p + 1) - 1;
        let ins = insns[e];
        assert(succs[p] == plain_succs(leaders, graph_of(insns).parts)[p]);
        assert(succs[p] == successors_of(Some(ins), p, n, leaders));
        lemma_next_pc(insns, end, e);
        lemma_steps_checked(vm, pool, e);
        lemma_block_at(leaders, ins.next_pc());
        if ins.target() is Some {
            lemma_block_at(leaders, ins.target()->0);
        }
        let by_jump = ins.target() is Some && block_at(leaders, ins.target()->0) == Some(
            BlockId(b as u32),
        );
        if by_jump {
            lemma_bound(vm, pool, b);
            let k = bound(insns, leaders, b);
            lemma_steps_checked(vm, pool, k);
            lemma_satisfies_live(
                state_after(vm, pool, e),
                vm.frames,
                flow_at(vm, pool, k),
                insns[k].pc,
                vm.max_locals,
                v,
            );
        } else {
            assert(!ins.ends());
            if block_at(leaders, ins.next_pc()) is None {
                // Then there is no next instruction, and no next block.
                assert(e + 1 == insns.len()) by {
                    if e + 1 < insns.len() {
                        if p + 1 < n {
                            lemma_bound(vm, pool, p + 1);
                            assert(leaders[p + 1] == ins.next_pc());
                            assert(leaders.contains(ins.next_pc()));
                        }
                    }
                }
                if p + 1 < n {
                    lemma_bound(vm, pool, p + 1);
                }
                assert(fall_through(p, n).len() == 0);
            }
            assert(block_at(leaders, ins.next_pc()) == Some(BlockId(b as u32)));
            assert(leaders.contains(leaders[b]));
            lemma_bound(vm, pool, b);
            assert(is_boundary(insns, ins.next_pc()));
            lemma_bound_is_unique(vm, pool, b, e + 1);
            lemma_steps_checked(vm, pool, e + 1);
            lemma_entered_live(
                state_after(vm, pool, e),
                vm.frames,
                insns[e + 1].pc,
                vm.max_locals,
                v,
            );
            // The block that begins behind the last instruction of block `p` is the next one.
            if p + 1 < n {
                lemma_bound(vm, pool, p + 1);
                if b < p + 1 {
                    lemma_bounds_increase(vm, pool, b, p + 1);
                } else if p + 1 < b {
                    lemma_bounds_increase(vm, pool, p + 1, b);
                }
            } else {
                assert(bound(insns, leaders, p + 1) == insns.len());
            }
        }
    }
}

/// Whether a variable can be read in block `p`: it is defined there, or has a value where the block
/// is entered.
pub open spec fn available(vm: VerifiedView, pool: PoolView, s: SsaView, p: int, v: u16) -> bool {
    s.defs.contains_key(var_key(v, BlockId(p as u32))) || live_in(vm, pool, p, v)
}

/// What holds of the construction state while the blocks `done` are processed: what has a value
/// where a processed block is left can be read there, arguments are defined, sealed blocks have only
/// processed predecessors, and φ that wait for operands merge variables that have a value.
pub open spec fn reads_succeed(
    vm: VerifiedView,
    pool: PoolView,
    s: SsaView,
    done: Seq<bool>,
) -> bool {
    let g = graph_of(vm.insns);
    let total = g.cfg.preds.len();
    &&& shaped(s, g.cfg)
    &&& s.phis.len() <= s.next
    &&& s.sealed.len() == total
    &&& done.len() == total
    &&& forall|p: int, v: u16|
        0 <= p < total && done[p] && #[trigger] live_out(vm, pool, p, v) ==> available(
            vm,
            pool,
            s,
            p,
            v,
        )
    &&& forall|v: u16|
        #[trigger] live(vm.initial(), v, vm.max_locals) ==> s.defs.contains_key(
            var_key(v, g.entry),
        )
    &&& forall|b: int| 0 <= b < total && #[trigger] s.sealed[b] ==> sealed_well(g, done, b)
    &&& forall|b: int, j: int|
        0 <= b < total && 0 <= j < s.incomplete[b].len() ==> waits_well(
            vm,
            pool,
            s,
            b,
            #[trigger] s.incomplete[b][j],
        )
}

/// A block whose predecessors are all processed; the entry has none, any other has some.
pub open spec fn sealed_well(g: GraphView, done: Seq<bool>, b: int) -> bool {
    &&& g.cfg.descends(b)
    &&& b == g.entry.0 || g.cfg.preds[b].len() > 0
    &&& forall|j: int| 0 <= j < g.cfg.preds[b].len() ==> done[(#[trigger] g.cfg.preds[b][j]).0 as int]
}

/// A φ that waits for operands belongs to its block, where its variable has a value.
pub open spec fn waits_well(vm: VerifiedView, pool: PoolView, s: SsaView, b: int, idx: usize) -> bool {
    &&& idx < s.phis.len()
    &&& s.phis[idx as int].block.0 == b
    &&& live_in(vm, pool, b, s.phis[idx as int].var)
}

/// Whether a later state keeps definitions, sealed blocks and the places of φ.
pub open spec fn keeps(a: SsaView, b: SsaView) -> bool {
    &&& b.sealed == a.sealed
    &&& forall|k: u64| #[trigger] a.defs.contains_key(k) ==> b.defs.contains_key(k)
    &&& a.phis.len() <= b.phis.len()
    &&& forall|i: int|
        0 <= i < a.phis.len() ==> (#[trigger] b.phis[i]).block == a.phis[i].block && b.phis[i].var
            == a.phis[i].var
}

proof fn lemma_keeps_trans(a: SsaView, b: SsaView, c: SsaView)
    requires
        keeps(a, b),
        keeps(b, c),
    ensures
        keeps(a, c),
{
    assert forall|i: int| 0 <= i < a.phis.len() implies (#[trigger] c.phis[i]).block
        == a.phis[i].block && c.phis[i].var == a.phis[i].var by {
        assert(b.phis[i].block == a.phis[i].block);
    }
}

/// A state that keeps another's and has the same φ waiting still lets reads succeed.
proof fn lemma_kept_reads(
    vm: VerifiedView,
    pool: PoolView,
    a: SsaView,
    b: SsaView,
    done: Seq<bool>,
)
    requires
        reads_succeed(vm, pool, a, done),
        keeps(a, b),
        shaped(b, graph_of(vm.insns).cfg),
        b.phis.len() <= b.next,
        b.incomplete == a.incomplete,
    ensures
        reads_succeed(vm, pool, b, done),
{
    let total = graph_of(vm.insns).cfg.preds.len();
    assert forall|p: int, v: u16|
        0 <= p < total && done[p] && #[trigger] live_out(vm, pool, p, v) implies available(
        vm,
        pool,
        b,
        p,
        v,
    ) by {
        assert(available(vm, pool, a, p, v));
    }
    assert forall|c: int, j: int|
        0 <= c < total && 0 <= j < b.incomplete[c].len() implies waits_well(
        vm,
        pool,
        b,
        c,
        #[trigger] b.incomplete[c][j],
    ) by {
        assert(waits_well(vm, pool, a, c, a.incomplete[c][j]));
    }
}

proof fn lemma_wrote_reads(
    vm: VerifiedView,
    pool: PoolView,
    s: SsaView,
    done: Seq<bool>,
    var: u16,
    block: BlockId,
    val: ValId,
)
    requires
        reads_succeed(vm, pool, s, done),
    ensures
        reads_succeed(vm, pool, s.wrote(var, block, val), done),
        keeps(s, s.wrote(var, block, val)),
        s.wrote(var, block, val).defs.contains_key(var_key(var, block)),
{
    lemma_kept_reads(vm, pool, s, s.wrote(var, block, val), done);
}

proof fn lemma_with_phi_reads(
    vm: VerifiedView,
    pool: PoolView,
    s: SsaView,
    done: Seq<bool>,
    block: BlockId,
    var: u16,
)
    requires
        reads_succeed(vm, pool, s, done),
        block.0 < graph_of(vm.insns).cfg.preds.len(),
    ensures
        match s.with_phi(block, var) {
            Err(e) => e is TooManyValues,
            Ok((v, s1)) => reads_succeed(vm, pool, s1, done) && keeps(s, s1) && s1.next == s.next
                + 1 && s1.phis.len() == s.phis.len() + 1 && s1.phis.last().block == block
                && s1.phis.last().var == var,
        },
{
    if let Ok((v, s1)) = s.with_phi(block, var) {
        let cfg = graph_of(vm.insns).cfg;
        assert(shaped(s1, cfg)) by {
            assert forall|b: int, j: int|
                0 <= b < s1.incomplete.len() && 0 <= j < s1.incomplete[b].len() implies (
            #[trigger] s1.incomplete[b][j]) < s1.phis.len() by {
                assert(s.incomplete[b][j] < s.phis.len());
            }
        }
        lemma_kept_reads(vm, pool, s, s1, done);
    }
}

proof fn lemma_source_reads(
    vm: VerifiedView,
    pool: PoolView,
    s: SsaView,
    done: Seq<bool>,
    idx: int,
    pred: BlockId,
    val: ValId,
)
    requires
        reads_succeed(vm, pool, s, done),
        0 <= idx < s.phis.len(),
    ensures
        reads_succeed(vm, pool, s.with_source(idx, pred, val), done),
        keeps(s, s.with_source(idx, pred, val)),
        s.with_source(idx, pred, val).next == s.next,
{
    let s1 = s.with_source(idx, pred, val);
    lemma_kept_reads(vm, pool, s, s1, done);
}

/// What has a value where the entry is entered is an argument.
proof fn lemma_entry_is_defined(
    vm: VerifiedView,
    pool: PoolView,
    s: SsaView,
    done: Seq<bool>,
    v: u16,
)
    requires
        vm.accepted(pool),
        vm.insns.len() > 0,
        graph_sound(vm.insns),
        reads_succeed(vm, pool, s, done),
        available(vm, pool, s, graph_of(vm.insns).entry.0 as int, v),
    ensures
        s.defs.contains_key(var_key(v, graph_of(vm.insns).entry)),
{
    let entry = graph_of(vm.insns).entry;
    assert(BlockId(entry.0 as int as u32) == entry);
    if live_in(vm, pool, entry.0 as int, v) {
        lemma_bound(vm, pool, 0);
        lemma_steps_checked(vm, pool, 0);
        lemma_entered_live(vm.initial(), vm.frames, vm.insns[0].pc, vm.max_locals, v);
        assert(live(vm.initial(), v, vm.max_locals));
    }
}

/// Whatever can be read is read, or values run out.
proof fn lemma_read_succeeds(
    vm: VerifiedView,
    pool: PoolView,
    s: SsaView,
    done: Seq<bool>,
    var: u16,
    block: BlockId,
)
    requires
        vm.accepted(pool),
        vm.insns.len() > 0,
        graph_sound(vm.insns),
        reads_succeed(vm, pool, s, done),
        block.0 < graph_of(vm.insns).cfg.preds.len(),
        available(vm, pool, s, block.0 as int, var),
    ensures
        match read(s, graph_of(vm.insns).cfg, var, block) {
            Err(e) => e is TooManyValues,
            Ok((v, s1)) => reads_succeed(vm, pool, s1, done) && keeps(s, s1) && s.next <= s1.next,
        },
    decreases 0x1_0000 - s.next, graph_of(vm.insns).cfg.level(block), 0int,
{
    let g = graph_of(vm.insns);
    let cfg = g.cfg;
    let b = block.0 as int;
    let key = var_key(var, block);
    assert(BlockId(b as u32) == block);
    lemma_with_phi_reads(vm, pool, s, done, block, var);
    if s.defs.contains_key(key) {
    } else if !s.sealed[b] {
        if let Ok((val, s1)) = s.with_phi(block, var) {
            let s2 = s1.waiting(block);
            lemma_waiting_reads(vm, pool, s1, done, block);
            lemma_wrote_reads(vm, pool, s2, done, var, block, val);
            lemma_keeps_trans(s, s1, s2);
            lemma_keeps_trans(s, s2, s2.wrote(var, block, val));
        }
    } else {
        assert(sealed_well(g, done, b));
        if cfg.preds[b].len() == 0 {
            lemma_entry_is_defined(vm, pool, s, done, var);
        } else if cfg.preds[b].len() == 1 {
            let q = cfg.preds[b][0];
            assert(q.0 < cfg.preds.len());
            lemma_pred_has_it(vm, pool, s, done, b, 0, var);
            assert(cfg.level(q) < cfg.level(block));
            lemma_read_succeeds(vm, pool, s, done, var, q);
            if let Ok((val, s1)) = read(s, cfg, var, q) {
                lemma_wrote_reads(vm, pool, s1, done, var, block, val);
                lemma_keeps_trans(s, s1, s1.wrote(var, block, val));
            }
        } else if let Ok((val, s1)) = s.with_phi(block, var) {
            let s2 = s1.wrote(var, block, val);
            lemma_wrote_reads(vm, pool, s1, done, var, block, val);
            lemma_keeps_trans(s, s1, s2);
            assert forall|k: int| 0 <= k < cfg.preds[b].len() implies (
            #[trigger] cfg.preds[b][k]).0 < cfg.preds.len() && available(
                vm,
                pool,
                s2,
                cfg.preds[b][k].0 as int,
                var,
            ) by {
                lemma_pred_has_it(vm, pool, s, done, b, k, var);
            }
            lemma_operands_succeed(
                vm,
                pool,
                s2,
                done,
                s.phis.len() as int,
                var,
                cfg.preds[b],
                0,
            );
            if let Ok(s3) = operands(s2, cfg, s.phis.len() as int, var, cfg.preds[b], 0) {
                lemma_keeps_trans(s, s2, s3);
                lemma_wrote_reads(vm, pool, s3, done, var, block, val);
                lemma_keeps_trans(s, s3, s3.wrote(var, block, val));
            }
        }
    }
}

/// A φ made for an unsealed block waits for its operands.
proof fn lemma_waiting_reads(
    vm: VerifiedView,
    pool: PoolView,
    s: SsaView,
    done: Seq<bool>,
    block: BlockId,
)
    requires
        reads_succeed(vm, pool, s, done),
        block.0 < graph_of(vm.insns).cfg.preds.len(),
        s.phis.len() > 0,
        s.phis.last().block == block,
        live_in(vm, pool, block.0 as int, s.phis.last().var),
    ensures
        reads_succeed(vm, pool, s.waiting(block), done),
        keeps(s, s.waiting(block)),
{
    let cfg = graph_of(vm.insns).cfg;
    let b = block.0 as int;
    let s1 = s.waiting(block);
    assert forall|c: int, j: int|
        0 <= c < s1.incomplete.len() && 0 <= j < s1.incomplete[c].len() implies (
    #[trigger] s1.incomplete[c][j]) < s1.phis.len() && waits_well(
        vm,
        pool,
        s1,
        c,
        s1.incomplete[c][j],
    ) by {
        if c == b && j == s.incomplete[b].len() {
        } else {
            assert(waits_well(vm, pool, s, c, s.incomplete[c][j]));
        }
    }
    assert(shaped(s1, cfg));
    let total = cfg.preds.len();
    assert forall|p: int, v: u16|
        0 <= p < total && done[p] && #[trigger] live_out(vm, pool, p, v) implies available(
        vm,
        pool,
        s1,
        p,
        v,
    ) by {
        assert(available(vm, pool, s, p, v));
    }
}

/// What has a value where a block is entered can be read in each processed predecessor.
proof fn lemma_pred_has_it(
    vm: VerifiedView,
    pool: PoolView,
    s: SsaView,
    done: Seq<bool>,
    b: int,
    k: int,
    var: u16,
)
    requires
        vm.accepted(pool),
        vm.insns.len() > 0,
        graph_sound(vm.insns),
        reads_succeed(vm, pool, s, done),
        0 <= b < graph_of(vm.insns).cfg.preds.len(),
        0 <= k < graph_of(vm.insns).cfg.preds[b].len(),
        done[graph_of(vm.insns).cfg.preds[b][k].0 as int],
        live_in(vm, pool, b, var),
    ensures
        graph_of(vm.insns).cfg.preds[b][k].0 < graph_of(vm.insns).cfg.preds.len(),
        available(vm, pool, s, graph_of(vm.insns).cfg.preds[b][k].0 as int, var),
{
    let cfg = graph_of(vm.insns).cfg;
    let q = cfg.preds[b][k];
    assert(q.0 < cfg.preds.len());
    assert(method_succs(vm.insns)[q.0 as int].contains(BlockId(b as u32)));
    lemma_edge(vm, pool, q.0 as int, b, var);
    assert(live_out(vm, pool, q.0 as int, var));
}

proof fn lemma_operands_succeed(
    vm: VerifiedView,
    pool: PoolView,
    s: SsaView,
    done: Seq<bool>,
    idx: int,
    var: u16,
    from: Seq<BlockId>,
    k: int,
)
    requires
        vm.accepted(pool),
        vm.insns.len() > 0,
        graph_sound(vm.insns),
        reads_succeed(vm, pool, s, done),
        0 <= idx < s.phis.len(),
        0 <= k,
        forall|i: int|
            0 <= i < from.len() ==> (#[trigger] from[i]).0 < graph_of(vm.insns).cfg.preds.len()
                && available(vm, pool, s, from[i].0 as int, var),
    ensures
        match operands(s, graph_of(vm.insns).cfg, idx, var, from, k) {
            Err(e) => e is TooManyValues,
            Ok(s1) => reads_succeed(vm, pool, s1, done) && keeps(s, s1) && s.next <= s1.next,
        },
    decreases 0x1_0000 - s.next, graph_of(vm.insns).cfg.rank.len() + 1, from.len() - k,
{
    let cfg = graph_of(vm.insns).cfg;
    if k < from.len() {
        lemma_read_succeeds(vm, pool, s, done, var, from[k]);
        if let Ok((val, s1)) = read(s, cfg, var, from[k]) {
            let s2 = s1.with_source(idx, from[k], val);
            lemma_source_reads(vm, pool, s1, done, idx, from[k], val);
            lemma_keeps_trans(s, s1, s2);
            assert forall|i: int| 0 <= i < from.len() implies (#[trigger] from[i]).0
                < cfg.preds.len() && available(vm, pool, s2, from[i].0 as int, var) by {
                assert(available(vm, pool, s, from[i].0 as int, var));
            }
            lemma_operands_succeed(vm, pool, s2, done, idx, var, from, k + 1);
            if let Ok(s3) = operands(s2, cfg, idx, var, from, k + 1) {
                lemma_keeps_trans(s, s2, s3);
            }
        }
    }
}

proof fn lemma_completed_succeeds(
    vm: VerifiedView,
    pool: PoolView,
    s: SsaView,
    done: Seq<bool>,
    b: int,
    list: Seq<usize>,
    j: int,
)
    requires
        vm.accepted(pool),
        vm.insns.len() > 0,
        graph_sound(vm.insns),
        reads_succeed(vm, pool, s, done),
        0 <= b < graph_of(vm.insns).cfg.preds.len(),
        sealed_well(graph_of(vm.insns), done, b),
        0 <= j,
        forall|i: int| 0 <= i < list.len() ==> waits_well(vm, pool, s, b, #[trigger] list[i]),
    ensures
        match completed(s, graph_of(vm.insns).cfg, list, j) {
            Err(e) => e is TooManyValues,
            Ok(s1) => reads_succeed(vm, pool, s1, done) && keeps(s, s1) && s.next <= s1.next,
        },
    decreases list.len() - j,
{
    let cfg = graph_of(vm.insns).cfg;
    if j < list.len() {
        let idx = list[j] as int;
        assert(waits_well(vm, pool, s, b, list[j]));
        let var = s.phis[idx].var;
        assert forall|k: int| 0 <= k < cfg.preds[b].len() implies (#[trigger] cfg.preds[b][k]).0
            < cfg.preds.len() && available(vm, pool, s, cfg.preds[b][k].0 as int, var) by {
            lemma_pred_has_it(vm, pool, s, done, b, k, var);
        }
        lemma_operands_succeed(vm, pool, s, done, idx, var, cfg.preds[b], 0);
        if let Ok(s1) = operands(s, cfg, idx, var, cfg.preds[b], 0) {
            assert forall|i: int| 0 <= i < list.len() implies waits_well(
                vm,
                pool,
                s1,
                b,
                #[trigger] list[i],
            ) by {
                assert(waits_well(vm, pool, s, b, list[i]));
            }
            lemma_completed_succeeds(vm, pool, s1, done, b, list, j + 1);
            if let Ok(s2) = completed(s1, cfg, list, j + 1) {
                lemma_keeps_trans(s, s1, s2);
            }
        }
    }
}

/// A block whose predecessors are all processed can be sealed, or values run out.
proof fn lemma_seal_succeeds(
    vm: VerifiedView,
    pool: PoolView,
    s: SsaView,
    done: Seq<bool>,
    block: BlockId,
)
    requires
        vm.accepted(pool),
        vm.insns.len() > 0,
        graph_sound(vm.insns),
        reads_succeed(vm, pool, s, done),
        block.0 < graph_of(vm.insns).cfg.preds.len(),
        sealed_well(graph_of(vm.insns), done, block.0 as int),
    ensures
        match seal(s, graph_of(vm.insns).cfg, block) {
            Err(e) => e is TooManyValues,
            Ok(s1) => reads_succeed(vm, pool, s1, done),
        },
{
    let g = graph_of(vm.insns);
    let cfg = g.cfg;
    let b = block.0 as int;
    let total = cfg.preds.len();
    let s0 = SsaView { incomplete: s.incomplete.update(b, Seq::empty()), ..s };
    assert forall|c: int, j: int|
        0 <= c < s0.incomplete.len() && 0 <= j < s0.incomplete[c].len() implies (
    #[trigger] s0.incomplete[c][j]) < s0.phis.len() && waits_well(
        vm,
        pool,
        s0,
        c,
        s0.incomplete[c][j],
    ) by {
        assert(c != b);
        assert(waits_well(vm, pool, s, c, s.incomplete[c][j]));
    }
    assert(shaped(s0, cfg));
    assert forall|p: int, v: u16|
        0 <= p < total && done[p] && #[trigger] live_out(vm, pool, p, v) implies available(
        vm,
        pool,
        s0,
        p,
        v,
    ) by {
        assert(available(vm, pool, s, p, v));
    }
    assert(reads_succeed(vm, pool, s0, done));
    let list = s.incomplete[b];
    assert forall|i: int| 0 <= i < list.len() implies waits_well(
        vm,
        pool,
        s0,
        b,
        #[trigger] list[i],
    ) by {
        assert(waits_well(vm, pool, s, b, s.incomplete[b][i]));
    }
    lemma_completed_succeeds(vm, pool, s0, done, b, list, 0);
    if let Ok(s1) = completed(s0, cfg, list, 0) {
        let s2 = SsaView { sealed: s1.sealed.update(b, true), ..s1 };
        assert forall|c: int| 0 <= c < total && #[trigger] s2.sealed[c] implies sealed_well(
            g,
            done,
            c,
        ) by {
            if c != b {
                assert(s1.sealed[c]);
            }
        }
        assert forall|c: int, j: int|
            0 <= c < total && 0 <= j < s2.incomplete[c].len() implies waits_well(
            vm,
            pool,
            s2,
            c,
            #[trigger] s2.incomplete[c][j],
        ) by {
            assert(waits_well(vm, pool, s1, c, s1.incomplete[c][j]));
        }
        assert forall|p: int, v: u16|
            0 <= p < total && done[p] && #[trigger] live_out(vm, pool, p, v) implies available(
            vm,
            pool,
            s2,
            p,
            v,
        ) by {
            assert(available(vm, pool, s1, p, v));
        }
        assert(shaped(s2, cfg));
    }
}

/// Whether an instruction loads a class constant.
pub open spec fn loads_class(ins: Insn, pool: PoolView) -> bool {
    0x12 <= ins.op <= 0x14 && 0 <= ins.arg < pool.len() && (pool[ins.arg as int] matches
        ConstantView::Plain(Constant::Class { .. }))
}

impl VerifiedView {
    /// The only reasons why a method that the verifier accepts cannot be built: it needs more values
    /// or blocks than can be numbered, or it loads a class constant.
    pub open spec fn excuses(self, pool: PoolView, e: IrError) -> bool {
        ||| e is TooManyValues
        ||| e is BadConstant && exists|k: int|
            0 <= k < self.insns.len() && loads_class(#[trigger] self.insns[k], pool)
    }
}

/// Whether a block being lowered is in step with the verifier: the operand stack is as deep, and
/// every local that has a value can be read.
pub open spec fn in_step(
    vm: VerifiedView,
    pool: PoolView,
    st: LowerView,
    f: FrameView,
    b: int,
    done: Seq<bool>,
) -> bool {
    &&& reads_succeed(vm, pool, st.ssa, done)
    &&& st.stack.len() == f.stack.len()
    &&& forall|v: u16|
        v < vm.max_locals && #[trigger] live(f, v, vm.max_locals) ==> available(
            vm,
            pool,
            st.ssa,
            b,
            v,
        )
}

proof fn lemma_fresh_reads(vm: VerifiedView, pool: PoolView, s: SsaView, done: Seq<bool>)
    requires
        reads_succeed(vm, pool, s, done),
    ensures
        match s.fresh() {
            Err(e) => e is TooManyValues,
            Ok((v, s1)) => reads_succeed(vm, pool, s1, done) && keeps(s, s1),
        },
{
    if let Ok((v, s1)) = s.fresh() {
        lemma_kept_reads(vm, pool, s, s1, done);
    }
}

/// Locals that can be read stay so as definitions are kept.
proof fn lemma_still_in_step(
    vm: VerifiedView,
    pool: PoolView,
    st: LowerView,
    st1: LowerView,
    f: FrameView,
    f1: FrameView,
    b: int,
    done: Seq<bool>,
)
    requires
        in_step(vm, pool, st, f, b, done),
        reads_succeed(vm, pool, st1.ssa, done),
        keeps(st.ssa, st1.ssa),
        f1.locals == f.locals,
        st1.stack.len() == f1.stack.len(),
    ensures
        in_step(vm, pool, st1, f1, b, done),
{
    assert forall|v: u16|
        v < vm.max_locals && #[trigger] live(f1, v, vm.max_locals) implies available(
        vm,
        pool,
        st1.ssa,
        b,
        v,
    ) by {
        assert(live(f, v, vm.max_locals));
        assert(available(vm, pool, st.ssa, b, v));
    }
}

/// A node over operands that are there.
proof fn lemma_emitted_in_step(
    vm: VerifiedView,
    pool: PoolView,
    st: LowerView,
    f: FrameView,
    f1: FrameView,
    b: int,
    done: Seq<bool>,
    n: int,
    op: Op,
    ty: Tag,
    effect: Effect,
    pc: u32,
)
    requires
        in_step(vm, pool, st, f, b, done),
        0 <= n <= f.stack.len(),
        f1.locals == f.locals,
    ensures
        match st.emitted(n, op, ty, effect, pc) {
            Err(e) => e is TooManyValues,
            Ok(st1) => f1.stack.len() == f.stack.len() - n + 1 ==> in_step(
                vm,
                pool,
                st1,
                f1,
                b,
                done,
            ),
        },
        match st.consumed(n, op, ty, effect, pc) {
            Err(e) => e is TooManyValues,
            Ok(st1) => f1.stack.len() == f.stack.len() - n ==> in_step(
                vm,
                pool,
                st1,
                f1,
                b,
                done,
            ),
        },
{
    lemma_fresh_reads(vm, pool, st.ssa, done);
    if let Ok(st1) = st.emitted(n, op, ty, effect, pc) {
        if f1.stack.len() == f.stack.len() - n + 1 {
            lemma_still_in_step(vm, pool, st, st1, f, f1, b, done);
        }
    }
    if let Ok(st1) = st.consumed(n, op, ty, effect, pc) {
        if f1.stack.len() == f.stack.len() - n {
            lemma_still_in_step(vm, pool, st, st1, f, f1, b, done);
        }
    }
}

/// A branch over operands that are there.
proof fn lemma_branched_in_step(
    vm: VerifiedView,
    pool: PoolView,
    st: LowerView,
    f: FrameView,
    f1: FrameView,
    b: int,
    done: Seq<bool>,
    n: int,
    op: Op,
    k: int,
)
    requires
        vm.accepted(pool),
        in_step(vm, pool, st, f, b, done),
        0 <= n <= f.stack.len(),
        f1.locals == f.locals,
        f1.stack.len() == f.stack.len() - n,
        0 <= k < vm.insns.len(),
        vm.insns[k].target() is Some,
        !vm.insns[k].ends(),
        leaders_of(vm.insns).len() <= u32::MAX,
    ensures
        match st.branched(
            context_of(graph_of(vm.insns), pool, vm.max_locals, BlockId(b as u32)),
            n,
            op,
            vm.insns[k],
        ) {
            Err(e) => vm.excuses(pool, e),
            Ok(st1) => in_step(vm, pool, st1, f1, b, done),
        },
{
    let insns = vm.insns;
    let leaders = leaders_of(insns);
    let ctx = context_of(graph_of(insns), pool, vm.max_locals, BlockId(b as u32));
    let ins = insns[k];
    let t = ins.target()->0;
    let end = choose|end: int| #[trigger] contiguous(insns, end) && end <= u32::MAX;
    lemma_leaders(insns, insns.len() as int);
    lemma_next_pc(insns, end, k);
    lemma_block_at(leaders, t);
    lemma_block_at(leaders, ins.next_pc());
    assert(leads(insns, insns.len() as int, t));
    assert(leaders.contains(t));
    lemma_accepted_code_ends(vm, pool);
    assert(k + 1 < insns.len());
    assert(is_boundary(insns, ins.next_pc())) by {
        assert(insns[k + 1].pc == ins.next_pc());
    }
    assert(leads(insns, insns.len() as int, ins.next_pc()));
    assert(leaders.contains(ins.next_pc()));
    assert(branch_ends(leaders, ins) is Some);
    lemma_emitted_in_step(
        vm,
        pool,
        st,
        f,
        f1,
        b,
        done,
        n,
        op,
        Tag::I32,
        Effect::Pure,
        ins.pc,
    );
    if let Ok(st1) = st.branched(ctx, n, op, ins) {
        let st0 = st.consumed(n, op, Tag::I32, Effect::Pure, ins.pc)->Ok_0;
        assert(st1.ssa == st0.ssa && st1.stack == st0.stack);
    }
}

/// How many items a plain stack effect takes.
pub open spec fn pops(op: u8) -> int {
    let rule = stack_rule(op)->0;
    (if rule.first is Some {
        1int
    } else {
        0
    }) + (if rule.second is Some {
        1int
    } else {
        0
    })
}

/// Opcodes with a plain stack effect are lowered to match it.
pub proof fn lemma_rule_matches(ins: Insn)
    requires
        stack_rule(ins.op) is Some,
    ensures
        ({
            let rule = stack_rule(ins.op)->0;
            match lowering_of(ins) {
                Lowering::Nothing => pops(ins.op) == 0 && rule.result is None,
                Lowering::Jump => pops(ins.op) == 0 && rule.result is None && ins.target() is Some,
                Lowering::Const(_) => pops(ins.op) == 0 && rule.result is Some,
                Lowering::Unary { .. } => pops(ins.op) == 1 && rule.result is Some,
                Lowering::Binary { .. } => pops(ins.op) == 2 && rule.result is Some,
                Lowering::BranchOnOne(_) => pops(ins.op) == 1 && rule.result is None
                    && ins.target() is Some && !ins.ends(),
                Lowering::BranchOnTwo(_) => pops(ins.op) == 2 && rule.result is None
                    && ins.target() is Some && !ins.ends(),
                _ => false,
            }
        }),
{
}

/// The other accepted opcodes are lowered as their names say.
pub proof fn lemma_other_matches(ins: Insn)
    ensures
        stack_rule(ins.op) is None && load_of(ins) is Some ==> lowering_of(ins) == Lowering::Load(
            (load_of(ins)->0).0,
        ) && !((load_of(ins)->0).1 is Top),
        stack_rule(ins.op) is None && store_of(ins) is Some ==> lowering_of(ins)
            == Lowering::Store((store_of(ins)->0).0),
        0x12 <= ins.op <= 0x14 ==> lowering_of(ins) == Lowering::PoolConstant,
        ins.op == 0x84 ==> lowering_of(ins) == Lowering::Increment,
        ins.op == 0xac || ins.op == 0xad ==> lowering_of(ins) == Lowering::ReturnValue,
{
}

/// A plain stack effect changes the depth by what its rule says, and no local.
pub proof fn lemma_operated_depth(f: FrameView, op: u8, max_stack: u16, pc: u32)
    requires
        stack_rule(op) is Some,
        operated(f, stack_rule(op)->0, max_stack, pc) is Ok,
    ensures
        ({
            let g = operated(f, stack_rule(op)->0, max_stack, pc)->Ok_0;
            &&& pops(op) <= f.stack.len()
            &&& g.locals == f.locals
            &&& g.stack.len() == f.stack.len() - pops(op) + (if (stack_rule(op)->0).result is Some {
                1int
            } else {
                0
            })
        }),
{
    let rule = stack_rule(op)->0;
    assert(rule.second is Some ==> rule.first is Some);
}

/// What lowering an instruction comes to.
pub open spec fn lowers_in_step(
    vm: VerifiedView,
    pool: PoolView,
    r: Result<LowerView, IrError>,
    f1: FrameView,
    b: int,
    done: Seq<bool>,
) -> bool {
    match r {
        Err(e) => vm.excuses(pool, e),
        Ok(st1) => in_step(vm, pool, st1, f1, b, done),
    }
}

proof fn lemma_plain_in_step(
    vm: VerifiedView,
    pool: PoolView,
    st: LowerView,
    b: int,
    done: Seq<bool>,
    k: int,
)
    requires
        vm.accepted(pool),
        vm.insns.len() > 0,
        graph_sound(vm.insns),
        0 <= k < vm.insns.len(),
        in_step(vm, pool, st, state_at(vm, pool, k), b, done),
        stack_rule(vm.insns[k].op) is Some,
    ensures
        lowers_in_step(
            vm,
            pool,
            lowered(
                st,
                context_of(graph_of(vm.insns), pool, vm.max_locals, BlockId(b as u32)),
                vm.insns[k],
            ),
            state_after(vm, pool, k),
            b,
            done,
        ),
{
    let ins = vm.insns[k];
    let ctx = context_of(graph_of(vm.insns), pool, vm.max_locals, BlockId(b as u32));
    let (f, f1) = (state_at(vm, pool, k), state_after(vm, pool, k));
    lemma_steps_checked(vm, pool, k);
    lemma_rule_matches(ins);
    lemma_operated_depth(f, ins.op, vm.max_stack, ins.pc);
    match lowering_of(ins) {
        Lowering::Const(v) => {
            lemma_emitted_in_step(
                vm,
                pool,
                st,
                f,
                f1,
                b,
                done,
                0,
                Op::Const(v),
                v.tag(),
                Effect::Pure,
                ins.pc,
            );
        },
        Lowering::Unary { op, ty, effect } => {
            lemma_emitted_in_step(vm, pool, st, f, f1, b, done, 1, op, ty, effect, ins.pc);
        },
        Lowering::Binary { op, ty, effect } => {
            lemma_emitted_in_step(vm, pool, st, f, f1, b, done, 2, op, ty, effect, ins.pc);
        },
        Lowering::BranchOnOne(op) => {
            lemma_branched_in_step(vm, pool, st, f, f1, b, done, 1, op, k);
        },
        Lowering::BranchOnTwo(op) => {
            lemma_branched_in_step(vm, pool, st, f, f1, b, done, 2, op, k);
        },
        Lowering::Jump => {
            let t = ins.target()->0;
            lemma_leaders(vm.insns, vm.insns.len() as int);
            assert(leads(vm.insns, vm.insns.len() as int, t));
            assert(leaders_of(vm.insns).contains(t));
            lemma_block_at(leaders_of(vm.insns), t);
            let st1 = lowered(st, ctx, ins)->Ok_0;
            lemma_still_in_step(vm, pool, st, st1, f, f1, b, done);
        },
        _ => {
            lemma_still_in_step(vm, pool, st, st, f, f1, b, done);
        },
    }
}

proof fn lemma_load_in_step(
    vm: VerifiedView,
    pool: PoolView,
    st: LowerView,
    f: FrameView,
    f1: FrameView,
    b: int,
    done: Seq<bool>,
    var: u16,
)
    requires
        vm.accepted(pool),
        vm.insns.len() > 0,
        graph_sound(vm.insns),
        in_step(vm, pool, st, f, b, done),
        0 <= b < graph_of(vm.insns).cfg.preds.len(),
        available(vm, pool, st.ssa, b, var),
        f1.locals == f.locals,
        f1.stack.len() == f.stack.len() + 1,
    ensures
        lowers_in_step(
            vm,
            pool,
            st.loaded(
                context_of(graph_of(vm.insns), pool, vm.max_locals, BlockId(b as u32)),
                var,
            ),
            f1,
            b,
            done,
        ),
{
    lemma_read_succeeds(vm, pool, st.ssa, done, var, BlockId(b as u32));
    let ctx = context_of(graph_of(vm.insns), pool, vm.max_locals, BlockId(b as u32));
    if let Ok(st1) = st.loaded(ctx, var) {
        lemma_still_in_step(vm, pool, st, st1, f, f1, b, done);
    }
}

proof fn lemma_store_in_step(
    vm: VerifiedView,
    pool: PoolView,
    st: LowerView,
    f: FrameView,
    b: int,
    done: Seq<bool>,
    var: u16,
    t: VType,
    pc: u32,
)
    requires
        in_step(vm, pool, st, f, b, done),
        f.locals.len() == vm.max_locals,
        f.stored(var, t, vm.limits(), pc) is Ok,
    ensures
        lowers_in_step(
            vm,
            pool,
            st.stored(
                context_of(graph_of(vm.insns), pool, vm.max_locals, BlockId(b as u32)),
                var,
                pc,
            ),
            f.stored(var, t, vm.limits(), pc)->Ok_0,
            b,
            done,
        ),
{
    let f1 = f.stored(var, t, vm.limits(), pc)->Ok_0;
    let block = BlockId(b as u32);
    lemma_wrote_reads(vm, pool, st.ssa, done, var, block, st.stack.last());
    let ctx = context_of(graph_of(vm.insns), pool, vm.max_locals, block);
    let st1 = st.stored(ctx, var, pc)->Ok_0;
    assert forall|v: u16|
        v < vm.max_locals && #[trigger] live(f1, v, vm.max_locals) implies available(
        vm,
        pool,
        st1.ssa,
        b,
        v,
    ) by {
        if v != var {
            assert(live(f, v, vm.max_locals));
            assert(available(vm, pool, st.ssa, b, v));
        }
    }
}

proof fn lemma_increment_in_step(
    vm: VerifiedView,
    pool: PoolView,
    st: LowerView,
    f: FrameView,
    b: int,
    done: Seq<bool>,
    ins: Insn,
)
    requires
        vm.accepted(pool),
        vm.insns.len() > 0,
        graph_sound(vm.insns),
        in_step(vm, pool, st, f, b, done),
        0 <= b < graph_of(vm.insns).cfg.preds.len(),
        available(vm, pool, st.ssa, b, inc_local(ins)),
    ensures
        lowers_in_step(
            vm,
            pool,
            st.incremented(
                context_of(graph_of(vm.insns), pool, vm.max_locals, BlockId(b as u32)),
                ins,
            ),
            f,
            b,
            done,
        ),
{
    let var = inc_local(ins);
    let block = BlockId(b as u32);
    let cfg = graph_of(vm.insns).cfg;
    let ctx = context_of(graph_of(vm.insns), pool, vm.max_locals, block);
    lemma_read_succeeds(vm, pool, st.ssa, done, var, block);
    if let Ok((cur, s1)) = read(st.ssa, cfg, var, block) {
        lemma_fresh_reads(vm, pool, s1, done);
        if let Ok((_, s2)) = s1.fresh() {
            lemma_keeps_trans(st.ssa, s1, s2);
            lemma_fresh_reads(vm, pool, s2, done);
            if let Ok((r, s3)) = s2.fresh() {
                lemma_keeps_trans(st.ssa, s2, s3);
                lemma_wrote_reads(vm, pool, s3, done, var, block, r);
                lemma_keeps_trans(st.ssa, s3, s3.wrote(var, block, r));
                let st1 = st.incremented(ctx, ins)->Ok_0;
                assert(st1.ssa == s3.wrote(var, block, r));
                lemma_still_in_step(vm, pool, st, st1, f, f, b, done);
            }
        }
    }
}

proof fn lemma_constant_in_step(
    vm: VerifiedView,
    pool: PoolView,
    st: LowerView,
    b: int,
    done: Seq<bool>,
    k: int,
)
    requires
        vm.accepted(pool),
        0 <= k < vm.insns.len(),
        0x12 <= vm.insns[k].op <= 0x14,
        in_step(vm, pool, st, state_at(vm, pool, k), b, done),
    ensures
        lowers_in_step(
            vm,
            pool,
            st.pool_constant(
                context_of(graph_of(vm.insns), pool, vm.max_locals, BlockId(b as u32)),
                vm.insns[k],
            ),
            state_after(vm, pool, k),
            b,
            done,
        ),
{
    let ins = vm.insns[k];
    let (f, f1) = (state_at(vm, pool, k), state_after(vm, pool, k));
    lemma_steps_checked(vm, pool, k);
    lemma_emitted_in_step(
        vm,
        pool,
        st,
        f,
        f1,
        b,
        done,
        0,
        Op::LoadString(ins.arg as u16),
        Tag::Ptr,
        Effect::ReadHeap,
        ins.pc,
    );
    match crate::ssa::lower::numeric_constant(pool, ins.arg) {
        Some(v) => {
            lemma_emitted_in_step(
                vm,
                pool,
                st,
                f,
                f1,
                b,
                done,
                0,
                Op::Const(v),
                v.tag(),
                Effect::Pure,
                ins.pc,
            );
        },
        None => {
            if !crate::ssa::lower::is_string_constant(pool, ins.arg) {
                assert(loads_class(vm.insns[k], pool));
            }
        },
    }
}

/// Lowering an instruction stays in step with the verifier.
proof fn lemma_lowered_in_step(
    vm: VerifiedView,
    pool: PoolView,
    st: LowerView,
    b: int,
    done: Seq<bool>,
    k: int,
)
    requires
        vm.accepted(pool),
        vm.insns.len() > 0,
        graph_sound(vm.insns),
        0 <= k < vm.insns.len(),
        0 <= b < graph_of(vm.insns).cfg.preds.len(),
        in_step(vm, pool, st, state_at(vm, pool, k), b, done),
    ensures
        lowers_in_step(
            vm,
            pool,
            lowered(
                st,
                context_of(graph_of(vm.insns), pool, vm.max_locals, BlockId(b as u32)),
                vm.insns[k],
            ),
            state_after(vm, pool, k),
            b,
            done,
        ),
{
    let ins = vm.insns[k];
    let ctx = context_of(graph_of(vm.insns), pool, vm.max_locals, BlockId(b as u32));
    let (f, f1) = (state_at(vm, pool, k), state_after(vm, pool, k));
    lemma_steps_checked(vm, pool, k);
    lemma_other_matches(ins);
    if stack_rule(ins.op) is Some {
        lemma_plain_in_step(vm, pool, st, b, done, k);
    } else if load_of(ins) is Some {
        let (var, t) = load_of(ins)->0;
        assert(live(f, var, vm.max_locals));
        lemma_load_in_step(vm, pool, st, f, f1, b, done, var);
    } else if store_of(ins) is Some {
        let (var, t) = store_of(ins)->0;
        lemma_store_in_step(vm, pool, st, f, b, done, var, t, ins.pc);
    } else if 0x12 <= ins.op <= 0x14 {
        lemma_constant_in_step(vm, pool, st, b, done, k);
    } else if ins.op == 0x84 {
        assert(live(f, inc_local(ins), vm.max_locals));
        lemma_increment_in_step(vm, pool, st, f, b, done, ins);
    } else {
        let st1 = lowered(st, ctx, ins)->Ok_0;
        lemma_still_in_step(vm, pool, st, st1, f, f1, b, done);
    }
}

/// Inside a block control falls through.
pub proof fn lemma_inside_falls_through(vm: VerifiedView, pool: PoolView, b: int, k: int)
    requires
        vm.accepted(pool),
        vm.insns.len() > 0,
        0 <= b < leaders_of(vm.insns).len(),
        bound(vm.insns, leaders_of(vm.insns), b) <= k,
        k + 1 < bound(vm.insns, leaders_of(vm.insns), b + 1),
        leaders_of(vm.insns).len() <= u32::MAX,
    ensures
        0 <= k,
        k + 1 < vm.insns.len(),
        !vm.insns[k].ends(),
{
    let insns = vm.insns;
    let leaders = leaders_of(insns);
    let end = choose|end: int| #[trigger] contiguous(insns, end) && end <= u32::MAX;
    lemma_bound(vm, pool, b);
    if b + 1 < leaders.len() {
        lemma_bound(vm, pool, b + 1);
    }
    lemma_leaders(insns, insns.len() as int);
    lemma_next_pc(insns, end, k);
    if insns[k].ends() {
        let pc = insns[k].next_pc();
        assert(insns[k + 1].pc == pc);
        assert(is_boundary(insns, pc));
        assert(leads(insns, insns.len() as int, pc));
        assert(leaders.contains(pc));
        let c = leaders.index_of(pc);
        lemma_bound_is_unique(vm, pool, c, k + 1);
        if c <= b {
            if c < b {
                lemma_bounds_increase(vm, pool, c, b);
            }
        } else if c > b + 1 {
            lemma_bounds_increase(vm, pool, b + 1, c);
        }
    }
}

/// Inside a block nothing branches.
pub proof fn lemma_inside_does_not_branch(vm: VerifiedView, pool: PoolView, b: int, k: int)
    requires
        vm.accepted(pool),
        vm.insns.len() > 0,
        0 <= b < leaders_of(vm.insns).len(),
        bound(vm.insns, leaders_of(vm.insns), b) <= k,
        k + 1 < bound(vm.insns, leaders_of(vm.insns), b + 1),
        leaders_of(vm.insns).len() <= u32::MAX,
    ensures
        vm.insns[k].target() is None,
{
    let insns = vm.insns;
    let leaders = leaders_of(insns);
    let end = choose|end: int| #[trigger] contiguous(insns, end) && end <= u32::MAX;
    lemma_inside_falls_through(vm, pool, b, k);
    lemma_leaders(insns, insns.len() as int);
    lemma_next_pc(insns, end, k);
    if insns[k].target() is Some {
        let pc = insns[k].next_pc();
        assert(insns[k + 1].pc == pc);
        assert(is_boundary(insns, pc));
        assert(leads(insns, insns.len() as int, pc));
        assert(leaders.contains(pc));
        let c = leaders.index_of(pc);
        lemma_bound_is_unique(vm, pool, c, k + 1);
        if c < b {
            lemma_bounds_increase(vm, pool, c, b);
        } else if c > b + 1 {
            lemma_bounds_increase(vm, pool, b + 1, c);
        }
    }
}

proof fn lemma_lowered_from_in_step(
    vm: VerifiedView,
    pool: PoolView,
    st: LowerView,
    b: int,
    done: Seq<bool>,
    j: int,
)
    requires
        vm.accepted(pool),
        vm.insns.len() > 0,
        graph_sound(vm.insns),
        0 <= b < leaders_of(vm.insns).len(),
        0 <= j < graph_of(vm.insns).parts[b].len(),
        in_step(
            vm,
            pool,
            st,
            state_at(vm, pool, bound(vm.insns, leaders_of(vm.insns), b) + j),
            b,
            done,
        ),
    ensures
        lowers_in_step(
            vm,
            pool,
            lowered_from(
                st,
                context_of(graph_of(vm.insns), pool, vm.max_locals, BlockId(b as u32)),
                graph_of(vm.insns).parts[b],
                j,
            ),
            out_state(vm, pool, b),
            b,
            done,
        ),
    decreases graph_of(vm.insns).parts[b].len() - j,
{
    let insns = vm.insns;
    let leaders = leaders_of(insns);
    let part = graph_of(insns).parts[b];
    let ctx = context_of(graph_of(insns), pool, vm.max_locals, BlockId(b as u32));
    lemma_parts(vm, pool, b);
    lemma_bound(vm, pool, b);
    lemma_bounds_increase(vm, pool, b, b + 1);
    if b + 1 < leaders.len() {
        lemma_bound(vm, pool, b + 1);
    }
    let k = bound(insns, leaders, b) + j;
    assert(part[j] == insns[k]);
    lemma_lowered_in_step(vm, pool, st, b, done, k);
    if let Ok(st1) = lowered(st, ctx, part[j]) {
        if j + 1 < part.len() {
            lemma_inside_falls_through(vm, pool, b, k);
            lemma_steps_checked(vm, pool, k);
            lemma_steps_checked(vm, pool, k + 1);
            let (f, f1) = (state_after(vm, pool, k), state_at(vm, pool, k + 1));
            assert(flow_at(vm, pool, k + 1) == Some(f));
            lemma_entered_live(f, vm.frames, insns[k + 1].pc, vm.max_locals, 0);
            assert forall|v: u16|
                v < vm.max_locals && #[trigger] live(f1, v, vm.max_locals) implies available(
                vm,
                pool,
                st1.ssa,
                b,
                v,
            ) by {
                lemma_entered_live(f, vm.frames, insns[k + 1].pc, vm.max_locals, v);
            }
            lemma_lowered_from_in_step(vm, pool, st1, b, done, j + 1);
        } else {
            assert(k == bound(insns, leaders, b + 1) - 1);
            assert(lowered_from(st1, ctx, part, j + 1) == Ok::<LowerView, IrError>(st1));
        }
    }
}

/// The frame of a block's entry, with only the lowest `s` items on its stack.
pub open spec fn partly_entered(f: FrameView, s: int) -> FrameView {
    FrameView { stack: f.stack.take(s), ..f }
}

proof fn lemma_entered_from_in_step(
    vm: VerifiedView,
    pool: PoolView,
    st: LowerView,
    b: int,
    done: Seq<bool>,
    s: int,
)
    requires
        vm.accepted(pool),
        vm.insns.len() > 0,
        graph_sound(vm.insns),
        0 <= b < leaders_of(vm.insns).len(),
        0 <= s <= in_state(vm, pool, b).stack.len(),
        in_step(vm, pool, st, partly_entered(in_state(vm, pool, b), s), b, done),
    ensures
        lowers_in_step(
            vm,
            pool,
            entered_from(
                st,
                context_of(graph_of(vm.insns), pool, vm.max_locals, BlockId(b as u32)),
                s,
                in_state(vm, pool, b).stack.len() as int,
            ),
            in_state(vm, pool, b),
            b,
            done,
        ),
    decreases in_state(vm, pool, b).stack.len() - s,
{
    let f = in_state(vm, pool, b);
    let ctx = context_of(graph_of(vm.insns), pool, vm.max_locals, BlockId(b as u32));
    if s < f.stack.len() {
        if let Ok(var) = stack_variable(vm.max_locals, s) {
            assert(live_in(vm, pool, b, var));
            lemma_load_in_step(
                vm,
                pool,
                st,
                partly_entered(f, s),
                partly_entered(f, s + 1),
                b,
                done,
                var,
            );
            if let Ok(st1) = st.loaded(ctx, var) {
                lemma_entered_from_in_step(vm, pool, st1, b, done, s + 1);
            }
        }
    } else {
        assert(partly_entered(f, s).stack =~= f.stack);
    }
}

proof fn lemma_left_from_reads(
    vm: VerifiedView,
    pool: PoolView,
    ssa: SsaView,
    b: int,
    done: Seq<bool>,
    stack: Seq<ValId>,
    s: int,
)
    requires
        reads_succeed(vm, pool, ssa, done),
        0 <= s <= stack.len(),
        forall|i: int|
            0 <= i < s ==> ssa.defs.contains_key(
                #[trigger] var_key((vm.max_locals + i) as u16, BlockId(b as u32)),
            ),
    ensures
        match left_from(
            ssa,
            context_of(graph_of(vm.insns), pool, vm.max_locals, BlockId(b as u32)),
            stack,
            s,
        ) {
            Err(e) => e is TooManyValues,
            Ok(s1) => reads_succeed(vm, pool, s1, done) && keeps(ssa, s1) && (s < stack.len()
                ==> vm.max_locals + stack.len() <= 0x1_0000) && forall|i: int|
                0 <= i < stack.len() ==> s1.defs.contains_key(
                    #[trigger] var_key((vm.max_locals + i) as u16, BlockId(b as u32)),
                ),
        },
    decreases stack.len() - s,
{
    let ctx = context_of(graph_of(vm.insns), pool, vm.max_locals, BlockId(b as u32));
    if s < stack.len() {
        if let Ok(var) = stack_variable(vm.max_locals, s) {
            let s1 = ssa.wrote(var, ctx.block, stack[s]);
            lemma_wrote_reads(vm, pool, ssa, done, var, ctx.block, stack[s]);
            assert forall|i: int| 0 <= i < s + 1 implies s1.defs.contains_key(
                #[trigger] var_key((vm.max_locals + i) as u16, BlockId(b as u32)),
            ) by {
                if i < s {
                    assert(ssa.defs.contains_key(
                        var_key((vm.max_locals + i) as u16, BlockId(b as u32)),
                    ));
                }
            }
            lemma_left_from_reads(vm, pool, s1, b, done, stack, s + 1);
            if let Ok(s2) = left_from(s1, ctx, stack, s + 1) {
                lemma_keeps_trans(ssa, s1, s2);
            }
        }
    }
}

/// A block of an accepted method can be lowered, and then what has a value where it is left can be
/// read there.
proof fn lemma_block_in_step(
    vm: VerifiedView,
    pool: PoolView,
    ssa: SsaView,
    b: int,
    done: Seq<bool>,
)
    requires
        vm.accepted(pool),
        vm.insns.len() > 0,
        graph_sound(vm.insns),
        0 <= b < leaders_of(vm.insns).len(),
        reads_succeed(vm, pool, ssa, done),
    ensures
        match block_lowered(
            ssa,
            context_of(graph_of(vm.insns), pool, vm.max_locals, BlockId(b as u32)),
            graph_of(vm.insns).parts[b],
            in_state(vm, pool, b).stack.len() as int,
        ) {
            Err(e) => vm.excuses(pool, e),
            Ok(l) => {
                &&& reads_succeed(vm, pool, l.ssa, done)
                &&& l.stack.len() == out_state(vm, pool, b).stack.len()
                &&& forall|v: u16|
                    #[trigger] live_out(vm, pool, b, v) ==> available(vm, pool, l.ssa, b, v)
            },
        },
{
    let insns = vm.insns;
    let leaders = leaders_of(insns);
    let ctx = context_of(graph_of(insns), pool, vm.max_locals, BlockId(b as u32));
    let part = graph_of(insns).parts[b];
    let f = in_state(vm, pool, b);
    let start = LowerView { ssa, nodes: Seq::empty(), stack: Seq::empty(), term: None };
    assert forall|v: u16|
        v < vm.max_locals && #[trigger] live(partly_entered(f, 0), v, vm.max_locals) implies available(
        vm,
        pool,
        start.ssa,
        b,
        v,
    ) by {
        assert(live(f, v, vm.max_locals));
    }
    lemma_entered_from_in_step(vm, pool, start, b, done, 0);
    if let Ok(st) = entered_from(start, ctx, 0, f.stack.len() as int) {
        lemma_parts(vm, pool, b);
        lemma_bounds_increase(vm, pool, b, b + 1);
        lemma_bound(vm, pool, b);
        if b + 1 < leaders.len() {
            lemma_bound(vm, pool, b + 1);
        }
        lemma_lowered_from_in_step(vm, pool, st, b, done, 0);
        if let Ok(st1) = lowered_from(st, ctx, part, 0) {
            lemma_left_from_reads(vm, pool, st1.ssa, b, done, st1.stack, 0);
            if let Ok(ssa1) = left_from(st1.ssa, ctx, st1.stack, 0) {
                let f1 = out_state(vm, pool, b);
                assert forall|v: u16| #[trigger] live_out(vm, pool, b, v) implies available(
                    vm,
                    pool,
                    ssa1,
                    b,
                    v,
                ) by {
                    if v < vm.max_locals {
                        assert(live(f1, v, vm.max_locals));
                        assert(available(vm, pool, st1.ssa, b, v));
                    } else {
                        let i = v - vm.max_locals;
                        assert((vm.max_locals + i) as u16 == v);
                        assert(ssa1.defs.contains_key(
                            var_key((vm.max_locals + i) as u16, BlockId(b as u32)),
                        ));
                    }
                }
            }
        }
    }
}

/// Whether a method being built is in step with the verifier when the first `j` blocks of the order
/// are processed.
pub open spec fn build_in_step(vm: VerifiedView, pool: PoolView, st: BuildView, j: int) -> bool {
    let g = graph_of(vm.insns);
    let total = g.cfg.preds.len();
    &&& reads_succeed(vm, pool, st.ssa, st.processed)
    &&& st.exits.len() == total
    &&& forall|p: int|
        0 <= p < total && #[trigger] st.processed[p] ==> st.exits[p] == Some(
            out_state(vm, pool, p).stack.len(),
        )
    &&& forall|i: int| 0 <= i < j ==> st.processed[(#[trigger] g.order[i]).0 as int]
}

/// Every block of the order but the first has a predecessor in front of it.
pub proof fn lemma_has_pred(vm: VerifiedView, pool: PoolView, j: int)
    requires
        graph_sound(vm.insns),
        0 < j < graph_of(vm.insns).order.len(),
    ensures
        ({
            let g = graph_of(vm.insns);
            let b = g.order[j];
            &&& g.cfg.preds[b.0 as int].len() > 0
            &&& exists|i: int|
                0 <= i < j && method_succs(vm.insns)[(#[trigger] g.order[i]).0 as int].contains(b)
        }),
{
    let g = graph_of(vm.insns);
    let succs = method_succs(vm.insns);
    assert(crate::ssa::cfg::has_parent(g.order, succs, j));
    let i = choose|i: int| 0 <= i < j && succs[(#[trigger] g.order[i]).0 as int].contains(g.order[j]);
    let p = g.order[i].0 as int;
    let k = succs[p].index_of(g.order[j]);
    assert(succs[p][k] == g.order[j]);
    assert(g.cfg.preds[g.order[j].0 as int].contains(BlockId(p as u32)));
}

/// The operand stack that a block is lowered with is as deep as the verifier's.
pub proof fn lemma_entry_depth(vm: VerifiedView, pool: PoolView, st: BuildView, j: int)
    requires
        vm.accepted(pool),
        vm.insns.len() > 0,
        graph_sound(vm.insns),
        0 <= j < graph_of(vm.insns).order.len(),
        build_in_step(vm, pool, st, j),
        graph_of(vm.insns).order[j].0 < leaders_of(vm.insns).len(),
    ensures
        entry_depth(st, graph_of(vm.insns), vm.frames, graph_of(vm.insns).order[j]) == in_state(
            vm,
            pool,
            graph_of(vm.insns).order[j].0 as int,
        ).stack.len(),
{
    let g = graph_of(vm.insns);
    let block = g.order[j];
    let b = block.0 as int;
    let pc = g.leaders[b];
    lemma_bound(vm, pool, b);
    let k = bound(vm.insns, g.leaders, b);
    lemma_steps_checked(vm, pool, k);
    if block == g.entry {
        lemma_bound(vm, pool, 0);
        lemma_entered_live(vm.initial(), vm.frames, vm.insns[0].pc, vm.max_locals, 0);
    } else if vm.frames.contains_key(pc) {
    } else {
        assert(j > 0);
        lemma_has_pred(vm, pool, j);
        let preds = g.cfg.preds[b];
        // Every predecessor is the block in front, or the synthetic entry, and processed.
        let i = choose|i: int|
            0 <= i < j && method_succs(vm.insns)[(#[trigger] g.order[i]).0 as int].contains(block);
        assert(BlockId(b as u32) == block);
        lemma_edge(vm, pool, g.order[i].0 as int, b, 0);
        assert(st.processed[g.order[i].0 as int]);
        let q = preds[0];
        assert(q.0 < g.cfg.preds.len());
        assert(method_succs(vm.insns)[q.0 as int].contains(block));
        lemma_edge(vm, pool, q.0 as int, b, 0);
        assert(q == g.order[i]);
        assert(st.exits[q.0 as int] == Some(out_state(vm, pool, q.0 as int).stack.len()));
        reveal_with_fuel(first_exit, 2);
    }
}

proof fn lemma_more_done(
    vm: VerifiedView,
    pool: PoolView,
    s: SsaView,
    done: Seq<bool>,
    b: int,
)
    requires
        reads_succeed(vm, pool, s, done),
        0 <= b < done.len(),
        graph_sound(vm.insns),
        forall|v: u16| #[trigger] live_out(vm, pool, b, v) ==> available(vm, pool, s, b, v),
    ensures
        reads_succeed(vm, pool, s, done.update(b, true)),
{
    let g = graph_of(vm.insns);
    let total = g.cfg.preds.len();
    let more = done.update(b, true);
    assert forall|p: int, v: u16|
        0 <= p < total && more[p] && #[trigger] live_out(vm, pool, p, v) implies available(
        vm,
        pool,
        s,
        p,
        v,
    ) by {
        if p != b {
            assert(done[p]);
        }
    }
    assert forall|c: int| 0 <= c < total && #[trigger] s.sealed[c] implies sealed_well(
        g,
        more,
        c,
    ) by {
        assert(sealed_well(g, done, c));
        assert forall|k: int| 0 <= k < g.cfg.preds[c].len() implies more[(
        #[trigger] g.cfg.preds[c][k]).0 as int] by {
            assert(g.cfg.preds[c][k].0 < total);
            assert(done[g.cfg.preds[c][k].0 as int]);
        }
    }
}

pub proof fn lemma_sealable_seals_well(vm: VerifiedView, pool: PoolView, s: SsaView, done: Seq<bool>, j: int)
    requires
        graph_sound(vm.insns),
        0 <= j < graph_of(vm.insns).order.len(),
        sealable(s, graph_of(vm.insns).cfg, done, graph_of(vm.insns).order[j]),
    ensures
        sealed_well(graph_of(vm.insns), done, graph_of(vm.insns).order[j].0 as int),
{
    if j > 0 {
        lemma_has_pred(vm, pool, j);
    }
}

proof fn lemma_sealed_ready_succeeds(
    vm: VerifiedView,
    pool: PoolView,
    s: SsaView,
    done: Seq<bool>,
    k: int,
)
    requires
        vm.accepted(pool),
        vm.insns.len() > 0,
        graph_sound(vm.insns),
        reads_succeed(vm, pool, s, done),
        0 <= k,
    ensures
        match sealed_ready(s, graph_of(vm.insns).cfg, done, graph_of(vm.insns).order, k) {
            Err(e) => e is TooManyValues,
            Ok(s1) => reads_succeed(vm, pool, s1, done),
        },
    decreases graph_of(vm.insns).order.len() - k,
{
    let g = graph_of(vm.insns);
    if k < g.order.len() {
        let b = g.order[k];
        if sealable(s, g.cfg, done, b) {
            lemma_sealable_seals_well(vm, pool, s, done, k);
            lemma_seal_succeeds(vm, pool, s, done, b);
            if let Ok(s1) = seal(s, g.cfg, b) {
                lemma_sealed_ready_succeeds(vm, pool, s1, done, k + 1);
            }
        } else {
            lemma_sealed_ready_succeeds(vm, pool, s, done, k + 1);
        }
    }
}

/// The code of a block can be built.
proof fn lemma_coded_in_step(vm: VerifiedView, pool: PoolView, st: BuildView, j: int)
    requires
        vm.accepted(pool),
        vm.insns.len() > 0,
        graph_sound(vm.insns),
        0 <= j < graph_of(vm.insns).order.len(),
        build_in_step(vm, pool, st, j),
    ensures
        ({
            let g = graph_of(vm.insns);
            let b = g.order[j];
            match coded(st, g, vm, pool, b) {
                Err(e) => vm.excuses(pool, e),
                Ok(st1) => {
                    &&& reads_succeed(vm, pool, st1.ssa, st.processed.update(b.0 as int, true))
                    &&& st1.processed == st.processed
                    &&& st1.exits == st.exits.update(
                        b.0 as int,
                        Some(out_state(vm, pool, b.0 as int).stack.len()),
                    )
                },
            }
        }),
{
    let g = graph_of(vm.insns);
    let block = g.order[j];
    let b = block.0 as int;
    assert(BlockId(b as u32) == block);
    if b < g.leaders.len() {
        lemma_entry_depth(vm, pool, st, j);
        lemma_block_in_step(vm, pool, st.ssa, b, st.processed);
        if let Ok(st1) = coded(st, g, vm, pool, block) {
            lemma_more_done(vm, pool, st1.ssa, st.processed, b);
        }
    } else {
        assert(block == g.entry);
        assert forall|v: u16| #[trigger] live_out(vm, pool, b, v) implies available(
            vm,
            pool,
            st.ssa,
            b,
            v,
        ) by {
            assert(live(vm.initial(), v, vm.max_locals));
        }
        lemma_more_done(vm, pool, st.ssa, st.processed, b);
    }
}

/// The next block can be processed.
pub proof fn lemma_processed_one_in_step(vm: VerifiedView, pool: PoolView, st: BuildView, j: int)
    requires
        vm.accepted(pool),
        vm.insns.len() > 0,
        graph_sound(vm.insns),
        0 <= j < graph_of(vm.insns).order.len(),
        build_in_step(vm, pool, st, j),
    ensures
        match processed_one(st, graph_of(vm.insns), vm, pool, graph_of(vm.insns).order[j]) {
            Err(e) => vm.excuses(pool, e),
            Ok(st1) => build_in_step(vm, pool, st1, j + 1),
        },
{
    let g = graph_of(vm.insns);
    let block = g.order[j];
    let b = block.0 as int;
    if sealable(st.ssa, g.cfg, st.processed, block) {
        lemma_sealable_seals_well(vm, pool, st.ssa, st.processed, j);
        lemma_seal_succeeds(vm, pool, st.ssa, st.processed, block);
    }
    let first = if sealable(st.ssa, g.cfg, st.processed, block) {
        seal(st.ssa, g.cfg, block)
    } else {
        Ok(st.ssa)
    };
    if let Ok(ssa) = first {
        let st0 = BuildView { ssa, ..st };
        lemma_coded_in_step(vm, pool, st0, j);
        if let Ok(st1) = coded(st0, g, vm, pool, block) {
            let processed = st1.processed.update(b, true);
            lemma_sealed_ready_succeeds(vm, pool, st1.ssa, processed, 0);
            if let Ok(ssa1) = sealed_ready(st1.ssa, g.cfg, processed, g.order, 0) {
                let st2 = BuildView { ssa: ssa1, processed, ..st1 };
                assert forall|i: int| 0 <= i < j + 1 implies st2.processed[(
                #[trigger] g.order[i]).0 as int] by {
                    if i < j {
                        assert(st.processed[g.order[i].0 as int]);
                    }
                }
                assert(build_in_step(vm, pool, st2, j + 1));
            }
        }
    }
}

proof fn lemma_processed_from_in_step(vm: VerifiedView, pool: PoolView, st: BuildView, j: int)
    requires
        vm.accepted(pool),
        vm.insns.len() > 0,
        graph_sound(vm.insns),
        0 <= j <= graph_of(vm.insns).order.len(),
        build_in_step(vm, pool, st, j),
    ensures
        processed_from(st, graph_of(vm.insns), vm, pool, j) matches Err(e) ==> vm.excuses(pool, e),
    decreases graph_of(vm.insns).order.len() - j,
{
    let g = graph_of(vm.insns);
    if j < g.order.len() {
        lemma_processed_one_in_step(vm, pool, st, j);
        if let Ok(st1) = processed_one(st, g, vm, pool, g.order[j]) {
            lemma_processed_from_in_step(vm, pool, st1, j + 1);
        }
    }
}

/// Arguments are bound to the locals where the verifier finds them.
proof fn lemma_args_bound(
    s: SsaView,
    entry: BlockId,
    items: Seq<VType>,
    k: int,
    slot: u16,
    vals: Seq<ValId>,
)
    requires
        0 <= k <= items.len(),
        slot == expanded(items.take(k)).len(),
        forall|v: int|
            0 <= v < slot && !(#[trigger] expanded(items.take(k))[v] is Top)
                ==> s.defs.contains_key(var_key(v as u16, entry)),
    ensures
        match args_bound(s, entry, items, k, slot, vals) {
            Err(e) => e is TooManyValues,
            Ok((s1, _)) => {
                &&& s1.sealed == s.sealed
                &&& s1.phis == s.phis
                &&& s1.incomplete == s.incomplete
                &&& s.next <= s1.next
                &&& forall|v: int|
                    0 <= v < expanded(items).len() && !(#[trigger] expanded(items)[v] is Top)
                        ==> s1.defs.contains_key(var_key(v as u16, entry))
            },
        },
    decreases items.len() - k,
{
    if k < items.len() {
        if let Ok((val, s0)) = s.fresh() {
            let t = items[k];
            let (now, next) = (items.take(k), items.take(k + 1));
            assert(next.drop_last() =~= now);
            assert(next.last() == t);
            if slot + t.slots() <= 0xFFFF {
                let s1 = s0.wrote(slot, entry, val);
                assert forall|v: int|
                    0 <= v < slot + t.slots() && !(#[trigger] expanded(next)[v]
                        is Top) implies s1.defs.contains_key(var_key(v as u16, entry)) by {
                    if v < slot {
                        assert(expanded(now)[v] == expanded(next)[v]);
                    } else {
                        assert(v == slot);
                    }
                }
                lemma_args_bound(
                    s1,
                    entry,
                    items,
                    k + 1,
                    (slot + t.slots()) as u16,
                    vals.push(val),
                );
            }
        }
    } else {
        assert(items.take(k) =~= items);
    }
}

proof fn lemma_successors_below(last: Option<Insn>, b: int, leaders: Seq<u32>)
    requires
        leaders.len() < u32::MAX,
        0 <= b < leaders.len(),
    ensures
        forall|i: int|
            0 <= i < successors_of(last, b, leaders.len() as int, leaders).len() ==> (
            #[trigger] successors_of(last, b, leaders.len() as int, leaders)[i]).0 < leaders.len(),
{
    if let Some(ins) = last {
        lemma_block_at(leaders, ins.next_pc());
        if let Some(t) = ins.target() {
            lemma_block_at(leaders, t);
        }
    }
}

/// The graph of every method is sound.
pub proof fn lemma_graph_sound(insns: Seq<Insn>)
    requires
        insns.len() > 0,
        leaders_of(insns).len() < 0xFFFF_FFFE,
    ensures
        graph_sound(insns),
{
    let g = graph_of(insns);
    let leaders = g.leaders;
    let n = leaders.len();
    lemma_leaders(insns, insns.len() as int);
    assert(n > 0);
    let plain = plain_succs(leaders, g.parts);
    assert forall|p: int, j: int| 0 <= p < plain.len() && 0 <= j < plain[p].len() implies (
    #[trigger] plain[p][j]).0 < n by {
        lemma_successors_below(last_of(g.parts[p]), p, leaders);
    }
    assert(ids_below(plain, n as int));
    lemma_preds_and_succs_agree(plain);
    let succs = method_succs(insns);
    let total = succs.len();
    assert forall|p: int, j: int| 0 <= p < succs.len() && 0 <= j < succs[p].len() implies (
    #[trigger] succs[p][j]).0 < total by {
        if p < n {
            assert(plain[p][j].0 < n);
        }
    }
    lemma_preds_and_succs_agree(succs);
    lemma_order_starts_at_entry(g.entry, succs);
    assert forall|b: int| 0 <= b < succs.len() implies (#[trigger] succs[b]).len()
        < usize::MAX by {
        if b < n {
            assert(succs[b] == successors_of(last_of(g.parts[b]), b, n as int, leaders));
        }
    }
    lemma_order_is_closed(g.entry, succs);
    if loops_to_first(plain) {
        crate::ssa::lemma_synth_has_no_preds(plain);
    }
    crate::ssa::lemma_distinct_len(g.order, total as int);
    assert forall|j: int| 0 <= j < g.order.len() implies g.cfg.descends(
        (#[trigger] g.order[j]).0 as int,
    ) by {
        crate::ssa::lemma_ranks_descend(g.order, succs, g.cfg.preds, j);
    }
}

/// The state in which the arguments are bound, and their values.
pub open spec fn with_args(vm: VerifiedView) -> Result<(SsaView, Seq<ValId>), IrError> {
    let g = graph_of(vm.insns);
    match seal(SsaView::fresh_state(g.cfg.preds.len()), g.cfg, g.entry) {
        Err(e) => Err(e),
        Ok(s0) => args_bound(
            s0,
            g.entry,
            initial_items(vm.is_static, vm.arg_types),
            0,
            0,
            Seq::empty(),
        ),
    }
}

/// Sealing the entry, which has no predecessor, needs no operands.
pub proof fn lemma_entry_sealed(vm: VerifiedView)
    requires
        graph_sound(vm.insns),
    ensures
        ({
            let g = graph_of(vm.insns);
            let fresh = SsaView::fresh_state(g.cfg.preds.len());
            seal(fresh, g.cfg, g.entry) matches Ok(s0) && s0.next == fresh.next && s0.phis
                == fresh.phis && s0.incomplete =~= fresh.incomplete && s0.defs == fresh.defs
                && s0.sealed == fresh.sealed.update(g.entry.0 as int, true)
        }),
{
    let g = graph_of(vm.insns);
    let fresh = SsaView::fresh_state(g.cfg.preds.len());
    let e = g.entry.0 as int;
    let list = fresh.incomplete[e];
    assert(list =~= Seq::<usize>::empty());
    let emptied = SsaView { incomplete: fresh.incomplete.update(e, Seq::empty()), ..fresh };
    assert(completed(emptied, g.cfg, list, 0) == Ok::<SsaView, IrError>(emptied));
}

/// A method whose arguments are bound is in step with the verifier.
pub proof fn lemma_start_in_step(vm: VerifiedView, pool: PoolView)
    requires
        vm.accepted(pool),
        graph_sound(vm.insns),
    ensures
        match with_args(vm) {
            Err(e) => e is TooManyValues,
            Ok((s1, _)) => {
                let st = unbuilt(s1, graph_of(vm.insns).cfg.preds.len());
                &&& build_in_step(vm, pool, st, 0)
                &&& forall|v: u16| #[trigger]
                    live(vm.initial(), v, vm.max_locals) ==> s1.defs.contains_key(
                        var_key(v, graph_of(vm.insns).entry),
                    )
                &&& forall|b: int|
                    0 <= b < s1.sealed.len() && #[trigger] s1.sealed[b] ==> sealed_well(
                        graph_of(vm.insns),
                        st.processed,
                        b,
                    )
            },
        },
{
    let g = graph_of(vm.insns);
    let total = g.cfg.preds.len();
    let e = g.entry.0 as int;
    lemma_entry_sealed(vm);
    let s0 = seal(SsaView::fresh_state(total), g.cfg, g.entry)->Ok_0;
    let items = initial_items(vm.is_static, vm.arg_types);
    assert(items.take(0) =~= Seq::empty());
    lemma_args_bound(s0, g.entry, items, 0, 0, Seq::empty());
    if let Ok((s1, arg_vals)) = with_args(vm) {
        let st = unbuilt(s1, total);
        assert forall|v: u16| #[trigger]
            live(vm.initial(), v, vm.max_locals) implies s1.defs.contains_key(
            var_key(v, g.entry),
        ) by {
            assert(!(expanded(items)[v as int] is Top));
            assert((v as int) as u16 == v);
        }
        assert forall|b: int| 0 <= b < total && #[trigger] s1.sealed[b] implies sealed_well(
            g,
            st.processed,
            b,
        ) by {
            assert(b == e);
            assert(g.order[0] == g.entry);
            assert(g.cfg.descends(g.order[0].0 as int));
        }
        assert(reads_succeed(vm, pool, s1, st.processed));
    }
}

/// A method that the verifier accepts can be built, unless it needs more values or blocks than can be
/// numbered, or loads a class constant: the operand stack never underflows, every
/// local that is read has a value, every instruction has a lowering, and every branch a target.
pub proof fn lemma_accepted_methods_build(vm: VerifiedView, pool: PoolView)
    requires
        vm.accepted(pool),
    ensures
        built(vm, pool) matches Err(e) ==> vm.excuses(pool, e),
{
    let g = graph_of(vm.insns);
    lemma_accepted_code_ends(vm, pool);
    if g.leaders.len() < 0xFFFF_FFFE {
        lemma_graph_sound(vm.insns);
        lemma_entry_sealed(vm);
        lemma_start_in_step(vm, pool);
        if let Ok((s1, arg_vals)) = with_args(vm) {
            lemma_processed_from_in_step(vm, pool, unbuilt(s1, g.cfg.preds.len()), 0);
        }
    }
}

/// What the verifier returns is accepted, if the code's length fits the 32 bits that a class file
/// gives it.
pub proof fn lemma_verified_is_accepted(cf: ClassFileView, m: MemberView)
    requires
        verified(cf, m) is Ok,
        first_code(m.attributes)->0.code.len() <= u32::MAX,
    ensures
        verified(cf, m)->Ok_0.accepted(cf.constant_pool),
{
    let code = first_code(m.attributes)->0;
    lemma_decoding_covers_the_code(code.code);
    assert(contiguous(decoded(code.code)->Ok_0, code.code.len() as int));
}

/// A verified method can be built, unless it needs more values or blocks than can be numbered, or
/// loads a class constant.
pub proof fn lemma_verified_methods_build(cf: ClassFileView, m: MemberView)
    requires
        verified(cf, m) is Ok,
        first_code(m.attributes)->0.code.len() <= u32::MAX,
    ensures
        built(verified(cf, m)->Ok_0, cf.constant_pool) matches Err(e) ==> verified(
            cf,
            m,
        )->Ok_0.excuses(cf.constant_pool, e),
{
    lemma_verified_is_accepted(cf, m);
    lemma_accepted_methods_build(verified(cf, m)->Ok_0, cf.constant_pool);
}

} // verus!
