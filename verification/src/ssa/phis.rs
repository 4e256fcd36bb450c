//! Every φ gets one operand for each predecessor of its block.

use vstd::prelude::*;
use crate::classfile::constant_pool::PoolView;
use crate::ids::{BlockId, ValId};
use crate::ir::{PhiView, Terminator};
use crate::ssa::accepted::{
    bound, graph_sound, lemma_accepted_code_ends, lemma_block_at, lemma_bound,
    lemma_bounds_increase, lemma_graph_sound, lemma_inside_does_not_branch,
    lemma_inside_falls_through, lemma_last_of_block, lemma_next_pc, lemma_parts, method_succs,
    with_args,
};
use crate::ssa::cfg::{block_at, ids_below, leaders_of, lemma_leaders, successors_of};
use crate::ssa::error::IrError;
use crate::ssa::escape::marked;
use crate::ssa::laws::order_fits;
use crate::ssa::lower::{
    entered_from, left_from, lowered, lowered_from, lowering_of, stack_variable, ContextView,
    LowerView, Lowering,
};
use crate::ssa::state::{completed, operands, read, seal, var_key, CfgView, PhiDefView, SsaView};
use crate::ssa::{
    all_processed, args_bound, assembled, built, coded, context_of, entry_depth, falls_into,
    graph_of, phis_of, processed_from, processed_one, sealable, sealed_ready, unbuilt, BuildView,
    GraphView,
};
use crate::verify::insn::{contiguous, Insn};
use crate::verify::typecheck::inc_local;
use crate::verify::vtype::VType;
use crate::verify::{initial_items, VerifiedView};

verus! {

/// The blocks that operands come from.
pub open spec fn source_blocks(sources: Seq<(BlockId, ValId)>) -> Seq<BlockId> {
    Seq::new(sources.len(), |i: int| sources[i].0)
}

/// Whether a φ has one operand for each predecessor of its block, in order.
pub open spec fn is_full(s: SsaView, cfg: CfgView, idx: int) -> bool {
    source_blocks(s.phis[idx].sources) == cfg.preds[s.phis[idx].block.0 as int]
}

/// Whether a φ is listed among those that wait for their block to be sealed.
pub open spec fn is_waiting(s: SsaView, idx: int) -> bool {
    exists|j: int|
        0 <= j < s.incomplete[s.phis[idx].block.0 as int].len() && (
        #[trigger] s.incomplete[s.phis[idx].block.0 as int][j]) == idx
}

/// Whether entry `j` of a block's list of waiting φ is in order: the φ belongs to the block, has no
/// operands yet, and its variable is defined in the block.
pub open spec fn waits_in_order(s: SsaView, open: Set<int>, b: int, j: int) -> bool {
    let idx = s.incomplete[b][j] as int;
    &&& 0 <= idx < s.phis.len()
    &&& s.phis[idx].block.0 == b
    &&& s.phis[idx].sources.len() == 0
    &&& s.defs.contains_key(var_key(s.phis[idx].var, BlockId(b as u32)))
    &&& !open.contains(idx)
}

/// Every φ that is not being completed right now has all its operands, or waits for them in an
/// unsealed block.
pub open spec fn phis_in_order(s: SsaView, cfg: CfgView, open: Set<int>) -> bool {
    &&& ids_below(cfg.preds, cfg.preds.len() as int)
    &&& cfg.preds.len() < u32::MAX
    &&& s.incomplete.len() == cfg.preds.len()
    &&& s.sealed.len() == cfg.preds.len()
    &&& s.phis.len() <= s.next
    &&& forall|i: int| 0 <= i < s.phis.len() ==> (#[trigger] s.phis[i]).block.0 < cfg.preds.len()
    &&& forall|i: int|
        0 <= i < s.phis.len() && !open.contains(i) ==> #[trigger] is_full(s, cfg, i) || is_waiting(
            s,
            i,
        )
    &&& forall|b: int, j: int|
        0 <= b < cfg.preds.len() && 0 <= j < s.incomplete[b].len() ==> #[trigger] waits_in_order(
            s,
            open,
            b,
            j,
        )
    &&& forall|b: int, i: int, j: int|
        0 <= b < cfg.preds.len() && 0 <= i < j < s.incomplete[b].len() ==> (
        #[trigger] s.incomplete[b][i]) != (#[trigger] s.incomplete[b][j])
    &&& forall|b: int|
        0 <= b < cfg.preds.len() && (#[trigger] s.sealed[b]) ==> s.incomplete[b].len() == 0
}

/// Whether a later state has all φ of an earlier one, those outside `but` unchanged, and lists at
/// least the same φ as waiting; none is added for a block where the variable is defined.
pub open spec fn phis_kept(a: SsaView, b: SsaView, but: Set<int>, var: u16) -> bool {
    &&& b.sealed == a.sealed
    &&& a.phis.len() <= b.phis.len()
    &&& a.incomplete.len() == b.incomplete.len()
    &&& forall|k: u64| #[trigger] a.defs.contains_key(k) ==> b.defs.contains_key(k)
    &&& forall|i: int|
        0 <= i < a.phis.len() && !but.contains(i) ==> (#[trigger] b.phis[i]) == a.phis[i]
    &&& forall|i: int|
        0 <= i < a.phis.len() ==> (#[trigger] b.phis[i]).block == a.phis[i].block && b.phis[i].var
            == a.phis[i].var
    &&& forall|c: int|
        0 <= c < a.incomplete.len() ==> a.incomplete[c].is_prefix_of(#[trigger] b.incomplete[c])
    &&& forall|c: int|
        0 <= c < a.incomplete.len() && a.defs.contains_key(var_key(var, BlockId(c as u32)))
            ==> (#[trigger] b.incomplete[c]) == a.incomplete[c]
}

proof fn lemma_kept_trans(a: SsaView, b: SsaView, c: SsaView, but: Set<int>, var: u16)
    requires
        phis_kept(a, b, but, var),
        phis_kept(b, c, but, var),
    ensures
        phis_kept(a, c, but, var),
{
    assert forall|i: int| 0 <= i < a.phis.len() && !but.contains(i) implies (#[trigger] c.phis[i])
        == a.phis[i] by {
        assert(b.phis[i] == a.phis[i]);
    }
    assert forall|i: int| 0 <= i < a.phis.len() implies (#[trigger] c.phis[i]).block
        == a.phis[i].block && c.phis[i].var == a.phis[i].var by {
        assert(b.phis[i].block == a.phis[i].block);
    }
    assert forall|d: int| 0 <= d < a.incomplete.len() implies a.incomplete[d].is_prefix_of(
        #[trigger] c.incomplete[d],
    ) by {
        assert(a.incomplete[d].is_prefix_of(b.incomplete[d]));
        assert(b.incomplete[d].is_prefix_of(c.incomplete[d]));
    }
    assert forall|d: int|
        0 <= d < a.incomplete.len() && a.defs.contains_key(
            var_key(var, BlockId(d as u32)),
        ) implies (#[trigger] c.incomplete[d]) == a.incomplete[d] by {
        assert(b.incomplete[d] == a.incomplete[d]);
    }
}

proof fn lemma_kept_more(a: SsaView, b: SsaView, small: Set<int>, big: Set<int>, var: u16)
    requires
        phis_kept(a, b, small, var),
        small.subset_of(big),
    ensures
        phis_kept(a, b, big, var),
{
}

/// More definitions and more values leave φ in order.
proof fn lemma_grown_in_order(a: SsaView, b: SsaView, cfg: CfgView, open: Set<int>, var: u16)
    requires
        phis_in_order(a, cfg, open),
        b.phis == a.phis,
        b.incomplete == a.incomplete,
        b.sealed == a.sealed,
        a.next <= b.next,
        forall|k: u64| #[trigger] a.defs.contains_key(k) ==> b.defs.contains_key(k),
    ensures
        phis_in_order(b, cfg, open),
        phis_kept(a, b, Set::empty(), var),
{
    assert forall|i: int| 0 <= i < b.phis.len() && !open.contains(i) implies #[trigger] is_full(
        b,
        cfg,
        i,
    ) || is_waiting(b, i) by {
        assert(is_full(a, cfg, i) || is_waiting(a, i));
        if is_waiting(a, i) {
            let l = a.incomplete[a.phis[i].block.0 as int];
            let j = choose|j: int|
                0 <= j < a.incomplete[a.phis[i].block.0 as int].len() && (
                #[trigger] a.incomplete[a.phis[i].block.0 as int][j]) == i;
            assert(b.incomplete[b.phis[i].block.0 as int][j] == i);
        }
    }
    assert forall|c: int, j: int|
        0 <= c < cfg.preds.len() && 0 <= j < b.incomplete[c].len() implies #[trigger] waits_in_order(
        b,
        open,
        c,
        j,
    ) by {
        assert(waits_in_order(a, open, c, j));
    }
}

/// A φ under construction that is not full yet, counted as open.
proof fn lemma_opened(s: SsaView, cfg: CfgView, open: Set<int>, block: BlockId, var: u16, v: u16)
    requires
        phis_in_order(s, cfg, open),
        forall|i: int| open.contains(i) ==> i < s.phis.len(),
        block.0 < cfg.preds.len(),
    ensures
        s.with_phi(block, var) matches Ok((val, s1)) ==> {
            &&& phis_in_order(s1, cfg, open.insert(s.phis.len() as int))
            &&& phis_kept(s, s1, Set::empty(), v)
            &&& s1.phis.len() == s.phis.len() + 1
            &&& s1.phis.last() == (PhiDefView { block, var, val, sources: Seq::empty() })
            &&& s1.next == s.next + 1
            &&& s1.incomplete == s.incomplete
            &&& s1.defs == s.defs
        },
{
    if let Ok((val, s1)) = s.with_phi(block, var) {
        let n = s.phis.len() as int;
        let more = open.insert(n);
        assert forall|i: int| 0 <= i < s1.phis.len() && !more.contains(i) implies #[trigger] is_full(
            s1,
            cfg,
            i,
        ) || is_waiting(s1, i) by {
            assert(is_full(s, cfg, i) || is_waiting(s, i));
            assert(s1.phis[i] == s.phis[i]);
            if is_waiting(s, i) {
                let j = choose|j: int|
                    0 <= j < s.incomplete[s.phis[i].block.0 as int].len() && (
                    #[trigger] s.incomplete[s.phis[i].block.0 as int][j]) == i;
                assert(s1.incomplete[s1.phis[i].block.0 as int][j] == i);
            }
        }
        assert forall|c: int, j: int|
            0 <= c < cfg.preds.len() && 0 <= j < s1.incomplete[c].len() implies #[trigger] waits_in_order(
            s1,
            more,
            c,
            j,
        ) by {
            assert(waits_in_order(s, open, c, j));
        }
    }
}

/// A φ that has all its operands is no longer open.
proof fn lemma_closed(s: SsaView, cfg: CfgView, open: Set<int>, idx: int)
    requires
        phis_in_order(s, cfg, open),
        is_full(s, cfg, idx),
        cfg.preds[s.phis[idx].block.0 as int].len() > 0 || !is_waiting(s, idx),
        0 <= idx < s.phis.len(),
    ensures
        phis_in_order(s, cfg, open.remove(idx)),
{
    let less = open.remove(idx);
    assert forall|c: int, j: int|
        0 <= c < cfg.preds.len() && 0 <= j < s.incomplete[c].len() implies #[trigger] waits_in_order(
        s,
        less,
        c,
        j,
    ) by {
        assert(waits_in_order(s, open, c, j));
    }
}

/// One more operand of an open φ.
proof fn lemma_source_in_order(
    s: SsaView,
    cfg: CfgView,
    open: Set<int>,
    idx: int,
    pred: BlockId,
    val: ValId,
    var: u16,
)
    requires
        phis_in_order(s, cfg, open),
        open.contains(idx),
        0 <= idx < s.phis.len(),
    ensures
        phis_in_order(s.with_source(idx, pred, val), cfg, open),
        phis_kept(s, s.with_source(idx, pred, val), set![idx], var),
        source_blocks(s.with_source(idx, pred, val).phis[idx].sources) == source_blocks(
            s.phis[idx].sources,
        ).push(pred),
{
    let s1 = s.with_source(idx, pred, val);
    assert(source_blocks(s1.phis[idx].sources) =~= source_blocks(s.phis[idx].sources).push(pred));
    assert forall|i: int| 0 <= i < s1.phis.len() && !open.contains(i) implies #[trigger] is_full(
        s1,
        cfg,
        i,
    ) || is_waiting(s1, i) by {
        assert(is_full(s, cfg, i) || is_waiting(s, i));
        assert(s1.phis[i] == s.phis[i]);
        if is_waiting(s, i) {
            let j = choose|j: int|
                0 <= j < s.incomplete[s.phis[i].block.0 as int].len() && (
                #[trigger] s.incomplete[s.phis[i].block.0 as int][j]) == i;
            assert(s1.incomplete[s1.phis[i].block.0 as int][j] == i);
        }
    }
    assert forall|c: int, j: int|
        0 <= c < cfg.preds.len() && 0 <= j < s1.incomplete[c].len() implies #[trigger] waits_in_order(
        s1,
        open,
        c,
        j,
    ) by {
        assert(waits_in_order(s, open, c, j));
    }
}

/// The φ made last, counted as open, starts to wait for its block to be sealed.
proof fn lemma_waiting_in_order(
    s: SsaView,
    cfg: CfgView,
    open: Set<int>,
    block: BlockId,
    val: ValId,
    v: u16,
)
    requires
        s.phis.len() > 0,
        phis_in_order(s, cfg, open.insert(s.phis.len() - 1)),
        !open.contains(s.phis.len() - 1),
        block.0 < cfg.preds.len(),
        s.phis.last().block == block,
        s.phis.last().sources.len() == 0,
        !s.sealed[block.0 as int],
        !s.defs.contains_key(var_key(s.phis.last().var, block)),
        v == s.phis.last().var,
    ensures
        phis_in_order(s.waiting(block).wrote(s.phis.last().var, block, val), cfg, open),
        phis_kept(s, s.waiting(block).wrote(s.phis.last().var, block, val), Set::empty(), v),
{
    let b = block.0 as int;
    let var = s.phis.last().var;
    let n = s.phis.len() - 1;
    let more = open.insert(n);
    let s1 = s.waiting(block).wrote(var, block, val);
    assert(BlockId(b as u32) == block);
    assert(s1.incomplete[b] == s.incomplete[b].push(n as usize));
    assert forall|i: int| 0 <= i < s1.phis.len() && !open.contains(i) implies #[trigger] is_full(
        s1,
        cfg,
        i,
    ) || is_waiting(s1, i) by {
        if i == n {
            assert(s1.incomplete[s1.phis[i].block.0 as int][s.incomplete[b].len() as int] == i);
        } else {
            assert(is_full(s, cfg, i) || is_waiting(s, i));
            if is_waiting(s, i) {
                let j = choose|j: int|
                    0 <= j < s.incomplete[s.phis[i].block.0 as int].len() && (
                    #[trigger] s.incomplete[s.phis[i].block.0 as int][j]) == i;
                assert(s1.incomplete[s1.phis[i].block.0 as int][j] == i);
            }
        }
    }
    assert forall|c: int, j: int|
        0 <= c < cfg.preds.len() && 0 <= j < s1.incomplete[c].len() implies #[trigger] waits_in_order(
        s1,
        open,
        c,
        j,
    ) by {
        if c == b && j == s.incomplete[b].len() {
        } else {
            assert(waits_in_order(s, more, c, j));
        }
    }
    assert forall|c: int, i: int, j: int|
        0 <= c < cfg.preds.len() && 0 <= i < j < s1.incomplete[c].len() implies (
    #[trigger] s1.incomplete[c][i]) != (#[trigger] s1.incomplete[c][j]) by {
        if c == b && j == s.incomplete[b].len() {
            assert(waits_in_order(s, more, c, i));
        }
    }
}

proof fn lemma_kept_beyond(a: SsaView, b: SsaView, c: SsaView, n: int, var: u16)
    requires
        phis_kept(a, b, Set::empty(), var),
        phis_kept(b, c, set![n], var),
        a.phis.len() <= n,
    ensures
        phis_kept(a, c, Set::empty(), var),
{
    lemma_kept_more(a, b, Set::empty(), set![n], var);
    lemma_kept_trans(a, b, c, set![n], var);
    assert forall|i: int| 0 <= i < a.phis.len() && !Set::<int>::empty().contains(i) implies (
    #[trigger] c.phis[i]) == a.phis[i] by {
        assert(!set![n].contains(i));
    }
}

/// Whether every open φ exists.
pub open spec fn open_fits(s: SsaView, open: Set<int>) -> bool {
    forall|i: int| open.contains(i) ==> 0 <= i < s.phis.len()
}

proof fn lemma_read_in_order(s: SsaView, cfg: CfgView, open: Set<int>, var: u16, block: BlockId)
    requires
        phis_in_order(s, cfg, open),
        open_fits(s, open),
        block.0 < cfg.preds.len(),
    ensures
        read(s, cfg, var, block) matches Ok((v, s1)) ==> phis_in_order(s1, cfg, open) && phis_kept(
            s,
            s1,
            Set::empty(),
            var,
        ) && s.next <= s1.next,
    decreases 0x1_0000 - s.next, cfg.level(block), 0int,
{
    let b = block.0 as int;
    let key = var_key(var, block);
    let n = s.phis.len() as int;
    assert(BlockId(b as u32) == block);
    lemma_opened(s, cfg, open, block, var, var);
    if s.defs.contains_key(key) {
    } else if !s.sealed[b] {
        if let Ok((val, s1)) = s.with_phi(block, var) {
            lemma_waiting_in_order(s1, cfg, open, block, val, var);
            lemma_kept_trans(
                s,
                s1,
                s1.waiting(block).wrote(var, block, val),
                Set::empty(),
                var,
            );
        }
    } else if cfg.preds[b].len() == 0 {
    } else if cfg.preds[b].len() == 1 {
        let q = cfg.preds[b][0];
        assert(q.0 < cfg.preds.len());
        if cfg.level(q) < cfg.level(block) {
            lemma_read_in_order(s, cfg, open, var, q);
            if let Ok((val, s1)) = read(s, cfg, var, q) {
                let s2 = s1.wrote(var, block, val);
                lemma_grown_in_order(s1, s2, cfg, open, var);
                lemma_kept_trans(s, s1, s2, Set::empty(), var);
            }
        }
    } else if let Ok((val, s1)) = s.with_phi(block, var) {
        let more = open.insert(n);
        let s2 = s1.wrote(var, block, val);
        lemma_grown_in_order(s1, s2, cfg, more, var);
        lemma_kept_trans(s, s1, s2, Set::empty(), var);
        assert forall|k: int| 0 <= k < cfg.preds[b].len() implies (#[trigger] cfg.preds[b][k]).0
            < cfg.preds.len() by {}
        lemma_operands_in_order(s2, cfg, more, n, var, cfg.preds[b], 0);
        if let Ok(s3) = operands(s2, cfg, n, var, cfg.preds[b], 0) {
            assert(source_blocks(s2.phis[n].sources) =~= Seq::<BlockId>::empty());
            assert(cfg.preds[b].skip(0) =~= cfg.preds[b]);
            assert(Seq::<BlockId>::empty() + cfg.preds[b] =~= cfg.preds[b]);
            assert(is_full(s3, cfg, n));
            lemma_closed(s3, cfg, more, n);
            assert(more.remove(n) =~= open);
            lemma_kept_beyond(s, s2, s3, n, var);
            let s4 = s3.wrote(var, block, val);
            lemma_grown_in_order(s3, s4, cfg, open, var);
            lemma_kept_trans(s, s3, s4, Set::empty(), var);
        }
    }
}

proof fn lemma_operands_in_order(
    s: SsaView,
    cfg: CfgView,
    open: Set<int>,
    idx: int,
    var: u16,
    from: Seq<BlockId>,
    k: int,
)
    requires
        phis_in_order(s, cfg, open),
        open_fits(s, open),
        open.contains(idx),
        0 <= k <= from.len(),
        forall|i: int| 0 <= i < from.len() ==> (#[trigger] from[i]).0 < cfg.preds.len(),
    ensures
        operands(s, cfg, idx, var, from, k) matches Ok(s1) ==> {
            &&& phis_in_order(s1, cfg, open)
            &&& phis_kept(s, s1, set![idx], var)
            &&& s.next <= s1.next
            &&& source_blocks(s1.phis[idx].sources) == source_blocks(s.phis[idx].sources)
                + from.skip(k)
        },
    decreases 0x1_0000 - s.next, cfg.rank.len() + 1, from.len() - k,
{
    if k < from.len() {
        lemma_read_in_order(s, cfg, open, var, from[k]);
        if let Ok((val, s1)) = read(s, cfg, var, from[k]) {
            let s2 = s1.with_source(idx, from[k], val);
            lemma_source_in_order(s1, cfg, open, idx, from[k], val, var);
            lemma_kept_more(s, s1, Set::empty(), set![idx], var);
            lemma_kept_trans(s, s1, s2, set![idx], var);
            assert(s1.phis[idx] == s.phis[idx]);
            lemma_operands_in_order(s2, cfg, open, idx, var, from, k + 1);
            if let Ok(s3) = operands(s2, cfg, idx, var, from, k + 1) {
                lemma_kept_trans(s, s2, s3, set![idx], var);
                assert(source_blocks(s.phis[idx].sources).push(from[k]) + from.skip(k + 1)
                    =~= source_blocks(s.phis[idx].sources) + from.skip(k));
            }
        }
    } else {
        assert(from.skip(k) =~= Seq::<BlockId>::empty());
        assert(source_blocks(s.phis[idx].sources) + from.skip(k) =~= source_blocks(
            s.phis[idx].sources,
        ));
    }
}

/// The φ of a list from position `j` on.
pub open spec fn listed_from(list: Seq<usize>, j: int) -> Set<int> {
    Set::new(|i: int| exists|k: int| j <= k < list.len() && (#[trigger] list[k]) == i)
}

/// Whether the φ of a list, from position `j` on, belong to block `b`, lack operands, and merge
/// variables that are defined there.
pub open spec fn list_in_order(s: SsaView, list: Seq<usize>, b: int, j: int) -> bool {
    forall|k: int|
        j <= k < list.len() ==> {
            let idx = (#[trigger] list[k]) as int;
            &&& idx < s.phis.len()
            &&& s.phis[idx].block.0 == b
            &&& s.phis[idx].sources.len() == 0
            &&& s.defs.contains_key(var_key(s.phis[idx].var, BlockId(b as u32)))
        }
}

proof fn lemma_completed_in_order(s: SsaView, cfg: CfgView, list: Seq<usize>, b: int, j: int)
    requires
        phis_in_order(s, cfg, listed_from(list, j)),
        0 <= b < cfg.preds.len(),
        0 <= j <= list.len(),
        list_in_order(s, list, b, j),
        forall|x: int, y: int| 0 <= x < y < list.len() ==> (#[trigger] list[x]) != (
        #[trigger] list[y]),
        s.incomplete[b].len() == 0,
    ensures
        completed(s, cfg, list, j) matches Ok(s1) ==> {
            &&& phis_in_order(s1, cfg, Set::empty())
            &&& s1.sealed == s.sealed
            &&& s1.incomplete[b].len() == 0
        },
    decreases list.len() - j,
{
    let open = listed_from(list, j);
    if j < list.len() {
        let idx = list[j] as int;
        let var = s.phis[idx].var;
        let from = cfg.preds[b];
        assert(open.contains(idx));
        assert(open_fits(s, open)) by {
            assert forall|i: int| open.contains(i) implies 0 <= i < s.phis.len() by {
                let k = choose|k: int| j <= k < list.len() && (#[trigger] list[k]) == i;
            }
        }
        assert forall|k: int| 0 <= k < from.len() implies (#[trigger] from[k]).0
            < cfg.preds.len() by {}
        lemma_operands_in_order(s, cfg, open, idx, var, from, 0);
        if let Ok(s1) = operands(s, cfg, idx, var, from, 0) {
            assert(source_blocks(s.phis[idx].sources) =~= Seq::<BlockId>::empty());
            assert(from.skip(0) =~= from);
            assert(Seq::<BlockId>::empty() + from =~= from);
            assert(is_full(s1, cfg, idx));
            assert(s1.incomplete[b] == s.incomplete[b]);
            lemma_closed(s1, cfg, open, idx);
            assert(open.remove(idx) =~= listed_from(list, j + 1)) by {
                assert forall|i: int| open.remove(idx).contains(i) <==> listed_from(
                    list,
                    j + 1,
                ).contains(i) by {
                    if open.remove(idx).contains(i) {
                        let k = choose|k: int| j <= k < list.len() && (#[trigger] list[k]) == i;
                        assert(k > j);
                    }
                    if listed_from(list, j + 1).contains(i) {
                        let k = choose|k: int|
                            j + 1 <= k < list.len() && (#[trigger] list[k]) == i;
                        assert(list[j] != list[k]);
                    }
                }
            }
            assert(list_in_order(s1, list, b, j + 1)) by {
                assert forall|k: int| j + 1 <= k < list.len() implies ({
                    let x = (#[trigger] list[k]) as int;
                    &&& x < s1.phis.len()
                    &&& s1.phis[x].block.0 == b
                    &&& s1.phis[x].sources.len() == 0
                    &&& s1.defs.contains_key(var_key(s1.phis[x].var, BlockId(b as u32)))
                }) by {
                    assert(list[j] != list[k]);
                    assert(s1.phis[list[k] as int] == s.phis[list[k] as int]);
                }
            }
            lemma_completed_in_order(s1, cfg, list, b, j + 1);
        }
    } else {
        assert(open =~= Set::empty());
    }
}

pub proof fn lemma_seal_in_order(s: SsaView, cfg: CfgView, block: BlockId)
    requires
        phis_in_order(s, cfg, Set::empty()),
        block.0 < cfg.preds.len(),
    ensures
        seal(s, cfg, block) matches Ok(s1) ==> phis_in_order(s1, cfg, Set::empty()) && s1.sealed
            == s.sealed.update(block.0 as int, true),
{
    let b = block.0 as int;
    let list = s.incomplete[b];
    let open = listed_from(list, 0);
    let s0 = SsaView { incomplete: s.incomplete.update(b, Seq::empty()), ..s };
    assert forall|k: int| 0 <= k < list.len() implies #[trigger] waits_in_order(
        s,
        Set::empty(),
        b,
        k,
    ) by {}
    assert(list_in_order(s0, list, b, 0)) by {
        assert forall|k: int| 0 <= k < list.len() implies ({
            let idx = (#[trigger] list[k]) as int;
            &&& idx < s0.phis.len()
            &&& s0.phis[idx].block.0 == b
            &&& s0.phis[idx].sources.len() == 0
            &&& s0.defs.contains_key(var_key(s0.phis[idx].var, BlockId(b as u32)))
        }) by {
            assert(waits_in_order(s, Set::empty(), b, k));
        }
    }
    assert forall|i: int| 0 <= i < s0.phis.len() && !open.contains(i) implies #[trigger] is_full(
        s0,
        cfg,
        i,
    ) || is_waiting(s0, i) by {
        assert(is_full(s, cfg, i) || is_waiting(s, i));
        if is_waiting(s, i) {
            let c = s.phis[i].block.0 as int;
            let j = choose|j: int|
                0 <= j < s.incomplete[s.phis[i].block.0 as int].len() && (
                #[trigger] s.incomplete[s.phis[i].block.0 as int][j]) == i;
            if c == b {
                assert(list[j] == i);
                assert(open.contains(i));
            }
            assert(s0.incomplete[s0.phis[i].block.0 as int][j] == i);
        }
    }
    assert forall|c: int, j: int|
        0 <= c < cfg.preds.len() && 0 <= j < s0.incomplete[c].len() implies #[trigger] waits_in_order(
        s0,
        open,
        c,
        j,
    ) by {
        assert(c != b);
        assert(waits_in_order(s, Set::empty(), c, j));
        let idx = s.incomplete[c][j] as int;
        if open.contains(idx) {
            let k = choose|k: int| 0 <= k < list.len() && (#[trigger] list[k]) == idx;
            assert(waits_in_order(s, Set::empty(), b, k));
        }
    }
    assert(phis_in_order(s0, cfg, open));
    lemma_completed_in_order(s0, cfg, list, b, 0);
    if let Ok(s1) = completed(s0, cfg, list, 0) {
        let s2 = SsaView { sealed: s1.sealed.update(b, true), ..s1 };
        lemma_sealed_in_order(s1, s2, cfg, b);
    }
}

proof fn lemma_sealed_in_order(a: SsaView, s: SsaView, cfg: CfgView, b: int)
    requires
        phis_in_order(a, cfg, Set::empty()),
        0 <= b < cfg.preds.len(),
        a.incomplete[b].len() == 0,
        s == (SsaView { sealed: a.sealed.update(b, true), ..a }),
    ensures
        phis_in_order(s, cfg, Set::empty()),
{
    assert forall|i: int|
        0 <= i < s.phis.len() && !Set::<int>::empty().contains(i) implies #[trigger] is_full(
        s,
        cfg,
        i,
    ) || is_waiting(s, i) by {
        assert(is_full(a, cfg, i) || is_waiting(a, i));
        if is_waiting(a, i) {
            let j = choose|j: int|
                0 <= j < a.incomplete[a.phis[i].block.0 as int].len() && (
                #[trigger] a.incomplete[a.phis[i].block.0 as int][j]) == i;
            assert(s.incomplete[s.phis[i].block.0 as int][j] == i);
        }
    }
    assert forall|c: int, j: int|
        0 <= c < cfg.preds.len() && 0 <= j < s.incomplete[c].len() implies #[trigger] waits_in_order(
        s,
        Set::empty(),
        c,
        j,
    ) by {
        assert(waits_in_order(a, Set::empty(), c, j));
    }
    assert forall|c: int| 0 <= c < cfg.preds.len() && (
    #[trigger] s.sealed[c]) implies s.incomplete[c].len() == 0 by {
        if c != b {
            assert(a.sealed[c]);
        }
    }
}

/// Whether a state has its φ in order, with the same blocks sealed as another.
pub open spec fn goes_on(a: SsaView, b: SsaView, cfg: CfgView) -> bool {
    phis_in_order(b, cfg, Set::empty()) && b.sealed == a.sealed
}

proof fn lemma_loaded_goes_on(st: LowerView, ctx: ContextView, var: u16)
    requires
        phis_in_order(st.ssa, ctx.cfg, Set::empty()),
        ctx.block.0 < ctx.cfg.preds.len(),
    ensures
        st.loaded(ctx, var) matches Ok(s1) ==> goes_on(st.ssa, s1.ssa, ctx.cfg),
{
    lemma_read_in_order(st.ssa, ctx.cfg, Set::empty(), var, ctx.block);
}

proof fn lemma_same_goes_on(a: SsaView, b: SsaView, cfg: CfgView)
    requires
        phis_in_order(a, cfg, Set::empty()),
        b.phis == a.phis,
        b.incomplete == a.incomplete,
        b.sealed == a.sealed,
        a.next <= b.next,
        forall|k: u64| #[trigger] a.defs.contains_key(k) ==> b.defs.contains_key(k),
    ensures
        goes_on(a, b, cfg),
{
    lemma_grown_in_order(a, b, cfg, Set::empty(), 0);
}

proof fn lemma_incremented_goes_on(st: LowerView, ctx: ContextView, ins: Insn)
    requires
        phis_in_order(st.ssa, ctx.cfg, Set::empty()),
        ctx.block.0 < ctx.cfg.preds.len(),
    ensures
        st.incremented(ctx, ins) matches Ok(s1) ==> goes_on(st.ssa, s1.ssa, ctx.cfg),
{
    let var = inc_local(ins);
    lemma_read_in_order(st.ssa, ctx.cfg, Set::empty(), var, ctx.block);
    if let Ok((cur, ssa)) = read(st.ssa, ctx.cfg, var, ctx.block) {
        if let Ok(s1) = st.incremented(ctx, ins) {
            lemma_same_goes_on(ssa, s1.ssa, ctx.cfg);
        }
    }
}

/// An instruction other than a load or an increment makes no φ.
#[verifier::rlimit(40)]
proof fn lemma_lowered_makes_no_phi(st: LowerView, ctx: ContextView, ins: Insn)
    requires
        !(lowering_of(ins) is Load),
        !(lowering_of(ins) is Increment),
    ensures
        lowered(st, ctx, ins) matches Ok(s1) ==> {
            &&& s1.ssa.phis == st.ssa.phis
            &&& s1.ssa.incomplete == st.ssa.incomplete
            &&& s1.ssa.sealed == st.ssa.sealed
            &&& st.ssa.next <= s1.ssa.next
            &&& forall|k: u64| #[trigger]
                st.ssa.defs.contains_key(k) ==> s1.ssa.defs.contains_key(k)
        },
{
}

proof fn lemma_lowered_goes_on(st: LowerView, ctx: ContextView, ins: Insn)
    requires
        phis_in_order(st.ssa, ctx.cfg, Set::empty()),
        ctx.block.0 < ctx.cfg.preds.len(),
    ensures
        lowered(st, ctx, ins) matches Ok(s1) ==> goes_on(st.ssa, s1.ssa, ctx.cfg),
{
    match lowering_of(ins) {
        Lowering::Load(var) => {
            lemma_loaded_goes_on(st, ctx, var);
        },
        Lowering::Increment => {
            lemma_incremented_goes_on(st, ctx, ins);
        },
        _ => {
            lemma_lowered_makes_no_phi(st, ctx, ins);
            if let Ok(s1) = lowered(st, ctx, ins) {
                lemma_same_goes_on(st.ssa, s1.ssa, ctx.cfg);
            }
        },
    }
}

proof fn lemma_lowered_from_goes_on(st: LowerView, ctx: ContextView, insns: Seq<Insn>, k: int)
    requires
        phis_in_order(st.ssa, ctx.cfg, Set::empty()),
        ctx.block.0 < ctx.cfg.preds.len(),
        0 <= k,
    ensures
        lowered_from(st, ctx, insns, k) matches Ok(s1) ==> goes_on(st.ssa, s1.ssa, ctx.cfg),
    decreases insns.len() - k,
{
    if k < insns.len() {
        lemma_lowered_goes_on(st, ctx, insns[k]);
        if let Ok(s1) = lowered(st, ctx, insns[k]) {
            lemma_lowered_from_goes_on(s1, ctx, insns, k + 1);
        }
    }
}

proof fn lemma_entered_from_goes_on(st: LowerView, ctx: ContextView, s: int, depth: int)
    requires
        phis_in_order(st.ssa, ctx.cfg, Set::empty()),
        ctx.block.0 < ctx.cfg.preds.len(),
    ensures
        entered_from(st, ctx, s, depth) matches Ok(s1) ==> goes_on(st.ssa, s1.ssa, ctx.cfg),
    decreases depth - s,
{
    if s < depth {
        if let Ok(var) = stack_variable(ctx.max_locals, s) {
            lemma_loaded_goes_on(st, ctx, var);
            if let Ok(s1) = st.loaded(ctx, var) {
                lemma_entered_from_goes_on(s1, ctx, s + 1, depth);
            }
        }
    }
}

proof fn lemma_left_from_goes_on(ssa: SsaView, ctx: ContextView, stack: Seq<ValId>, s: int)
    requires
        phis_in_order(ssa, ctx.cfg, Set::empty()),
    ensures
        left_from(ssa, ctx, stack, s) matches Ok(s1) ==> goes_on(ssa, s1, ctx.cfg),
    decreases stack.len() - s,
{
    if s < stack.len() {
        if let Ok(var) = stack_variable(ctx.max_locals, s) {
            let s1 = ssa.wrote(var, ctx.block, stack[s]);
            lemma_same_goes_on(ssa, s1, ctx.cfg);
            lemma_left_from_goes_on(s1, ctx, stack, s + 1);
        }
    }
}

pub proof fn lemma_coded_goes_on(
    st: BuildView,
    g: GraphView,
    vm: VerifiedView,
    pool: PoolView,
    b: BlockId,
)
    requires
        phis_in_order(st.ssa, g.cfg, Set::empty()),
        b.0 < g.cfg.preds.len(),
    ensures
        coded(st, g, vm, pool, b) matches Ok(s1) ==> goes_on(st.ssa, s1.ssa, g.cfg) && s1.processed
            == st.processed,
{
    let i = b.0 as int;
    if i < g.leaders.len() {
        let ctx = context_of(g, pool, vm.max_locals, b);
        let depth = entry_depth(st, g, vm.frames, b) as int;
        let start = LowerView {
            ssa: st.ssa,
            nodes: Seq::empty(),
            stack: Seq::empty(),
            term: None,
        };
        lemma_entered_from_goes_on(start, ctx, 0, depth);
        if let Ok(l) = entered_from(start, ctx, 0, depth) {
            lemma_lowered_from_goes_on(l, ctx, g.parts[i], 0);
            if let Ok(l1) = lowered_from(l, ctx, g.parts[i], 0) {
                lemma_left_from_goes_on(l1.ssa, ctx, l1.stack, 0);
            }
        }
    }
}

/// Whether the blocks of the order, from `k` on, are sealed if their predecessors are processed.
pub open spec fn ready_sealed(s: SsaView, g: GraphView, processed: Seq<bool>, k: int) -> bool {
    forall|i: int|
        k <= i < g.order.len() && all_processed(
            g.cfg.preds[(#[trigger] g.order[i]).0 as int],
            processed,
        ) ==> s.sealed[g.order[i].0 as int]
}

/// Whether a later state has all blocks sealed that an earlier one has.
pub open spec fn seals_kept(a: SsaView, b: SsaView) -> bool {
    &&& b.sealed.len() == a.sealed.len()
    &&& forall|i: int| 0 <= i < a.sealed.len() && a.sealed[i] ==> #[trigger] b.sealed[i]
}

proof fn lemma_sealed_ready_in_order(s: SsaView, g: GraphView, processed: Seq<bool>, k: int)
    requires
        phis_in_order(s, g.cfg, Set::empty()),
        order_fits(g),
        0 <= k,
    ensures
        sealed_ready(s, g.cfg, processed, g.order, k) matches Ok(s1) ==> phis_in_order(
            s1,
            g.cfg,
            Set::empty(),
        ) && seals_kept(s, s1) && ready_sealed(s1, g, processed, k),
    decreases g.order.len() - k,
{
    if k < g.order.len() {
        let b = g.order[k];
        if sealable(s, g.cfg, processed, b) {
            lemma_seal_in_order(s, g.cfg, b);
            if let Ok(s1) = seal(s, g.cfg, b) {
                lemma_sealed_ready_in_order(s1, g, processed, k + 1);
                if let Ok(s2) = sealed_ready(s1, g.cfg, processed, g.order, k + 1) {
                    assert(s1.sealed[b.0 as int]);
                    assert(s2.sealed[b.0 as int]);
                }
            }
        } else {
            lemma_sealed_ready_in_order(s, g, processed, k + 1);
            if let Ok(s2) = sealed_ready(s, g.cfg, processed, g.order, k + 1) {
                if all_processed(g.cfg.preds[b.0 as int], processed) {
                    assert(s.sealed[b.0 as int]);
                    assert(s2.sealed[b.0 as int]);
                }
            }
        }
    }
}

/// What holds when the first `j` blocks of the order are processed.
pub open spec fn build_in_order(st: BuildView, g: GraphView, j: int) -> bool {
    &&& phis_in_order(st.ssa, g.cfg, Set::empty())
    &&& st.processed.len() == g.cfg.preds.len()
    &&& forall|i: int| 0 <= i < j ==> st.processed[(#[trigger] g.order[i]).0 as int]
    &&& j > 0 ==> ready_sealed(st.ssa, g, st.processed, 0)
}

pub proof fn lemma_processed_one_in_order(
    st: BuildView,
    g: GraphView,
    vm: VerifiedView,
    pool: PoolView,
    j: int,
)
    requires
        build_in_order(st, g, j),
        order_fits(g),
        0 <= j < g.order.len(),
    ensures
        processed_one(st, g, vm, pool, g.order[j]) matches Ok(s1) ==> build_in_order(s1, g, j + 1),
{
    let b = g.order[j];
    lemma_seal_in_order(st.ssa, g.cfg, b);
    let first = if sealable(st.ssa, g.cfg, st.processed, b) {
        seal(st.ssa, g.cfg, b)
    } else {
        Ok(st.ssa)
    };
    if let Ok(ssa) = first {
        let s0 = BuildView { ssa, ..st };
        lemma_coded_goes_on(s0, g, vm, pool, b);
        if let Ok(s1) = coded(s0, g, vm, pool, b) {
            let processed = s1.processed.update(b.0 as int, true);
            lemma_sealed_ready_in_order(s1.ssa, g, processed, 0);
            if let Ok(ssa1) = sealed_ready(s1.ssa, g.cfg, processed, g.order, 0) {
                assert forall|i: int| 0 <= i < j + 1 implies processed[(
                #[trigger] g.order[i]).0 as int] by {
                    if i < j {
                        assert(st.processed[g.order[i].0 as int]);
                    }
                }
            }
        }
    }
}

pub proof fn lemma_processed_from_in_order(
    st: BuildView,
    g: GraphView,
    vm: VerifiedView,
    pool: PoolView,
    j: int,
)
    requires
        build_in_order(st, g, j),
        order_fits(g),
        0 <= j <= g.order.len(),
    ensures
        processed_from(st, g, vm, pool, j) matches Ok(s1) ==> build_in_order(
            s1,
            g,
            g.order.len() as int,
        ),
    decreases g.order.len() - j,
{
    if j < g.order.len() {
        lemma_processed_one_in_order(st, g, vm, pool, j);
        if let Ok(s1) = processed_one(st, g, vm, pool, g.order[j]) {
            lemma_processed_from_in_order(s1, g, vm, pool, j + 1);
        }
    }
}

proof fn lemma_args_keep_phis(
    s: SsaView,
    entry: BlockId,
    items: Seq<VType>,
    k: int,
    slot: u16,
    vals: Seq<ValId>,
)
    requires
        0 <= k,
    ensures
        args_bound(s, entry, items, k, slot, vals) matches Ok((s1, _)) ==> {
            &&& s1.phis == s.phis
            &&& s1.incomplete == s.incomplete
            &&& s1.sealed == s.sealed
            &&& s.next <= s1.next
            &&& forall|x: u64| #[trigger] s.defs.contains_key(x) ==> s1.defs.contains_key(x)
        },
    decreases items.len() - k,
{
    if k < items.len() {
        if let Ok((v, s0)) = s.fresh() {
            let bound = s0.wrote(slot, entry, v);
            assert forall|x: u64| #[trigger]
                s.defs.contains_key(x) implies bound.defs.contains_key(x) by {}
            lemma_args_keep_phis(
                bound,
                entry,
                items,
                k + 1,
                (slot + items[k].slots()) as u16,
                vals.push(v),
            );
        }
    }
}

pub proof fn lemma_phis_of_come_from(phis: Seq<PhiDefView>, b: int, j: int)
    requires
        0 <= j < phis_of(phis, b).len(),
    ensures
        exists|i: int|
            0 <= i < phis.len() && (#[trigger] phis[i]).block.0 == b && phis_of(phis, b)[j]
                == (PhiView { slot: phis[i].val, sources: phis[i].sources }),
    decreases phis.len(),
{
    if phis.len() > 0 {
        let rest = phis_of(phis.drop_last(), b);
        if j < rest.len() {
            lemma_phis_of_come_from(phis.drop_last(), b, j);
            let i = choose|i: int|
                0 <= i < phis.drop_last().len() && (#[trigger] phis.drop_last()[i]).block.0 == b
                    && rest[j] == (PhiView {
                    slot: phis.drop_last()[i].val,
                    sources: phis.drop_last()[i].sources,
                });
            assert(phis[i] == phis.drop_last()[i]);
        } else {
            assert(phis[phis.len() - 1] == phis.last());
        }
    }
}

/// Whether block `b` of a method's graph is reachable, and all its predecessors are.
pub open spec fn fully_reached(insns: Seq<Insn>, b: int) -> bool {
    let g = graph_of(insns);
    &&& g.order.contains(BlockId(b as u32))
    &&& forall|k: int|
        0 <= k < g.cfg.preds[b].len() ==> g.order.contains(#[trigger] g.cfg.preds[b][k])
}

/// A method whose arguments are bound has its φ in order: none.
pub proof fn lemma_start_in_order(vm: VerifiedView)
    requires
        graph_sound(vm.insns),
    ensures
        with_args(vm) matches Ok((s1, _)) ==> build_in_order(
            unbuilt(s1, graph_of(vm.insns).cfg.preds.len()),
            graph_of(vm.insns),
            0,
        ),
{
    let g = graph_of(vm.insns);
    let fresh = SsaView::fresh_state(g.cfg.preds.len());
    assert(phis_in_order(fresh, g.cfg, Set::empty()));
    lemma_seal_in_order(fresh, g.cfg, g.entry);
    if let Ok((s1, _)) = with_args(vm) {
        let s0 = seal(fresh, g.cfg, g.entry)->Ok_0;
        let items = initial_items(vm.is_static, vm.arg_types);
        lemma_args_keep_phis(s0, g.entry, items, 0, 0, Seq::empty());
        lemma_same_goes_on(s0, s1, g.cfg);
    }
}

/// Every φ of a built method has exactly one operand for each predecessor of its block, in order, if
/// the block and its predecessors are reachable.
pub proof fn lemma_phis_are_complete(vm: VerifiedView, pool: PoolView, b: int, j: int)
    requires
        built(vm, pool) is Ok,
        0 <= b < built(vm, pool)->Ok_0.method.blocks.len(),
        0 <= j < built(vm, pool)->Ok_0.method.blocks[b].phis.len(),
        fully_reached(vm.insns, b),
    ensures
        source_blocks(built(vm, pool)->Ok_0.method.blocks[b].phis[j].sources) == graph_of(
            vm.insns,
        ).cfg.preds[b],
{
    let m = built(vm, pool)->Ok_0;
    let g = graph_of(vm.insns);
    let total = g.cfg.preds.len();
    lemma_graph_sound(vm.insns);
    lemma_start_in_order(vm);
    let (s1, _) = with_args(vm)->Ok_0;
    let start = unbuilt(s1, total);
    lemma_processed_from_in_order(start, g, vm, pool, 0);
    let st = processed_from(start, g, vm, pool, 0)->Ok_0;
    let plain = assembled(st, total);
    assert(m.method.blocks == marked(plain));
    assert(m.method.blocks[b].phis == phis_of(st.ssa.phis, b));
    lemma_phis_of_come_from(st.ssa.phis, b, j);
    let i = choose|i: int|
        0 <= i < st.ssa.phis.len() && (#[trigger] st.ssa.phis[i]).block.0 == b && phis_of(
            st.ssa.phis,
            b,
        )[j] == (PhiView { slot: st.ssa.phis[i].val, sources: st.ssa.phis[i].sources });
    let place = g.order.index_of(BlockId(b as u32));
    assert(g.order[place] == BlockId(b as u32));
    assert(all_processed(g.cfg.preds[b], st.processed)) by {
        assert forall|k: int| 0 <= k < g.cfg.preds[b].len() implies st.processed[(
        #[trigger] g.cfg.preds[b][k]).0 as int] by {
            assert(g.order.contains(g.cfg.preds[b][k]));
            let x = g.order.index_of(g.cfg.preds[b][k]);
            assert(st.processed[g.order[x].0 as int]);
        }
    }
    assert(st.ssa.sealed[b]);
    assert(st.ssa.incomplete[b].len() == 0);
    assert(is_full(st.ssa, g.cfg, i) || is_waiting(st.ssa, i));
}

/// Whether a terminator can lead to block `b`.
pub open spec fn leads_to(t: Terminator, b: BlockId) -> bool {
    match t {
        Terminator::Goto(x) => x == b,
        Terminator::CondBranch { taken, not_taken, .. } => taken == b || not_taken == b,
        _ => false,
    }
}

/// Whether a terminator leads only to given blocks.
pub open spec fn leads_into(t: Terminator, blocks: Seq<BlockId>) -> bool {
    forall|b: BlockId| #[trigger] leads_to(t, b) ==> blocks.contains(b)
}

/// An instruction that neither branches nor ends leaves the terminator alone.
#[verifier::rlimit(40)]
pub proof fn lemma_plain_keeps_term(st: LowerView, ctx: ContextView, ins: Insn)
    requires
        ins.target() is None,
        !ins.ends(),
    ensures
        lowered(st, ctx, ins) matches Ok(s1) ==> s1.term == st.term,
{
}

/// A branch, jump or return leads to where the instruction goes.
proof fn lemma_control_sets_term(st: LowerView, ctx: ContextView, ins: Insn, p: int)
    requires
        ins.target() is Some || ins.ends(),
        st.term is None,
        ctx.leaders.len() <= u32::MAX,
    ensures
        lowered(st, ctx, ins) matches Ok(s1) ==> (s1.term matches Some(t) ==> leads_into(
            t,
            successors_of(Some(ins), p, ctx.leaders.len() as int, ctx.leaders),
        )),
        lowered(st, ctx, ins) is Ok ==> lowered(st, ctx, ins)->Ok_0.term is Some,
{
    let leaders = ctx.leaders;
    let all = successors_of(Some(ins), p, leaders.len() as int, leaders);
    if let Ok(s1) = lowered(st, ctx, ins) {
        if let Some(t) = s1.term {
            assert forall|b: BlockId| #[trigger] leads_to(t, b) implies all.contains(b) by {
                if ins.target() is Some {
                    let jump = block_at(leaders, ins.target()->0);
                    if jump == Some(b) {
                        assert(all[0] == b);
                    } else {
                        assert(!ins.ends());
                        assert(block_at(leaders, ins.next_pc()) == Some(b));
                        assert(all[all.len() - 1] == b);
                    }
                }
            }
        }
    }
}

pub proof fn lemma_entered_keeps_term(st: LowerView, ctx: ContextView, s: int, depth: int)
    ensures
        entered_from(st, ctx, s, depth) matches Ok(s1) ==> s1.term == st.term,
    decreases depth - s,
{
    if s < depth {
        if let Ok(var) = stack_variable(ctx.max_locals, s) {
            if let Ok(s1) = st.loaded(ctx, var) {
                lemma_entered_keeps_term(s1, ctx, s + 1, depth);
            }
        }
    }
}

/// Lowering the instructions of block `p` from position `j` on ends with a terminator that leads to
/// successors of the block, or with none if the last instruction falls through.
proof fn lemma_block_term(
    vm: VerifiedView,
    pool: PoolView,
    st: LowerView,
    p: int,
    j: int,
)
    requires
        vm.accepted(pool),
        vm.insns.len() > 0,
        graph_sound(vm.insns),
        0 <= p < leaders_of(vm.insns).len(),
        0 <= j < graph_of(vm.insns).parts[p].len(),
        st.term is None,
    ensures
        lowered_from(
            st,
            context_of(graph_of(vm.insns), pool, vm.max_locals, BlockId(p as u32)),
            graph_of(vm.insns).parts[p],
            j,
        ) matches Ok(l) ==> match l.term {
            Some(t) => leads_into(t, method_succs(vm.insns)[p]),
            None => {
                let e = bound(vm.insns, leaders_of(vm.insns), p + 1) - 1;
                vm.insns[e].target() is None && !vm.insns[e].ends()
            },
        },
    decreases graph_of(vm.insns).parts[p].len() - j,
{
    let g = graph_of(vm.insns);
    let leaders = g.leaders;
    let part = g.parts[p];
    let ctx = context_of(g, pool, vm.max_locals, BlockId(p as u32));
    lemma_parts(vm, pool, p);
    lemma_last_of_block(vm, pool, p);
    lemma_bound(vm, pool, p);
    lemma_bounds_increase(vm, pool, p, p + 1);
    let lo = bound(vm.insns, leaders, p);
    assert(part[j] == vm.insns[lo + j]);
    if j + 1 < part.len() {
        lemma_inside_falls_through(vm, pool, p, lo + j);
        lemma_inside_does_not_branch(vm, pool, p, lo + j);
        lemma_plain_keeps_term(st, ctx, part[j]);
        if let Ok(s1) = lowered(st, ctx, part[j]) {
            lemma_block_term(vm, pool, s1, p, j + 1);
        }
    } else {
        let ins = part[j];
        if ins.target() is Some || ins.ends() {
            lemma_control_sets_term(st, ctx, ins, p);
        } else {
            lemma_plain_keeps_term(st, ctx, ins);
        }
        if let Ok(s1) = lowered(st, ctx, ins) {
            assert(lowered_from(s1, ctx, part, j + 1) == Ok::<LowerView, IrError>(s1));
            assert(method_succs(vm.insns)[p] == successors_of(
                Some(ins),
                p,
                leaders.len() as int,
                leaders,
            ));
        }
    }
}

/// Whether every terminator set so far leads to successors of its block.
pub open spec fn terms_follow(st: BuildView, insns: Seq<Insn>) -> bool {
    let total = graph_of(insns).cfg.preds.len();
    &&& st.terms.len() == total
    &&& forall|p: int|
        0 <= p < total ==> ((#[trigger] st.terms[p]) matches Some(t) ==> leads_into(
            t,
            method_succs(insns)[p],
        ))
}

proof fn lemma_coded_terms(vm: VerifiedView, pool: PoolView, st: BuildView, b: BlockId)
    requires
        vm.accepted(pool),
        vm.insns.len() > 0,
        vm.insns.last().ends(),
        graph_sound(vm.insns),
        terms_follow(st, vm.insns),
        b.0 < graph_of(vm.insns).cfg.preds.len(),
    ensures
        coded(st, graph_of(vm.insns), vm, pool, b) matches Ok(s1) ==> terms_follow(s1, vm.insns),
{
    let g = graph_of(vm.insns);
    let p = b.0 as int;
    let leaders = g.leaders;
    let succs = method_succs(vm.insns);
    assert(BlockId(p as u32) == b);
    if let Ok(s1) = coded(st, g, vm, pool, b) {
        if p < leaders.len() {
            let ctx = context_of(g, pool, vm.max_locals, b);
            let depth = entry_depth(st, g, vm.frames, b) as int;
            let start = LowerView {
                ssa: st.ssa,
                nodes: Seq::empty(),
                stack: Seq::empty(),
                term: None,
            };
            lemma_entered_keeps_term(start, ctx, 0, depth);
            let l0 = entered_from(start, ctx, 0, depth)->Ok_0;
            lemma_parts(vm, pool, p);
            lemma_bound(vm, pool, p);
            lemma_bounds_increase(vm, pool, p, p + 1);
            lemma_last_of_block(vm, pool, p);
            lemma_block_term(vm, pool, l0, p, 0);
            let l = lowered_from(l0, ctx, g.parts[p], 0)->Ok_0;
            if l.term is None {
                lemma_falls_into_next(vm, pool, p);
            }
            assert(s1.terms[p] matches Some(t) && leads_into(t, succs[p]));
        } else {
            assert(succs[p] == seq![BlockId(0)]);
            assert(succs[p][0] == BlockId(0));
        }
        assert forall|q: int| 0 <= q < g.cfg.preds.len() implies ((
        #[trigger] s1.terms[q]) matches Some(t) ==> leads_into(t, succs[q])) by {
            if q != p {
                assert(s1.terms[q] == st.terms[q]);
            }
        }
    }
}

/// A block without a terminator of its own goes on to the next one.
proof fn lemma_falls_into_next(vm: VerifiedView, pool: PoolView, p: int)
    requires
        vm.accepted(pool),
        vm.insns.len() > 0,
        vm.insns.last().ends(),
        graph_sound(vm.insns),
        0 <= p < leaders_of(vm.insns).len(),
        vm.insns[bound(vm.insns, leaders_of(vm.insns), p + 1) - 1].target() is None,
        !vm.insns[bound(vm.insns, leaders_of(vm.insns), p + 1) - 1].ends(),
    ensures
        leads_into(
            falls_into(p, leaders_of(vm.insns).len() as int),
            method_succs(vm.insns)[p],
        ),
{
    let insns = vm.insns;
    let leaders = leaders_of(insns);
    let n = leaders.len() as int;
    let e = bound(insns, leaders, p + 1) - 1;
    let end = choose|end: int| #[trigger] contiguous(insns, end) && end <= u32::MAX;
    lemma_last_of_block(vm, pool, p);
    let ins = insns[e];
    assert(e + 1 < insns.len());
    assert(p + 1 < n);
    lemma_bound(vm, pool, p + 1);
    lemma_next_pc(insns, end, e);
    assert(leaders[p + 1] == ins.next_pc());
    lemma_leaders(insns, insns.len() as int);
    lemma_block_at(leaders, ins.next_pc());
    assert(leaders.contains(leaders[p + 1]));
    let c = block_at(leaders, ins.next_pc())->0;
    assert(c.0 == p + 1) by {
        if c.0 < p + 1 {
            assert(leaders[c.0 as int] < leaders[p + 1]);
        } else if c.0 > p + 1 {
            assert(leaders[p + 1] < leaders[c.0 as int]);
        }
    }
    let all = method_succs(insns)[p];
    assert(all == successors_of(Some(ins), p, n, leaders));
    assert(all =~= seq![c]);
    assert(all[0] == BlockId((p + 1) as u32));
}

pub proof fn lemma_processed_terms(vm: VerifiedView, pool: PoolView, st: BuildView, j: int)
    requires
        vm.accepted(pool),
        vm.insns.len() > 0,
        vm.insns.last().ends(),
        graph_sound(vm.insns),
        terms_follow(st, vm.insns),
        0 <= j,
    ensures
        processed_from(st, graph_of(vm.insns), vm, pool, j) matches Ok(s1) ==> terms_follow(
            s1,
            vm.insns,
        ),
    decreases graph_of(vm.insns).order.len() - j,
{
    let g = graph_of(vm.insns);
    if j < g.order.len() {
        let b = g.order[j];
        let first = if sealable(st.ssa, g.cfg, st.processed, b) {
            seal(st.ssa, g.cfg, b)
        } else {
            Ok(st.ssa)
        };
        if let Ok(ssa) = first {
            let s0 = BuildView { ssa, ..st };
            lemma_coded_terms(vm, pool, s0, b);
            if let Ok(s1) = processed_one(st, g, vm, pool, b) {
                lemma_processed_terms(vm, pool, s1, j + 1);
            }
        }
    }
}

/// Whether no unreachable block of a method leads into a reachable one.
pub open spec fn no_dead_ways_in(insns: Seq<Insn>) -> bool {
    let g = graph_of(insns);
    forall|b: int|
        0 <= b < g.cfg.preds.len() && g.order.contains(BlockId(b as u32))
            ==> #[trigger] fully_reached(insns, b)
}

/// Wherever control goes from a reachable block to another, every φ of the second has an operand for
/// the first: in a method that the verifier accepts, and in which no unreachable block leads into a
/// reachable one.
pub proof fn lemma_phis_match_control_flow(
    vm: VerifiedView,
    pool: PoolView,
    p: int,
    b: int,
    j: int,
)
    requires
        vm.accepted(pool),
        no_dead_ways_in(vm.insns),
        built(vm, pool) is Ok,
        0 <= p < built(vm, pool)->Ok_0.method.blocks.len(),
        graph_of(vm.insns).order.contains(BlockId(p as u32)),
        0 <= b < built(vm, pool)->Ok_0.method.blocks.len(),
        leads_to(built(vm, pool)->Ok_0.method.blocks[p].term, BlockId(b as u32)),
        0 <= j < built(vm, pool)->Ok_0.method.blocks[b].phis.len(),
    ensures
        source_blocks(built(vm, pool)->Ok_0.method.blocks[b].phis[j].sources).contains(
            BlockId(p as u32),
        ),
{
    let m = built(vm, pool)->Ok_0;
    let g = graph_of(vm.insns);
    let total = g.cfg.preds.len();
    let succs = method_succs(vm.insns);
    lemma_accepted_code_ends(vm, pool);
    lemma_graph_sound(vm.insns);
    let s0 = seal(SsaView::fresh_state(total), g.cfg, g.entry)->Ok_0;
    let items = initial_items(vm.is_static, vm.arg_types);
    let s1 = (args_bound(s0, g.entry, items, 0, 0, Seq::empty())->Ok_0).0;
    let start = unbuilt(s1, total);
    lemma_processed_terms(vm, pool, start, 0);
    let st = processed_from(start, g, vm, pool, 0)->Ok_0;
    let plain = assembled(st, total);
    assert(m.method.blocks == marked(plain));
    assert(m.method.blocks[p].term == plain[p].term);
    assert(st.terms[p] is Some);
    assert(leads_into(st.terms[p]->0, succs[p]));
    assert(succs[p].contains(BlockId(b as u32)));
    let k = succs[p].index_of(BlockId(b as u32));
    assert(succs[p][k] == BlockId(b as u32));
    assert(g.cfg.preds[b].contains(BlockId(p as u32)));
    let x = g.order.index_of(BlockId(p as u32));
    assert(g.order[x] == BlockId(p as u32));
    assert(g.order.contains(succs[g.order[x].0 as int][k]));
    assert(fully_reached(vm.insns, b));
    lemma_phis_are_complete(vm, pool, b, j);
}

} // verus!
