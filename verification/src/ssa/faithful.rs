//! How each block of a method was lowered, and that nothing of it changes later.

use vstd::prelude::*;
use crate::classfile::constant_pool::PoolView;
use crate::ids::{BlockId, ValId};
use crate::ir::{NodeView, Terminator};
use crate::ssa::accepted::{
    build_in_step, graph_sound, in_state, lemma_entry_depth, lemma_entry_sealed, lemma_has_pred,
    lemma_processed_one_in_step, lemma_sealable_seals_well, lemma_start_in_step, method_succs,
    with_args,
};
use crate::ssa::laws::shaped;
use crate::ssa::lower::{block_lowered, LowerView};
use crate::ssa::phis::{
    build_in_order, lemma_coded_goes_on, lemma_processed_one_in_order, lemma_seal_in_order,
    phis_in_order, waits_in_order,
};
use crate::ssa::state::{seal, SsaView};
use crate::ssa::trace::{
    adds_done, definition_ok, key, later, lemma_begun_tracks, lemma_block_lowers,
    lemma_finished_tracks, lemma_key, lemma_later_trans, lemma_seal_tracks, lists_fit, tracks,
    with_code, with_nodes, Trace,
};
use crate::ssa::{
    args_bound, coded, context_of, entry_depth, falls_into, graph_of, processed_from, processed_one,
    sealable, sealed_ready, unbuilt, BuildView, GraphView,
};
use crate::verify::vtype::{expanded, VType};
use crate::verify::{initial_items, VerifiedView};

verus! {

/// How a block was lowered: the state it began with, and what came of it.
pub struct Record {
    pub start: SsaView,
    pub trace: Trace,
    pub done: Seq<bool>,
    pub end: LowerView,
}

/// The terminator of a block that was lowered.
pub open spec fn ending(l: LowerView, b: int, n: int) -> Terminator {
    match l.term {
        Some(t) => t,
        None => falls_into(b, n),
    }
}

/// Whether block `b` was lowered as recorded, and nothing of it has changed since.
pub open spec fn recorded(
    vm: VerifiedView,
    pool: PoolView,
    st: BuildView,
    t: Trace,
    b: int,
    r: Record,
) -> bool {
    let g = graph_of(vm.insns);
    let n = g.leaders.len() as int;
    &&& 0 <= b < n
    &&& b < g.cfg.preds.len()
    &&& tracks(g, r.start, r.trace, r.done, b)
    &&& !r.done[b]
    &&& forall|w: u16| !r.trace.code.contains_key(#[trigger] key(w, b))
    &&& r.trace.args == t.args
    &&& forall|v: u16|
        r.start.defs.contains_key(#[trigger] key(v, b)) ==> b == g.entry.0 && t.args.contains_key(
            key(v, b),
        ) && r.start.defs[key(v, b)] == t.args[key(v, b)]
    &&& b == g.entry.0 ==> forall|v: u16|
        t.args.contains_key(#[trigger] key(v, b)) ==> r.start.defs.contains_key(key(v, b))
    &&& block_lowered(
        r.start,
        context_of(g, pool, vm.max_locals, BlockId(b as u32)),
        g.parts[b],
        in_state(vm, pool, b).stack.len() as int,
    ) == Ok::<LowerView, crate::ssa::error::IrError>(r.end)
    &&& st.nodes[b] == r.end.nodes
    &&& st.terms[b] == Some(ending(r.end, b, n))
    &&& later(g, r.end.ssa, st.ssa, -1)
    &&& forall|v: u16|
        t.code.contains_key(#[trigger] key(v, b)) <==> r.end.ssa.defs.contains_key(key(v, b))
    &&& forall|i: int|
        0 <= i < r.end.nodes.len() ==> t.homes.contains_key(
            (#[trigger] r.end.nodes[i]).id.offset,
        ) && t.homes[r.end.nodes[i].id.offset] == g.cfg.level(BlockId(b as u32))
}

/// Whether there is a record of block `b`.
pub open spec fn has_record(
    vm: VerifiedView,
    pool: PoolView,
    st: BuildView,
    t: Trace,
    b: int,
) -> bool {
    exists|r: Record| recorded(vm, pool, st, t, b, r)
}

/// What is known of a method being built when the first `j` blocks of the order are processed.
pub open spec fn followed(
    vm: VerifiedView,
    pool: PoolView,
    st: BuildView,
    t: Trace,
    j: int,
) -> bool {
    let g = graph_of(vm.insns);
    let total = g.cfg.preds.len();
    &&& tracks(g, st.ssa, t, st.processed, -1)
    &&& st.nodes.len() == total
    &&& st.terms.len() == total
    &&& forall|c: int, v: u16|
        0 <= c < total && t.code.contains_key(#[trigger] key(v, c)) ==> st.processed[c]
    &&& forall|c: int|
        0 <= c < total && #[trigger] st.processed[c] ==> exists|i: int|
            0 <= i < j && #[trigger] g.order[i] == BlockId(c as u32)
    &&& forall|i: int|
        0 <= i < j && (#[trigger] g.order[i]).0 < g.leaders.len() ==> has_record(
            vm,
            pool,
            st,
            t,
            g.order[i].0 as int,
        )
    &&& forall|i: int|
        0 <= i < j && (#[trigger] g.order[i]).0 >= g.leaders.len() ==> st.terms[g.order[i].0 as int]
            == Some(Terminator::Goto(BlockId(0))) && st.nodes[g.order[i].0 as int].len() == 0
    &&& j == 0 ==> {
        &&& forall|v: u16|
            st.ssa.defs.contains_key(#[trigger] key(v, g.entry.0 as int)) ==> t.args.contains_key(
                key(v, g.entry.0 as int),
            ) && st.ssa.defs[key(v, g.entry.0 as int)] == t.args[key(v, g.entry.0 as int)]
        &&& forall|v: u16|
            t.args.contains_key(#[trigger] key(v, g.entry.0 as int)) ==> st.ssa.defs.contains_key(
                key(v, g.entry.0 as int),
            )
    }
    &&& forall|c: int|
        0 <= c < total && !(#[trigger] st.processed[c]) ==> st.nodes[c].len() == 0
    &&& g.entry.0 >= g.leaders.len() ==> forall|v: u16|
        t.args.contains_key(#[trigger] key(v, g.entry.0 as int)) ==> st.ssa.defs.contains_key(
            key(v, g.entry.0 as int),
        ) && st.ssa.defs[key(v, g.entry.0 as int)] == t.args[key(v, g.entry.0 as int)]
}

proof fn lemma_lists_fit(s: SsaView, g: GraphView)
    requires
        phis_in_order(s, g.cfg, Set::empty()),
    ensures
        lists_fit(s),
{
    assert forall|b: int, j: int|
        0 <= b < s.incomplete.len() && 0 <= j < s.incomplete[b].len() implies s.phis[(
    #[trigger] s.incomplete[b][j]) as int].block.0 == b by {
        assert(waits_in_order(s, Set::empty(), b, j));
    }
}

proof fn lemma_sealed_ready_tracks(
    vm: VerifiedView,
    pool: PoolView,
    s: SsaView,
    t: Trace,
    done: Seq<bool>,
    k: int,
)
    requires
        graph_sound(vm.insns),
        tracks(graph_of(vm.insns), s, t, done, -1),
        phis_in_order(s, graph_of(vm.insns).cfg, Set::empty()),
        0 <= k,
    ensures
        sealed_ready(s, graph_of(vm.insns).cfg, done, graph_of(vm.insns).order, k) matches Ok(s1)
            ==> tracks(graph_of(vm.insns), s1, t, done, -1) && later(
            graph_of(vm.insns),
            s,
            s1,
            -1,
        ) && adds_done(graph_of(vm.insns), s, s1, done, -1),
    decreases graph_of(vm.insns).order.len() - k,
{
    let g = graph_of(vm.insns);
    if k < g.order.len() {
        let b = g.order[k];
        if sealable(s, g.cfg, done, b) {
            lemma_sealable_seals_well(vm, pool, s, done, k);
            lemma_lists_fit(s, g);
            lemma_seal_tracks(g, s, t, done, -1, b);
            lemma_seal_in_order(s, g.cfg, b);
            if let Ok(s1) = seal(s, g.cfg, b) {
                lemma_sealed_ready_tracks(vm, pool, s1, t, done, k + 1);
                if let Ok(s2) = sealed_ready(s1, g.cfg, done, g.order, k + 1) {
                    lemma_later_trans(g, s, s1, s2, -1);
                }
            }
        } else {
            lemma_sealed_ready_tracks(vm, pool, s, t, done, k + 1);
        }
    }
}

/// A record stays good while nothing that it speaks of changes.
proof fn lemma_record_kept(
    vm: VerifiedView,
    pool: PoolView,
    a: BuildView,
    st: BuildView,
    ta: Trace,
    t: Trace,
    b: int,
)
    requires
        has_record(vm, pool, a, ta, b),
        later(graph_of(vm.insns), a.ssa, st.ssa, -1),
        st.nodes[b] == a.nodes[b],
        st.terms[b] == a.terms[b],
        t.args == ta.args,
        forall|v: u16|
            t.code.contains_key(#[trigger] key(v, b)) <==> ta.code.contains_key(key(v, b)),
        forall|o: u16| #[trigger]
            ta.homes.contains_key(o) ==> t.homes.contains_key(o) && t.homes[o] == ta.homes[o],
    ensures
        has_record(vm, pool, st, t, b),
{
    let r = choose|r: Record| recorded(vm, pool, a, ta, b, r);
    lemma_later_trans(graph_of(vm.insns), r.end.ssa, a.ssa, st.ssa, -1);
    assert(recorded(vm, pool, st, t, b, r));
}

/// When a block is about to be coded, it is sealed if it has at most one predecessor.
proof fn lemma_first_sealed(
    vm: VerifiedView,
    pool: PoolView,
    st: BuildView,
    t: Trace,
    j: int,
    ssa: SsaView,
)
    requires
        graph_sound(vm.insns),
        0 <= j < graph_of(vm.insns).order.len(),
        build_in_step(vm, pool, st, j),
        build_in_order(st, graph_of(vm.insns), j),
        tracks(graph_of(vm.insns), st.ssa, t, st.processed, -1),
        ({
            let g = graph_of(vm.insns);
            let first = if sealable(st.ssa, g.cfg, st.processed, g.order[j]) {
                seal(st.ssa, g.cfg, g.order[j])
            } else {
                Ok(st.ssa)
            };
            first == Ok::<SsaView, crate::ssa::error::IrError>(ssa)
        }),
    ensures
        ({
            let g = graph_of(vm.insns);
            let b = g.order[j].0 as int;
            &&& tracks(g, ssa, t, st.processed, -1)
            &&& tracks(g, ssa, t, st.processed, b)
            &&& later(g, st.ssa, ssa, -1)
            &&& adds_done(g, st.ssa, ssa, st.processed, -1)
            &&& phis_in_order(ssa, g.cfg, Set::empty())
        }),
{
    let g = graph_of(vm.insns);
    let block = g.order[j];
    let b = block.0 as int;
    let done = st.processed;
    assert(BlockId(b as u32) == block);
    if sealable(st.ssa, g.cfg, done, block) {
        lemma_sealable_seals_well(vm, pool, st.ssa, done, j);
        lemma_lists_fit(st.ssa, g);
        lemma_seal_tracks(g, st.ssa, t, done, -1, block);
        lemma_seal_in_order(st.ssa, g.cfg, block);
    }
    if j > 0 {
        lemma_has_pred(vm, pool, j);
    }
    if g.cfg.preds[b].len() <= 1 {
        assert(crate::ssa::all_processed(g.cfg.preds[b], done)) by {
            assert forall|k: int| 0 <= k < g.cfg.preds[b].len() implies done[(
            #[trigger] g.cfg.preds[b][k]).0 as int] by {
                let succs = method_succs(vm.insns);
                let i = choose|i: int|
                    0 <= i < j && succs[(#[trigger] g.order[i]).0 as int].contains(block);
                let p = g.order[i].0 as int;
                let x = succs[p].index_of(block);
                assert(succs[p][x] == block);
                assert(g.cfg.preds[b].contains(BlockId(p as u32)));
                let y = g.cfg.preds[b].index_of(BlockId(p as u32));
                assert(g.cfg.preds[b][y] == g.order[i]);
                assert(done[g.order[i].0 as int]);
            }
        }
        assert(ssa.sealed[b]);
    }
    lemma_begun_tracks(g, ssa, t, done, b);
}

/// The trace after block `b` was lowered.
pub open spec fn trace_after(t: Trace, l: LowerView, b: int, n: nat) -> Trace {
    with_code(with_nodes(t, l.nodes, n), l.ssa, b)
}

/// Notes on nodes are never changed.
proof fn lemma_homes_kept(t: Trace, nodes: Seq<NodeView>, n: nat, next: u16)
    requires
        forall|o: u16| #[trigger] t.homes.contains_key(o) ==> o < next,
        forall|i: int| 0 <= i < nodes.len() ==> (#[trigger] nodes[i]).id.offset >= next,
    ensures
        forall|o: u16| #[trigger]
            t.homes.contains_key(o) ==> with_nodes(t, nodes, n).homes.contains_key(o)
                && with_nodes(t, nodes, n).homes[o] == t.homes[o],
        forall|i: int|
            0 <= i < nodes.len() ==> with_nodes(t, nodes, n).homes.contains_key(
                (#[trigger] nodes[i]).id.offset,
            ) && with_nodes(t, nodes, n).homes[nodes[i].id.offset] == n,
{
    let t1 = with_nodes(t, nodes, n);
    assert forall|o: u16| #[trigger] t.homes.contains_key(o) implies t1.homes.contains_key(o)
        && t1.homes[o] == t.homes[o] by {
        if crate::ssa::trace::defines(nodes, o) {
            let i = choose|i: int| 0 <= i < nodes.len() && (#[trigger] nodes[i]).id.offset == o;
        }
    }
    assert forall|i: int| 0 <= i < nodes.len() implies t1.homes.contains_key(
        (#[trigger] nodes[i]).id.offset,
    ) && t1.homes[nodes[i].id.offset] == n by {
        assert(crate::ssa::trace::defines(nodes, nodes[i].id.offset));
    }
}

/// What coding a block adds to what is known: its record.
proof fn lemma_coded_recorded(
    vm: VerifiedView,
    pool: PoolView,
    st: BuildView,
    t: Trace,
    j: int,
    ssa: SsaView,
    ssa1: SsaView,
)
    requires
        vm.accepted(pool),
        vm.insns.len() > 0,
        graph_sound(vm.insns),
        0 <= j < graph_of(vm.insns).order.len(),
        build_in_step(vm, pool, st, j),
        followed(vm, pool, st, t, j),
        !st.processed[graph_of(vm.insns).order[j].0 as int],
        graph_of(vm.insns).order[j].0 < graph_of(vm.insns).leaders.len(),
        tracks(graph_of(vm.insns), ssa, t, st.processed, -1),
        tracks(
            graph_of(vm.insns),
            ssa,
            t,
            st.processed,
            graph_of(vm.insns).order[j].0 as int,
        ),
        later(graph_of(vm.insns), st.ssa, ssa, -1),
        adds_done(graph_of(vm.insns), st.ssa, ssa, st.processed, -1),
        coded(
            BuildView { ssa, ..st },
            graph_of(vm.insns),
            vm,
            pool,
            graph_of(vm.insns).order[j],
        ) is Ok,
    ensures
        ({
            let g = graph_of(vm.insns);
            let block = g.order[j];
            let b = block.0 as int;
            let n = g.cfg.level(block);
            let ctx = context_of(g, pool, vm.max_locals, block);
            let st1 = coded(BuildView { ssa, ..st }, g, vm, pool, block)->Ok_0;
            let l = block_lowered(
                ssa,
                ctx,
                g.parts[b],
                in_state(vm, pool, b).stack.len() as int,
            )->Ok_0;
            let t1 = trace_after(t, l, b, n);
            let r = Record { start: ssa, trace: t, done: st.processed, end: l };
            &&& tracks(g, l.ssa, t1, st.processed.update(b, true), -1)
            &&& st1.ssa == l.ssa
            &&& st1.nodes == st.nodes.update(b, l.nodes)
            &&& st1.terms == st.terms.update(b, Some(ending(l, b, g.leaders.len() as int)))
            &&& st1.processed == st.processed
            &&& b == g.entry.0 || later(g, st.ssa, l.ssa, -1)
            &&& later(g, l.ssa, ssa1, -1) ==> recorded(
                vm,
                pool,
                BuildView { ssa: ssa1, ..st1 },
                t1,
                b,
                r,
            )
            &&& forall|c: int, v: u16|
                0 <= c < g.cfg.preds.len() ==> (t1.code.contains_key(#[trigger] key(v, c)) <==> if c
                    == b {
                    l.ssa.defs.contains_key(key(v, c))
                } else {
                    t.code.contains_key(key(v, c))
                })
            &&& forall|o: u16| #[trigger]
                t.homes.contains_key(o) ==> t1.homes.contains_key(o) && t1.homes[o] == t.homes[o]
        }),
{
    let g = graph_of(vm.insns);
    let block = g.order[j];
    let b = block.0 as int;
    let n = g.cfg.level(block);
    let done = st.processed;
    assert(BlockId(b as u32) == block);
    let ctx = context_of(g, pool, vm.max_locals, block);
    lemma_entry_depth(vm, pool, st, j);
    let depth = in_state(vm, pool, b).stack.len() as int;
    assert(entry_depth(BuildView { ssa, ..st }, g, vm.frames, block) == depth);
    let l = block_lowered(ssa, ctx, g.parts[b], depth)->Ok_0;
    assert forall|w: u16| !t.code.contains_key(#[trigger] key(w, b)) by {
        if t.code.contains_key(key(w, b)) {
            assert(st.processed[b]);
        }
    }
    lemma_block_lowers(g, ssa, ctx, t, done, b, g.parts[b], depth);
    let tn = with_nodes(t, l.nodes, n);
    lemma_finished_tracks(g, l.ssa, tn, done, b);
    lemma_homes_kept(t, l.nodes, n, ssa.next);
    // Before the block is coded it has no definitions, but for arguments at the entry.
    assert forall|v: u16| ssa.defs.contains_key(#[trigger] key(v, b)) implies b == g.entry.0
        && t.args.contains_key(key(v, b)) && ssa.defs[key(v, b)] == t.args[key(v, b)] by {
        assert(definition_ok(g, ssa, t, done, -1, b, v));
        if !st.ssa.defs.contains_key(key(v, b)) {
            assert(done[b]);
        }
        if j > 0 {
            assert(g.order[0] != g.order[j]);
        }
    }
    if b != g.entry.0 {
        assert(later(g, ssa, l.ssa, -1)) by {
            assert forall|c: int, v: u16|
                0 <= c < g.cfg.preds.len() && ssa.defs.contains_key(
                    #[trigger] key(v, c),
                ) implies l.ssa.defs.contains_key(key(v, c)) && l.ssa.defs[key(v, c)]
                == ssa.defs[key(v, c)] by {
                assert(c != b);
            }
        }
        lemma_later_trans(g, st.ssa, ssa, l.ssa, -1);
    }
    if b == g.entry.0 {
        assert(j == 0) by {
            if j > 0 {
                assert(g.order[0] != g.order[j]);
            }
        }
        assert forall|v: u16| t.args.contains_key(
            #[trigger] key(v, b),
        ) implies ssa.defs.contains_key(key(v, b)) by {
            assert(st.ssa.defs.contains_key(key(v, b)));
        }
    }
}

/// Processing the next block keeps everything known.
proof fn lemma_processed_one_followed(
    vm: VerifiedView,
    pool: PoolView,
    st: BuildView,
    t: Trace,
    j: int,
)
    requires
        vm.accepted(pool),
        vm.insns.len() > 0,
        graph_sound(vm.insns),
        0 <= j < graph_of(vm.insns).order.len(),
        build_in_step(vm, pool, st, j),
        build_in_order(st, graph_of(vm.insns), j),
        followed(vm, pool, st, t, j),
        processed_one(st, graph_of(vm.insns), vm, pool, graph_of(vm.insns).order[j]) is Ok,
    ensures
        exists|t1: Trace|
            #![trigger followed(
                vm,
                pool,
                processed_one(st, graph_of(vm.insns), vm, pool, graph_of(vm.insns).order[j])->Ok_0,
                t1,
                j + 1,
            )]
            followed(
                vm,
                pool,
                processed_one(st, graph_of(vm.insns), vm, pool, graph_of(vm.insns).order[j])->Ok_0,
                t1,
                j + 1,
            ) && t1.args == t.args,
{
    let g = graph_of(vm.insns);
    let total = g.cfg.preds.len();
    let block = g.order[j];
    let b = block.0 as int;
    let done = st.processed;
    assert(BlockId(b as u32) == block);
    assert(!done[b]) by {
        if done[b] {
            let i = choose|i: int| 0 <= i < j && #[trigger] g.order[i] == BlockId(b as u32);
            assert(g.order[i] != g.order[j]);
        }
    }
    let first = if sealable(st.ssa, g.cfg, done, block) {
        seal(st.ssa, g.cfg, block)
    } else {
        Ok(st.ssa)
    };
    let ssa = first->Ok_0;
    lemma_first_sealed(vm, pool, st, t, j, ssa);
    let st0 = BuildView { ssa, ..st };
    let stc = coded(st0, g, vm, pool, block)->Ok_0;
    lemma_coded_goes_on(st0, g, vm, pool, block);
    let more = done.update(b, true);
    let ssa1 = sealed_ready(stc.ssa, g.cfg, more, g.order, 0)->Ok_0;
    let st1 = processed_one(st, g, vm, pool, block)->Ok_0;
    assert(st1 == (BuildView { ssa: ssa1, processed: more, ..stc }));
    let coded_block = b < g.leaders.len();
    let n = g.cfg.level(block);
    let ctx = context_of(g, pool, vm.max_locals, block);
    let l = block_lowered(ssa, ctx, g.parts[b], in_state(vm, pool, b).stack.len() as int)->Ok_0;
    let t1 = if coded_block {
        trace_after(t, l, b, n)
    } else {
        with_code(t, ssa, b)
    };
    if coded_block {
        lemma_coded_recorded(vm, pool, st, t, j, ssa, ssa1);
    } else {
        assert forall|w: u16| !t.code.contains_key(#[trigger] key(w, b)) by {
            if t.code.contains_key(key(w, b)) {
                assert(st.processed[b]);
            }
        }
        lemma_finished_tracks(g, ssa, t, done, b);
    }
    assert(tracks(g, stc.ssa, t1, more, -1));
    lemma_sealed_ready_tracks(vm, pool, stc.ssa, t1, more, 0);
    assert(b == g.entry.0 || later(g, st.ssa, ssa1, -1)) by {
        if b != g.entry.0 {
            lemma_later_trans(g, st.ssa, stc.ssa, ssa1, -1);
        }
    }
    assert(j > 0 ==> b != g.entry.0) by {
        if j > 0 {
            assert(g.order[0] != g.order[j]);
        }
    }
    assert forall|c: int, v: u16| 0 <= c < total && t1.code.contains_key(
        #[trigger] key(v, c),
    ) implies st1.processed[c] by {
        if c != b {
            assert(t.code.contains_key(key(v, c)));
        }
    }
    assert forall|c: int| 0 <= c < total && #[trigger] st1.processed[c] implies exists|i: int|
        0 <= i < j + 1 && #[trigger] g.order[i] == BlockId(c as u32) by {
        if c == b {
            assert(g.order[j] == BlockId(c as u32));
        } else {
            assert(st.processed[c]);
            let i = choose|i: int| 0 <= i < j && #[trigger] g.order[i] == BlockId(c as u32);
            assert(g.order[i] == BlockId(c as u32));
        }
    }
    assert forall|i: int|
        0 <= i < j + 1 && (#[trigger] g.order[i]).0 < g.leaders.len() implies has_record(
        vm,
        pool,
        st1,
        t1,
        g.order[i].0 as int,
    ) by {
        if i == j {
            let r = Record { start: ssa, trace: t, done, end: l };
            assert(recorded(vm, pool, BuildView { ssa: ssa1, ..stc }, t1, b, r));
            assert(recorded(vm, pool, st1, t1, b, r));
        } else {
            let c = g.order[i].0 as int;
            assert(g.order[i] != g.order[j]);
            assert(c != b);
            lemma_record_kept(vm, pool, st, st1, t, t1, c);
        }
    }
    assert forall|i: int|
        0 <= i < j + 1 && (#[trigger] g.order[i]).0 >= g.leaders.len() implies st1.terms[g.order[i].0 as int]
        == Some(Terminator::Goto(BlockId(0))) && st1.nodes[g.order[i].0 as int].len() == 0 by {
        if i < j {
            assert(g.order[i] != g.order[j]);
        }
    }
    assert forall|c: int| 0 <= c < total && !(
    #[trigger] st1.processed[c]) implies st1.nodes[c].len() == 0 by {
        assert(!st.processed[c]);
    }
    if g.entry.0 >= g.leaders.len() {
        assert forall|v: u16| t1.args.contains_key(
            #[trigger] key(v, g.entry.0 as int),
        ) implies st1.ssa.defs.contains_key(key(v, g.entry.0 as int)) && st1.ssa.defs[key(
            v,
            g.entry.0 as int,
        )] == t1.args[key(v, g.entry.0 as int)] by {
            if b == g.entry.0 {
                lemma_later_trans(g, st.ssa, ssa, ssa1, -1);
            }
        }
    }
    assert(followed(vm, pool, st1, t1, j + 1));
}

pub proof fn lemma_processed_from_followed(
    vm: VerifiedView,
    pool: PoolView,
    st: BuildView,
    t: Trace,
    j: int,
)
    requires
        vm.accepted(pool),
        vm.insns.len() > 0,
        graph_sound(vm.insns),
        0 <= j <= graph_of(vm.insns).order.len(),
        build_in_step(vm, pool, st, j),
        build_in_order(st, graph_of(vm.insns), j),
        followed(vm, pool, st, t, j),
        processed_from(st, graph_of(vm.insns), vm, pool, j) is Ok,
    ensures
        exists|t1: Trace|
            #![trigger followed(
                vm,
                pool,
                processed_from(st, graph_of(vm.insns), vm, pool, j)->Ok_0,
                t1,
                graph_of(vm.insns).order.len() as int,
            )]
            followed(
                vm,
                pool,
                processed_from(st, graph_of(vm.insns), vm, pool, j)->Ok_0,
                t1,
                graph_of(vm.insns).order.len() as int,
            ) && t1.args == t.args,
    decreases graph_of(vm.insns).order.len() - j,
{
    let g = graph_of(vm.insns);
    if j < g.order.len() {
        let st1 = processed_one(st, g, vm, pool, g.order[j])->Ok_0;
        lemma_processed_one_in_step(vm, pool, st, j);
        lemma_processed_one_in_order(st, g, vm, pool, j);
        lemma_processed_one_followed(vm, pool, st, t, j);
        let t1 = choose|t1: Trace|
            #![trigger followed(vm, pool, st1, t1, j + 1)]
            followed(vm, pool, st1, t1, j + 1) && t1.args == t.args;
        lemma_processed_from_followed(vm, pool, st1, t1, j + 1);
        let end = processed_from(st1, g, vm, pool, j + 1)->Ok_0;
        assert(processed_from(st, g, vm, pool, j) == processed_from(st1, g, vm, pool, j + 1));
        let t2 = choose|t2: Trace|
            #![trigger followed(vm, pool, end, t2, g.order.len() as int)]
            followed(vm, pool, end, t2, g.order.len() as int) && t2.args == t1.args;
        assert(followed(
            vm,
            pool,
            processed_from(st, g, vm, pool, j)->Ok_0,
            t2,
            g.order.len() as int,
        ));
    } else {
        assert(processed_from(st, g, vm, pool, j)->Ok_0 == st);
        assert(followed(
            vm,
            pool,
            processed_from(st, g, vm, pool, j)->Ok_0,
            t,
            g.order.len() as int,
        ));
    }
}

/// The local where argument `i` lies.
pub open spec fn arg_local(items: Seq<VType>, i: int) -> int {
    expanded(items.take(i)).len() as int
}

/// The locals of arguments lie one behind the other.
proof fn lemma_arg_local(items: Seq<VType>, i: int)
    requires
        0 <= i < items.len(),
    ensures
        arg_local(items, i + 1) == arg_local(items, i) + items[i].slots(),
        items[i].slots() >= 1,
{
    assert(items.take(i + 1).drop_last() =~= items.take(i));
    assert(items.take(i + 1).last() == items[i]);
}

pub proof fn lemma_arg_locals_increase(items: Seq<VType>, i: int, j: int)
    requires
        0 <= i < j <= items.len(),
    ensures
        arg_local(items, i) < arg_local(items, j),
    decreases j - i,
{
    lemma_arg_local(items, j - 1);
    if i < j - 1 {
        lemma_arg_locals_increase(items, i, j - 1);
    }
}

/// Whether definitions are those of the first `k` arguments, and no others.
pub open spec fn args_defined(
    s: SsaView,
    entry: BlockId,
    items: Seq<VType>,
    k: int,
    vals: Seq<ValId>,
) -> bool {
    &&& vals.len() == k
    &&& forall|i: int| 0 <= i < k ==> (#[trigger] vals[i]).offset < s.next
    &&& forall|i: int|
        0 <= i < k ==> #[trigger] arg_local(items, i) <= 0xFFFF && s.defs.contains_key(
            key(arg_local(items, i) as u16, entry.0 as int),
        ) && s.defs[key(arg_local(items, i) as u16, entry.0 as int)] == vals[i]
    &&& forall|x: u64|
        s.defs.contains_key(x) ==> exists|i: int|
            0 <= i < k && x == key(#[trigger] arg_local(items, i) as u16, entry.0 as int)
}

proof fn lemma_args_defined(
    s: SsaView,
    entry: BlockId,
    items: Seq<VType>,
    k: int,
    slot: u16,
    vals: Seq<ValId>,
)
    requires
        0 <= k <= items.len(),
        slot == arg_local(items, k),
        args_defined(s, entry, items, k, vals),
    ensures
        args_bound(s, entry, items, k, slot, vals) matches Ok((s1, vals1)) ==> {
            &&& args_defined(s1, entry, items, items.len() as int, vals1)
            &&& s1.sealed == s.sealed
            &&& s1.phis == s.phis
            &&& s1.incomplete == s.incomplete
        },
    decreases items.len() - k,
{
    if k < items.len() {
        if let Ok((val, s0)) = s.fresh() {
            lemma_arg_local(items, k);
            if slot + items[k].slots() <= 0xFFFF {
                let s1 = s0.wrote(slot, entry, val);
                let more = vals.push(val);
                let e = entry.0 as int;
                assert(BlockId(e as u32) == entry);
                assert forall|i: int| 0 <= i < k + 1 implies #[trigger] arg_local(items, i)
                    <= 0xFFFF && s1.defs.contains_key(key(arg_local(items, i) as u16, e))
                    && s1.defs[key(arg_local(items, i) as u16, e)] == more[i] by {
                    if i < k {
                        lemma_arg_locals_increase(items, i, k);
                        lemma_key(arg_local(items, i) as u16, e, slot, e);
                    }
                }
                assert forall|x: u64| s1.defs.contains_key(x) implies exists|i: int|
                    0 <= i < k + 1 && x == key(#[trigger] arg_local(items, i) as u16, e) by {
                    if x == key(slot, e) {
                        assert(x == key(arg_local(items, k) as u16, e));
                    } else {
                        assert(s.defs.contains_key(x));
                        let i = choose|i: int|
                            0 <= i < k && x == key(#[trigger] arg_local(items, i) as u16, e);
                        assert(x == key(arg_local(items, i) as u16, e));
                    }
                }
                assert forall|i: int| 0 <= i < k + 1 implies (
                #[trigger] more[i]).offset < s1.next by {
                    if i < k {
                        assert(more[i] == vals[i]);
                    }
                }
                lemma_args_defined(
                    s1,
                    entry,
                    items,
                    k + 1,
                    (slot + items[k].slots()) as u16,
                    more,
                );
            }
        }
    }
}

/// What is remembered before any block is processed: the arguments.
pub open spec fn first_trace(s: SsaView) -> Trace {
    Trace { args: s.defs, code: Map::empty(), homes: Map::empty() }
}

/// A method whose arguments are bound is followed from its start.
pub proof fn lemma_start_followed(vm: VerifiedView, pool: PoolView)
    requires
        vm.accepted(pool),
        graph_sound(vm.insns),
    ensures
        with_args(vm) matches Ok((s1, vals)) ==> {
            let g = graph_of(vm.insns);
            let items = initial_items(vm.is_static, vm.arg_types);
            &&& followed(vm, pool, unbuilt(s1, g.cfg.preds.len()), first_trace(s1), 0)
            &&& args_defined(s1, g.entry, items, items.len() as int, vals)
        },
{
    let g = graph_of(vm.insns);
    let total = g.cfg.preds.len();
    let items = initial_items(vm.is_static, vm.arg_types);
    let e = g.entry.0 as int;
    lemma_entry_sealed(vm);
    lemma_start_in_step(vm, pool);
    let s0 = seal(SsaView::fresh_state(total), g.cfg, g.entry)->Ok_0;
    assert(items.take(0) =~= Seq::empty());
    lemma_args_defined(s0, g.entry, items, 0, 0, Seq::empty());
    if let Ok((s1, vals)) = with_args(vm) {
        let t = first_trace(s1);
        let st = unbuilt(s1, total);
        assert forall|b: int, v: u16|
            0 <= b < total && s1.defs.contains_key(#[trigger] key(v, b)) implies b == e
            && s1.defs[key(v, b)].offset < s1.next by {
            let i = choose|i: int|
                0 <= i < items.len() && key(v, b) == key(
                    #[trigger] arg_local(items, i) as u16,
                    e,
                );
            lemma_key(v, b, arg_local(items, i) as u16, e);
            assert(vals[i].offset < s1.next);
        }
        assert(tracks(g, s1, t, st.processed, -1)) by {
            assert(shaped(s1, g.cfg));
            assert forall|b: int, v: u16|
                0 <= b < total && s1.defs.contains_key(
                    #[trigger] key(v, b),
                ) implies definition_ok(g, s1, t, st.processed, -1, b, v) by {
                assert(b == e);
            }
        }
    }
}

} // verus!
