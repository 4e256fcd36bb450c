//! SSA construction directly from bytecode: per-block variable definitions, sealed blocks, and
//! incomplete φ place φ nodes at merges and loop headers without a separate dominance pass.
//! Redundant φ are kept: they are correct, just not minimal.
//!
//! [`laws`], [`accepted`], [`phis`] and [`meaning`] hold what can be said of the construction and of
//! verified code. [`trace`] and [`faithful`] follow where each value comes from, [`runs`] shows that a
//! block computes what its instructions mean, and [`preserved`] that a whole method does.

use vstd::prelude::*;

pub mod accepted;
pub mod cfg;
pub mod error;
pub mod escape;
pub mod faithful;
pub mod laws;
pub mod lower;
pub mod meaning;
pub mod objects;
pub mod phis;
pub mod preserved;
pub mod runs;
pub mod state;
pub mod trace;

use crate::classfile::constant_pool::PoolView;
use crate::classfile::ClassFile;
use crate::ids::{BlockId, ValId};
use crate::inline::PhiSources;
use crate::ir::{
    block_views, node_views, phi_views, Block, BlockView, BuiltMethod, BuiltView, ExcRegion, Method,
    MethodView, Node, NodeView, Phi, PhiView, Terminator,
};
use crate::verify::insn::Insn;
use crate::verify::stackmap::{frame_at, FrameView};
use crate::verify::vtype::VType;
use crate::verify::{initial_items, VerifiedMethod, VerifiedView};
use cfg::{
    distinct_below, edges_known, empties, empty_lists, has_parent, ids_below, inner_views, leaders,
    leaders_of, parents_first, partition, parts_of, predecessors, preds_of, reverse_postorder, rpo,
    successors, successors_of,
};
use escape::{lemma_marking_keeps_shape, mark_escapes, marked};
use laws::lemma_values_are_defined_once;
use lower::{block_lowered, process_block, Context, ContextView};
use state::{seal, Cfg, CfgView, PhiDef, PhiDefView, Ssa, SsaView};

pub use error::IrError;

verus! {

/// The last of a list.
pub open spec fn last_of(s: Seq<Insn>) -> Option<Insn> {
    if s.len() == 0 {
        None
    } else {
        Some(s.last())
    }
}

/// The successors of each block.
pub open spec fn plain_succs(leaders: Seq<u32>, parts: Seq<Seq<Insn>>) -> Seq<Seq<BlockId>> {
    Seq::new(
        leaders.len(),
        |i: int| successors_of(last_of(parts[i]), i, leaders.len() as int, leaders),
    )
}

/// Whether the first block has a predecessor of its own: it is a loop header, and a synthetic entry
/// block is put before it so that its loop-carried locals get φ.
pub open spec fn loops_to_first(succs: Seq<Seq<BlockId>>) -> bool {
    preds_of(succs)[0].len() > 0
}

/// The successors of each block, a synthetic entry block last.
pub open spec fn succs_of(leaders: Seq<u32>, parts: Seq<Seq<Insn>>) -> Seq<Seq<BlockId>> {
    let plain = plain_succs(leaders, parts);
    if loops_to_first(plain) {
        plain.push(seq![BlockId(0)])
    } else {
        plain
    }
}

/// The place of each block in the order of processing; blocks not reached come last.
pub open spec fn ranks(order: Seq<BlockId>, n: nat) -> Seq<nat> {
    Seq::new(
        n,
        |b: int|
            if order.contains(BlockId(b as u32)) {
                order.index_of(BlockId(b as u32)) as nat
            } else {
                n
            },
    )
}

/// The control-flow graph of a method.
#[verifier::ext_equal]
pub struct GraphView {
    pub leaders: Seq<u32>,
    pub parts: Seq<Seq<Insn>>,
    pub entry: BlockId,
    pub order: Seq<BlockId>,
    pub cfg: CfgView,
}

/// The control-flow graph of a method.
pub open spec fn graph_of(insns: Seq<Insn>) -> GraphView {
    let leaders = leaders_of(insns);
    let parts = parts_of(leaders, insns);
    let succs = succs_of(leaders, parts);
    let entry = if loops_to_first(plain_succs(leaders, parts)) {
        BlockId(leaders.len() as u32)
    } else {
        BlockId(0)
    };
    let order = rpo(entry, succs, succs.len());
    GraphView {
        leaders,
        parts,
        entry,
        order,
        cfg: CfgView { preds: preds_of(succs), rank: ranks(order, succs.len()) },
    }
}

/// Values for the incoming items from `k` on, each bound to the local where it lies.
pub open spec fn args_bound(
    ssa: SsaView,
    entry: BlockId,
    items: Seq<VType>,
    k: int,
    slot: u16,
    vals: Seq<ValId>,
) -> Result<(SsaView, Seq<ValId>), IrError>
    decreases items.len() - k,
{
    if k >= items.len() {
        Ok((ssa, vals))
    } else {
        match ssa.fresh() {
            Err(e) => Err(e),
            Ok((v, s)) => if slot + items[k].slots() > 0xFFFF {
                Err(IrError::TooManyValues)
            } else {
                args_bound(
                    s.wrote(slot, entry, v),
                    entry,
                    items,
                    k + 1,
                    (slot + items[k].slots()) as u16,
                    vals.push(v),
                )
            },
        }
    }
}

/// A method being built.
#[verifier::ext_equal]
pub struct BuildView {
    pub ssa: SsaView,
    pub nodes: Seq<Seq<NodeView>>,
    pub terms: Seq<Option<Terminator>>,
    /// Per block, the depth of the operand stack it is left with.
    pub exits: Seq<Option<nat>>,
    pub processed: Seq<bool>,
}

/// Whether all predecessors of a block are processed.
pub open spec fn all_processed(preds: Seq<BlockId>, processed: Seq<bool>) -> bool {
    forall|i: int| 0 <= i < preds.len() ==> processed[(#[trigger] preds[i]).0 as int]
}

/// Whether a block is to be sealed.
pub open spec fn sealable(ssa: SsaView, cfg: CfgView, processed: Seq<bool>, b: BlockId) -> bool {
    !ssa.sealed[b.0 as int] && all_processed(cfg.preds[b.0 as int], processed)
}

/// The state with every block of the list, from `k` on, sealed that is ready for it.
pub open spec fn sealed_ready(
    ssa: SsaView,
    cfg: CfgView,
    processed: Seq<bool>,
    order: Seq<BlockId>,
    k: int,
) -> Result<SsaView, IrError>
    decreases order.len() - k,
{
    if k >= order.len() {
        Ok(ssa)
    } else if sealable(ssa, cfg, processed, order[k]) {
        match seal(ssa, cfg, order[k]) {
            Err(e) => Err(e),
            Ok(s) => sealed_ready(s, cfg, processed, order, k + 1),
        }
    } else {
        sealed_ready(ssa, cfg, processed, order, k + 1)
    }
}

/// The first known exit depth among `preds`, from `i` on; 0 if none is known.
pub open spec fn first_exit(preds: Seq<BlockId>, exits: Seq<Option<nat>>, i: int) -> nat
    decreases preds.len() - i,
{
    if i >= preds.len() {
        0
    } else {
        match exits[preds[i].0 as int] {
            Some(d) => d,
            None => first_exit(preds, exits, i + 1),
        }
    }
}

/// The depth of the operand stack a block is entered with: none at the entry, that of the declared
/// frame where there is one, else that of a predecessor.
pub open spec fn entry_depth(
    st: BuildView,
    g: GraphView,
    frames: Map<u32, FrameView>,
    b: BlockId,
) -> nat {
    let pc = g.leaders[b.0 as int];
    if b == g.entry {
        0
    } else if frames.contains_key(pc) {
        frames[pc].stack.len()
    } else {
        first_exit(g.cfg.preds[b.0 as int], st.exits, 0)
    }
}

/// What lowering block `b` needs to know.
pub open spec fn context_of(
    g: GraphView,
    pool: PoolView,
    max_locals: u16,
    b: BlockId,
) -> ContextView {
    ContextView { cfg: g.cfg, pool, leaders: g.leaders, block: b, max_locals }
}

/// Where control goes from a block that ends in neither branch nor return.
pub open spec fn falls_into(b: int, n: int) -> Terminator {
    Terminator::Goto(
        BlockId(
            (if b + 1 < n {
                b + 1
            } else {
                n - 1
            }) as u32,
        ),
    )
}

/// With a block's own code built.
pub open spec fn coded(
    st: BuildView,
    g: GraphView,
    vm: VerifiedView,
    pool: PoolView,
    b: BlockId,
) -> Result<BuildView, IrError> {
    let i = b.0 as int;
    if i < g.leaders.len() {
        match block_lowered(
            st.ssa,
            context_of(g, pool, vm.max_locals, b),
            g.parts[i],
            entry_depth(st, g, vm.frames, b) as int,
        ) {
            Err(e) => Err(e),
            Ok(l) => Ok(
                BuildView {
                    ssa: l.ssa,
                    nodes: st.nodes.update(i, l.nodes),
                    terms: st.terms.update(
                        i,
                        Some(
                            match l.term {
                                Some(t) => t,
                                None => falls_into(i, g.leaders.len() as int),
                            },
                        ),
                    ),
                    exits: st.exits.update(i, Some(l.stack.len())),
                    ..st
                },
            ),
        }
    } else {
        Ok(
            BuildView {
                terms: st.terms.update(i, Some(Terminator::Goto(BlockId(0)))),
                exits: st.exits.update(i, Some(0)),
                ..st
            },
        )
    }
}

/// With the next block processed: it is sealed if its predecessors are known, its code is built,
/// and whatever block became ready is sealed.
pub open spec fn processed_one(
    st: BuildView,
    g: GraphView,
    vm: VerifiedView,
    pool: PoolView,
    b: BlockId,
) -> Result<BuildView, IrError> {
    let first = if sealable(st.ssa, g.cfg, st.processed, b) {
        seal(st.ssa, g.cfg, b)
    } else {
        Ok(st.ssa)
    };
    match first {
        Err(e) => Err(e),
        Ok(ssa) => match coded(BuildView { ssa, ..st }, g, vm, pool, b) {
            Err(e) => Err(e),
            Ok(st1) => {
                let processed = st1.processed.update(b.0 as int, true);
                match sealed_ready(st1.ssa, g.cfg, processed, g.order, 0) {
                    Err(e) => Err(e),
                    Ok(ssa1) => Ok(BuildView { ssa: ssa1, processed, ..st1 }),
                }
            },
        },
    }
}

/// With the blocks from position `j` of the order on processed.
pub open spec fn processed_from(
    st: BuildView,
    g: GraphView,
    vm: VerifiedView,
    pool: PoolView,
    j: int,
) -> Result<BuildView, IrError>
    decreases g.order.len() - j,
{
    if j >= g.order.len() {
        Ok(st)
    } else {
        match processed_one(st, g, vm, pool, g.order[j]) {
            Err(e) => Err(e),
            Ok(st1) => processed_from(st1, g, vm, pool, j + 1),
        }
    }
}

/// The φ of block `b` among `phis`, in the order they were made.
pub open spec fn phis_of(phis: Seq<PhiDefView>, b: int) -> Seq<PhiView>
    decreases phis.len(),
{
    if phis.len() == 0 {
        Seq::empty()
    } else {
        let rest = phis_of(phis.drop_last(), b);
        let p = phis.last();
        if p.block.0 == b {
            rest.push(PhiView { slot: p.val, sources: p.sources })
        } else {
            rest
        }
    }
}

/// The blocks of a method whose code is built.
pub open spec fn assembled(st: BuildView, total: nat) -> Seq<BlockView> {
    Seq::new(
        total,
        |i: int|
            BlockView {
                id: BlockId(i as u32),
                phis: phis_of(st.ssa.phis, i),
                nodes: st.nodes[i],
                term: match st.terms[i] {
                    Some(t) => t,
                    None => Terminator::Return(None),
                },
            },
    )
}

/// Nothing built yet.
pub open spec fn unbuilt(ssa: SsaView, total: nat) -> BuildView {
    BuildView {
        ssa,
        nodes: empties(total),
        terms: Seq::new(total, |i: int| None),
        exits: Seq::new(total, |i: int| None),
        processed: Seq::new(total, |i: int| false),
    }
}

/// The SSA form of a verified method.
pub open spec fn built(vm: VerifiedView, pool: PoolView) -> Result<BuiltView, IrError> {
    let g = graph_of(vm.insns);
    let total = g.cfg.preds.len();
    if vm.insns.len() == 0 {
        Err(IrError::BadBlock(0))
    } else if g.leaders.len() >= 0xFFFF_FFFE {
        Err(IrError::TooManyValues)
    } else {
        match seal(SsaView::fresh_state(total), g.cfg, g.entry) {
            Err(e) => Err(e),
            Ok(s0) => match args_bound(
                s0,
                g.entry,
                initial_items(vm.is_static, vm.arg_types),
                0,
                0,
                Seq::empty(),
            ) {
                Err(e) => Err(e),
                Ok((s1, arg_vals)) => match processed_from(unbuilt(s1, total), g, vm, pool, 0) {
                    Err(e) => Err(e),
                    Ok(st) => Ok(
                        BuiltView {
                            method: MethodView {
                                blocks: marked(assembled(st, total)),
                                entry: g.entry,
                                max_locals: vm.max_locals,
                                exc_table: Seq::empty(),
                            },
                            arg_vals,
                            n_slots: st.ssa.next as nat,
                        },
                    ),
                },
            },
        }
    }
}

/// A method's graph, as the builder uses it.
struct Graph {
    leaders: Vec<u32>,
    parts: Vec<Vec<Insn>>,
    entry: BlockId,
    order: Vec<BlockId>,
    cfg: Cfg,
}

impl View for Graph {
    type V = GraphView;

    closed spec fn view(&self) -> GraphView {
        GraphView {
            leaders: self.leaders@,
            parts: inner_views(self.parts@),
            entry: self.entry,
            order: self.order@,
            cfg: self.cfg@,
        }
    }
}

impl GraphView {
    /// Every listed block is one of the graph and, where it has one predecessor, comes after it.
    spec fn wf(self) -> bool {
        let total = self.cfg.preds.len();
        &&& self.cfg.wf()
        &&& 0 < self.leaders.len() < 0xFFFF_FFFE
        &&& self.parts.len() == self.leaders.len()
        &&& self.leaders.len() <= total <= self.leaders.len() + 1
        &&& self.entry.0 < total
        &&& self.cfg.descends(self.entry.0 as int)
        &&& forall|j: int|
            0 <= j < self.order.len() ==> (#[trigger] self.order[j]).0 < total
                && self.cfg.descends(self.order[j].0 as int)
    }
}

proof fn lemma_ranks_descend(
    order: Seq<BlockId>,
    succs: Seq<Seq<BlockId>>,
    preds: Seq<Seq<BlockId>>,
    j: int,
)
    requires
        0 <= j < order.len(),
        distinct_below(order, succs.len() as int),
        parents_first(order, succs),
        edges_known(succs, succs.len() as int, preds),
        preds.len() == succs.len(),
        ids_below(preds, preds.len() as int),
        succs.len() <= u32::MAX,
        order.len() <= succs.len(),
        preds[order[0].0 as int].len() == 0,
    ensures
        (CfgView { preds, rank: ranks(order, succs.len()) }).descends(order[j].0 as int),
{
    let cfg = CfgView { preds, rank: ranks(order, succs.len()) };
    let b = order[j].0 as int;
    if preds[b].len() == 1 {
        assert(j > 0);
        assert(has_parent(order, succs, j));
        let i = choose|i: int|
            0 <= i < j && succs[(#[trigger] order[i]).0 as int].contains(order[j]);
        let p = order[i].0 as int;
        let k = succs[p].index_of(order[j]);
        assert(succs[p][k] == order[j]);
        assert(preds[b].contains(BlockId(p as u32)));
        let m = preds[b].index_of(BlockId(p as u32));
        assert(m == 0);
        assert(preds[b][0] == order[i]);
        lemma_rank_is_place(order, succs.len(), i);
        lemma_rank_is_place(order, succs.len(), j);
        assert(BlockId(b as u32) == order[j]);
    }
}

proof fn lemma_rank_is_place(order: Seq<BlockId>, n: nat, i: int)
    requires
        0 <= i < order.len(),
        distinct_below(order, n as int),
        order.len() <= n <= u32::MAX,
    ensures
        ranks(order, n)[order[i].0 as int] == i,
{
    let b = order[i];
    assert(BlockId(b.0 as int as u32) == b);
    assert(order.contains(b));
    let k = order.index_of(b);
    assert(order[k] == b);
    if k < i {
        assert(order[k] != order[i]);
    } else if i < k {
        assert(order[i] != order[k]);
    }
}

/// Distinct numbers below `n` are at most `n`.
proof fn lemma_distinct_len(order: Seq<BlockId>, n: int)
    requires
        distinct_below(order, n),
        0 <= n,
    ensures
        order.len() <= n,
{
    let nums = Seq::new(order.len(), |i: int| order[i].0 as int);
    assert(nums.no_duplicates());
    nums.unique_seq_to_set();
    let range = vstd::set_lib::set_int_range(0, n);
    vstd::set_lib::lemma_int_range(0, n);
    assert(nums.to_set().subset_of(range)) by {
        assert forall|x: int| nums.to_set().contains(x) implies range.contains(x) by {
            let i = nums.index_of(x);
            assert(order[i].0 == x);
        }
    }
    vstd::set_lib::lemma_len_subset(nums.to_set(), range);
}

/// The control-flow graph of a method.
fn make_graph(insns: &Vec<Insn>) -> (r: Result<Graph, IrError>)
    requires
        insns@.len() > 0,
    ensures
        match r {
            Ok(g) => g@ == graph_of(insns@) && g@.wf(),
            Err(e) => leaders_of(insns@).len() >= 0xFFFF_FFFE && e == IrError::TooManyValues,
        },
{
    let leader_pcs = leaders(insns);
    let n: usize = leader_pcs.len();
    if n >= 0xFFFF_FFFE {
        return Err(IrError::TooManyValues);
    }
    let parts = partition(&leader_pcs, insns);
    let ghost pv = inner_views(parts@);
    let mut succs: Vec<Vec<BlockId>> = Vec::new();
    let mut i: usize = 0;
    while i < n
        invariant
            i <= n,
            n == leader_pcs@.len() == parts@.len() < 0xFFFF_FFFE,
            pv == inner_views(parts@),
            succs@.len() == i,
            forall|k: int|
                0 <= k < i ==> (#[trigger] succs@[k])@ == plain_succs(leader_pcs@, pv)[k],
            ids_below(inner_views(succs@), n as int),
        decreases n - i,
    {
        let last: Option<&Insn> = if parts[i].len() > 0 {
            Some(&parts[i][parts[i].len() - 1])
        } else {
            None
        };
        let s = successors(last, i, n, &leader_pcs);
        let ghost before = inner_views(succs@);
        succs.push(s);
        proof {
            assert(pv[i as int] == parts@[i as int]@);
            assert(inner_views(succs@) =~= before.push(s@));
        }
        i += 1;
    }
    proof {
        assert(inner_views(succs@) =~= plain_succs(leader_pcs@, pv));
    }
    let mut preds = predecessors(&succs);
    let needs_synth = preds[0].len() > 0;
    proof {
        assert(inner_views(preds@)[0] == preds@[0]@);
    }
    let mut entry = BlockId(0);
    if needs_synth {
        let ghost before = inner_views(succs@);
        let mut first: Vec<BlockId> = Vec::new();
        first.push(BlockId(0));
        assert(first@ =~= seq![BlockId(0)]);
        succs.push(first);
        proof {
            assert(inner_views(succs@) =~= before.push(seq![BlockId(0)]));
            assert forall|a: int, b: int|
                0 <= a < inner_views(succs@).len() && 0 <= b < inner_views(
                    succs@,
                )[a].len() implies (#[trigger] inner_views(succs@)[a][b]).0 < n + 1 by {
                if a < n {
                    assert(before[a][b].0 < n);
                }
            }
        }
        preds = predecessors(&succs);
        entry = BlockId(n as u32);
        proof {
            lemma_synth_has_no_preds(before);
        }
    }
    let ghost sv = inner_views(succs@);
    let order = reverse_postorder(entry, &succs, succs.len());
    let g = Graph {
        leaders: leader_pcs,
        parts,
        entry,
        order,
        cfg: Cfg { preds, rank: Ghost(ranks(order@, sv.len())) },
    };
    proof {
        assert(g@ =~= graph_of(insns@));
        lemma_distinct_len(order@, sv.len() as int);
        assert forall|j: int| 0 <= j < g@.order.len() implies (#[trigger] g@.order[j]).0
            < sv.len() && g@.cfg.descends(g@.order[j].0 as int) by {
            lemma_ranks_descend(order@, sv, inner_views(preds@), j);
        }
        assert(g@.order[0] == entry);
        assert forall|b: int| 0 <= b < g@.cfg.rank.len() implies #[trigger] g@.cfg.rank[b]
            <= g@.cfg.rank.len() by {
            if order@.contains(BlockId(b as u32)) {
                assert(order@.index_of(BlockId(b as u32)) < order@.len());
            }
        }
    }
    Ok(g)
}

/// Nothing branches to a block that is behind all targets.
proof fn lemma_synth_has_no_preds(succs: Seq<Seq<BlockId>>)
    requires
        ids_below(succs, succs.len() as int),
        0 < succs.len() < u32::MAX,
    ensures
        preds_of(succs.push(seq![BlockId(0)]))[succs.len() as int].len() == 0,
{
    let all = succs.push(seq![BlockId(0)]);
    assert forall|k: int, j: int| 0 <= k < all.len() && 0 <= j < all[k].len() implies (
    #[trigger] all[k][j]).0 < succs.len() by {
        if k < succs.len() {
            assert(succs[k][j].0 < succs.len());
        }
    }
    lemma_preds_stay_empty(all, 0, empties(all.len()), succs.len() as int);
}

proof fn lemma_preds_stay_empty(
    succs: Seq<Seq<BlockId>>,
    k: int,
    preds: Seq<Seq<BlockId>>,
    t: int,
)
    requires
        ids_below(succs, t),
        0 <= k <= succs.len(),
        0 <= t < preds.len(),
        preds[t].len() == 0,
    ensures
        cfg::preds_from(succs, k, preds)[t].len() == 0,
    decreases succs.len() - k,
{
    if k < succs.len() {
        assert forall|j: int| 0 <= j < succs[k].len() implies (#[trigger] succs[k][j]).0 < t by {}
        lemma_edges_stay_away(preds, BlockId(k as u32), succs[k], 0, t);
        lemma_preds_stay_empty(
            succs,
            k + 1,
            cfg::edges_from(preds, BlockId(k as u32), succs[k], 0),
            t,
        );
    }
}

proof fn lemma_edges_stay_away(
    preds: Seq<Seq<BlockId>>,
    from: BlockId,
    targets: Seq<BlockId>,
    j: int,
    t: int,
)
    requires
        0 <= j <= targets.len(),
        0 <= t < preds.len(),
        forall|i: int| 0 <= i < targets.len() ==> (#[trigger] targets[i]).0 < t,
    ensures
        cfg::edges_from(preds, from, targets, j)[t] == preds[t],
        cfg::edges_from(preds, from, targets, j).len() == preds.len(),
    decreases targets.len() - j,
{
    if j < targets.len() {
        let c = targets[j].0 as int;
        lemma_edges_stay_away(preds.update(c, preds[c].push(from)), from, targets, j + 1, t);
    }
}

/// Bind the incoming arguments.
fn bind_args(ssa: &mut Ssa, cfg: &Cfg, entry: BlockId, items: &Vec<VType>) -> (r: Result<
    Vec<ValId>,
    IrError,
>)
    requires
        old(ssa)@.ok(cfg@),
    ensures
        match args_bound(old(ssa)@, entry, items@, 0, 0, Seq::empty()) {
            Ok((s, vals)) => r is Ok && r->Ok_0@ == vals && final(ssa)@ == s && s.ok(cfg@)
                && s.sealed == old(ssa)@.sealed && forall|i: int|
                0 <= i < vals.len() ==> (#[trigger] vals[i]).fits(s.next as int),
            Err(e) => r is Err && r->Err_0 == e,
        },
{
    let mut vals: Vec<ValId> = Vec::new();
    let mut slot: u16 = 0;
    let mut k: usize = 0;
    while k < items.len()
        invariant
            k <= items@.len(),
            ssa@.ok(cfg@),
            ssa@.sealed == old(ssa)@.sealed,
            forall|i: int| 0 <= i < vals@.len() ==> (#[trigger] vals@[i]).fits(ssa@.next as int),
            args_bound(old(ssa)@, entry, items@, 0, 0, Seq::empty()) == args_bound(
                ssa@,
                entry,
                items@,
                k as int,
                slot,
                vals@,
            ),
        decreases items@.len() - k,
    {
        let v = ssa.fresh()?;
        assert(ssa@.ok(cfg@));
        let size: u16 = items[k].size();
        if slot as u32 + size as u32 > 0xFFFF {
            return Err(IrError::TooManyValues);
        }
        ssa.write_variable(slot, entry, v);
        assert(ssa@.ok(cfg@));
        vals.push(v);
        slot = slot + size;
        k += 1;
    }
    Ok(vals)
}

/// A method being built.
struct Build {
    ssa: Ssa,
    nodes: Vec<Vec<Node>>,
    terms: Vec<Option<Terminator>>,
    exits: Vec<Option<usize>>,
    processed: Vec<bool>,
}

spec fn node_lists(s: Seq<Vec<Node>>) -> Seq<Seq<NodeView>> {
    Seq::new(s.len(), |i: int| node_views(s[i]@))
}

spec fn depths(s: Seq<Option<usize>>) -> Seq<Option<nat>> {
    Seq::new(
        s.len(),
        |i: int|
            match s[i] {
                Some(d) => Some(d as nat),
                None => None,
            },
    )
}

impl View for Build {
    type V = BuildView;

    closed spec fn view(&self) -> BuildView {
        BuildView {
            ssa: self.ssa@,
            nodes: node_lists(self.nodes@),
            terms: self.terms@,
            exits: depths(self.exits@),
            processed: self.processed@,
        }
    }
}

/// Every value in use has been handed out, and every target is a block.
spec fn build_ok(st: BuildView, g: GraphView) -> bool {
    let total = g.cfg.preds.len();
    &&& st.ssa.ok(g.cfg)
    &&& st.nodes.len() == total
    &&& st.terms.len() == total
    &&& st.exits.len() == total
    &&& st.processed.len() == total
    &&& forall|b: int, i: int|
        0 <= b < total && 0 <= i < st.nodes[b].len() ==> (#[trigger] st.nodes[b][i]).fits(
            st.ssa.next as int,
        )
    &&& forall|b: int|
        0 <= b < total ==> ((#[trigger] st.terms[b]) matches Some(t) ==> t.fits(
            st.ssa.next as int,
            total as int,
        ))
}

proof fn lemma_build_ok_grows(st: BuildView, later: BuildView, g: GraphView)
    requires
        build_ok(st, g),
        later.ssa.ok(g.cfg),
        later.ssa.next >= st.ssa.next,
        later == (BuildView { ssa: later.ssa, processed: later.processed, ..st }),
        later.processed.len() == st.processed.len(),
    ensures
        build_ok(later, g),
{
    assert forall|b: int, i: int|
        0 <= b < g.cfg.preds.len() && 0 <= i < later.nodes[b].len() implies (
    #[trigger] later.nodes[b][i]).fits(later.ssa.next as int) by {
        assert(st.nodes[b][i].fits(st.ssa.next as int));
    }
    assert forall|b: int| 0 <= b < g.cfg.preds.len() implies ((
    #[trigger] later.terms[b]) matches Some(t) ==> t.fits(
        later.ssa.next as int,
        g.cfg.preds.len() as int,
    )) by {
        assert(st.terms[b] matches Some(t) ==> t.fits(
            st.ssa.next as int,
            g.cfg.preds.len() as int,
        ));
    }
}

/// Whether all predecessors of block `b` are processed.
fn preds_processed(cfg: &Cfg, b: BlockId, processed: &Vec<bool>) -> (r: bool)
    requires
        cfg@.wf(),
        b.0 < cfg@.preds.len(),
        processed@.len() == cfg@.preds.len(),
    ensures
        r == all_processed(cfg@.preds[b.0 as int], processed@),
{
    let i: usize = b.0 as usize;
    assert(cfg@.preds[i as int] == cfg.preds@[i as int]@);
    let mut k: usize = 0;
    while k < cfg.preds[i].len()
        invariant
            i == b.0 as int,
            i < cfg@.preds.len(),
            cfg@.wf(),
            processed@.len() == cfg@.preds.len(),
            cfg@.preds[i as int] == cfg.preds@[i as int]@,
            k <= cfg@.preds[i as int].len(),
            forall|j: int|
                0 <= j < k ==> processed@[(#[trigger] cfg@.preds[i as int][j]).0 as int],
        decreases cfg@.preds[i as int].len() - k,
    {
        assert(cfg@.preds[i as int][k as int].0 < cfg@.preds.len());
        if !processed[cfg.preds[i][k].0 as usize] {
            assert(!processed@[cfg@.preds[i as int][k as int].0 as int]);
            return false;
        }
        k += 1;
    }
    true
}

impl Build {
    /// Seal whatever block is ready for it.
    fn seal_ready(&mut self, g: &Graph) -> (r: Result<(), IrError>)
        requires
            build_ok(old(self)@, g@),
            g@.wf(),
        ensures
            match sealed_ready(old(self)@.ssa, g@.cfg, old(self)@.processed, g@.order, 0) {
                Ok(s) => r is Ok && final(self)@ == (BuildView { ssa: s, ..old(self)@ }),
                Err(e) => r is Err && r->Err_0 == e,
            },
            r is Ok ==> build_ok(final(self)@, g@) && final(self)@.ssa.next >= old(self)@.ssa.next,
    {
        let mut k: usize = 0;
        while k < g.order.len()
            invariant
                k <= g@.order.len(),
                g@.wf(),
                build_ok(self@, g@),
                self@.ssa.next >= old(self)@.ssa.next,
                self@ == (BuildView { ssa: self@.ssa, ..old(self)@ }),
                sealed_ready(old(self)@.ssa, g@.cfg, old(self)@.processed, g@.order, 0)
                    == sealed_ready(
                    self@.ssa,
                    g@.cfg,
                    old(self)@.processed,
                    g@.order,
                    k as int,
                ),
            decreases g@.order.len() - k,
        {
            let b = g.order[k];
            let ghost before = self@;
            assert(g@.order[k as int].0 < g@.cfg.preds.len());
            if !self.ssa.is_sealed(b) && preds_processed(&g.cfg, b, &self.processed) {
                self.ssa.seal_block(&g.cfg, b)?;
                proof {
                    assert(self@ =~= BuildView { ssa: self@.ssa, ..before });
                    lemma_build_ok_grows(before, self@, g@);
                }
            }
            k += 1;
        }
        Ok(())
    }

    /// The depth of the operand stack a block is entered with.
    fn depth_of(&self, g: &Graph, vm: &VerifiedMethod, b: BlockId) -> (d: usize)
        requires
            build_ok(self@, g@),
            g@.wf(),
            b.0 < g@.leaders.len(),
        ensures
            d == entry_depth(self@, g@, vm@.frames, b),
    {
        if b.0 == g.entry.0 {
            return 0;
        }
        let i: usize = b.0 as usize;
        if let Some(f) = frame_at(&vm.frames, g.leaders[i]) {
            return f.stack.len();
        }
        assert(g@.cfg.preds[i as int] == g.cfg.preds@[i as int]@);
        let mut k: usize = 0;
        while k < g.cfg.preds[i].len()
            invariant
                build_ok(self@, g@),
                g@.wf(),
                i == b.0 as int,
                b != g@.entry,
                !vm@.frames.contains_key(g@.leaders[i as int]),
                i < g@.cfg.preds.len(),
                g@.cfg.preds[i as int] == g.cfg.preds@[i as int]@,
                k <= g@.cfg.preds[i as int].len(),
                first_exit(g@.cfg.preds[i as int], self@.exits, 0) == first_exit(
                    g@.cfg.preds[i as int],
                    self@.exits,
                    k as int,
                ),
            decreases g@.cfg.preds[i as int].len() - k,
        {
            let p = g.cfg.preds[i][k];
            assert(g@.cfg.preds[i as int][k as int].0 < g@.cfg.preds.len());
            assert(self@.exits[p.0 as int] == depths(self.exits@)[p.0 as int]);
            if let Some(d) = self.exits[p.0 as usize] {
                return d;
            }
            k += 1;
        }
        0
    }

    /// Build the code of a block.
    fn code_block(self, g: &Graph, vm: &VerifiedMethod, cf: &ClassFile, b: BlockId) -> (r: Result<
        Build,
        IrError,
    >)
        requires
            build_ok(self@, g@),
            g@.wf(),
            b.0 < g@.cfg.preds.len(),
        ensures
            match coded(self@, g@, vm@, cf@.constant_pool, b) {
                Ok(st) => r is Ok && r->Ok_0@ == st && build_ok(st, g@) && st.ssa.next
                    >= self@.ssa.next,
                Err(e) => r is Err && r->Err_0 == e,
            },
    {
        let ghost st0 = self@;
        let i: usize = b.0 as usize;
        let n: usize = g.leaders.len();
        let mut st = self;
        if i < n {
            let depth: usize = st.depth_of(g, vm, b);
            let ctx = Context {
                cfg: &g.cfg,
                pool: &cf.constant_pool,
                leaders: &g.leaders,
                block: b,
                max_locals: vm.max_locals,
            };
            assert(g@.parts[i as int] == g.parts@[i as int]@);
            let Build { ssa, mut nodes, mut terms, mut exits, processed } = st;
            let l = process_block(ssa, &ctx, &g.parts[i], depth)?;
            let term = match l.term {
                Some(t) => t,
                None => {
                    let next: usize = if i + 1 < n {
                        i + 1
                    } else {
                        n - 1
                    };
                    Terminator::Goto(BlockId(next as u32))
                },
            };
            let ghost lv = l@;
            nodes.set(i, l.nodes);
            terms.set(i, Some(term));
            exits.set(i, Some(l.stack.len()));
            let out = Build { ssa: l.ssa, nodes, terms, exits, processed };
            proof {
                assert(out@.nodes =~= st0.nodes.update(i as int, lv.nodes));
                assert(out@.exits =~= st0.exits.update(i as int, Some(lv.stack.len())));
                assert forall|c: int, k: int|
                    0 <= c < g@.cfg.preds.len() && 0 <= k < out@.nodes[c].len() implies (
                #[trigger] out@.nodes[c][k]).fits(out@.ssa.next as int) by {
                    if c == i {
                        assert(lv.nodes[k].fits(lv.ssa.next as int));
                    } else {
                        assert(st0.nodes[c][k].fits(st0.ssa.next as int));
                    }
                }
                assert forall|c: int| 0 <= c < g@.cfg.preds.len() implies ((
                #[trigger] out@.terms[c]) matches Some(t) ==> t.fits(
                    out@.ssa.next as int,
                    g@.cfg.preds.len() as int,
                )) by {
                    assert(st0.terms[c] matches Some(t) ==> t.fits(
                        st0.ssa.next as int,
                        g@.cfg.preds.len() as int,
                    ));
                }
            }
            Ok(out)
        } else {
            st.terms.set(i, Some(Terminator::Goto(BlockId(0))));
            st.exits.set(i, Some(0));
            proof {
                assert(st@.exits =~= st0.exits.update(i as int, Some(0nat)));
                assert forall|c: int| 0 <= c < g@.cfg.preds.len() implies ((
                #[trigger] st@.terms[c]) matches Some(t) ==> t.fits(
                    st@.ssa.next as int,
                    g@.cfg.preds.len() as int,
                )) by {
                    assert(st0.terms[c] matches Some(t) ==> t.fits(
                        st0.ssa.next as int,
                        g@.cfg.preds.len() as int,
                    ));
                }
                assert forall|c: int, k: int|
                    0 <= c < g@.cfg.preds.len() && 0 <= k < st@.nodes[c].len() implies (
                #[trigger] st@.nodes[c][k]).fits(st@.ssa.next as int) by {
                    assert(st0.nodes[c][k].fits(st0.ssa.next as int));
                }
            }
            Ok(st)
        }
    }

    /// Process the next block.
    fn process(self, g: &Graph, vm: &VerifiedMethod, cf: &ClassFile, b: BlockId) -> (r: Result<
        Build,
        IrError,
    >)
        requires
            build_ok(self@, g@),
            g@.wf(),
            b.0 < g@.cfg.preds.len(),
            g@.cfg.descends(b.0 as int),
        ensures
            match processed_one(self@, g@, vm@, cf@.constant_pool, b) {
                Ok(st) => r is Ok && r->Ok_0@ == st && build_ok(st, g@) && st.ssa.next
                    >= self@.ssa.next,
                Err(e) => r is Err && r->Err_0 == e,
            },
    {
        let ghost st0 = self@;
        let mut st = self;
        if !st.ssa.is_sealed(b) && preds_processed(&g.cfg, b, &st.processed) {
            st.ssa.seal_block(&g.cfg, b)?;
            proof {
                assert(st@ =~= BuildView { ssa: st@.ssa, ..st0 });
                lemma_build_ok_grows(st0, st@, g@);
            }
        }
        assert(st@ =~= BuildView { ssa: st@.ssa, ..st0 });
        let mut st1 = st.code_block(g, vm, cf, b)?;
        let ghost mid = st1@;
        st1.processed.set(b.0 as usize, true);
        proof {
            assert(st1@ =~= BuildView {
                processed: mid.processed.update(b.0 as int, true),
                ..mid
            });
            lemma_build_ok_grows(mid, st1@, g@);
        }
        st1.seal_ready(g)?;
        Ok(st1)
    }
}

proof fn lemma_phis_fit(phis: Seq<PhiDefView>, b: int, n: int, total: int)
    requires
        forall|i: int| 0 <= i < phis.len() ==> (#[trigger] phis[i]).fits(n, total),
    ensures
        forall|i: int|
            0 <= i < phis_of(phis, b).len() ==> (#[trigger] phis_of(phis, b)[i]).fits(n),
    decreases phis.len(),
{
    if phis.len() > 0 {
        assert forall|i: int| 0 <= i < phis.len() - 1 implies (
        #[trigger] phis.drop_last()[i]).fits(n, total) by {
            assert(phis[i].fits(n, total));
        }
        lemma_phis_fit(phis.drop_last(), b, n, total);
        let p = phis.last();
        assert(phis[phis.len() - 1].fits(n, total));
        assert((PhiView { slot: p.val, sources: p.sources }).fits(n));
        let rest = phis_of(phis.drop_last(), b);
        assert forall|i: int| 0 <= i < phis_of(phis, b).len() implies (
        #[trigger] phis_of(phis, b)[i]).fits(n) by {
            if i < rest.len() {
                assert(rest[i].fits(n));
            }
        }
    }
}

/// A φ's operands.
fn phi_sources(sources: &Vec<(BlockId, ValId)>) -> (r: PhiSources)
    ensures
        r@ == sources@,
{
    let mut r = PhiSources::empty();
    let mut i: usize = 0;
    while i < sources.len()
        invariant
            i <= sources@.len(),
            r@ == sources@.take(i as int),
        decreases sources@.len() - i,
    {
        let (b, v) = sources[i];
        r.append(b, v);
        i += 1;
        assert(sources@.take(i as int) =~= sources@.take(i - 1).push(sources@[i - 1]));
    }
    assert(sources@.take(sources@.len() as int) =~= sources@);
    r
}

/// Group φ definitions by block.
fn group_phis(phis: &Vec<PhiDef>, total: usize) -> (r: Vec<Vec<Phi>>)
    requires
        forall|i: int| 0 <= i < phis@.len() ==> (#[trigger] phis@[i]).block.0 < total,
    ensures
        r@.len() == total,
        forall|b: int|
            0 <= b < total ==> phi_views((#[trigger] r@[b])@) == phis_of(
                state::phi_def_views(phis@),
                b,
            ),
{
    let ghost views = state::phi_def_views(phis@);
    let mut out: Vec<Vec<Phi>> = empty_lists(total);
    proof {
        assert(inner_views(out@).len() == total);
        assert(views.take(0) =~= Seq::empty());
        assert forall|b: int| 0 <= b < total implies phi_views((#[trigger] out@[b])@) == phis_of(
            views.take(0),
            b,
        ) by {
            assert(inner_views(out@)[b] == Seq::<Phi>::empty());
            assert(phi_views(out@[b]@) =~= Seq::empty());
        }
    }
    let mut i: usize = 0;
    while i < phis.len()
        invariant
            i <= phis@.len(),
            views == state::phi_def_views(phis@),
            out@.len() == total,
            forall|k: int| 0 <= k < phis@.len() ==> (#[trigger] phis@[k]).block.0 < total,
            forall|b: int|
                0 <= b < total ==> phi_views((#[trigger] out@[b])@) == phis_of(
                    views.take(i as int),
                    b,
                ),
        decreases phis@.len() - i,
    {
        let ghost before = out@;
        let b: usize = phis[i].block.0 as usize;
        assert(phis@[i as int].block.0 < total);
        let phi = Phi { slot: phis[i].val, sources: phi_sources(&phis[i].sources) };
        let ghost pv = phi@;
        out[b].push(phi);
        proof {
            assert(views.take(i + 1).drop_last() =~= views.take(i as int));
            assert(views.take(i + 1).last() == phis@[i as int]@);
            assert forall|c: int| 0 <= c < total implies phi_views((#[trigger] out@[c])@)
                == phis_of(views.take(i + 1), c) by {
                assert(phi_views(before[c]@) == phis_of(views.take(i as int), c));
                if c == b {
                    assert(phi_views(out@[c]@) =~= phi_views(before[c]@).push(pv));
                } else {
                    assert(out@[c] == before[c]);
                }
            }
        }
        i += 1;
    }
    assert(views.take(views.len() as int) =~= views);
    out
}

/// Put the blocks together.
fn assemble(st: Build, g: &Graph) -> (blocks: Vec<Block>)
    requires
        build_ok(st@, g@),
        g@.wf(),
    ensures
        block_views(blocks@) == assembled(st@, g@.cfg.preds.len()),
{
    let total: usize = g.cfg.preds.len();
    let ghost sv = st@;
    let Build { ssa, mut nodes, terms, exits, processed } = st;
    let defs = ssa.phi_defs();
    proof {
        assert forall|i: int| 0 <= i < defs@.len() implies (#[trigger] defs@[i]).block.0
            < total by {
            assert(ssa@.phis[i] == defs@[i]@);
            assert(ssa@.phis[i].fits(ssa@.next as int, total as int));
        }
    }
    let mut phis = group_phis(defs, total);
    let ghost nodes0 = nodes@;
    let ghost phis0 = phis@;
    let mut blocks: Vec<Block> = Vec::new();
    let mut i: usize = 0;
    while i < total
        invariant
            i <= total,
            total == sv.nodes.len() == sv.terms.len(),
            total < u32::MAX,
            nodes@.len() == total == nodes0.len(),
            phis@.len() == total == phis0.len(),
            terms@ == sv.terms,
            node_lists(nodes0) == sv.nodes,
            forall|b: int|
                0 <= b < total ==> phi_views((#[trigger] phis0[b])@) == phis_of(sv.ssa.phis, b),
            forall|b: int| i <= b < total ==> (#[trigger] nodes@[b]) == nodes0[b],
            forall|b: int| i <= b < total ==> (#[trigger] phis@[b]) == phis0[b],
            blocks@.len() == i,
            forall|b: int|
                0 <= b < i ==> (#[trigger] blocks@[b])@ == assembled(sv, total as nat)[b],
        decreases total - i,
    {
        let mut own_nodes: Vec<Node> = Vec::new();
        std::mem::swap(&mut nodes[i], &mut own_nodes);
        let mut own_phis: Vec<Phi> = Vec::new();
        std::mem::swap(&mut phis[i], &mut own_phis);
        let term = match terms[i] {
            Some(t) => t,
            None => Terminator::Return(None),
        };
        let block = Block { id: BlockId(i as u32), phis: own_phis, nodes: own_nodes, term };
        proof {
            assert(own_nodes == nodes0[i as int]);
            assert(own_phis == phis0[i as int]);
            assert(node_lists(nodes0)[i as int] == sv.nodes[i as int]);
            assert(block@ =~= assembled(sv, total as nat)[i as int]);
        }
        blocks.push(block);
        i += 1;
    }
    assert(block_views(blocks@) =~= assembled(sv, total as nat));
    blocks
}

/// Process blocks in order, sealing each as soon as all its predecessors are processed.
fn process_all(start: Build, g: &Graph, vm: &VerifiedMethod, cf: &ClassFile) -> (r: Result<
    Build,
    IrError,
>)
    requires
        build_ok(start@, g@),
        g@.wf(),
    ensures
        match processed_from(start@, g@, vm@, cf@.constant_pool, 0) {
            Ok(st) => r is Ok && r->Ok_0@ == st && build_ok(st, g@) && st.ssa.next
                >= start@.ssa.next,
            Err(e) => r is Err && r->Err_0 == e,
        },
{
    let ghost first = start@;
    let mut st = start;
    let mut j: usize = 0;
    while j < g.order.len()
        invariant
            j <= g@.order.len(),
            g@.wf(),
            first == start@,
            build_ok(st@, g@),
            st@.ssa.next >= first.ssa.next,
            processed_from(first, g@, vm@, cf@.constant_pool, 0) == processed_from(
                st@,
                g@,
                vm@,
                cf@.constant_pool,
                j as int,
            ),
        decreases g@.order.len() - j,
    {
        let b = g.order[j];
        assert(g@.order[j as int].0 < g@.cfg.preds.len());
        st = st.process(g, vm, cf, b)?;
        j += 1;
    }
    Ok(st)
}

/// Build the SSA form of a verified method.
pub fn build(vm: &VerifiedMethod, cf: &ClassFile) -> (r: Result<BuiltMethod, IrError>)
    ensures
        match built(vm@, cf@.constant_pool) {
            Ok(b) => r is Ok && r->Ok_0@ == b && b.wf() && b.defined_once(),
            Err(e) => r is Err && r->Err_0 == e,
        },
{
    if vm.insns.len() == 0 {
        return Err(IrError::BadBlock(0));
    }
    let g = make_graph(&vm.insns)?;
    let total: usize = g.cfg.preds.len();

    // The entry has no predecessors: seal it, then bind the arguments.
    let mut ssa = Ssa::new(total);
    assert(ssa@.ok(g@.cfg));
    ssa.seal_block(&g.cfg, g.entry)?;
    let mut items: Vec<VType> = Vec::new();
    if !vm.is_static {
        items.push(VType::Reference);
    }
    items.extend_from_slice(vm.arg_types.as_slice());
    assert(items@ =~= initial_items(vm.is_static, vm.arg_types@));
    let arg_vals = bind_args(&mut ssa, &g.cfg, g.entry, &items)?;

    let mut st = Build {
        ssa,
        nodes: empty_lists(total),
        terms: Vec::new(),
        exits: Vec::new(),
        processed: Vec::new(),
    };
    while st.terms.len() < total
        invariant
            st.terms@.len() <= total,
            st.exits@.len() == st.terms@.len(),
            st.processed@.len() == st.terms@.len(),
            st.ssa == ssa,
            inner_views(st.nodes@) == empties::<Node>(total as nat),
            forall|i: int| 0 <= i < st.terms@.len() ==> st.terms@[i] is None,
            forall|i: int| 0 <= i < st.exits@.len() ==> st.exits@[i] is None,
            forall|i: int| 0 <= i < st.processed@.len() ==> !st.processed@[i],
        decreases total - st.terms@.len(),
    {
        st.terms.push(None);
        st.exits.push(None);
        st.processed.push(false);
    }
    let ghost start = st@;
    proof {
        assert(start =~= unbuilt(ssa@, total as nat)) by {
            assert forall|i: int| 0 <= i < total implies (#[trigger] start.nodes[i]) == Seq::<
                NodeView,
            >::empty() by {
                assert(inner_views(st.nodes@)[i] == Seq::<Node>::empty());
                assert(node_views(st.nodes@[i]@) =~= Seq::empty());
            }
            assert(inner_views(st.nodes@).len() == total);
            assert(start.nodes =~= empties(total as nat));
        }
        assert(build_ok(start, g@));
    }

    let st = process_all(st, &g, vm, cf)?;
    let ghost done = st@;
    let n_slots: usize = st.ssa.count() as usize;
    let mut blocks = assemble(st, &g);
    let ghost plain = block_views(blocks@);
    mark_escapes(&mut blocks);
    let method = Method { blocks, entry: g.entry, max_locals: vm.max_locals, exc_table: Vec::new() };
    let out = BuiltMethod { method, arg_vals, n_slots };
    proof {
        lemma_values_are_defined_once(vm@, cf@.constant_pool);
        assert(out@.method.exc_table =~= Seq::<ExcRegion>::empty());
        assert forall|i: int| 0 <= i < out@.method.blocks.len() implies (
        #[trigger] out@.method.blocks[i]).fits(
            out@.n_slots as int,
            out@.method.blocks.len() as int,
        ) by {
            lemma_assembled_fits(done, g@, i);
            lemma_marking_keeps_shape(
                plain,
                i,
                done.ssa.next as int,
                g@.cfg.preds.len() as int,
            );
        }
    }
    Ok(out)
}

proof fn lemma_assembled_fits(st: BuildView, g: GraphView, i: int)
    requires
        build_ok(st, g),
        0 <= i < g.cfg.preds.len(),
    ensures
        assembled(st, g.cfg.preds.len())[i].fits(
            st.ssa.next as int,
            g.cfg.preds.len() as int,
        ),
{
    let b = assembled(st, g.cfg.preds.len())[i];
    lemma_phis_fit(st.ssa.phis, i, st.ssa.next as int, g.cfg.preds.len() as int);
    assert forall|k: int| 0 <= k < b.nodes.len() implies (#[trigger] b.nodes[k]).fits(
        st.ssa.next as int,
    ) by {
        assert(st.nodes[i][k].fits(st.ssa.next as int));
    }
    assert(st.terms[i] matches Some(t) ==> t.fits(
        st.ssa.next as int,
        g.cfg.preds.len() as int,
    ));
}

} // verus!
