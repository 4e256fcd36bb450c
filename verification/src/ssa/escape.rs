//! Escape analysis: classify each allocation as scope-exclusive or shared.
//!
//! A value escapes its scope if it is returned, thrown, stored into a field, or passed to a call.
//! A φ that escapes makes all of its sources escape, and a cast that escapes its operand, which it
//! passes on. Classification is conservative: when non-escape cannot be shown the allocation is
//! promoted to the more general state.

use vstd::prelude::*;
use std::collections::HashSet;
use vstd::set_lib::{lemma_int_range, set_int_range};
use crate::diff::EscapeState;
use crate::ids::ValId;
use crate::inline::Operands;
use crate::ir::{block_views, node_views, Block, BlockView, Node, NodeView, Op, Terminator};
use crate::value::Tag;

verus! {

/// A set of values.
pub struct ValSet {
    codes: HashSet<u32>,
}

/// A value's number.
pub open spec fn code(v: ValId) -> u32 {
    (v.scope_level * 0x1_0000 + v.offset) as u32
}

impl View for ValSet {
    type V = Set<ValId>;

    closed spec fn view(&self) -> Set<ValId> {
        Set::new(|v: ValId| self.codes@.contains(code(v)))
    }
}

spec fn every_code() -> Set<u32> {
    set_int_range(0, 0x1_0000_0000).map(|i: int| i as u32)
}

proof fn lemma_every_code(c: u32)
    ensures
        every_code().finite(),
        every_code().contains(c),
{
    let range = set_int_range(0, 0x1_0000_0000);
    lemma_int_range(0, 0x1_0000_0000);
    range.lemma_map_finite(|i: int| i as u32);
    assert(range.contains(c as int));
    assert((c as int) as u32 == c);
}

fn code_of(v: ValId) -> (c: u32)
    ensures
        c == code(v),
{
    v.scope_level as u32 * 0x1_0000 + v.offset as u32
}

impl ValSet {
    /// How many more values the set could take.
    pub closed spec fn room(&self) -> nat {
        every_code().difference(self.codes@).len()
    }

    pub fn new() -> (s: ValSet)
        ensures
            s@ == Set::<ValId>::empty(),
    {
        broadcast use vstd::std_specs::hash::group_hash_axioms;

        let s = ValSet { codes: HashSet::new() };
        assert(s@ =~= Set::<ValId>::empty());
        s
    }

    /// Add a value; whether it is new.
    pub fn insert(&mut self, v: ValId) -> (r: bool)
        ensures
            final(self)@ == old(self)@.insert(v),
            r == !old(self)@.contains(v),
            final(self).room() <= old(self).room(),
            r ==> final(self).room() < old(self).room(),
    {
        broadcast use vstd::std_specs::hash::group_hash_axioms;

        let r = self.codes.insert(code_of(v));
        proof {
            assert forall|w: ValId| self@.contains(w) <==> #[trigger] old(self)@.insert(
                v,
            ).contains(w) by {
                if code(w) == code(v) {
                    assert(w == v);
                }
            }
            assert(self@ =~= old(self)@.insert(v));
            lemma_every_code(code(v));
            let before = every_code().difference(old(self).codes@);
            let after = every_code().difference(self.codes@);
            if r {
                assert(after =~= before.remove(code(v)));
                assert(before.contains(code(v)));
            } else {
                assert(after =~= before);
            }
        }
        r
    }

    pub fn contains(&self, v: ValId) -> (r: bool)
        ensures
            r == self@.contains(v),
    {
        broadcast use vstd::std_specs::hash::group_hash_axioms;

        self.codes.contains(&code_of(v))
    }

    /// Add every operand.
    fn insert_all(&mut self, ops: &Operands)
        ensures
            final(self)@ == old(self)@.union(ops@.to_set()),
    {
        let mut i: usize = 0;
        while i < ops.len()
            invariant
                i <= ops@.len(),
                self@ == old(self)@.union(ops@.take(i as int).to_set()),
            decreases ops@.len() - i,
        {
            let ghost before = self@;
            if let Some(v) = ops.get(i) {
                self.insert(v);
                proof {
                    let p = ops@.take(i as int);
                    let q = ops@.take(i + 1);
                    assert(q =~= p.push(v));
                    assert forall|w: ValId| q.to_set().contains(w) <==> p.to_set().contains(w) || w
                        == v by {
                        if p.contains(w) {
                            assert(q[p.index_of(w)] == w);
                        }
                        assert(q[i as int] == v);
                        if q.contains(w) && w != v {
                            assert(p[q.index_of(w)] == w);
                        }
                    }
                    assert(self@ =~= old(self)@.union(q.to_set()));
                }
            }
            i += 1;
        }
        proof {
            assert(ops@.take(ops@.len() as int) =~= ops@);
        }
    }
}

/// The values that a node lets escape: a value stored into a field, and all arguments of a call.
pub open spec fn node_leaks(n: NodeView) -> Set<ValId> {
    match n.op {
        Op::PutField(_) => if n.ins.len() > 1 {
            set![n.ins[1]]
        } else {
            Set::empty()
        },
        Op::PutStatic(_) | Op::InvokeStatic(_) | Op::InvokeSpecial(_) | Op::InvokeVirtual(_) =>
            n.ins.to_set(),
        _ => Set::empty(),
    }
}

/// The value that a terminator lets escape.
pub open spec fn term_leaks(t: Terminator) -> Option<ValId> {
    match t {
        Terminator::Return(Some(v)) => Some(v),
        Terminator::Throw(v) => Some(v),
        _ => None,
    }
}

/// Whether one of the first `n` nodes lets a value escape.
pub open spec fn nodes_leak(nodes: Seq<NodeView>, n: int, v: ValId) -> bool {
    exists|i: int| 0 <= i < n && node_leaks(#[trigger] nodes[i]).contains(v)
}

/// Whether a block lets a value escape.
pub open spec fn block_leaks(b: BlockView, v: ValId) -> bool {
    ||| nodes_leak(b.nodes, b.nodes.len() as int, v)
    ||| term_leaks(b.term) == Some(v)
}

/// Whether φ `p` of block `b` has `v` among its sources.
pub open spec fn merges(blocks: Seq<BlockView>, b: int, p: int, v: ValId) -> bool {
    exists|k: int|
        0 <= k < blocks[b].phis[p].sources.len() && (#[trigger] blocks[b].phis[p].sources[k]).1
            == v
}

/// The value that a node passes on as its own: the operand of a cast.
pub open spec fn passed_on(n: NodeView) -> Option<ValId> {
    if n.op is CheckCast && n.ins.len() > 0 {
        Some(n.ins[0])
    } else {
        None
    }
}

/// Whether a set of values holds, with the value of a node, what the node passes on.
pub open spec fn follows_casts(nodes: Seq<NodeView>, s: Set<ValId>, n: int) -> bool {
    forall|i: int|
        0 <= i < n && s.contains((#[trigger] nodes[i]).id) ==> (passed_on(nodes[i]) matches Some(v)
            ==> s.contains(v))
}

/// Whether a set of values holds whatever a block lets escape, with a φ all its sources, and with a
/// cast its operand.
pub open spec fn escape_closed(blocks: Seq<BlockView>, s: Set<ValId>) -> bool {
    &&& forall|b: int, v: ValId|
        0 <= b < blocks.len() && #[trigger] block_leaks(blocks[b], v) ==> s.contains(v)
    &&& forall|b: int, p: int, v: ValId|
        0 <= b < blocks.len() && 0 <= p < blocks[b].phis.len() && s.contains(
            blocks[b].phis[p].slot,
        ) && #[trigger] merges(blocks, b, p, v) ==> s.contains(v)
    &&& forall|b: int|
        0 <= b < blocks.len() ==> follows_casts(
            (#[trigger] blocks[b]).nodes,
            s,
            blocks[b].nodes.len() as int,
        )
}

/// Whether a value escapes: it is in every closed set, that is in the least one.
pub open spec fn escapes(blocks: Seq<BlockView>, v: ValId) -> bool {
    forall|s: Set<ValId>| #[trigger] escape_closed(blocks, s) ==> s.contains(v)
}

/// An allocation whose value escapes is shared; every other node stays as it is.
pub open spec fn marked_node(blocks: Seq<BlockView>, n: NodeView) -> NodeView {
    match n.op {
        Op::New { class_cp, .. } => if escapes(blocks, n.id) {
            NodeView {
                op: Op::New { class_cp, escape: EscapeState::S2 },
                ty: Tag::Ptr,
                ..n
            }
        } else {
            n
        },
        _ => n,
    }
}

/// All blocks with their allocations classified.
pub open spec fn marked(blocks: Seq<BlockView>) -> Seq<BlockView> {
    Seq::new(
        blocks.len(),
        |b: int|
            BlockView {
                nodes: Seq::new(
                    blocks[b].nodes.len(),
                    |i: int| marked_node(blocks, blocks[b].nodes[i]),
                ),
                ..blocks[b]
            },
    )
}

fn note_node(set: &mut ValSet, n: &Node)
    ensures
        final(set)@ == old(set)@.union(node_leaks(n@)),
{
    match n.op {
        Op::PutField(_) => {
            if let Some(v) = n.ins.get(1) {
                set.insert(v);
            }
            assert(set@ =~= old(set)@.union(node_leaks(n@)));
        },
        Op::PutStatic(_) | Op::InvokeStatic(_) | Op::InvokeSpecial(_) | Op::InvokeVirtual(_) => {
            set.insert_all(&n.ins);
        },
        _ => {
            assert(set@ =~= old(set)@.union(node_leaks(n@)));
        },
    }
}

/// Whether one of the first `k` blocks lets a value escape.
spec fn leaks_upto(blocks: Seq<BlockView>, k: int, v: ValId) -> bool {
    exists|b: int| 0 <= b < k && #[trigger] block_leaks(blocks[b], v)
}

/// The values that some block lets escape.
fn seeds(blocks: &Vec<Block>) -> (set: ValSet)
    ensures
        forall|v: ValId|
            set@.contains(v) <==> #[trigger] leaks_upto(
                block_views(blocks@),
                blocks@.len() as int,
                v,
            ),
{
    let ghost views = block_views(blocks@);
    let mut set = ValSet::new();
    let mut b: usize = 0;
    while b < blocks.len()
        invariant
            views == block_views(blocks@),
            b <= blocks@.len(),
            forall|v: ValId| set@.contains(v) <==> #[trigger] leaks_upto(views, b as int, v),
        decreases blocks@.len() - b,
    {
        let ghost before = set@;
        let ghost bv = views[b as int];
        let mut i: usize = 0;
        while i < blocks[b].nodes.len()
            invariant
                b < blocks@.len(),
                views == block_views(blocks@),
                bv == views[b as int],
                i <= blocks@[b as int].nodes@.len(),
                forall|v: ValId|
                    #![trigger nodes_leak(bv.nodes, i as int, v)]
                    #![trigger set@.contains(v)]
                    set@.contains(v) <==> (before.contains(v) || nodes_leak(
                        bv.nodes,
                        i as int,
                        v,
                    )),
            decreases blocks@[b as int].nodes@.len() - i,
        {
            let ghost mid = set@;
            note_node(&mut set, &blocks[b].nodes[i]);
            proof {
                assert(bv.nodes[i as int] == blocks@[b as int].nodes@[i as int]@);
                assert forall|v: ValId|
                    #![trigger nodes_leak(bv.nodes, i + 1, v)]
                    #![trigger set@.contains(v)]
                    set@.contains(v) <==> (before.contains(v) || nodes_leak(
                        bv.nodes,
                        i + 1,
                        v,
                    )) by {
                    assert(mid.contains(v) <==> (before.contains(v) || nodes_leak(
                        bv.nodes,
                        i as int,
                        v,
                    )));
                    if nodes_leak(bv.nodes, i as int, v) {
                        let j = choose|j: int|
                            0 <= j < i && node_leaks(#[trigger] bv.nodes[j]).contains(v);
                        assert(node_leaks(bv.nodes[j]).contains(v));
                    }
                    if nodes_leak(bv.nodes, i + 1, v) {
                        let j = choose|j: int|
                            0 <= j < i + 1 && node_leaks(#[trigger] bv.nodes[j]).contains(v);
                        if j < i {
                            assert(nodes_leak(bv.nodes, i as int, v));
                        }
                    }
                }
            }
            i += 1;
        }
        match blocks[b].term {
            Terminator::Return(Some(v)) => {
                set.insert(v);
            },
            Terminator::Throw(v) => {
                set.insert(v);
            },
            _ => {},
        }
        proof {
            assert(bv.nodes.len() == blocks@[b as int].nodes@.len());
            assert forall|v: ValId| set@.contains(v) <==> #[trigger] leaks_upto(
                views,
                b + 1,
                v,
            ) by {
                assert(before.contains(v) <==> leaks_upto(views, b as int, v));
                if leaks_upto(views, b as int, v) {
                    let c = choose|c: int| 0 <= c < b && #[trigger] block_leaks(views[c], v);
                    assert(block_leaks(views[c], v));
                }
                if block_leaks(bv, v) {
                    assert(block_leaks(views[b as int], v));
                }
                if leaks_upto(views, b + 1, v) {
                    let c = choose|c: int| 0 <= c < b + 1 && #[trigger] block_leaks(views[c], v);
                    if c < b {
                        assert(leaks_upto(views, b as int, v));
                    }
                }
            }
        }
        b += 1;
    }
    set
}

/// Whether the closure rule holds for the φ before φ `p` of block `b`.
spec fn closed_upto(blocks: Seq<BlockView>, s: Set<ValId>, b: int, p: int) -> bool {
    forall|c: int, q: int, v: ValId|
        0 <= c < blocks.len() && 0 <= q < blocks[c].phis.len() && (c < b || (c == b && q < p))
            && s.contains(blocks[c].phis[q].slot) && #[trigger] merges(blocks, c, q, v)
            ==> s.contains(v)
}

/// One pass over all φ: whatever is merged into an escaping φ escapes. Whether anything was added.
fn spread(blocks: &Vec<Block>, set: &mut ValSet) -> (changed: bool)
    requires
        forall|v: ValId| old(set)@.contains(v) ==> #[trigger] escapes(block_views(blocks@), v),
    ensures
        forall|v: ValId| final(set)@.contains(v) ==> #[trigger] escapes(block_views(blocks@), v),
        forall|v: ValId| old(set)@.contains(v) ==> #[trigger] final(set)@.contains(v),
        final(set).room() <= old(set).room(),
        changed ==> final(set).room() < old(set).room(),
        !changed ==> final(set)@ == old(set)@,
        !changed ==> closed_upto(block_views(blocks@), final(set)@, blocks@.len() as int, 0),
{
    let ghost views = block_views(blocks@);
    let mut changed = false;
    let mut b: usize = 0;
    while b < blocks.len()
        invariant
            views == block_views(blocks@),
            b <= blocks@.len(),
            forall|v: ValId| set@.contains(v) ==> #[trigger] escapes(views, v),
            forall|v: ValId| old(set)@.contains(v) ==> #[trigger] set@.contains(v),
            set.room() <= old(set).room(),
            changed ==> set.room() < old(set).room(),
            !changed ==> set@ == old(set)@,
            !changed ==> closed_upto(views, set@, b as int, 0),
        decreases blocks@.len() - b,
    {
        let ghost bv = views[b as int];
        let mut p: usize = 0;
        while p < blocks[b].phis.len()
            invariant
                views == block_views(blocks@),
                b < blocks@.len(),
                bv == views[b as int],
                bv == blocks@[b as int]@,
                p <= blocks@[b as int].phis@.len(),
                forall|v: ValId| set@.contains(v) ==> #[trigger] escapes(views, v),
                forall|v: ValId| old(set)@.contains(v) ==> #[trigger] set@.contains(v),
                set.room() <= old(set).room(),
                changed ==> set.room() < old(set).room(),
                !changed ==> set@ == old(set)@,
                !changed ==> closed_upto(views, set@, b as int, p as int),
            decreases blocks@[b as int].phis@.len() - p,
        {
            let phi = &blocks[b].phis[p];
            assert(bv.phis[p as int] == phi@);
            if set.contains(phi.slot) {
                let ghost before = set@;
                let ghost was = changed;
                assert(!was ==> before == old(set)@);
                let mut k: usize = 0;
                while k < phi.sources.len()
                    invariant
                        views == block_views(blocks@),
                        b < blocks@.len(),
                        bv == views[b as int],
                        p < bv.phis.len(),
                        bv.phis[p as int] == phi@,
                        k <= phi.sources@.len(),
                        set@.contains(phi.slot),
                        forall|v: ValId| set@.contains(v) ==> #[trigger] escapes(views, v),
                        forall|v: ValId| old(set)@.contains(v) ==> #[trigger] set@.contains(v),
                        set.room() <= old(set).room(),
                        changed ==> set.room() < old(set).room(),
                        !changed ==> set@ == before && !was,
                        !was ==> before == old(set)@,
                        forall|j: int|
                            0 <= j < k ==> set@.contains((#[trigger] phi.sources@[j]).1),
                    decreases phi.sources@.len() - k,
                {
                    if let Some((pred, src)) = phi.sources.get(k) {
                        proof {
                            assert(views[b as int].phis[p as int].sources[k as int].1 == src);
                            assert(merges(views, b as int, p as int, src));
                            assert(escapes(views, phi.slot));
                            assert forall|s: Set<ValId>| #[trigger]
                                escape_closed(views, s) implies s.contains(src) by {
                                assert(s.contains(views[b as int].phis[p as int].slot));
                            }
                            assert(escapes(views, src));
                        }
                        let ghost now = set@;
                        let added = set.insert(src);
                        if added {
                            changed = true;
                        } else {
                            assert(set@ =~= now);
                        }
                    }
                    k += 1;
                }
                proof {
                    if !changed {
                        assert(closed_upto(views, set@, b as int, p + 1)) by {
                            assert forall|c: int, q: int, v: ValId|
                                0 <= c < views.len() && 0 <= q < views[c].phis.len() && (c < b || (c
                                    == b && q < p + 1)) && set@.contains(views[c].phis[q].slot)
                                    && #[trigger] merges(views, c, q, v) implies set@.contains(
                                v,
                            ) by {
                                if c == b && q == p {
                                    let j = choose|j: int|
                                        0 <= j < views[c].phis[q].sources.len() && (
                                        #[trigger] views[c].phis[q].sources[j]).1 == v;
                                    assert(set@.contains(phi.sources@[j].1));
                                }
                            }
                        }
                    }
                }
            }
            p += 1;
        }
        proof {
            if !changed {
                assert(closed_upto(views, set@, b + 1, 0)) by {
                    assert(bv.phis.len() == blocks@[b as int].phis@.len());
                }
            }
        }
        b += 1;
    }
    changed
}

/// One pass over all casts: whatever an escaping cast passes on escapes. Whether anything was added.
fn spread_casts(blocks: &Vec<Block>, set: &mut ValSet) -> (changed: bool)
    requires
        forall|v: ValId| old(set)@.contains(v) ==> #[trigger] escapes(block_views(blocks@), v),
    ensures
        forall|v: ValId| final(set)@.contains(v) ==> #[trigger] escapes(block_views(blocks@), v),
        forall|v: ValId| old(set)@.contains(v) ==> #[trigger] final(set)@.contains(v),
        final(set).room() <= old(set).room(),
        changed ==> final(set).room() < old(set).room(),
        !changed ==> final(set)@ == old(set)@,
        !changed ==> forall|b: int|
            0 <= b < blocks@.len() ==> follows_casts(
                (#[trigger] block_views(blocks@)[b]).nodes,
                final(set)@,
                block_views(blocks@)[b].nodes.len() as int,
            ),
{
    let ghost views = block_views(blocks@);
    let mut changed = false;
    let mut b: usize = 0;
    while b < blocks.len()
        invariant
            views == block_views(blocks@),
            b <= blocks@.len(),
            forall|v: ValId| set@.contains(v) ==> #[trigger] escapes(views, v),
            forall|v: ValId| old(set)@.contains(v) ==> #[trigger] set@.contains(v),
            set.room() <= old(set).room(),
            changed ==> set.room() < old(set).room(),
            !changed ==> set@ == old(set)@,
            !changed ==> forall|c: int|
                0 <= c < b ==> follows_casts(
                    (#[trigger] views[c]).nodes,
                    set@,
                    views[c].nodes.len() as int,
                ),
        decreases blocks@.len() - b,
    {
        let ghost bv = views[b as int];
        let mut i: usize = 0;
        while i < blocks[b].nodes.len()
            invariant
                views == block_views(blocks@),
                b < blocks@.len(),
                bv == views[b as int],
                bv == blocks@[b as int]@,
                i <= blocks@[b as int].nodes@.len(),
                forall|v: ValId| set@.contains(v) ==> #[trigger] escapes(views, v),
                forall|v: ValId| old(set)@.contains(v) ==> #[trigger] set@.contains(v),
                set.room() <= old(set).room(),
                changed ==> set.room() < old(set).room(),
                !changed ==> set@ == old(set)@,
                !changed ==> follows_casts(bv.nodes, set@, i as int),
                !changed ==> forall|c: int|
                    0 <= c < b ==> follows_casts(
                        (#[trigger] views[c]).nodes,
                        set@,
                        views[c].nodes.len() as int,
                    ),
            decreases blocks@[b as int].nodes@.len() - i,
        {
            let n = &blocks[b].nodes[i];
            assert(bv.nodes[i as int] == n@);
            if let Op::CheckCast(_) = n.op {
                if set.contains(n.id) {
                    if let Some(v) = n.ins.get(0) {
                        proof {
                            assert(escapes(views, n.id));
                            assert forall|s: Set<ValId>| #[trigger]
                                escape_closed(views, s) implies s.contains(v) by {
                                assert(s.contains(views[b as int].nodes[i as int].id));
                            }
                            assert(escapes(views, v));
                        }
                        let ghost now = set@;
                        let added = set.insert(v);
                        if added {
                            changed = true;
                        } else {
                            assert(set@ =~= now);
                        }
                    }
                }
            }
            i += 1;
        }
        assert(bv.nodes.len() == blocks@[b as int].nodes@.len());
        b += 1;
    }
    changed
}

/// The values that escape.
fn escaping(blocks: &Vec<Block>) -> (set: ValSet)
    ensures
        forall|v: ValId| set@.contains(v) <==> #[trigger] escapes(block_views(blocks@), v),
{
    let ghost views = block_views(blocks@);
    let mut set = seeds(blocks);
    proof {
        assert forall|v: ValId| set@.contains(v) implies #[trigger] escapes(views, v) by {
            assert(leaks_upto(views, views.len() as int, v));
            let b = choose|b: int| 0 <= b < views.len() && #[trigger] block_leaks(views[b], v);
            assert(block_leaks(views[b], v));
        }
    }
    let ghost start = set@;
    let mut changed = true;
    while changed
        invariant
            views == block_views(blocks@),
            forall|v: ValId| set@.contains(v) ==> #[trigger] escapes(views, v),
            forall|v: ValId|
                #[trigger] leaks_upto(views, views.len() as int, v) ==> set@.contains(v),
            !changed ==> closed_upto(views, set@, views.len() as int, 0),
            !changed ==> forall|b: int|
                0 <= b < views.len() ==> follows_casts(
                    (#[trigger] views[b]).nodes,
                    set@,
                    views[b].nodes.len() as int,
                ),
        decreases
            set.room(),
            if changed {
                1int
            } else {
                0int
            },
    {
        let merged = spread(blocks, &mut set);
        let cast = spread_casts(blocks, &mut set);
        changed = merged || cast;
    }
    proof {
        assert forall|v: ValId| #[trigger] escapes(views, v) implies set@.contains(v) by {
            assert(escape_closed(views, set@)) by {
                assert forall|b: int, w: ValId|
                    0 <= b < views.len() && #[trigger] block_leaks(views[b], w) implies set@.contains(
                w) by {
                    assert(leaks_upto(views, views.len() as int, w));
                }
            }
        }
    }
    set
}

/// Classify the allocations of one block.
fn mark_block(nodes: &mut Vec<Node>, set: &ValSet, Ghost(views): Ghost<Seq<BlockView>>)
    requires
        forall|v: ValId| set@.contains(v) <==> #[trigger] escapes(views, v),
    ensures
        node_views(final(nodes)@) == Seq::new(
            old(nodes)@.len(),
            |i: int| marked_node(views, old(nodes)@[i]@),
        ),
{
    let ghost before = node_views(nodes@);
    let mut i: usize = 0;
    while i < nodes.len()
        invariant
            forall|v: ValId| set@.contains(v) <==> #[trigger] escapes(views, v),
            before == node_views(old(nodes)@),
            nodes@.len() == before.len(),
            i <= nodes@.len(),
            forall|j: int|
                0 <= j < i ==> (#[trigger] nodes@[j])@ == marked_node(views, before[j]),
            forall|j: int| i <= j < nodes@.len() ==> (#[trigger] nodes@[j])@ == before[j],
        decreases nodes@.len() - i,
    {
        let ghost mid = nodes@;
        assert(nodes@[i as int]@ == before[i as int]);
        if let Op::New { class_cp, .. } = nodes[i].op {
            let id = nodes[i].id;
            assert(set@.contains(id) <==> escapes(views, id));
            if set.contains(id) {
                nodes[i].op = Op::New { class_cp, escape: EscapeState::S2 };
                nodes[i].ty = Tag::Ptr;
                proof {
                    assert(nodes@[i as int]@ =~= marked_node(views, before[i as int]));
                    assert forall|j: int| i < j < nodes@.len() implies (#[trigger] nodes@[j])@
                        == before[j] by {
                        assert(mid[j]@ == before[j]);
                    }
                }
            }
        }
        i += 1;
    }
    assert(node_views(nodes@) =~= Seq::new(
        old(nodes)@.len(),
        |i: int| marked_node(views, old(nodes)@[i]@),
    ));
}

/// Promote every allocation that escapes.
pub fn mark_escapes(blocks: &mut Vec<Block>)
    ensures
        block_views(final(blocks)@) == marked(block_views(old(blocks)@)),
        final(blocks)@.len() == old(blocks)@.len(),
{
    let ghost views = block_views(blocks@);
    let set = escaping(blocks);
    let mut b: usize = 0;
    while b < blocks.len()
        invariant
            forall|v: ValId| set@.contains(v) <==> #[trigger] escapes(views, v),
            views == block_views(old(blocks)@),
            blocks@.len() == views.len(),
            b <= blocks@.len(),
            forall|c: int| 0 <= c < b ==> (#[trigger] blocks@[c])@ == marked(views)[c],
            forall|c: int| b <= c < blocks@.len() ==> (#[trigger] blocks@[c])@ == views[c],
        decreases blocks@.len() - b,
    {
        let ghost mid = blocks@;
        assert(blocks@[b as int]@ == views[b as int]);
        mark_block(&mut blocks[b].nodes, &set, Ghost(views));
        proof {
            assert(blocks@[b as int]@.nodes =~= marked(views)[b as int].nodes);
            assert(blocks@[b as int]@ =~= marked(views)[b as int]);
            assert forall|c: int| 0 <= c < blocks@.len() && c != b implies (
            #[trigger] blocks@[c])@ == mid[c]@ by {}
        }
        b += 1;
    }
    assert(block_views(blocks@) =~= marked(views));
}

/// Classifying changes nothing but the escape state and tag of allocations: all values and
/// targets stay.
pub proof fn lemma_marking_keeps_shape(blocks: Seq<BlockView>, b: int, n: int, total: int)
    requires
        0 <= b < blocks.len(),
        blocks[b].fits(n, total),
    ensures
        marked(blocks)[b].fits(n, total),
        marked(blocks)[b].phis == blocks[b].phis,
        marked(blocks)[b].term == blocks[b].term,
        marked(blocks)[b].id == blocks[b].id,
        marked(blocks)[b].nodes.len() == blocks[b].nodes.len(),
{
    let m = marked(blocks)[b];
    assert forall|i: int| 0 <= i < m.nodes.len() implies (#[trigger] m.nodes[i]).fits(n) by {
        assert(blocks[b].nodes[i].fits(n));
    }
}

/// Whatever a block lets escape does escape, and so do the sources of an escaping φ and the operand of
/// an escaping cast.
pub proof fn lemma_escaping_is_closed(blocks: Seq<BlockView>)
    ensures
        escape_closed(blocks, Set::new(|v: ValId| escapes(blocks, v))),
{
    let s = Set::new(|v: ValId| escapes(blocks, v));
    assert forall|b: int, v: ValId|
        0 <= b < blocks.len() && #[trigger] block_leaks(blocks[b], v) implies s.contains(v) by {
        assert(escapes(blocks, v));
    }
    assert forall|b: int, p: int, v: ValId|
        0 <= b < blocks.len() && 0 <= p < blocks[b].phis.len() && s.contains(
            blocks[b].phis[p].slot,
        ) && #[trigger] merges(blocks, b, p, v) implies s.contains(v) by {
        assert forall|t: Set<ValId>| #[trigger] escape_closed(blocks, t) implies t.contains(v) by {
            assert(t.contains(blocks[b].phis[p].slot));
        }
        assert(escapes(blocks, v));
    }
    assert forall|b: int| 0 <= b < blocks.len() implies follows_casts(
        (#[trigger] blocks[b]).nodes,
        s,
        blocks[b].nodes.len() as int,
    ) by {
        let nodes = blocks[b].nodes;
        assert forall|i: int| 0 <= i < nodes.len() && s.contains(
            (#[trigger] nodes[i]).id,
        ) implies (passed_on(nodes[i]) matches Some(v) ==> s.contains(v)) by {
            if let Some(v) = passed_on(nodes[i]) {
                assert forall|t: Set<ValId>| #[trigger]
                    escape_closed(blocks, t) implies t.contains(v) by {
                    assert(t.contains(blocks[b].nodes[i].id));
                }
                assert(escapes(blocks, v));
            }
        }
    }
}

/// Whether a value is used only where it cannot escape: it is not stored, passed to a call, returned,
/// thrown, merged with others, or cast.
pub open spec fn stays_put(blocks: Seq<BlockView>, v: ValId) -> bool {
    &&& forall|b: int, i: int|
        0 <= b < blocks.len() && 0 <= i < blocks[b].nodes.len() ==> {
            let n = #[trigger] blocks[b].nodes[i];
            match n.op {
                Op::PutField(_) => n.ins.len() > 1 ==> n.ins[1] != v,
                Op::PutStatic(_)
                | Op::InvokeStatic(_)
                | Op::InvokeSpecial(_)
                | Op::InvokeVirtual(_) => !n.ins.contains(v),
                Op::CheckCast(_) => n.ins.len() > 0 ==> n.ins[0] != v,
                _ => true,
            }
        }
    &&& forall|b: int|
        0 <= b < blocks.len() ==> (#[trigger] blocks[b]).term != Terminator::Return(Some(v))
            && blocks[b].term != Terminator::Throw(v)
    &&& forall|b: int, p: int, k: int|
        0 <= b < blocks.len() && 0 <= p < blocks[b].phis.len() && 0 <= k
            < blocks[b].phis[p].sources.len() ==> (#[trigger] blocks[b].phis[p].sources[k]).1 != v
}

/// An allocation that stays put stays exclusive, so it is freed with its scope.
pub proof fn lemma_unshared_allocations_stay_exclusive(blocks: Seq<BlockView>, b: int, i: int)
    requires
        0 <= b < blocks.len(),
        0 <= i < blocks[b].nodes.len(),
        blocks[b].nodes[i].op is New,
        stays_put(blocks, blocks[b].nodes[i].id),
    ensures
        marked(blocks)[b].nodes[i] == blocks[b].nodes[i],
{
    let v = blocks[b].nodes[i].id;
    let s = Set::new(|x: ValId| x != v);
    assert(escape_closed(blocks, s)) by {
        assert forall|c: int, x: ValId|
            0 <= c < blocks.len() && #[trigger] block_leaks(blocks[c], x) implies s.contains(x) by {
            if nodes_leak(blocks[c].nodes, blocks[c].nodes.len() as int, x) {
                let j = choose|j: int|
                    0 <= j < blocks[c].nodes.len() && node_leaks(
                        #[trigger] blocks[c].nodes[j],
                    ).contains(x);
                let n = blocks[c].nodes[j];
                assert(n.ins.to_set().contains(x) ==> n.ins.contains(x));
            }
        }
        assert forall|c: int, p: int, x: ValId|
            0 <= c < blocks.len() && 0 <= p < blocks[c].phis.len() && s.contains(
                blocks[c].phis[p].slot,
            ) && #[trigger] merges(blocks, c, p, x) implies s.contains(x) by {}
        assert forall|c: int| 0 <= c < blocks.len() implies follows_casts(
            (#[trigger] blocks[c]).nodes,
            s,
            blocks[c].nodes.len() as int,
        ) by {}
    }
    assert(!s.contains(v));
    assert(marked(blocks)[b].nodes[i] == marked_node(blocks, blocks[b].nodes[i]));
}

/// An allocation that is stored, passed to a call, returned or thrown is shared.
pub proof fn lemma_leaked_allocations_are_shared(
    blocks: Seq<BlockView>,
    b: int,
    i: int,
    c: int,
    j: int,
)
    requires
        0 <= b < blocks.len(),
        0 <= i < blocks[b].nodes.len(),
        blocks[b].nodes[i].op is New,
        0 <= c < blocks.len(),
        ({
            let v = blocks[b].nodes[i].id;
            ||| blocks[c].term == Terminator::Return(Some(v))
            ||| blocks[c].term == Terminator::Throw(v)
            ||| 0 <= j < blocks[c].nodes.len() && match blocks[c].nodes[j].op {
                Op::PutField(_) => blocks[c].nodes[j].ins.len() > 1 && blocks[c].nodes[j].ins[1]
                    == v,
                Op::PutStatic(_)
                | Op::InvokeStatic(_)
                | Op::InvokeSpecial(_)
                | Op::InvokeVirtual(_) => blocks[c].nodes[j].ins.contains(v),
                _ => false,
            }
        }),
    ensures
        marked(blocks)[b].nodes[i].op matches Op::New { escape, .. } && escape is S2,
        marked(blocks)[b].nodes[i].ty is Ptr,
{
    let v = blocks[b].nodes[i].id;
    if 0 <= j < blocks[c].nodes.len() && node_leaks(blocks[c].nodes[j]).contains(v) {
        assert(nodes_leak(blocks[c].nodes, blocks[c].nodes.len() as int, v));
    }
    assert(block_leaks(blocks[c], v)) by {
        if 0 <= j < blocks[c].nodes.len() {
            let n = blocks[c].nodes[j];
            assert(n.ins.contains(v) ==> n.ins.to_set().contains(v));
        }
    }
    assert(escapes(blocks, v));
    assert(marked(blocks)[b].nodes[i] == marked_node(blocks, blocks[b].nodes[i]));
}

} // verus!
