//! Control-flow graph of a method: basic-block leaders, the partition of the instructions, edges,
//! and a reverse post-order of the reachable blocks.

use vstd::prelude::*;
use crate::ids::BlockId;
use crate::verify::insn::{indexed, lemma_index_has_the_pcs, pc_index, Insn};
use crate::verify::is_boundary;

verus! {

/// An increasing list with `x` in its place, once.
pub open spec fn insert_sorted(s: Seq<u32>, x: u32) -> Seq<u32>
    decreases s.len(),
{
    if s.len() == 0 || s.last() < x {
        s.push(x)
    } else if s.last() == x {
        s
    } else {
        insert_sorted(s.drop_last(), x).push(s.last())
    }
}

/// Strictly increasing.
pub open spec fn increasing(s: Seq<u32>) -> bool {
    forall|i: int, j: int| 0 <= i < j < s.len() ==> #[trigger] s[i] < #[trigger] s[j]
}

/// Inserting keeps the order and adds exactly `x`.
pub proof fn lemma_insert_sorted(s: Seq<u32>, x: u32)
    requires
        increasing(s),
    ensures
        increasing(insert_sorted(s, x)),
        forall|y: u32| #[trigger] insert_sorted(s, x).contains(y) <==> s.contains(y) || y == x,
        s.len() <= insert_sorted(s, x).len() <= s.len() + 1,
        insert_sorted(s, x).len() > 0,
    decreases s.len(),
{
    let r = insert_sorted(s, x);
    if s.len() == 0 || s.last() < x {
        assert forall|y: u32| #[trigger] r.contains(y) <==> s.contains(y) || y == x by {
            if s.contains(y) {
                assert(r[s.index_of(y)] == y);
            }
            assert(r[s.len() as int] == x);
            if r.contains(y) && y != x {
                assert(s[r.index_of(y)] == y);
            }
        }
    } else if s.last() == x {
        assert(s[s.len() - 1] == x);
    } else {
        let t = s.drop_last();
        lemma_insert_sorted(t, x);
        let u = insert_sorted(t, x);
        assert forall|i: int, j: int| 0 <= i < j < r.len() implies #[trigger] r[i] < #[trigger] r[j] by {
            if j == u.len() {
                assert(u.contains(u[i]));
                if u[i] != x {
                    let k = t.index_of(u[i]);
                    assert(s[k] < s[s.len() - 1]);
                }
            }
        }
        assert forall|y: u32| #[trigger] r.contains(y) <==> s.contains(y) || y == x by {
            if s.contains(y) {
                let k = s.index_of(y);
                if k < t.len() {
                    assert(t[k] == y);
                    assert(u.contains(y));
                    assert(r[u.index_of(y)] == y);
                } else {
                    assert(r[u.len() as int] == y);
                }
            }
            if y == x {
                assert(u.contains(x));
                assert(r[u.index_of(x)] == x);
            }
            if r.contains(y) {
                let k = r.index_of(y);
                if k < u.len() {
                    assert(u[k] == y);
                    assert(u.contains(y));
                    if y != x {
                        assert(s[t.index_of(y)] == y);
                    }
                } else {
                    assert(s[s.len() - 1] == y);
                }
            }
        }
    }
}

proof fn lemma_insert_position(s: Seq<u32>, x: u32, i: int)
    requires
        0 <= i <= s.len(),
        forall|j: int| i <= j < s.len() ==> #[trigger] s[j] > x,
        i > 0 ==> s[i - 1] <= x,
    ensures
        insert_sorted(s, x) == (if i > 0 && s[i - 1] == x {
            s
        } else {
            s.insert(i, x)
        }),
    decreases s.len() - i,
{
    if i < s.len() {
        assert(s[s.len() - 1] > x);
        let t = s.drop_last();
        lemma_insert_position(t, x, i);
        if i > 0 && s[i - 1] == x {
            assert(t.push(s.last()) =~= s);
        } else {
            assert(t.insert(i, x).push(s.last()) =~= s.insert(i, x));
        }
    } else if !(i > 0 && s[i - 1] == x) {
        assert(s.insert(i, x) =~= s.push(x));
    }
}

fn add_leader(v: &mut Vec<u32>, x: u32)
    ensures
        final(v)@ == insert_sorted(old(v)@, x),
{
    let mut i: usize = v.len();
    while i > 0 && v[i - 1] > x
        invariant
            v@ == old(v)@,
            i <= v@.len(),
            forall|j: int| i <= j < v@.len() ==> #[trigger] v@[j] > x,
        decreases i,
    {
        i -= 1;
    }
    proof {
        lemma_insert_position(v@, x, i as int);
    }
    if i > 0 && v[i - 1] == x {
        return;
    }
    v.insert(i, x);
}

/// The leaders found up to instruction `k`: the first instruction, every branch target, and the
/// instruction after every branch or return.
pub open spec fn leaders_upto(insns: Seq<Insn>, k: int) -> Seq<u32>
    decreases k,
{
    if k <= 0 {
        if insns.len() > 0 {
            seq![insns[0].pc]
        } else {
            Seq::empty()
        }
    } else {
        let s = leaders_upto(insns, k - 1);
        let ins = insns[k - 1];
        let t = match ins.target() {
            Some(pc) => insert_sorted(s, pc),
            None => s,
        };
        if (ins.target() is Some || ins.ends()) && is_boundary(insns, ins.next_pc()) {
            insert_sorted(t, ins.next_pc())
        } else {
            t
        }
    }
}

/// The leaders of a method, in increasing order.
pub open spec fn leaders_of(insns: Seq<Insn>) -> Seq<u32> {
    leaders_upto(insns, insns.len() as int)
}

/// Whether `pc` is a leader on account of one of the first `k` instructions.
pub open spec fn leads(insns: Seq<Insn>, k: int, pc: u32) -> bool {
    ||| insns.len() > 0 && pc == insns[0].pc
    ||| exists|i: int|
        0 <= i < k && (#[trigger] insns[i]).target() == Some(pc)
    ||| is_boundary(insns, pc) && exists|i: int|
        0 <= i < k && (#[trigger] insns[i]).next_pc() == pc && (insns[i].target() is Some
            || insns[i].ends())
}

/// The leaders are in strictly increasing order, and exactly the pcs that lead a block.
pub proof fn lemma_leaders(insns: Seq<Insn>, k: int)
    requires
        0 <= k <= insns.len(),
    ensures
        increasing(leaders_upto(insns, k)),
        forall|pc: u32| #[trigger] leaders_upto(insns, k).contains(pc) <==> leads(insns, k, pc),
        insns.len() > 0 ==> leaders_upto(insns, k).len() > 0,
    decreases k,
{
    if k <= 0 {
        if insns.len() > 0 {
            assert(leaders_upto(insns, k)[0] == insns[0].pc);
        }
    } else {
        lemma_leaders(insns, k - 1);
        let s = leaders_upto(insns, k - 1);
        let ins = insns[k - 1];
        let t = match ins.target() {
            Some(pc) => insert_sorted(s, pc),
            None => s,
        };
        if ins.target() is Some {
            lemma_insert_sorted(s, ins.target()->0);
        }
        lemma_insert_sorted(t, ins.next_pc());
        let r = leaders_upto(insns, k);
        assert forall|pc: u32| #[trigger] r.contains(pc) <==> leads(insns, k, pc) by {
            assert(s.contains(pc) <==> leads(insns, k - 1, pc));
            assert(t.contains(pc) <==> s.contains(pc) || ins.target() == Some(pc));
            if leads(insns, k - 1, pc) {
                assert(leads(insns, k, pc));
            }
            if ins.target() == Some(pc) {
                assert(insns[k - 1].target() == Some(pc));
            }
        }
    }
}

/// Basic-block leaders: entry, every branch target, and the instruction after every branch/return.
pub fn leaders(insns: &Vec<Insn>) -> (r: Vec<u32>)
    ensures
        r@ == leaders_of(insns@),
        increasing(r@),
        insns@.len() > 0 ==> r@.len() > 0,
{
    broadcast use vstd::std_specs::hash::group_hash_axioms;

    let valid = pc_index(insns.as_slice());
    let mut set: Vec<u32> = Vec::new();
    if insns.len() > 0 {
        set.push(insns[0].pc);
        assert(set@ =~= seq![insns@[0].pc]);
    }
    let mut k: usize = 0;
    while k < insns.len()
        invariant
            k <= insns@.len(),
            valid@ == indexed(insns@),
            set@ == leaders_upto(insns@, k as int),
        decreases insns@.len() - k,
    {
        broadcast use vstd::std_specs::hash::group_hash_axioms;

        let ins = insns[k];
        let target = ins.branch_target();
        if let Some(t) = target {
            add_leader(&mut set, t);
        }
        if target.is_some() || ins.is_unconditional_end() {
            let next: u32 = ins.following_pc();
            proof {
                lemma_index_has_the_pcs(insns@, next);
            }
            if valid.contains_key(&next) {
                add_leader(&mut set, next);
            }
        }
        k += 1;
    }
    proof {
        lemma_leaders(insns@, insns@.len() as int);
    }
    set
}

/// The first position from `i` on that holds `pc`.
pub open spec fn position_from(s: Seq<u32>, pc: u32, i: int) -> Option<int>
    decreases s.len() - i,
{
    if i >= s.len() {
        None
    } else if s[i] == pc {
        Some(i)
    } else {
        position_from(s, pc, i + 1)
    }
}

/// The block that starts at `pc`.
pub open spec fn block_at(leaders: Seq<u32>, pc: u32) -> Option<BlockId> {
    match position_from(leaders, pc, 0) {
        Some(i) => Some(BlockId(i as u32)),
        None => None,
    }
}

/// The block that starts at `pc`.
pub(crate) fn find_block(leaders: &Vec<u32>, pc: u32) -> (r: Option<BlockId>)
    requires
        leaders@.len() <= u32::MAX,
    ensures
        r == block_at(leaders@, pc),
        r matches Some(b) ==> b.0 < leaders@.len() && leaders@[b.0 as int] == pc,
        r is None ==> !leaders@.contains(pc),
{
    let mut i: usize = 0;
    while i < leaders.len()
        invariant
            leaders@.len() <= u32::MAX,
            i <= leaders@.len(),
            position_from(leaders@, pc, 0) == position_from(leaders@, pc, i as int),
            forall|j: int| 0 <= j < i ==> leaders@[j] != pc,
        decreases leaders@.len() - i,
    {
        if leaders[i] == pc {
            return Some(BlockId(i as u32));
        }
        i += 1;
    }
    None
}

/// The block, from `bi` on, that an instruction at `pc` belongs to.
pub open spec fn advanced(leaders: Seq<u32>, bi: int, pc: u32) -> int
    decreases leaders.len() - bi,
{
    if bi + 1 < leaders.len() && pc >= leaders[bi + 1] {
        advanced(leaders, bi + 1, pc)
    } else {
        bi
    }
}

/// `parts`, with the instructions from `k` on added to the block they belong to, `bi` or a later
/// one.
pub open spec fn parts_from(
    leaders: Seq<u32>,
    insns: Seq<Insn>,
    k: int,
    bi: int,
    parts: Seq<Seq<Insn>>,
) -> Seq<Seq<Insn>>
    decreases insns.len() - k,
{
    if k >= insns.len() {
        parts
    } else {
        let b = advanced(leaders, bi, insns[k].pc);
        parts_from(leaders, insns, k + 1, b, parts.update(b, parts[b].push(insns[k])))
    }
}

/// `n` empty lists.
pub open spec fn empties<T>(n: nat) -> Seq<Seq<T>> {
    Seq::new(n, |i: int| Seq::<T>::empty())
}

/// The instructions of each block.
pub open spec fn parts_of(leaders: Seq<u32>, insns: Seq<Insn>) -> Seq<Seq<Insn>> {
    parts_from(leaders, insns, 0, 0, empties(leaders.len()))
}

/// What lists of lists hold.
pub open spec fn inner_views<T>(s: Seq<Vec<T>>) -> Seq<Seq<T>> {
    Seq::new(s.len(), |i: int| s[i]@)
}

/// `n` empty lists.
pub(crate) fn empty_lists<T>(n: usize) -> (r: Vec<Vec<T>>)
    ensures
        inner_views(r@) == empties::<T>(n as nat),
{
    let mut r: Vec<Vec<T>> = Vec::new();
    while r.len() < n
        invariant
            r@.len() <= n,
            forall|i: int| 0 <= i < r@.len() ==> (#[trigger] r@[i])@ == Seq::<T>::empty(),
        decreases n - r@.len(),
    {
        r.push(Vec::new());
    }
    assert(inner_views(r@) =~= empties::<T>(n as nat));
    r
}

/// Partition the instructions into blocks.
pub(crate) fn partition(leaders: &Vec<u32>, insns: &Vec<Insn>) -> (r: Vec<Vec<Insn>>)
    requires
        leaders@.len() > 0,
    ensures
        inner_views(r@) == parts_of(leaders@, insns@),
        r@.len() == leaders@.len(),
{
    let mut parts: Vec<Vec<Insn>> = empty_lists(leaders.len());
    proof {
        assert(inner_views(parts@).len() == leaders@.len());
    }
    let mut bi: usize = 0;
    let mut k: usize = 0;
    while k < insns.len()
        invariant
            k <= insns@.len(),
            bi < leaders@.len() == parts@.len(),
            parts_of(leaders@, insns@) == parts_from(
                leaders@,
                insns@,
                k as int,
                bi as int,
                inner_views(parts@),
            ),
        decreases insns@.len() - k,
    {
        let ins = insns[k];
        let ghost start = bi as int;
        while leaders.len() - bi > 1 && ins.pc >= leaders[bi + 1]
            invariant
                bi < leaders@.len(),
                advanced(leaders@, start, ins.pc) == advanced(leaders@, bi as int, ins.pc),
            decreases leaders@.len() - bi,
        {
            bi += 1;
        }
        let ghost before = inner_views(parts@);
        parts[bi].push(ins);
        proof {
            assert(inner_views(parts@) =~= before.update(
                bi as int,
                before[bi as int].push(ins),
            ));
        }
        k += 1;
    }
    parts
}

/// The block behind `bidx`, if there is one.
pub open spec fn fall_through(bidx: int, nblocks: int) -> Seq<BlockId> {
    if bidx + 1 < nblocks {
        seq![BlockId((bidx + 1) as u32)]
    } else {
        Seq::empty()
    }
}

/// Successors of a block, from its last instruction: the branch target, and, unless control cannot
/// fall through, the block behind the instruction.
pub open spec fn successors_of(
    last: Option<Insn>,
    bidx: int,
    nblocks: int,
    leaders: Seq<u32>,
) -> Seq<BlockId> {
    match last {
        None => fall_through(bidx, nblocks),
        Some(ins) => {
            let jump = match ins.target() {
                Some(t) => match block_at(leaders, t) {
                    Some(b) => seq![b],
                    None => Seq::empty(),
                },
                None => Seq::empty(),
            };
            if ins.ends() {
                jump
            } else {
                match block_at(leaders, ins.next_pc()) {
                    Some(b) => jump.push(b),
                    None => jump + fall_through(bidx, nblocks),
                }
            }
        },
    }
}

/// Successors of a block, from its last instruction.
pub(crate) fn successors(
    last: Option<&Insn>,
    bidx: usize,
    nblocks: usize,
    leaders: &Vec<u32>,
) -> (r: Vec<BlockId>)
    requires
        nblocks == leaders@.len() < u32::MAX,
    ensures
        r@ == successors_of(
            match last {
                Some(i) => Some(*i),
                None => None,
            },
            bidx as int,
            nblocks as int,
            leaders@,
        ),
        forall|i: int| 0 <= i < r@.len() ==> (#[trigger] r@[i]).0 < nblocks,
{
    let mut out: Vec<BlockId> = Vec::new();
    if let Some(ins) = last {
        if let Some(t) = ins.branch_target() {
            if let Some(b) = find_block(leaders, t) {
                out.push(b);
                assert(out@ =~= seq![b]);
            }
        }
        if ins.is_unconditional_end() {
            return out;
        }
        if let Some(b) = find_block(leaders, ins.following_pc()) {
            out.push(b);
            return out;
        }
    }
    let ghost jump = out@;
    if bidx < nblocks && bidx + 1 < nblocks {
        out.push(BlockId((bidx + 1) as u32));
    }
    assert(out@ =~= jump + fall_through(bidx as int, nblocks as int));
    out
}

/// `preds`, with `from` added for each of `targets` from `j` on.
pub open spec fn edges_from(
    preds: Seq<Seq<BlockId>>,
    from: BlockId,
    targets: Seq<BlockId>,
    j: int,
) -> Seq<Seq<BlockId>>
    decreases targets.len() - j,
{
    if j >= targets.len() {
        preds
    } else {
        let t = targets[j].0 as int;
        edges_from(preds.update(t, preds[t].push(from)), from, targets, j + 1)
    }
}

/// `preds`, with the edges of the blocks from `k` on added.
pub open spec fn preds_from(
    succs: Seq<Seq<BlockId>>,
    k: int,
    preds: Seq<Seq<BlockId>>,
) -> Seq<Seq<BlockId>>
    decreases succs.len() - k,
{
    if k >= succs.len() {
        preds
    } else {
        preds_from(succs, k + 1, edges_from(preds, BlockId(k as u32), succs[k], 0))
    }
}

/// The predecessors of each block, in the order of the blocks they come from.
pub open spec fn preds_of(succs: Seq<Seq<BlockId>>) -> Seq<Seq<BlockId>> {
    preds_from(succs, 0, empties(succs.len()))
}

/// Every id in every list is below `n`.
pub open spec fn ids_below(lists: Seq<Seq<BlockId>>, n: int) -> bool {
    forall|i: int, j: int|
        0 <= i < lists.len() && 0 <= j < lists[i].len() ==> (#[trigger] lists[i][j]).0 < n
}

/// Every edge is known to its target.
pub open spec fn edges_known(
    succs: Seq<Seq<BlockId>>,
    upto: int,
    preds: Seq<Seq<BlockId>>,
) -> bool {
    forall|p: int, j: int|
        0 <= p < upto && 0 <= j < succs[p].len() ==> preds[(
        #[trigger] succs[p][j]).0 as int].contains(BlockId(p as u32))
}

/// The predecessors of each block.
pub(crate) fn predecessors(succs: &Vec<Vec<BlockId>>) -> (r: Vec<Vec<BlockId>>)
    requires
        succs@.len() < u32::MAX,
        ids_below(inner_views(succs@), succs@.len() as int),
    ensures
        inner_views(r@) == preds_of(inner_views(succs@)),
        r@.len() == succs@.len(),
        ids_below(inner_views(r@), succs@.len() as int),
        edges_known(inner_views(succs@), succs@.len() as int, inner_views(r@)),
{
    let n: usize = succs.len();
    let ghost sv = inner_views(succs@);
    let mut preds: Vec<Vec<BlockId>> = empty_lists(n);
    let mut k: usize = 0;
    proof {
        assert(inner_views(preds@).len() == n);
    }
    while k < n
        invariant
            k <= n,
            n == succs@.len() < u32::MAX,
            n == preds@.len(),
            sv == inner_views(succs@),
            ids_below(sv, n as int),
            preds_of(sv) == preds_from(sv, k as int, inner_views(preds@)),
            ids_below(inner_views(preds@), n as int),
            edges_known(sv, k as int, inner_views(preds@)),
        decreases n - k,
    {
        let from = BlockId(k as u32);
        let ghost before = inner_views(preds@);
        let mut j: usize = 0;
        while j < succs[k].len()
            invariant
                k < n,
                n == succs@.len() < u32::MAX,
                n == preds@.len(),
                sv == inner_views(succs@),
                ids_below(sv, n as int),
                from == BlockId(k as u32),
                j <= succs@[k as int]@.len(),
                edges_from(before, from, sv[k as int], 0) == edges_from(
                    inner_views(preds@),
                    from,
                    sv[k as int],
                    j as int,
                ),
                ids_below(inner_views(preds@), n as int),
                edges_known(sv, k as int, inner_views(preds@)),
                forall|i: int|
                    0 <= i < j ==> inner_views(preds@)[(
                    #[trigger] sv[k as int][i]).0 as int].contains(from),
            decreases succs@[k as int]@.len() - j,
        {
            let ghost mid = inner_views(preds@);
            let t: usize = succs[k][j].0 as usize;
            assert(sv[k as int][j as int].0 < n);
            preds[t].push(from);
            proof {
                let now = inner_views(preds@);
                assert(now =~= mid.update(t as int, mid[t as int].push(from)));
                lemma_push_keeps_members(mid, t as int, from);
                assert(now[t as int][mid[t as int].len() as int] == from);
                assert(now[t as int].contains(from));
            }
            j += 1;
        }
        k += 1;
    }
    preds
}

proof fn lemma_push_keeps_members(lists: Seq<Seq<BlockId>>, t: int, x: BlockId)
    requires
        0 <= t < lists.len(),
    ensures
        forall|i: int, y: BlockId|
            0 <= i < lists.len() && (#[trigger] lists[i].contains(y)) ==> lists.update(
                t,
                lists[t].push(x),
            )[i].contains(y),
{
    let now = lists.update(t, lists[t].push(x));
    assert forall|i: int, y: BlockId|
        0 <= i < lists.len() && (#[trigger] lists[i].contains(y)) implies now[i].contains(y) by {
        let k = lists[i].index_of(y);
        assert(now[i][k] == y);
    }
}

/// Depth-first search, resumed with the blocks `visited`, those finished in `post`, and on the
/// `stack` the blocks entered but not finished, each with the number of its successors looked at.
/// The result lists all finished blocks in the order of finishing.
pub open spec fn finished(
    succs: Seq<Seq<BlockId>>,
    visited: Seq<bool>,
    post: Seq<BlockId>,
    stack: Seq<(BlockId, usize)>,
) -> Seq<BlockId>
    decreases unvisited(visited), pending(succs, stack),
{
    if stack.len() == 0 {
        post
    } else {
        let (b, i) = stack.last();
        let s = succs[b.0 as int];
        if i < s.len() && i < usize::MAX {
            let c = s[i as int];
            let rest = stack.update(stack.len() - 1, (b, (i + 1) as usize));
            if 0 <= c.0 < visited.len() && !visited[c.0 as int] {
                proof {
                    lemma_visit_one(visited, c.0 as int);
                }
                finished(succs, visited.update(c.0 as int, true), post, rest.push((c, 0)))
            } else {
                proof {
                    assert(rest.drop_last() =~= stack.drop_last());
                }
                finished(succs, visited, post, rest)
            }
        } else {
            finished(succs, visited, post.push(b), stack.drop_last())
        }
    }
}

/// Number of blocks not visited.
pub open spec fn unvisited(visited: Seq<bool>) -> nat
    decreases visited.len(),
{
    if visited.len() == 0 {
        0
    } else {
        unvisited(visited.drop_last()) + if visited.last() {
            0nat
        } else {
            1nat
        }
    }
}

/// Steps left to finish the blocks on the stack, if nothing new is found.
pub open spec fn pending(succs: Seq<Seq<BlockId>>, stack: Seq<(BlockId, usize)>) -> nat
    decreases stack.len(),
{
    if stack.len() == 0 {
        0
    } else {
        let (b, i) = stack.last();
        let left = if i < succs[b.0 as int].len() {
            (succs[b.0 as int].len() - i) as nat
        } else {
            0nat
        };
        pending(succs, stack.drop_last()) + left + 1
    }
}

/// Visiting a block leaves one fewer unvisited.
pub proof fn lemma_visit_one(visited: Seq<bool>, i: int)
    requires
        0 <= i < visited.len(),
        !visited[i],
    ensures
        unvisited(visited.update(i, true)) + 1 == unvisited(visited),
    decreases visited.len(),
{
    if i == visited.len() - 1 {
        assert(visited.update(i, true).drop_last() =~= visited.drop_last());
    } else {
        lemma_visit_one(visited.drop_last(), i);
        assert(visited.update(i, true).drop_last() =~= visited.drop_last().update(i, true));
    }
}

/// Reverse post-order of the blocks reachable from `entry`.
pub open spec fn rpo(entry: BlockId, succs: Seq<Seq<BlockId>>, n: nat) -> Seq<BlockId> {
    finished(
        succs,
        Seq::new(n, |i: int| i == entry.0),
        Seq::empty(),
        seq![(entry, 0usize)],
    ).reverse()
}

/// Whether listed block `j` comes after one of its predecessors.
pub open spec fn has_parent(order: Seq<BlockId>, succs: Seq<Seq<BlockId>>, j: int) -> bool {
    exists|i: int| 0 <= i < j && succs[(#[trigger] order[i]).0 as int].contains(order[j])
}

/// Each listed block but the first comes after one of its predecessors.
pub open spec fn parents_first(order: Seq<BlockId>, succs: Seq<Seq<BlockId>>) -> bool {
    forall|j: int| 0 < j < order.len() ==> #[trigger] has_parent(order, succs, j)
}

/// A list in which no block occurs twice, all below `n`.
pub open spec fn distinct_below(order: Seq<BlockId>, n: int) -> bool {
    &&& forall|i: int| 0 <= i < order.len() ==> (#[trigger] order[i]).0 < n
    &&& forall|i: int, j: int|
        0 <= i < j < order.len() ==> #[trigger] order[i] != #[trigger] order[j]
}

/// Where a block on the way to being finished was reached from: the stack is a path, and whatever
/// is finished was reached from a block that is on the stack or was finished later.
spec fn dfs_invariant(
    succs: Seq<Seq<BlockId>>,
    n: int,
    entry: BlockId,
    visited: Seq<bool>,
    post: Seq<BlockId>,
    stack: Seq<(BlockId, usize)>,
) -> bool {
    &&& visited.len() == n
    &&& forall|k: int|
        0 <= k < stack.len() ==> (#[trigger] stack[k]).0.0 < n && visited[stack[k].0.0 as int]
    &&& forall|k: int|
        0 <= k < post.len() ==> (#[trigger] post[k]).0 < n && visited[post[k].0 as int]
    &&& forall|j: int, k: int|
        0 <= j < k < stack.len() ==> (#[trigger] stack[j]).0 != (#[trigger] stack[k]).0
    &&& forall|j: int, k: int|
        0 <= j < k < post.len() ==> #[trigger] post[j] != #[trigger] post[k]
    &&& forall|j: int, k: int|
        0 <= j < post.len() && 0 <= k < stack.len() ==> #[trigger] post[j] != (#[trigger] stack[k]).0
    &&& forall|k: int|
        0 < k < stack.len() ==> succs[(#[trigger] stack[k - 1]).0.0 as int].contains(stack[k].0)
    &&& stack.len() > 0 ==> stack[0].0 == entry
    &&& stack.len() == 0 ==> post.len() > 0 && post.last() == entry
    &&& forall|k: int|
        0 <= k < post.len() ==> (#[trigger] post[k]) == entry || reached(succs, post, stack, k)
    &&& stack.len() > 0 ==> forall|k: int| 0 <= k < post.len() ==> #[trigger] post[k] != entry
}

/// Whether finished block `k` is a successor of a block finished later or still on the stack.
spec fn reached(
    succs: Seq<Seq<BlockId>>,
    post: Seq<BlockId>,
    stack: Seq<(BlockId, usize)>,
    k: int,
) -> bool {
    ||| exists|q: int|
        k < q < post.len() && succs[(#[trigger] post[q]).0 as int].contains(post[k])
    ||| exists|q: int|
        0 <= q < stack.len() && succs[(#[trigger] stack[q]).0.0 as int].contains(post[k])
}

/// Reverse post-order of the reachable blocks from `entry`.
pub fn reverse_postorder(entry: BlockId, succs: &Vec<Vec<BlockId>>, n: usize) -> (r: Vec<BlockId>)
    requires
        entry.0 < n,
        n == succs@.len(),
        ids_below(inner_views(succs@), n as int),
    ensures
        r@ == rpo(entry, inner_views(succs@), n as nat),
        r@.len() > 0,
        r@[0] == entry,
        distinct_below(r@, n as int),
        parents_first(r@, inner_views(succs@)),
{
    let ghost sv = inner_views(succs@);
    let mut visited: Vec<bool> = Vec::new();
    while visited.len() < n
        invariant
            visited@.len() <= n,
            forall|i: int| 0 <= i < visited@.len() ==> !visited@[i],
        decreases n - visited@.len(),
    {
        visited.push(false);
    }
    visited.set(entry.0 as usize, true);
    let mut post: Vec<BlockId> = Vec::new();
    let mut stack: Vec<(BlockId, usize)> = Vec::new();
    stack.push((entry, 0));
    proof {
        assert(visited@ =~= Seq::new(n as nat, |i: int| i == entry.0));
        assert(stack@ =~= seq![(entry, 0usize)]);
    }
    let ghost all = finished(sv, visited@, post@, stack@);
    while stack.len() > 0
        invariant
            n == succs@.len(),
            sv == inner_views(succs@),
            ids_below(sv, n as int),
            all == finished(sv, visited@, post@, stack@),
            dfs_invariant(sv, n as int, entry, visited@, post@, stack@),
        decreases unvisited(visited@), pending(sv, stack@),
    {
        let top: usize = stack.len() - 1;
        let (b, i) = stack[top];
        let ghost stack0 = stack@;
        let ghost post0 = post@;
        let ghost visited0 = visited@;
        assert(stack@[top as int] == stack@.last());
        assert(sv[b.0 as int] == succs@[b.0 as int]@);
        if i < succs[b.0 as usize].len() {
            let c = succs[b.0 as usize][i];
            assert(sv[b.0 as int][i as int] == c);
            stack.set(top, (b, i + 1));
            proof {
                assert(stack@.drop_last() =~= stack0.drop_last());
            }
            if !visited[c.0 as usize] {
                proof {
                    lemma_visit_one(visited@, c.0 as int);
                    lemma_dfs_visit(sv, n as int, entry, visited@, post@, stack0);
                }
                visited.set(c.0 as usize, true);
                stack.push((c, 0));
            } else {
                proof {
                    lemma_dfs_look(sv, n as int, entry, visited@, post@, stack0);
                }
            }
        } else {
            proof {
                lemma_dfs_finish(sv, n as int, entry, visited@, post@, stack0);
            }
            post.push(b);
            stack.pop();
            assert(stack@ =~= stack0.drop_last());
        }
    }
    let mut order: Vec<BlockId> = Vec::new();
    let mut i: usize = post.len();
    while i > 0
        invariant
            i <= post@.len(),
            order@.len() == post@.len() - i,
            forall|k: int|
                0 <= k < order@.len() ==> #[trigger] order@[k] == post@[post@.len() - 1 - k],
        decreases i,
    {
        i -= 1;
        order.push(post[i]);
    }
    proof {
        assert(order@ =~= post@.reverse());
        lemma_reversed(sv, n as int, entry, visited@, post@, stack@);
    }
    order
}

/// The stack after one more successor of its top was looked at.
spec fn looked(stack: Seq<(BlockId, usize)>) -> Seq<(BlockId, usize)> {
    let (b, i) = stack.last();
    stack.update(stack.len() - 1, (b, (i + 1) as usize))
}

/// Looking at a block that was visited before.
proof fn lemma_dfs_look(
    succs: Seq<Seq<BlockId>>,
    n: int,
    entry: BlockId,
    visited: Seq<bool>,
    post: Seq<BlockId>,
    stack: Seq<(BlockId, usize)>,
)
    requires
        dfs_invariant(succs, n, entry, visited, post, stack),
        stack.len() > 0,
    ensures
        dfs_invariant(succs, n, entry, visited, post, looked(stack)),
{
    let now = looked(stack);
    assert forall|k: int| 0 <= k < post.len() implies (#[trigger] post[k]) == entry || reached(
        succs,
        post,
        now,
        k,
    ) by {
        lemma_reached_same_path(succs, post, stack, now, k);
    }
    assert forall|k: int| 0 <= k < now.len() implies (#[trigger] now[k]).0 == stack[k].0 by {}
    assert forall|k: int| 0 < k < now.len() implies succs[(
    #[trigger] now[k - 1]).0.0 as int].contains(now[k].0) by {
        assert(stack[k - 1].0 == now[k - 1].0);
        assert(stack[k].0 == now[k].0);
    }
}

/// Visiting a block for the first time.
proof fn lemma_dfs_visit(
    succs: Seq<Seq<BlockId>>,
    n: int,
    entry: BlockId,
    visited: Seq<bool>,
    post: Seq<BlockId>,
    stack: Seq<(BlockId, usize)>,
)
    requires
        dfs_invariant(succs, n, entry, visited, post, stack),
        stack.len() > 0,
        stack.last().1 < succs[stack.last().0.0 as int].len(),
        succs[stack.last().0.0 as int][stack.last().1 as int].0 < n,
        !visited[succs[stack.last().0.0 as int][stack.last().1 as int].0 as int],
    ensures
        ({
            let c = succs[stack.last().0.0 as int][stack.last().1 as int];
            dfs_invariant(
                succs,
                n,
                entry,
                visited.update(c.0 as int, true),
                post,
                looked(stack).push((c, 0)),
            )
        }),
{
    let b = stack.last().0;
    let c = succs[b.0 as int][stack.last().1 as int];
    let now = visited.update(c.0 as int, true);
    let path = looked(stack);
    let longer = path.push((c, 0));
    lemma_dfs_look(succs, n, entry, visited, post, stack);
    assert(succs[b.0 as int].contains(c));
    assert forall|k: int| 0 <= k < post.len() implies (#[trigger] post[k]) == entry || reached(
        succs,
        post,
        longer,
        k,
    ) by {
        lemma_reached_longer_path(succs, post, path, longer, k);
    }
    assert forall|k: int| 0 < k < longer.len() implies succs[(
    #[trigger] longer[k - 1]).0.0 as int].contains(longer[k].0) by {
        if k == path.len() {
            assert(longer[k - 1].0 == b);
        } else {
            assert(path[k - 1].0 == longer[k - 1].0);
            assert(path[k].0 == longer[k].0);
        }
    }
    assert forall|k: int| 0 <= k < longer.len() implies (#[trigger] longer[k]).0.0 < n
        && now[longer[k].0.0 as int] by {
        if k < path.len() {
            assert(path[k].0 == longer[k].0);
        }
    }
    assert forall|j: int, k: int| 0 <= j < k < longer.len() implies (#[trigger] longer[j]).0 != (
    #[trigger] longer[k]).0 by {
        assert(path[j].0 == longer[j].0);
        if k < path.len() {
            assert(path[k].0 == longer[k].0);
        }
    }
    assert forall|j: int, k: int|
        0 <= j < post.len() && 0 <= k < longer.len() implies #[trigger] post[j] != (
    #[trigger] longer[k]).0 by {
        if k < path.len() {
            assert(path[k].0 == longer[k].0);
        }
    }
    assert(longer[0] == path[0]);
}

/// Finishing the block on top.
proof fn lemma_dfs_finish(
    succs: Seq<Seq<BlockId>>,
    n: int,
    entry: BlockId,
    visited: Seq<bool>,
    post: Seq<BlockId>,
    stack: Seq<(BlockId, usize)>,
)
    requires
        dfs_invariant(succs, n, entry, visited, post, stack),
        stack.len() > 0,
    ensures
        dfs_invariant(succs, n, entry, visited, post.push(stack.last().0), stack.drop_last()),
{
    let more = post.push(stack.last().0);
    let rest = stack.drop_last();
    let top = stack.len() - 1;
    assert(stack[top] == stack.last());
    assert forall|k: int| 0 <= k < more.len() implies (#[trigger] more[k]) == entry || reached(
        succs,
        more,
        rest,
        k,
    ) by {
        if k < post.len() {
            assert(more[k] == post[k]);
            lemma_reached_after_finish(succs, post, stack, k);
        } else if top > 0 {
            assert(stack[top - 1] == rest[top - 1]);
            assert(succs[rest[top - 1].0.0 as int].contains(stack[top].0));
        } else {
            assert(stack[0].0 == entry);
        }
    }
    assert forall|k: int| 0 <= k < rest.len() implies (#[trigger] rest[k]) == stack[k] by {}
    assert forall|k: int| 0 < k < rest.len() implies succs[(
    #[trigger] rest[k - 1]).0.0 as int].contains(rest[k].0) by {
        assert(stack[k - 1] == rest[k - 1]);
    }
    if rest.len() > 0 {
        assert(stack[0].0 != stack[top].0);
    }
}

/// The blocks finished, in reverse.
proof fn lemma_reversed(
    succs: Seq<Seq<BlockId>>,
    n: int,
    entry: BlockId,
    visited: Seq<bool>,
    post: Seq<BlockId>,
    stack: Seq<(BlockId, usize)>,
)
    requires
        dfs_invariant(succs, n, entry, visited, post, stack),
        stack.len() == 0,
    ensures
        post.reverse().len() > 0,
        post.reverse()[0] == entry,
        distinct_below(post.reverse(), n),
        parents_first(post.reverse(), succs),
{
    let order = post.reverse();
    assert forall|j: int| 0 < j < order.len() implies #[trigger] has_parent(order, succs, j) by {
        let k = post.len() - 1 - j;
        assert(post[k] != entry) by {
            assert(post[post.len() - 1] == entry);
            assert(post[k] != post[post.len() - 1]);
        }
        assert(reached(succs, post, stack, k));
        let q = choose|q: int|
            k < q < post.len() && succs[(#[trigger] post[q]).0 as int].contains(post[k]);
        let i = post.len() - 1 - q;
        assert(order[i] == post[q]);
        assert(succs[order[i].0 as int].contains(order[j]));
    }
    assert forall|i: int, j: int| 0 <= i < j < order.len() implies #[trigger] order[i]
        != #[trigger] order[j] by {
        assert(post[post.len() - 1 - j] != post[post.len() - 1 - i]);
    }
    assert forall|i: int| 0 <= i < order.len() implies (#[trigger] order[i]).0 < n by {
        assert(post[post.len() - 1 - i].0 < n);
    }
}

proof fn lemma_finished(
    succs: Seq<Seq<BlockId>>,
    n: int,
    entry: BlockId,
    visited: Seq<bool>,
    post: Seq<BlockId>,
    stack: Seq<(BlockId, usize)>,
)
    requires
        dfs_invariant(succs, n, entry, visited, post, stack),
        succs.len() == n,
        ids_below(succs, n),
    ensures
        ({
            let order = finished(succs, visited, post, stack).reverse();
            &&& order.len() > 0
            &&& order[0] == entry
            &&& distinct_below(order, n)
            &&& parents_first(order, succs)
        }),
    decreases unvisited(visited), pending(succs, stack),
{
    if stack.len() == 0 {
        lemma_reversed(succs, n, entry, visited, post, stack);
    } else {
        let (b, i) = stack.last();
        let s = succs[b.0 as int];
        assert(stack[stack.len() - 1].0.0 < n);
        if i < s.len() && i < usize::MAX {
            let c = s[i as int];
            let rest = looked(stack);
            assert(succs[b.0 as int][i as int].0 < n);
            if !visited[c.0 as int] {
                lemma_visit_one(visited, c.0 as int);
                lemma_dfs_visit(succs, n, entry, visited, post, stack);
                lemma_finished(
                    succs,
                    n,
                    entry,
                    visited.update(c.0 as int, true),
                    post,
                    rest.push((c, 0)),
                );
            } else {
                assert(rest.drop_last() =~= stack.drop_last());
                lemma_dfs_look(succs, n, entry, visited, post, stack);
                lemma_finished(succs, n, entry, visited, post, rest);
            }
        } else {
            lemma_dfs_finish(succs, n, entry, visited, post, stack);
            lemma_finished(succs, n, entry, visited, post.push(b), stack.drop_last());
        }
    }
}

/// The order starts with the entry, lists no block twice, and every other block in it comes after one
/// of its predecessors.
pub proof fn lemma_order_starts_at_entry(entry: BlockId, succs: Seq<Seq<BlockId>>)
    requires
        entry.0 < succs.len(),
        ids_below(succs, succs.len() as int),
    ensures
        rpo(entry, succs, succs.len()).len() > 0,
        rpo(entry, succs, succs.len())[0] == entry,
        distinct_below(rpo(entry, succs, succs.len()), succs.len() as int),
        parents_first(rpo(entry, succs, succs.len()), succs),
{
    let n = succs.len();
    let visited = Seq::new(n, |i: int| i == entry.0);
    lemma_finished(succs, n as int, entry, visited, Seq::empty(), seq![(entry, 0usize)]);
}

/// Whether everything visited is finished or on the way, and what was looked at is visited.
spec fn dfs_closed(
    succs: Seq<Seq<BlockId>>,
    visited: Seq<bool>,
    post: Seq<BlockId>,
    stack: Seq<(BlockId, usize)>,
) -> bool {
    &&& visited.len() == succs.len()
    &&& forall|k: int| 0 <= k < stack.len() ==> (#[trigger] stack[k]).0.0 < succs.len()
    &&& forall|b: BlockId|
        b.0 < visited.len() && #[trigger] visited[b.0 as int] ==> post.contains(b) || exists|k: int|
            0 <= k < stack.len() && (#[trigger] stack[k]).0 == b
    &&& forall|k: int, i: int|
        0 <= k < post.len() && 0 <= i < succs[post[k].0 as int].len()
            ==> visited[(#[trigger] succs[(#[trigger] post[k]).0 as int][i]).0 as int]
    &&& forall|k: int, i: int|
        0 <= k < stack.len() && 0 <= i < stack[k].1 && i < succs[stack[k].0.0 as int].len()
            ==> visited[(#[trigger] succs[(#[trigger] stack[k]).0.0 as int][i]).0 as int]
}

/// Whether every successor of a listed block is listed.
pub open spec fn closed_under(order: Seq<BlockId>, succs: Seq<Seq<BlockId>>) -> bool {
    forall|k: int, i: int|
        0 <= k < order.len() && 0 <= i < succs[order[k].0 as int].len() ==> order.contains(
            #[trigger] succs[(#[trigger] order[k]).0 as int][i],
        )
}

proof fn lemma_finished_is_closed(
    succs: Seq<Seq<BlockId>>,
    visited: Seq<bool>,
    post: Seq<BlockId>,
    stack: Seq<(BlockId, usize)>,
)
    requires
        ids_below(succs, succs.len() as int),
        forall|b: int| 0 <= b < succs.len() ==> (#[trigger] succs[b]).len() < usize::MAX,
        dfs_closed(succs, visited, post, stack),
        forall|k: int| 0 <= k < post.len() ==> (#[trigger] post[k]).0 < succs.len(),
    ensures
        closed_under(finished(succs, visited, post, stack), succs),
    decreases unvisited(visited), pending(succs, stack),
{
    if stack.len() == 0 {
        assert forall|k: int, i: int|
            0 <= k < post.len() && 0 <= i < succs[post[k].0 as int].len() implies post.contains(
            #[trigger] succs[(#[trigger] post[k]).0 as int][i],
        ) by {
            let c = succs[post[k].0 as int][i];
            assert(c.0 < succs.len());
            assert(visited[c.0 as int]);
        }
    } else {
        let (b, i) = stack.last();
        let s = succs[b.0 as int];
        let top = stack.len() - 1;
        assert(stack[top] == (b, i));
        if i < s.len() {
            let c = s[i as int];
            let rest = stack.update(top, (b, (i + 1) as usize));
            assert(c.0 < succs.len());
            if !visited[c.0 as int] {
                lemma_visit_one(visited, c.0 as int);
                let now = visited.update(c.0 as int, true);
                let next = rest.push((c, 0usize));
                assert(dfs_closed(succs, now, post, next)) by {
                    assert forall|x: BlockId|
                        x.0 < now.len() && #[trigger] now[x.0 as int] implies post.contains(x)
                        || exists|k: int| 0 <= k < next.len() && (#[trigger] next[k]).0 == x by {
                        if x == c {
                            assert(next[top + 1].0 == x);
                        } else {
                            assert(visited[x.0 as int]);
                            if !post.contains(x) {
                                let k = choose|k: int|
                                    0 <= k < stack.len() && (#[trigger] stack[k]).0 == x;
                                assert(next[k].0 == x);
                            }
                        }
                    }
                    assert forall|k: int, j: int|
                        0 <= k < next.len() && 0 <= j < next[k].1 && j
                            < succs[next[k].0.0 as int].len() implies now[(
                    #[trigger] succs[(#[trigger] next[k]).0.0 as int][j]).0 as int] by {
                        if k <= top {
                            assert(next[k].0 == stack[k].0);
                            if k == top && j == i {
                            } else {
                                assert(visited[succs[stack[k].0.0 as int][j].0 as int]);
                            }
                        }
                    }
                }
                lemma_finished_is_closed(succs, now, post, next);
            } else {
                assert(rest.drop_last() =~= stack.drop_last());
                assert(dfs_closed(succs, visited, post, rest)) by {
                    assert forall|x: BlockId|
                        x.0 < visited.len() && #[trigger] visited[x.0 as int] implies post.contains(
                        x,
                    ) || exists|k: int| 0 <= k < rest.len() && (#[trigger] rest[k]).0 == x by {
                        if !post.contains(x) {
                            let k = choose|k: int|
                                0 <= k < stack.len() && (#[trigger] stack[k]).0 == x;
                            assert(rest[k].0 == x);
                        }
                    }
                    assert forall|k: int, j: int|
                        0 <= k < rest.len() && 0 <= j < rest[k].1 && j
                            < succs[rest[k].0.0 as int].len() implies visited[(
                    #[trigger] succs[(#[trigger] rest[k]).0.0 as int][j]).0 as int] by {
                        assert(rest[k].0 == stack[k].0);
                        if k == top && j == i {
                        } else {
                            assert(visited[succs[stack[k].0.0 as int][j].0 as int]);
                        }
                    }
                }
                lemma_finished_is_closed(succs, visited, post, rest);
            }
        } else {
            let done = post.push(b);
            let rest = stack.drop_last();
            assert(dfs_closed(succs, visited, done, rest)) by {
                assert forall|x: BlockId|
                    x.0 < visited.len() && #[trigger] visited[x.0 as int] implies done.contains(x)
                    || exists|k: int| 0 <= k < rest.len() && (#[trigger] rest[k]).0 == x by {
                    if post.contains(x) {
                        assert(done[post.index_of(x)] == x);
                    } else {
                        let k = choose|k: int|
                            0 <= k < stack.len() && (#[trigger] stack[k]).0 == x;
                        if k == top {
                            assert(done[post.len() as int] == x);
                        } else {
                            assert(rest[k].0 == x);
                        }
                    }
                }
                assert forall|k: int, j: int|
                    0 <= k < done.len() && 0 <= j < succs[done[k].0 as int].len() implies visited[(
                #[trigger] succs[(#[trigger] done[k]).0 as int][j]).0 as int] by {
                    if k < post.len() {
                        assert(done[k] == post[k]);
                        assert(visited[succs[post[k].0 as int][j].0 as int]);
                    } else {
                        assert(visited[succs[stack[top].0.0 as int][j].0 as int]);
                    }
                }
                assert forall|k: int, j: int|
                    0 <= k < rest.len() && 0 <= j < rest[k].1 && j < succs[rest[k].0.0 as int].len()
                    implies visited[(#[trigger] succs[(
                #[trigger] rest[k]).0.0 as int][j]).0 as int] by {
                    assert(rest[k] == stack[k]);
                    assert(visited[succs[stack[k].0.0 as int][j].0 as int]);
                }
            }
            lemma_finished_is_closed(succs, visited, done, rest);
        }
    }
}

/// Every successor of a reachable block is reachable.
pub proof fn lemma_order_is_closed(entry: BlockId, succs: Seq<Seq<BlockId>>)
    requires
        entry.0 < succs.len(),
        ids_below(succs, succs.len() as int),
        forall|b: int| 0 <= b < succs.len() ==> (#[trigger] succs[b]).len() < usize::MAX,
    ensures
        closed_under(rpo(entry, succs, succs.len()), succs),
{
    let n = succs.len();
    let visited = Seq::new(n, |i: int| i == entry.0);
    let stack = seq![(entry, 0usize)];
    assert(dfs_closed(succs, visited, Seq::empty(), stack)) by {
        assert forall|x: BlockId|
            x.0 < visited.len() && #[trigger] visited[x.0 as int] implies Seq::<
            BlockId,
        >::empty().contains(x) || exists|k: int|
            0 <= k < stack.len() && (#[trigger] stack[k]).0 == x by {
            assert(stack[0].0 == x);
        }
    }
    lemma_finished_is_closed(succs, visited, Seq::empty(), stack);
    let all = finished(succs, visited, Seq::empty(), stack);
    let order = all.reverse();
    assert forall|k: int, i: int|
        0 <= k < order.len() && 0 <= i < succs[order[k].0 as int].len() implies order.contains(
        #[trigger] succs[(#[trigger] order[k]).0 as int][i],
    ) by {
        let c = succs[order[k].0 as int][i];
        let q = all.len() - 1 - k;
        assert(all[q] == order[k]);
        assert(all.contains(succs[all[q].0 as int][i]));
        let x = all.index_of(c);
        assert(order[all.len() - 1 - x] == c);
    }
}

/// Every predecessor is one.
pub open spec fn preds_are_edges(succs: Seq<Seq<BlockId>>, preds: Seq<Seq<BlockId>>) -> bool {
    forall|b: int, j: int|
        0 <= b < preds.len() && 0 <= j < preds[b].len() ==> succs[(
        #[trigger] preds[b][j]).0 as int].contains(BlockId(b as u32))
}

proof fn lemma_edges_from(
    succs: Seq<Seq<BlockId>>,
    preds: Seq<Seq<BlockId>>,
    k: int,
    j: int,
)
    requires
        succs.len() < u32::MAX,
        preds.len() == succs.len(),
        0 <= k < succs.len(),
        0 <= j <= succs[k].len(),
        ids_below(succs, succs.len() as int),
        ids_below(preds, succs.len() as int),
        edges_known(succs, k, preds),
        preds_are_edges(succs, preds),
        forall|i: int|
            0 <= i < j ==> preds[(#[trigger] succs[k][i]).0 as int].contains(BlockId(k as u32)),
    ensures
        ({
            let now = edges_from(preds, BlockId(k as u32), succs[k], j);
            &&& now.len() == succs.len()
            &&& ids_below(now, succs.len() as int)
            &&& edges_known(succs, k + 1, now)
            &&& preds_are_edges(succs, now)
        }),
    decreases succs[k].len() - j,
{
    if j < succs[k].len() {
        let t = succs[k][j].0 as int;
        let from = BlockId(k as u32);
        let now = preds.update(t, preds[t].push(from));
        lemma_push_keeps_members(preds, t, from);
        assert(now[t][preds[t].len() as int] == from);
        assert(now[t].contains(from));
        assert(succs[k].contains(succs[k][j]));
        assert forall|b: int, i: int| 0 <= b < now.len() && 0 <= i < now[b].len() implies succs[(
        #[trigger] now[b][i]).0 as int].contains(BlockId(b as u32)) by {
            if b == t && i == preds[t].len() {
                assert(BlockId(t as u32) == succs[k][j]);
            } else {
                assert(now[b][i] == preds[b][i]);
            }
        }
        lemma_edges_from(succs, now, k, j + 1);
    } else {
        assert forall|p: int, i: int|
            0 <= p < k + 1 && 0 <= i < succs[p].len() implies preds[(
        #[trigger] succs[p][i]).0 as int].contains(BlockId(p as u32)) by {}
    }
}

proof fn lemma_preds_from(succs: Seq<Seq<BlockId>>, k: int, preds: Seq<Seq<BlockId>>)
    requires
        succs.len() < u32::MAX,
        preds.len() == succs.len(),
        0 <= k <= succs.len(),
        ids_below(succs, succs.len() as int),
        ids_below(preds, succs.len() as int),
        edges_known(succs, k, preds),
        preds_are_edges(succs, preds),
    ensures
        ({
            let now = preds_from(succs, k, preds);
            &&& now.len() == succs.len()
            &&& ids_below(now, succs.len() as int)
            &&& edges_known(succs, succs.len() as int, now)
            &&& preds_are_edges(succs, now)
        }),
    decreases succs.len() - k,
{
    if k < succs.len() {
        lemma_edges_from(succs, preds, k, 0);
        lemma_preds_from(succs, k + 1, edges_from(preds, BlockId(k as u32), succs[k], 0));
    }
}

/// Predecessors and successors agree.
pub proof fn lemma_preds_and_succs_agree(succs: Seq<Seq<BlockId>>)
    requires
        succs.len() < u32::MAX,
        ids_below(succs, succs.len() as int),
    ensures
        preds_of(succs).len() == succs.len(),
        ids_below(preds_of(succs), succs.len() as int),
        edges_known(succs, succs.len() as int, preds_of(succs)),
        preds_are_edges(succs, preds_of(succs)),
{
    lemma_preds_from(succs, 0, empties(succs.len()));
}

proof fn lemma_reached_same_path(
    succs: Seq<Seq<BlockId>>,
    post: Seq<BlockId>,
    a: Seq<(BlockId, usize)>,
    b: Seq<(BlockId, usize)>,
    k: int,
)
    requires
        a.len() == b.len(),
        forall|i: int| 0 <= i < a.len() ==> (#[trigger] a[i]).0 == b[i].0,
    ensures
        reached(succs, post, a, k) ==> reached(succs, post, b, k),
{
    if exists|q: int| 0 <= q < a.len() && succs[(#[trigger] a[q]).0.0 as int].contains(post[k]) {
        let q = choose|q: int|
            0 <= q < a.len() && succs[(#[trigger] a[q]).0.0 as int].contains(post[k]);
        assert(succs[b[q].0.0 as int].contains(post[k]));
    }
}

proof fn lemma_reached_longer_path(
    succs: Seq<Seq<BlockId>>,
    post: Seq<BlockId>,
    a: Seq<(BlockId, usize)>,
    b: Seq<(BlockId, usize)>,
    k: int,
)
    requires
        a.len() <= b.len(),
        forall|i: int| 0 <= i < a.len() ==> (#[trigger] a[i]).0 == b[i].0,
    ensures
        reached(succs, post, a, k) ==> reached(succs, post, b, k),
{
    if exists|q: int| 0 <= q < a.len() && succs[(#[trigger] a[q]).0.0 as int].contains(post[k]) {
        let q = choose|q: int|
            0 <= q < a.len() && succs[(#[trigger] a[q]).0.0 as int].contains(post[k]);
        assert(succs[b[q].0.0 as int].contains(post[k]));
    }
}

proof fn lemma_reached_after_finish(
    succs: Seq<Seq<BlockId>>,
    post: Seq<BlockId>,
    stack: Seq<(BlockId, usize)>,
    k: int,
)
    requires
        stack.len() > 0,
        0 <= k < post.len(),
        reached(succs, post, stack, k),
    ensures
        reached(succs, post.push(stack.last().0), stack.drop_last(), k),
{
    let later = post.push(stack.last().0);
    if exists|q: int| k < q < post.len() && succs[(#[trigger] post[q]).0 as int].contains(post[k]) {
        let q = choose|q: int|
            k < q < post.len() && succs[(#[trigger] post[q]).0 as int].contains(post[k]);
        assert(succs[later[q].0 as int].contains(later[k]));
    } else {
        let q = choose|q: int|
            0 <= q < stack.len() && succs[(#[trigger] stack[q]).0.0 as int].contains(post[k]);
        if q == stack.len() - 1 {
            assert(succs[later[post.len() as int].0 as int].contains(later[k]));
        } else {
            assert(succs[stack.drop_last()[q].0.0 as int].contains(later[k]));
        }
    }
}

} // verus!
