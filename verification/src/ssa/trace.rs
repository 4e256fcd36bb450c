//! Where values come from: what a definition, a φ or an operand of a φ stands for.

use vstd::prelude::*;
use crate::ids::{BlockId, ValId};
use crate::ir::{Effect, NodeView, Op};
use crate::ssa::accepted::sealed_well;
use crate::ssa::laws::shaped;
use crate::ssa::state::{completed, operands, read, seal, var_key, PhiDefView, SsaView};
use crate::ssa::error::IrError;
use crate::ssa::lower::{
    block_lowered, callee_types, entered_from, field_tag, inc_delta, left_from, lowered,
    lowered_from, lowering_of, numeric_constant, result_tag, stack_variable, ContextView, LowerView,
    Lowering,
};
use crate::ssa::GraphView;
use crate::value::{Tag, Val128};
use crate::verify::insn::Insn;
use crate::verify::typecheck::inc_local;

verus! {

/// What is remembered of a construction: the values that arguments are bound to, the definitions that
/// each processed block's own code left, and for each node the level of its block.
#[verifier::ext_equal]
pub struct Trace {
    pub args: Map<u64, ValId>,
    pub code: Map<u64, ValId>,
    pub homes: Map<u16, nat>,
}

/// The key of a variable in block `b`.
pub open spec fn key(v: u16, b: int) -> u64 {
    var_key(v, BlockId(b as u32))
}

/// Different variables and blocks have different keys.
pub proof fn lemma_key(v: u16, b: int, w: u16, c: int)
    requires
        0 <= b <= u32::MAX,
        0 <= c <= u32::MAX,
    ensures
        key(v, b) == key(w, c) <==> v == w && b == c,
{
    let (x, y) = (b * 0x1_0000 + v, c * 0x1_0000 + w);
    assert(key(v, b) == x as u64);
    assert(key(w, c) == y as u64);
    assert(0 <= x <= u64::MAX && 0 <= y <= u64::MAX) by (nonlinear_arith)
        requires
            x == b * 0x1_0000 + v,
            y == c * 0x1_0000 + w,
            0 <= b <= 0xFFFF_FFFF,
            0 <= c <= 0xFFFF_FFFF,
            0 <= v <= 0xFFFF,
            0 <= w <= 0xFFFF,
    ;
}

/// Whether a φ of block `b` for a variable has a value.
pub open spec fn has_phi(s: SsaView, b: int, v: u16, x: ValId) -> bool {
    exists|i: int|
        0 <= i < s.phis.len() && (#[trigger] s.phis[i]).block.0 == b && s.phis[i].var == v
            && s.phis[i].val == x
}

/// Whether `x` is what a variable is where block `b` is entered: an argument, what the only
/// predecessor leaves, or a φ.
pub open spec fn through(g: GraphView, s: SsaView, t: Trace, b: int, v: u16, x: ValId) -> bool {
    ||| b == g.entry.0 && t.args.contains_key(key(v, b)) && t.args[key(v, b)] == x
    ||| g.cfg.preds[b].len() == 1 && s.defs.contains_key(key(v, g.cfg.preds[b][0].0 as int))
        && s.defs[key(v, g.cfg.preds[b][0].0 as int)] == x
    ||| g.cfg.preds[b].len() >= 2 && has_phi(s, b, v, x)
}

/// Whether a value is no node of a block behind level `n`, and was handed out.
pub open spec fn settled(s: SsaView, t: Trace, x: ValId, n: nat) -> bool {
    &&& x.offset < s.next
    &&& t.homes.contains_key(x.offset) ==> t.homes[x.offset] <= n
}

/// Whether block `b` is processed or being processed.
pub open spec fn begun(done: Seq<bool>, cur: int, b: int) -> bool {
    done[b] || b == cur
}

/// Whether a definition is what it should be: made in a block that was begun, or for an argument; and
/// in a processed block left by its code, or what the variable is where the block is entered.
pub open spec fn definition_ok(
    g: GraphView,
    s: SsaView,
    t: Trace,
    done: Seq<bool>,
    cur: int,
    b: int,
    v: u16,
) -> bool {
    let x = s.defs[key(v, b)];
    &&& begun(done, cur, b) || b == g.entry.0
    &&& settled(s, t, x, g.cfg.level(BlockId(b as u32)))
    &&& done[b] ==> (t.code.contains_key(key(v, b)) && t.code[key(v, b)] == x) || through(
        g,
        s,
        t,
        b,
        v,
        x,
    )
}

/// Whether operand `j` of φ `i` is what its variable is where the predecessor is left.
pub open spec fn operand_ok(g: GraphView, s: SsaView, done: Seq<bool>, i: int, j: int) -> bool {
    let (q, x) = s.phis[i].sources[j];
    &&& q.0 < g.cfg.preds.len()
    &&& done[q.0 as int]
    &&& s.defs.contains_key(key(s.phis[i].var, q.0 as int))
    &&& s.defs[key(s.phis[i].var, q.0 as int)] == x
}

/// Whether φ `i` belongs to a merge that was begun, and its value is no node.
pub open spec fn phi_ok(
    g: GraphView,
    s: SsaView,
    t: Trace,
    done: Seq<bool>,
    cur: int,
    i: int,
) -> bool {
    let b = s.phis[i].block.0 as int;
    &&& b < g.cfg.preds.len()
    &&& g.cfg.preds[b].len() >= 2
    &&& begun(done, cur, b)
    &&& s.phis[i].val.offset < s.next
    &&& !t.homes.contains_key(s.phis[i].val.offset)
}

/// What holds of the construction state while the blocks `done` are processed and block `cur` is
/// being processed.
pub open spec fn tracks(
    g: GraphView,
    s: SsaView,
    t: Trace,
    done: Seq<bool>,
    cur: int,
) -> bool {
    let total = g.cfg.preds.len();
    &&& shaped(s, g.cfg)
    &&& total <= u32::MAX
    &&& g.entry.0 < total
    &&& g.cfg.preds[g.entry.0 as int].len() == 0
    &&& s.sealed.len() == total
    &&& done.len() == total
    &&& s.phis.len() <= s.next
    &&& forall|o: u16| #[trigger] t.homes.contains_key(o) ==> o < s.next
    &&& forall|b: int| 0 <= b < total && #[trigger] s.sealed[b] ==> sealed_well(g, done, b)
    &&& forall|b: int|
        0 <= b < total && #[trigger] begun(done, cur, b) ==> {
            &&& g.cfg.preds[b].len() <= 1 ==> s.sealed[b]
            &&& b == g.entry.0 || g.cfg.preds[b].len() > 0
        }
    &&& forall|i: int| 0 <= i < s.phis.len() ==> #[trigger] phi_ok(g, s, t, done, cur, i)
    &&& forall|i: int, j: int|
        0 <= i < s.phis.len() && 0 <= j < s.phis[i].sources.len() ==> #[trigger] operand_ok(
            g,
            s,
            done,
            i,
            j,
        )
    &&& forall|b: int, v: u16|
        0 <= b < total && s.defs.contains_key(#[trigger] key(v, b)) ==> definition_ok(
            g,
            s,
            t,
            done,
            cur,
            b,
            v,
        )
    &&& forall|b: int, v: u16|
        0 <= b < total && t.code.contains_key(#[trigger] key(v, b)) ==> s.defs.contains_key(
            key(v, b),
        ) && s.defs[key(v, b)] == t.code[key(v, b)]
    &&& forall|b: int, v: u16|
        0 <= b < total && t.args.contains_key(#[trigger] key(v, b)) ==> settled(
            s,
            t,
            t.args[key(v, b)],
            0,
        ) && !t.homes.contains_key(t.args[key(v, b)].offset)
}

/// Whether a later state keeps what an earlier one has: φ, and definitions outside block `but`.
pub open spec fn later(g: GraphView, a: SsaView, b: SsaView, but: int) -> bool {
    &&& a.next <= b.next
    &&& a.phis.len() <= b.phis.len()
    &&& forall|i: int|
        0 <= i < a.phis.len() ==> (#[trigger] b.phis[i]).block == a.phis[i].block && b.phis[i].var
            == a.phis[i].var && b.phis[i].val == a.phis[i].val
    &&& forall|c: int, v: u16|
        0 <= c < g.cfg.preds.len() && c != but && a.defs.contains_key(#[trigger] key(v, c))
            ==> b.defs.contains_key(key(v, c)) && b.defs[key(v, c)] == a.defs[key(v, c)]
}

pub proof fn lemma_later_trans(g: GraphView, a: SsaView, b: SsaView, c: SsaView, but: int)
    requires
        later(g, a, b, but),
        later(g, b, c, but),
    ensures
        later(g, a, c, but),
{
    assert forall|i: int| 0 <= i < a.phis.len() implies (#[trigger] c.phis[i]).block
        == a.phis[i].block && c.phis[i].var == a.phis[i].var && c.phis[i].val
        == a.phis[i].val by {
        assert(b.phis[i].block == a.phis[i].block);
    }
}

/// What a variable is where a block is entered stays so.
pub proof fn lemma_through_later(
    g: GraphView,
    a: SsaView,
    b: SsaView,
    t: Trace,
    q: int,
    v: u16,
    x: ValId,
    but: int,
)
    requires
        later(g, a, b, but),
        through(g, a, t, q, v, x),
        0 <= q < g.cfg.preds.len(),
        g.cfg.preds[q].len() == 1 ==> g.cfg.preds[q][0].0 != but,
        shaped(a, g.cfg),
    ensures
        through(g, b, t, q, v, x),
{
    if g.cfg.preds[q].len() == 1 {
        assert(g.cfg.preds[q][0].0 < g.cfg.preds.len());
    }
    if has_phi(a, q, v, x) {
        let i = choose|i: int|
            0 <= i < a.phis.len() && (#[trigger] a.phis[i]).block.0 == q && a.phis[i].var == v
                && a.phis[i].val == x;
        assert(b.phis[i].block.0 == q && b.phis[i].var == v && b.phis[i].val == x);
    }
}

/// A state that keeps definitions, φ and what waits still tracks, if what is new in it is in order.
proof fn lemma_tracks_kept(
    g: GraphView,
    a: SsaView,
    b: SsaView,
    t: Trace,
    done: Seq<bool>,
    cur: int,
)
    requires
        tracks(g, a, t, done, cur),
        later(g, a, b, -1),
        shaped(b, g.cfg),
        b.sealed == a.sealed,
        b.phis.len() <= b.next,
        forall|i: int|
            a.phis.len() <= i < b.phis.len() ==> #[trigger] phi_ok(g, b, t, done, cur, i),
        forall|i: int, j: int|
            0 <= i < b.phis.len() && 0 <= j < b.phis[i].sources.len() && !(i < a.phis.len() && j
                < a.phis[i].sources.len() && b.phis[i].sources[j] == a.phis[i].sources[j])
                ==> #[trigger] operand_ok(g, b, done, i, j),
        forall|c: int, v: u16|
            0 <= c < g.cfg.preds.len() && b.defs.contains_key(#[trigger] key(v, c))
                && !a.defs.contains_key(key(v, c)) ==> definition_ok(g, b, t, done, cur, c, v),
    ensures
        tracks(g, b, t, done, cur),
{
    let total = g.cfg.preds.len();
    assert forall|i: int| 0 <= i < b.phis.len() implies #[trigger] phi_ok(
        g,
        b,
        t,
        done,
        cur,
        i,
    ) by {
        if i < a.phis.len() {
            assert(phi_ok(g, a, t, done, cur, i));
            assert(b.phis[i].block == a.phis[i].block);
        }
    }
    assert forall|i: int, j: int|
        0 <= i < b.phis.len() && 0 <= j < b.phis[i].sources.len() implies #[trigger] operand_ok(
        g,
        b,
        done,
        i,
        j,
    ) by {
        if i < a.phis.len() && j < a.phis[i].sources.len() && b.phis[i].sources[j]
            == a.phis[i].sources[j] {
            assert(operand_ok(g, a, done, i, j));
            assert(b.phis[i].var == a.phis[i].var);
        }
    }
    assert forall|c: int, v: u16|
        0 <= c < total && b.defs.contains_key(#[trigger] key(v, c)) implies definition_ok(
        g,
        b,
        t,
        done,
        cur,
        c,
        v,
    ) by {
        if a.defs.contains_key(key(v, c)) {
            assert(definition_ok(g, a, t, done, cur, c, v));
            let x = a.defs[key(v, c)];
            if done[c] && through(g, a, t, c, v, x) {
                lemma_through_later(g, a, b, t, c, v, x, -1);
            }
        }
    }
}

/// Nothing new but values handed out.
pub proof fn lemma_fresh_tracks(
    g: GraphView,
    s: SsaView,
    t: Trace,
    done: Seq<bool>,
    cur: int,
)
    requires
        tracks(g, s, t, done, cur),
        s.next < u16::MAX,
    ensures
        tracks(g, SsaView { next: (s.next + 1) as u16, ..s }, t, done, cur),
        later(g, s, SsaView { next: (s.next + 1) as u16, ..s }, -1),
{
    lemma_tracks_kept(g, s, SsaView { next: (s.next + 1) as u16, ..s }, t, done, cur);
}

/// A variable that was undefined in a block gets defined there.
proof fn lemma_wrote_tracks(
    g: GraphView,
    s: SsaView,
    t: Trace,
    done: Seq<bool>,
    cur: int,
    v: u16,
    block: BlockId,
    x: ValId,
)
    requires
        tracks(g, s, t, done, cur),
        block.0 < g.cfg.preds.len(),
        begun(done, cur, block.0 as int),
        s.defs.contains_key(key(v, block.0 as int)) ==> s.defs[key(v, block.0 as int)] == x,
        settled(s, t, x, g.cfg.level(block)),
        through(g, s, t, block.0 as int, v, x),
    ensures
        tracks(g, s.wrote(v, block, x), t, done, cur),
        later(g, s, s.wrote(v, block, x), -1),
        s.wrote(v, block, x).defs.contains_key(key(v, block.0 as int)),
        s.wrote(v, block, x).defs[key(v, block.0 as int)] == x,
{
    let b = block.0 as int;
    let s1 = s.wrote(v, block, x);
    assert(BlockId(b as u32) == block);
    assert(later(g, s, s1, -1)) by {
        assert forall|c: int, w: u16|
            0 <= c < g.cfg.preds.len() && s.defs.contains_key(
                #[trigger] key(w, c),
            ) implies s1.defs.contains_key(key(w, c)) && s1.defs[key(w, c)] == s.defs[key(
            w,
            c,
        )] by {
            lemma_key(w, c, v, b);
        }
    }
    assert forall|c: int, w: u16|
        0 <= c < g.cfg.preds.len() && s1.defs.contains_key(#[trigger] key(w, c))
            && !s.defs.contains_key(key(w, c)) implies definition_ok(
        g,
        s1,
        t,
        done,
        cur,
        c,
        w,
    ) by {
        lemma_key(w, c, v, b);
        lemma_through_later(g, s, s1, t, b, v, x, -1);
    }
    lemma_tracks_kept(g, s, s1, t, done, cur);
}

/// A φ for a merge that was begun.
proof fn lemma_phi_tracks(
    g: GraphView,
    s: SsaView,
    t: Trace,
    done: Seq<bool>,
    cur: int,
    block: BlockId,
    var: u16,
)
    requires
        tracks(g, s, t, done, cur),
        block.0 < g.cfg.preds.len(),
        begun(done, cur, block.0 as int),
        g.cfg.preds[block.0 as int].len() >= 2,
    ensures
        s.with_phi(block, var) matches Ok((x, s1)) ==> {
            &&& tracks(g, s1, t, done, cur)
            &&& later(g, s, s1, -1)
            &&& has_phi(s1, block.0 as int, var, x)
            &&& settled(s1, t, x, 0)
            &&& s1.defs == s.defs
            &&& s1.incomplete == s.incomplete
            &&& s1.sealed == s.sealed
            &&& s1.next == s.next + 1
            &&& s1.phis.len() == s.phis.len() + 1
            &&& s1.phis.last() == (PhiDefView { block, var, val: x, sources: Seq::empty() })
        },
{
    if let Ok((x, s1)) = s.with_phi(block, var) {
        let n = s.phis.len() as int;
        assert(shaped(s1, g.cfg)) by {
            assert forall|b: int, j: int|
                0 <= b < s1.incomplete.len() && 0 <= j < s1.incomplete[b].len() implies (
            #[trigger] s1.incomplete[b][j]) < s1.phis.len() by {
                assert(s.incomplete[b][j] < s.phis.len());
            }
        }
        assert(s1.phis[n] == (PhiDefView { block, var, val: x, sources: Seq::empty() }));
        lemma_tracks_kept(g, s, s1, t, done, cur);
    }
}

/// Whether a later state has new definitions of one variable only.
pub open spec fn only_var(g: GraphView, a: SsaView, b: SsaView, v: u16) -> bool {
    forall|c: int, u: u16|
        0 <= c < g.cfg.preds.len() && u != v && b.defs.contains_key(#[trigger] key(u, c))
            ==> a.defs.contains_key(key(u, c))
}

proof fn lemma_only_wrote(g: GraphView, s: SsaView, v: u16, block: BlockId, x: ValId)
    requires
        g.cfg.preds.len() <= u32::MAX,
    ensures
        only_var(g, s, s.wrote(v, block, x), v),
{
    assert forall|c: int, u: u16|
        0 <= c < g.cfg.preds.len() && u != v && s.wrote(v, block, x).defs.contains_key(
            #[trigger] key(u, c),
        ) implies s.defs.contains_key(key(u, c)) by {
        assert(BlockId(block.0 as int as u32) == block);
        lemma_key(u, c, v, block.0 as int);
    }
}

/// Whether a later state has new definitions only in processed blocks and in block `b`.
pub open spec fn adds_done(g: GraphView, a: SsaView, s: SsaView, done: Seq<bool>, b: int) -> bool {
    forall|c: int, u: u16|
        0 <= c < g.cfg.preds.len() && s.defs.contains_key(#[trigger] key(u, c))
            && !a.defs.contains_key(key(u, c)) ==> done[c] || c == b
}

proof fn lemma_adds_wrote(
    g: GraphView,
    s: SsaView,
    done: Seq<bool>,
    v: u16,
    block: BlockId,
    x: ValId,
)
    requires
        g.cfg.preds.len() <= u32::MAX,
    ensures
        adds_done(g, s, s.wrote(v, block, x), done, block.0 as int),
{
    assert forall|c: int, u: u16|
        0 <= c < g.cfg.preds.len() && s.wrote(v, block, x).defs.contains_key(#[trigger] key(u, c))
            && !s.defs.contains_key(key(u, c)) implies done[c] || c == block.0 by {
        assert(BlockId(block.0 as int as u32) == block);
        lemma_key(u, c, v, block.0 as int);
    }
}

/// What reading a variable in block `b` comes to.
pub open spec fn read_ok(
    g: GraphView,
    s: SsaView,
    t: Trace,
    done: Seq<bool>,
    cur: int,
    v: u16,
    b: int,
    x: ValId,
    s1: SsaView,
) -> bool {
    &&& tracks(g, s1, t, done, cur)
    &&& later(g, s, s1, -1)
    &&& only_var(g, s, s1, v)
    &&& adds_done(g, s, s1, done, b)
    &&& s1.sealed == s.sealed
    &&& s1.defs.contains_key(key(v, b))
    &&& s1.defs[key(v, b)] == x
    &&& s.defs.contains_key(key(v, b)) || through(g, s1, t, b, v, x)
}

/// A φ made for an unsealed merge waits for its operands.
proof fn lemma_waiting_tracks(
    g: GraphView,
    s: SsaView,
    t: Trace,
    done: Seq<bool>,
    cur: int,
    block: BlockId,
)
    requires
        tracks(g, s, t, done, cur),
        block.0 < g.cfg.preds.len(),
        s.phis.len() > 0,
    ensures
        tracks(g, s.waiting(block), t, done, cur),
        later(g, s, s.waiting(block), -1),
{
    let s1 = s.waiting(block);
    assert(shaped(s1, g.cfg)) by {
        assert forall|b: int, j: int|
            0 <= b < s1.incomplete.len() && 0 <= j < s1.incomplete[b].len() implies (
        #[trigger] s1.incomplete[b][j]) < s1.phis.len() by {
            if b == block.0 && j == s.incomplete[b].len() {
            } else {
                assert(s.incomplete[b][j] < s.phis.len());
            }
        }
    }
    lemma_tracks_kept(g, s, s1, t, done, cur);
}

proof fn lemma_source_tracks(
    g: GraphView,
    s: SsaView,
    t: Trace,
    done: Seq<bool>,
    cur: int,
    idx: int,
    q: BlockId,
    x: ValId,
)
    requires
        tracks(g, s, t, done, cur),
        0 <= idx < s.phis.len(),
        q.0 < g.cfg.preds.len(),
        done[q.0 as int],
        s.defs.contains_key(key(s.phis[idx].var, q.0 as int)),
        s.defs[key(s.phis[idx].var, q.0 as int)] == x,
    ensures
        tracks(g, s.with_source(idx, q, x), t, done, cur),
        later(g, s, s.with_source(idx, q, x), -1),
{
    let s1 = s.with_source(idx, q, x);
    assert forall|i: int, j: int|
        0 <= i < s1.phis.len() && 0 <= j < s1.phis[i].sources.len() && !(i < s.phis.len() && j
            < s.phis[i].sources.len() && s1.phis[i].sources[j]
            == s.phis[i].sources[j]) implies #[trigger] operand_ok(g, s1, done, i, j) by {
        assert(i == idx);
        assert(j == s.phis[idx].sources.len());
    }
    lemma_tracks_kept(g, s, s1, t, done, cur);
}

pub proof fn lemma_read_tracks(
    g: GraphView,
    s: SsaView,
    t: Trace,
    done: Seq<bool>,
    cur: int,
    v: u16,
    block: BlockId,
)
    requires
        tracks(g, s, t, done, cur),
        block.0 < g.cfg.preds.len(),
        begun(done, cur, block.0 as int),
    ensures
        read(s, g.cfg, v, block) matches Ok((x, s1)) ==> read_ok(
            g,
            s,
            t,
            done,
            cur,
            v,
            block.0 as int,
            x,
            s1,
        ),
    decreases 0x1_0000 - s.next, g.cfg.level(block), 0int,
{
    let cfg = g.cfg;
    let b = block.0 as int;
    assert(BlockId(b as u32) == block);
    if s.defs.contains_key(key(v, b)) {
    } else if !s.sealed[b] {
        lemma_phi_tracks(g, s, t, done, cur, block, v);
        if let Ok((x, s1)) = s.with_phi(block, v) {
            let s2 = s1.waiting(block);
            lemma_waiting_tracks(g, s1, t, done, cur, block);
            lemma_later_trans(g, s, s1, s2, -1);
            assert(s2.phis[s.phis.len() as int].val == x);
            assert(has_phi(s2, b, v, x));
            lemma_wrote_tracks(g, s2, t, done, cur, v, block, x);
            lemma_only_wrote(g, s2, v, block, x);
            lemma_adds_wrote(g, s2, done, v, block, x);
            let s3 = s2.wrote(v, block, x);
            lemma_later_trans(g, s, s2, s3, -1);
            lemma_through_later(g, s2, s3, t, b, v, x, -1);
        }
    } else {
        assert(sealed_well(g, done, b));
        if cfg.preds[b].len() == 0 {
        } else if cfg.preds[b].len() == 1 {
            let p = cfg.preds[b][0];
            assert(p.0 < cfg.preds.len());
            if cfg.level(p) < cfg.level(block) {
                assert(done[p.0 as int]);
                lemma_read_tracks(g, s, t, done, cur, v, p);
                if let Ok((x, s1)) = read(s, cfg, v, p) {
                    assert(BlockId(p.0 as int as u32) == p);
                    assert(definition_ok(g, s1, t, done, cur, p.0 as int, v));
                    assert(!s1.defs.contains_key(key(v, b)) || s1.defs[key(v, b)] == x) by {
                        if s1.defs.contains_key(key(v, b)) {
                            assert(done[b]);
                            assert(definition_ok(g, s1, t, done, cur, b, v));
                        }
                    }
                    lemma_wrote_tracks(g, s1, t, done, cur, v, block, x);
                    lemma_only_wrote(g, s1, v, block, x);
                    lemma_adds_wrote(g, s1, done, v, block, x);
                    let s2 = s1.wrote(v, block, x);
                    lemma_later_trans(g, s, s1, s2, -1);
                    lemma_through_later(g, s1, s2, t, b, v, x, -1);
                }
            }
        } else {
            lemma_phi_tracks(g, s, t, done, cur, block, v);
            if let Ok((x, s1)) = s.with_phi(block, v) {
                lemma_wrote_tracks(g, s1, t, done, cur, v, block, x);
                lemma_only_wrote(g, s1, v, block, x);
                lemma_adds_wrote(g, s1, done, v, block, x);
                let s2 = s1.wrote(v, block, x);
                lemma_later_trans(g, s, s1, s2, -1);
                let idx = s.phis.len() as int;
                assert forall|k: int| 0 <= k < cfg.preds[b].len() implies (
                #[trigger] cfg.preds[b][k]).0 < cfg.preds.len()
                    && done[cfg.preds[b][k].0 as int] by {}
                lemma_operands_track(g, s2, t, done, cur, idx, v, cfg.preds[b], 0);
                if let Ok(s3) = operands(s2, cfg, idx, v, cfg.preds[b], 0) {
                    lemma_later_trans(g, s, s2, s3, -1);
                    assert(s3.phis[idx].block == block && s3.phis[idx].var == v && s3.phis[idx].val
                        == x);
                    assert(has_phi(s3, b, v, x));
                    assert(s3.defs[key(v, b)] == x);
                    lemma_wrote_tracks(g, s3, t, done, cur, v, block, x);
                    lemma_only_wrote(g, s3, v, block, x);
                    lemma_adds_wrote(g, s3, done, v, block, x);
                    let s4 = s3.wrote(v, block, x);
                    lemma_later_trans(g, s, s3, s4, -1);
                    lemma_through_later(g, s3, s4, t, b, v, x, -1);
                }
            }
        }
    }
}

proof fn lemma_operands_track(
    g: GraphView,
    s: SsaView,
    t: Trace,
    done: Seq<bool>,
    cur: int,
    idx: int,
    v: u16,
    from: Seq<BlockId>,
    k: int,
)
    requires
        tracks(g, s, t, done, cur),
        0 <= idx < s.phis.len(),
        s.phis[idx].var == v,
        0 <= k,
        forall|i: int|
            0 <= i < from.len() ==> (#[trigger] from[i]).0 < g.cfg.preds.len()
                && done[from[i].0 as int],
    ensures
        operands(s, g.cfg, idx, v, from, k) matches Ok(s1) ==> {
            &&& tracks(g, s1, t, done, cur)
            &&& later(g, s, s1, -1)
            &&& only_var(g, s, s1, v)
            &&& adds_done(g, s, s1, done, -1)
            &&& s1.sealed == s.sealed
        },
    decreases 0x1_0000 - s.next, g.cfg.rank.len() + 1, from.len() - k,
{
    if k < from.len() {
        lemma_read_tracks(g, s, t, done, cur, v, from[k]);
        if let Ok((x, s1)) = read(s, g.cfg, v, from[k]) {
            let s2 = s1.with_source(idx, from[k], x);
            assert(s1.phis[idx].var == s.phis[idx].var);
            lemma_source_tracks(g, s1, t, done, cur, idx, from[k], x);
            lemma_later_trans(g, s, s1, s2, -1);
            lemma_operands_track(g, s2, t, done, cur, idx, v, from, k + 1);
            if let Ok(s3) = operands(s2, g.cfg, idx, v, from, k + 1) {
                lemma_later_trans(g, s, s2, s3, -1);
            }
        }
    }
}

proof fn lemma_completed_tracks(
    g: GraphView,
    s: SsaView,
    t: Trace,
    done: Seq<bool>,
    cur: int,
    list: Seq<usize>,
    b: int,
    j: int,
)
    requires
        tracks(g, s, t, done, cur),
        0 <= j,
        0 <= b < g.cfg.preds.len(),
        sealed_well(g, done, b),
        forall|i: int|
            0 <= i < list.len() ==> (#[trigger] list[i]) < s.phis.len()
                && s.phis[list[i] as int].block.0 == b,
    ensures
        completed(s, g.cfg, list, j) matches Ok(s1) ==> {
            &&& tracks(g, s1, t, done, cur)
            &&& later(g, s, s1, -1)
            &&& adds_done(g, s, s1, done, -1)
            &&& s1.sealed == s.sealed
        },
    decreases list.len() - j,
{
    if j < list.len() {
        let idx = list[j] as int;
        let v = s.phis[idx].var;
        let from = g.cfg.preds[b];
        assert forall|k: int| 0 <= k < from.len() implies (#[trigger] from[k]).0
            < g.cfg.preds.len() && done[from[k].0 as int] by {}
        lemma_operands_track(g, s, t, done, cur, idx, v, from, 0);
        if let Ok(s1) = operands(s, g.cfg, idx, v, from, 0) {
            assert forall|i: int| 0 <= i < list.len() implies (#[trigger] list[i]) < s1.phis.len()
                && s1.phis[list[i] as int].block.0 == b by {
                assert(s1.phis[list[i] as int].block == s.phis[list[i] as int].block);
            }
            lemma_completed_tracks(g, s1, t, done, cur, list, b, j + 1);
            if let Ok(s2) = completed(s1, g.cfg, list, j + 1) {
                lemma_later_trans(g, s, s1, s2, -1);
            }
        }
    }
}

/// Whether waiting φ belong to the block they are listed for.
pub open spec fn lists_fit(s: SsaView) -> bool {
    forall|b: int, j: int|
        0 <= b < s.incomplete.len() && 0 <= j < s.incomplete[b].len() ==> s.phis[(
        #[trigger] s.incomplete[b][j]) as int].block.0 == b
}

pub proof fn lemma_seal_tracks(
    g: GraphView,
    s: SsaView,
    t: Trace,
    done: Seq<bool>,
    cur: int,
    block: BlockId,
)
    requires
        tracks(g, s, t, done, cur),
        lists_fit(s),
        block.0 < g.cfg.preds.len(),
        sealed_well(g, done, block.0 as int),
    ensures
        seal(s, g.cfg, block) matches Ok(s1) ==> {
            &&& tracks(g, s1, t, done, cur)
            &&& later(g, s, s1, -1)
            &&& adds_done(g, s, s1, done, -1)
            &&& s1.sealed == s.sealed.update(block.0 as int, true)
        },
{
    let b = block.0 as int;
    let s0 = SsaView { incomplete: s.incomplete.update(b, Seq::empty()), ..s };
    let list = s.incomplete[b];
    assert(shaped(s0, g.cfg)) by {
        assert forall|c: int, j: int|
            0 <= c < s0.incomplete.len() && 0 <= j < s0.incomplete[c].len() implies (
        #[trigger] s0.incomplete[c][j]) < s0.phis.len() by {
            assert(c != b);
            assert(s.incomplete[c][j] < s.phis.len());
        }
    }
    lemma_tracks_kept(g, s, s0, t, done, cur);
    assert forall|i: int| 0 <= i < list.len() implies (#[trigger] list[i]) < s0.phis.len()
        && s0.phis[list[i] as int].block.0 == b by {
        assert(s.incomplete[b][i] < s.phis.len());
    }
    lemma_completed_tracks(g, s0, t, done, cur, list, b, 0);
    if let Ok(s1) = completed(s0, g.cfg, list, 0) {
        let s2 = SsaView { sealed: s1.sealed.update(b, true), ..s1 };
        lemma_later_trans(g, s, s0, s1, -1);
        lemma_sealed_tracks(g, s1, t, done, cur, b);
    }
}

/// Marking a block sealed changes nothing else.
proof fn lemma_sealed_tracks(
    g: GraphView,
    s: SsaView,
    t: Trace,
    done: Seq<bool>,
    cur: int,
    b: int,
)
    requires
        tracks(g, s, t, done, cur),
        0 <= b < g.cfg.preds.len(),
        sealed_well(g, done, b),
    ensures
        tracks(g, SsaView { sealed: s.sealed.update(b, true), ..s }, t, done, cur),
{
    let s1 = SsaView { sealed: s.sealed.update(b, true), ..s };
    let total = g.cfg.preds.len();
    assert forall|c: int| 0 <= c < total && #[trigger] s1.sealed[c] implies sealed_well(
        g,
        done,
        c,
    ) by {
        if c != b {
            assert(s.sealed[c]);
        }
    }
    assert forall|c: int| 0 <= c < total && #[trigger] begun(done, cur, c) implies {
        &&& g.cfg.preds[c].len() <= 1 ==> s1.sealed[c]
        &&& c == g.entry.0 || g.cfg.preds[c].len() > 0
    } by {
        assert(g.cfg.preds[c].len() <= 1 ==> s.sealed[c]);
    }
    assert forall|i: int| 0 <= i < s1.phis.len() implies #[trigger] phi_ok(
        g,
        s1,
        t,
        done,
        cur,
        i,
    ) by {
        assert(phi_ok(g, s, t, done, cur, i));
    }
    assert forall|i: int, j: int|
        0 <= i < s1.phis.len() && 0 <= j < s1.phis[i].sources.len() implies #[trigger] operand_ok(
        g,
        s1,
        done,
        i,
        j,
    ) by {
        assert(operand_ok(g, s, done, i, j));
    }
    assert(later(g, s, s1, -1));
    assert forall|c: int, v: u16|
        0 <= c < total && s1.defs.contains_key(#[trigger] key(v, c)) implies definition_ok(
        g,
        s1,
        t,
        done,
        cur,
        c,
        v,
    ) by {
        assert(definition_ok(g, s, t, done, cur, c, v));
        let x = s.defs[key(v, c)];
        if done[c] && through(g, s, t, c, v, x) {
            lemma_through_later(g, s, s1, t, c, v, x, -1);
        }
    }
}

/// Whether a list of nodes defines the value with offset `o`.
pub open spec fn defines(nodes: Seq<NodeView>, o: u16) -> bool {
    exists|i: int| 0 <= i < nodes.len() && (#[trigger] nodes[i]).id.offset == o
}

/// A trace with the nodes of a block of level `n` noted.
pub open spec fn with_nodes(t: Trace, nodes: Seq<NodeView>, n: nat) -> Trace {
    Trace {
        homes: Map::new(
            |o: u16| t.homes.contains_key(o) || defines(nodes, o),
            |o: u16|
                if defines(nodes, o) {
                    n
                } else {
                    t.homes[o]
                },
        ),
        ..t
    }
}

/// What holds of block `b` while it is being lowered, where `t` is the trace it began with.
pub open spec fn lowers(g: GraphView, st: LowerView, t: Trace, done: Seq<bool>, b: int) -> bool {
    let n = g.cfg.level(BlockId(b as u32));
    &&& 0 <= b < g.cfg.preds.len()
    &&& !done[b]
    &&& forall|w: u16| !t.code.contains_key(#[trigger] key(w, b))
    &&& tracks(g, st.ssa, with_nodes(t, st.nodes, n), done, b)
    &&& forall|i: int|
        0 <= i < st.stack.len() ==> settled(
            st.ssa,
            with_nodes(t, st.nodes, n),
            #[trigger] st.stack[i],
            n,
        )
}

/// Whether lowering has gone on from one state to another.
pub open spec fn lowers_on(
    g: GraphView,
    a: LowerView,
    st: LowerView,
    t: Trace,
    done: Seq<bool>,
    b: int,
) -> bool {
    &&& lowers(g, st, t, done, b)
    &&& later(g, a.ssa, st.ssa, b)
    &&& st.ssa.sealed == a.ssa.sealed
    &&& a.nodes.is_prefix_of(st.nodes)
    &&& forall|i: int|
        a.nodes.len() <= i < st.nodes.len() ==> (#[trigger] st.nodes[i]).id.offset >= a.ssa.next
}

pub proof fn lemma_lowers_trans(
    g: GraphView,
    a: LowerView,
    c: LowerView,
    st: LowerView,
    t: Trace,
    done: Seq<bool>,
    b: int,
)
    requires
        lowers_on(g, a, c, t, done, b),
        lowers_on(g, c, st, t, done, b),
    ensures
        lowers_on(g, a, st, t, done, b),
{
    lemma_later_trans(g, a.ssa, c.ssa, st.ssa, b);
    assert forall|i: int| a.nodes.len() <= i < st.nodes.len() implies (
    #[trigger] st.nodes[i]).id.offset >= a.ssa.next by {
        if i < c.nodes.len() {
            assert(st.nodes[i] == c.nodes[i]);
        }
    }
}

/// With the same trace, values handed out stay settled.
proof fn lemma_stack_settled(
    g: GraphView,
    a: SsaView,
    s: SsaView,
    t: Trace,
    stack: Seq<ValId>,
    n: nat,
)
    requires
        a.next <= s.next,
        forall|i: int| 0 <= i < stack.len() ==> settled(a, t, #[trigger] stack[i], n),
    ensures
        forall|i: int| 0 <= i < stack.len() ==> settled(s, t, #[trigger] stack[i], n),
{
    assert forall|i: int| 0 <= i < stack.len() implies settled(s, t, #[trigger] stack[i], n) by {
        assert(settled(a, t, stack[i], n));
    }
}

/// A new node: its value is fresh, so no other value becomes one of the block's nodes.
pub proof fn lemma_node_tracks(
    g: GraphView,
    st: LowerView,
    t: Trace,
    done: Seq<bool>,
    b: int,
    op: Op,
    ins: Seq<ValId>,
    ty: Tag,
    effect: Effect,
)
    requires
        lowers(g, st, t, done, b),
    ensures
        st.noded(op, ins, ty, effect) matches Ok((x, st1)) ==> {
            &&& lowers_on(g, st, st1, t, done, b)
            &&& settled(
                st1.ssa,
                with_nodes(t, st1.nodes, g.cfg.level(BlockId(b as u32))),
                x,
                g.cfg.level(BlockId(b as u32)),
            )
            &&& x.offset == st.ssa.next
            &&& st1.stack == st.stack
        },
{
    if let Ok((x, st1)) = st.noded(op, ins, ty, effect) {
        let n = g.cfg.level(BlockId(b as u32));
        let (ta, tb) = (with_nodes(t, st.nodes, n), with_nodes(t, st1.nodes, n));
        let (sa, sb) = (st.ssa, st1.ssa);
        let total = g.cfg.preds.len();
        assert(st1.nodes[st.nodes.len() as int].id == x);
        assert(defines(st1.nodes, x.offset));
        assert forall|o: u16| o != x.offset implies (#[trigger] tb.homes.contains_key(o)
            <==> ta.homes.contains_key(o)) && (ta.homes.contains_key(o) ==> tb.homes[o]
            == ta.homes[o]) by {
            if defines(st.nodes, o) {
                let i = choose|i: int|
                    0 <= i < st.nodes.len() && (#[trigger] st.nodes[i]).id.offset == o;
                assert(st1.nodes[i].id.offset == o);
            }
            if defines(st1.nodes, o) {
                let i = choose|i: int|
                    0 <= i < st1.nodes.len() && (#[trigger] st1.nodes[i]).id.offset == o;
                assert(st.nodes[i].id.offset == o);
            }
        }
        lemma_fresh_tracks(g, sa, ta, done, b);
        assert(later(g, sa, sb, -1));
        assert forall|i: int| 0 <= i < sb.phis.len() implies #[trigger] phi_ok(
            g,
            sb,
            tb,
            done,
            b,
            i,
        ) by {
            assert(phi_ok(g, sa, ta, done, b, i));
        }
        assert forall|i: int, j: int|
            0 <= i < sb.phis.len() && 0 <= j < sb.phis[i].sources.len() implies #[trigger] operand_ok(
            g,
            sb,
            done,
            i,
            j,
        ) by {
            assert(operand_ok(g, sa, done, i, j));
        }
        assert forall|c: int, v: u16|
            0 <= c < total && sb.defs.contains_key(#[trigger] key(v, c)) implies definition_ok(
            g,
            sb,
            tb,
            done,
            b,
            c,
            v,
        ) by {
            assert(definition_ok(g, sa, ta, done, b, c, v));
            let y = sa.defs[key(v, c)];
            if done[c] && through(g, sa, ta, c, v, y) {
                lemma_through_later(g, sa, sb, ta, c, v, y, -1);
                assert(through(g, sb, tb, c, v, y));
            }
        }
        assert(tracks(g, sb, tb, done, b));
        assert forall|i: int| 0 <= i < st1.stack.len() implies settled(
            sb,
            tb,
            #[trigger] st1.stack[i],
            n,
        ) by {
            assert(settled(sa, ta, st.stack[i], n));
        }
    }
}

/// A store: the block's own definition changes, and nothing else depends on it yet.
proof fn lemma_store_tracks(
    g: GraphView,
    s: SsaView,
    t: Trace,
    done: Seq<bool>,
    b: int,
    v: u16,
    x: ValId,
)
    requires
        tracks(g, s, t, done, b),
        0 <= b < g.cfg.preds.len(),
        !done[b],
        settled(s, t, x, g.cfg.level(BlockId(b as u32))),
        forall|w: u16| !t.code.contains_key(#[trigger] key(w, b)),
    ensures
        tracks(g, s.wrote(v, BlockId(b as u32), x), t, done, b),
        later(g, s, s.wrote(v, BlockId(b as u32), x), b),
{
    let s1 = s.wrote(v, BlockId(b as u32), x);
    let total = g.cfg.preds.len();
    assert(later(g, s, s1, b)) by {
        assert forall|c: int, w: u16|
            0 <= c < total && c != b && s.defs.contains_key(
                #[trigger] key(w, c),
            ) implies s1.defs.contains_key(key(w, c)) && s1.defs[key(w, c)] == s.defs[key(
            w,
            c,
        )] by {
            lemma_key(w, c, v, b);
        }
    }
    assert forall|i: int| 0 <= i < s1.phis.len() implies #[trigger] phi_ok(
        g,
        s1,
        t,
        done,
        b,
        i,
    ) by {
        assert(phi_ok(g, s, t, done, b, i));
    }
    assert forall|i: int, j: int|
        0 <= i < s1.phis.len() && 0 <= j < s1.phis[i].sources.len() implies #[trigger] operand_ok(
        g,
        s1,
        done,
        i,
        j,
    ) by {
        assert(operand_ok(g, s, done, i, j));
        lemma_key(s.phis[i].var, s.phis[i].sources[j].0.0 as int, v, b);
    }
    assert forall|c: int, w: u16|
        0 <= c < total && s1.defs.contains_key(#[trigger] key(w, c)) implies definition_ok(
        g,
        s1,
        t,
        done,
        b,
        c,
        w,
    ) by {
        lemma_key(w, c, v, b);
        if !(c == b && w == v) {
            assert(definition_ok(g, s, t, done, b, c, w));
            let y = s.defs[key(w, c)];
            if done[c] && through(g, s, t, c, w, y) {
                if g.cfg.preds[c].len() == 1 {
                    assert(begun(done, b, c));
                    assert(s.sealed[c]);
                    assert(sealed_well(g, done, c));
                    assert(done[g.cfg.preds[c][0].0 as int]);
                }
                lemma_through_later(g, s, s1, t, c, w, y, b);
            }
        }
    }
    assert forall|c: int, w: u16|
        0 <= c < total && t.code.contains_key(#[trigger] key(w, c)) implies s1.defs.contains_key(
        key(w, c),
    ) && s1.defs[key(w, c)] == t.code[key(w, c)] by {
        lemma_key(w, c, v, b);
    }
}

/// Taking items off the stack, or putting settled ones on, leaves everything else alone.
pub proof fn lemma_restacked(
    g: GraphView,
    st: LowerView,
    st1: LowerView,
    t: Trace,
    done: Seq<bool>,
    b: int,
)
    requires
        lowers(g, st, t, done, b),
        st1.ssa == st.ssa,
        st1.nodes == st.nodes,
        forall|i: int|
            0 <= i < st1.stack.len() ==> settled(
                st.ssa,
                with_nodes(t, st.nodes, g.cfg.level(BlockId(b as u32))),
                #[trigger] st1.stack[i],
                g.cfg.level(BlockId(b as u32)),
            ),
    ensures
        lowers_on(g, st, st1, t, done, b),
{
}

proof fn lemma_emitted_lowers(
    g: GraphView,
    st: LowerView,
    t: Trace,
    done: Seq<bool>,
    b: int,
    n: int,
    op: Op,
    ty: Tag,
    effect: Effect,
    pc: u32,
)
    requires
        lowers(g, st, t, done, b),
        0 <= n,
    ensures
        st.emitted(n, op, ty, effect, pc) matches Ok(st1) ==> lowers_on(g, st, st1, t, done, b),
        st.consumed(n, op, ty, effect, pc) matches Ok(st1) ==> lowers_on(g, st, st1, t, done, b),
{
    if st.stack.len() >= n {
        let d = st.dropped(n);
        let ins = st.stack.skip(st.stack.len() - n);
        assert forall|i: int| 0 <= i < d.stack.len() implies settled(
            st.ssa,
            with_nodes(t, st.nodes, g.cfg.level(BlockId(b as u32))),
            #[trigger] d.stack[i],
            g.cfg.level(BlockId(b as u32)),
        ) by {
            assert(d.stack[i] == st.stack[i]);
        }
        lemma_restacked(g, st, d, t, done, b);
        lemma_node_tracks(g, d, t, done, b, op, ins, ty, effect);
        if let Ok((x, e)) = d.noded(op, ins, ty, effect) {
            lemma_lowers_trans(g, st, d, e, t, done, b);
            lemma_pushed_lowers(g, e, t, done, b, x);
            lemma_lowers_trans(g, st, e, e.pushed(x), t, done, b);
        }
    }
}

pub proof fn lemma_pushed_lowers(
    g: GraphView,
    st: LowerView,
    t: Trace,
    done: Seq<bool>,
    b: int,
    x: ValId,
)
    requires
        lowers(g, st, t, done, b),
        settled(
            st.ssa,
            with_nodes(t, st.nodes, g.cfg.level(BlockId(b as u32))),
            x,
            g.cfg.level(BlockId(b as u32)),
        ),
    ensures
        lowers_on(g, st, st.pushed(x), t, done, b),
{
    let p = st.pushed(x);
    assert forall|i: int| 0 <= i < p.stack.len() implies settled(
        st.ssa,
        with_nodes(t, st.nodes, g.cfg.level(BlockId(b as u32))),
        #[trigger] p.stack[i],
        g.cfg.level(BlockId(b as u32)),
    ) by {
        if i < st.stack.len() {
            assert(p.stack[i] == st.stack[i]);
        }
    }
    lemma_restacked(g, st, p, t, done, b);
}

/// A read in the block being lowered.
pub proof fn lemma_read_lowers(
    g: GraphView,
    st: LowerView,
    t: Trace,
    done: Seq<bool>,
    b: int,
    v: u16,
)
    requires
        lowers(g, st, t, done, b),
        g.cfg.preds.len() <= u32::MAX,
    ensures
        read(st.ssa, g.cfg, v, BlockId(b as u32)) matches Ok((x, s1)) ==> {
            let n = g.cfg.level(BlockId(b as u32));
            &&& lowers_on(g, st, LowerView { ssa: s1, ..st }, t, done, b)
            &&& settled(s1, with_nodes(t, st.nodes, n), x, n)
            &&& read_ok(g, st.ssa, with_nodes(t, st.nodes, n), done, b, v, b, x, s1)
        },
{
    let n = g.cfg.level(BlockId(b as u32));
    let tn = with_nodes(t, st.nodes, n);
    lemma_read_tracks(g, st.ssa, tn, done, b, v, BlockId(b as u32));
    if let Ok((x, s1)) = read(st.ssa, g.cfg, v, BlockId(b as u32)) {
        assert(definition_ok(g, s1, tn, done, b, b, v));
        lemma_stack_settled(g, st.ssa, s1, tn, st.stack, n);
    }
}

pub proof fn lemma_loaded_lowers(
    g: GraphView,
    st: LowerView,
    ctx: ContextView,
    t: Trace,
    done: Seq<bool>,
    b: int,
    v: u16,
)
    requires
        lowers(g, st, t, done, b),
        g.cfg.preds.len() <= u32::MAX,
        ctx.cfg == g.cfg,
        ctx.block == BlockId(b as u32),
    ensures
        st.loaded(ctx, v) matches Ok(st1) ==> lowers_on(g, st, st1, t, done, b),
{
    lemma_read_lowers(g, st, t, done, b, v);
    if let Ok((x, s1)) = read(st.ssa, g.cfg, v, BlockId(b as u32)) {
        let m = LowerView { ssa: s1, ..st };
        lemma_pushed_lowers(g, m, t, done, b, x);
        lemma_lowers_trans(g, st, m, m.pushed(x), t, done, b);
    }
}

pub proof fn lemma_stored_lowers(
    g: GraphView,
    st: LowerView,
    t: Trace,
    done: Seq<bool>,
    b: int,
    v: u16,
    x: ValId,
)
    requires
        lowers(g, st, t, done, b),
        settled(
            st.ssa,
            with_nodes(t, st.nodes, g.cfg.level(BlockId(b as u32))),
            x,
            g.cfg.level(BlockId(b as u32)),
        ),
    ensures
        lowers_on(
            g,
            st,
            LowerView { ssa: st.ssa.wrote(v, BlockId(b as u32), x), ..st },
            t,
            done,
            b,
        ),
{
    let n = g.cfg.level(BlockId(b as u32));
    let tn = with_nodes(t, st.nodes, n);
    lemma_store_tracks(g, st.ssa, tn, done, b, v, x);
    lemma_stack_settled(g, st.ssa, st.ssa.wrote(v, BlockId(b as u32), x), tn, st.stack, n);
}

proof fn lemma_incremented_lowers(
    g: GraphView,
    st: LowerView,
    ctx: ContextView,
    t: Trace,
    done: Seq<bool>,
    b: int,
    ins: Insn,
)
    requires
        lowers(g, st, t, done, b),
        g.cfg.preds.len() <= u32::MAX,
        ctx.cfg == g.cfg,
        ctx.block == BlockId(b as u32),
    ensures
        st.incremented(ctx, ins) matches Ok(st1) ==> lowers_on(g, st, st1, t, done, b),
{
    let v = inc_local(ins);
    lemma_read_lowers(g, st, t, done, b, v);
    if let Ok((cur, s1)) = read(st.ssa, g.cfg, v, BlockId(b as u32)) {
        let m = LowerView { ssa: s1, ..st };
        let op = Op::Const(Val128::from_i32(inc_delta(ins)));
        lemma_node_tracks(g, m, t, done, b, op, Seq::empty(), Tag::I32, Effect::Pure);
        if let Ok((k, m1)) = m.noded(op, Seq::empty(), Tag::I32, Effect::Pure) {
            lemma_lowers_trans(g, st, m, m1, t, done, b);
            let both = seq![cur, k];
            lemma_node_tracks(g, m1, t, done, b, Op::Add, both, Tag::I32, Effect::Pure);
            if let Ok((r, m2)) = m1.noded(Op::Add, both, Tag::I32, Effect::Pure) {
                lemma_lowers_trans(g, st, m1, m2, t, done, b);
                lemma_stored_lowers(g, m2, t, done, b, v, r);
                lemma_lowers_trans(
                    g,
                    st,
                    m2,
                    LowerView { ssa: m2.ssa.wrote(v, BlockId(b as u32), r), ..m2 },
                    t,
                    done,
                    b,
                );
            }
        }
    }
}

proof fn lemma_branched_lowers(
    g: GraphView,
    st: LowerView,
    ctx: ContextView,
    t: Trace,
    done: Seq<bool>,
    b: int,
    n: int,
    op: Op,
    ins: Insn,
)
    requires
        lowers(g, st, t, done, b),
        0 <= n,
    ensures
        st.branched(ctx, n, op, ins) matches Ok(st1) ==> lowers_on(g, st, st1, t, done, b),
{
    lemma_emitted_lowers(g, st, t, done, b, n, op, Tag::I32, Effect::Pure, ins.pc);
    if let Ok(st1) = st.branched(ctx, n, op, ins) {
        let st0 = st.consumed(n, op, Tag::I32, Effect::Pure, ins.pc)->Ok_0;
        lemma_restacked(g, st0, st1, t, done, b);
        lemma_lowers_trans(g, st, st0, st1, t, done, b);
    }
}

/// Lowering an instruction keeps track.
pub proof fn lemma_lowered_lowers(
    g: GraphView,
    st: LowerView,
    ctx: ContextView,
    t: Trace,
    done: Seq<bool>,
    b: int,
    ins: Insn,
)
    requires
        lowers(g, st, t, done, b),
        g.cfg.preds.len() <= u32::MAX,
        ctx.cfg == g.cfg,
        ctx.block == BlockId(b as u32),
    ensures
        lowered(st, ctx, ins) matches Ok(st1) ==> lowers_on(g, st, st1, t, done, b),
{
    let pc = ins.pc;
    match lowering_of(ins) {
        Lowering::Const(v) => {
            lemma_emitted_lowers(
                g,
                st,
                t,
                done,
                b,
                0,
                Op::Const(v),
                v.tag(),
                Effect::Pure,
                pc,
            );
        },
        Lowering::PoolConstant => {
            lemma_emitted_lowers(
                g,
                st,
                t,
                done,
                b,
                0,
                Op::LoadString(ins.arg as u16),
                Tag::Ptr,
                Effect::ReadHeap,
                pc,
            );
            if let Some(v) = numeric_constant(ctx.pool, ins.arg) {
                lemma_emitted_lowers(
                    g,
                    st,
                    t,
                    done,
                    b,
                    0,
                    Op::Const(v),
                    v.tag(),
                    Effect::Pure,
                    pc,
                );
            }
        },
        Lowering::Load(v) => {
            lemma_loaded_lowers(g, st, ctx, t, done, b, v);
        },
        Lowering::Store(v) => {
            if st.stack.len() > 0 {
                let x = st.stack.last();
                assert(st.stack[st.stack.len() - 1] == x);
                lemma_stored_lowers(g, st, t, done, b, v, x);
                let m = LowerView { ssa: st.ssa.wrote(v, BlockId(b as u32), x), ..st };
                let d = m.dropped(1);
                assert forall|i: int| 0 <= i < d.stack.len() implies settled(
                    m.ssa,
                    with_nodes(t, m.nodes, g.cfg.level(BlockId(b as u32))),
                    #[trigger] d.stack[i],
                    g.cfg.level(BlockId(b as u32)),
                ) by {
                    assert(d.stack[i] == m.stack[i]);
                }
                lemma_restacked(g, m, d, t, done, b);
                lemma_lowers_trans(g, st, m, d, t, done, b);
                assert(lowered(st, ctx, ins) == Ok::<LowerView, IrError>(d));
            }
        },
        Lowering::Increment => {
            lemma_incremented_lowers(g, st, ctx, t, done, b, ins);
        },
        Lowering::Binary { op, ty, effect } => {
            lemma_emitted_lowers(g, st, t, done, b, 2, op, ty, effect, pc);
        },
        Lowering::Unary { op, ty, effect } => {
            lemma_emitted_lowers(g, st, t, done, b, 1, op, ty, effect, pc);
        },
        Lowering::Source { op, ty, effect } => {
            lemma_emitted_lowers(g, st, t, done, b, 0, op, ty, effect, pc);
        },
        Lowering::FieldRead { op, of_object, effect } => {
            if let Some(ty) = field_tag(ctx.pool, ins.arg as u16) {
                let n = if of_object {
                    1int
                } else {
                    0
                };
                lemma_emitted_lowers(g, st, t, done, b, n, op, ty, effect, pc);
            }
        },
        Lowering::FieldWrite { op, of_object, effect } => {
            let n = if of_object {
                2int
            } else {
                1
            };
            lemma_emitted_lowers(g, st, t, done, b, n, op, Tag::I32, effect, pc);
        },
        Lowering::BranchOnOne(op) => {
            lemma_branched_lowers(g, st, ctx, t, done, b, 1, op, ins);
        },
        Lowering::BranchOnTwo(op) => {
            lemma_branched_lowers(g, st, ctx, t, done, b, 2, op, ins);
        },
        Lowering::Call { op, has_receiver } => {
            if let Some((args, ret)) = callee_types(ctx.pool, ins.arg as u16) {
                let n = args.len() + if has_receiver {
                    1int
                } else {
                    0int
                };
                if let Some(ty) = result_tag(ret) {
                    lemma_emitted_lowers(g, st, t, done, b, n, op, ty, Effect::Extern, pc);
                }
            }
        },
        _ => {
            if let Ok(st1) = lowered(st, ctx, ins) {
                assert forall|i: int| 0 <= i < st1.stack.len() implies settled(
                    st.ssa,
                    with_nodes(t, st.nodes, g.cfg.level(BlockId(b as u32))),
                    #[trigger] st1.stack[i],
                    g.cfg.level(BlockId(b as u32)),
                ) by {
                    if i < st.stack.len() {
                        assert(st1.stack[i] == st.stack[i]);
                    } else {
                        assert(st1.stack[i] == st.stack[st.stack.len() - 1]);
                    }
                }
                lemma_restacked(g, st, st1, t, done, b);
            }
        },
    }
}

pub proof fn lemma_lowered_from_lowers(
    g: GraphView,
    st: LowerView,
    ctx: ContextView,
    t: Trace,
    done: Seq<bool>,
    b: int,
    insns: Seq<Insn>,
    k: int,
)
    requires
        lowers(g, st, t, done, b),
        g.cfg.preds.len() <= u32::MAX,
        ctx.cfg == g.cfg,
        ctx.block == BlockId(b as u32),
        0 <= k,
    ensures
        lowered_from(st, ctx, insns, k) matches Ok(st1) ==> lowers_on(g, st, st1, t, done, b),
    decreases insns.len() - k,
{
    if k < insns.len() {
        lemma_lowered_lowers(g, st, ctx, t, done, b, insns[k]);
        if let Ok(st1) = lowered(st, ctx, insns[k]) {
            lemma_lowered_from_lowers(g, st1, ctx, t, done, b, insns, k + 1);
            if let Ok(st2) = lowered_from(st1, ctx, insns, k + 1) {
                lemma_lowers_trans(g, st, st1, st2, t, done, b);
            }
        }
    }
}

pub proof fn lemma_entered_from_lowers(
    g: GraphView,
    st: LowerView,
    ctx: ContextView,
    t: Trace,
    done: Seq<bool>,
    b: int,
    s: int,
    depth: int,
)
    requires
        lowers(g, st, t, done, b),
        g.cfg.preds.len() <= u32::MAX,
        ctx.cfg == g.cfg,
        ctx.block == BlockId(b as u32),
    ensures
        entered_from(st, ctx, s, depth) matches Ok(st1) ==> lowers_on(g, st, st1, t, done, b),
    decreases depth - s,
{
    if s < depth {
        if let Ok(var) = stack_variable(ctx.max_locals, s) {
            lemma_loaded_lowers(g, st, ctx, t, done, b, var);
            if let Ok(st1) = st.loaded(ctx, var) {
                lemma_entered_from_lowers(g, st1, ctx, t, done, b, s + 1, depth);
                if let Ok(st2) = entered_from(st1, ctx, s + 1, depth) {
                    lemma_lowers_trans(g, st, st1, st2, t, done, b);
                }
            }
        }
    }
}

/// The state with the operand stack that a block is left with noted.
pub proof fn lemma_left_from_lowers(
    g: GraphView,
    st: LowerView,
    ctx: ContextView,
    t: Trace,
    done: Seq<bool>,
    b: int,
    s: int,
)
    requires
        lowers(g, st, t, done, b),
        ctx.cfg == g.cfg,
        ctx.block == BlockId(b as u32),
        0 <= s,
    ensures
        left_from(st.ssa, ctx, st.stack, s) matches Ok(s1) ==> lowers_on(
            g,
            st,
            LowerView { ssa: s1, ..st },
            t,
            done,
            b,
        ),
    decreases st.stack.len() - s,
{
    if s < st.stack.len() {
        if let Ok(var) = stack_variable(ctx.max_locals, s) {
            lemma_stored_lowers(g, st, t, done, b, var, st.stack[s]);
            let m = LowerView { ssa: st.ssa.wrote(var, ctx.block, st.stack[s]), ..st };
            lemma_left_from_lowers(g, m, ctx, t, done, b, s + 1);
            if let Ok(s1) = left_from(m.ssa, ctx, st.stack, s + 1) {
                lemma_lowers_trans(g, st, m, LowerView { ssa: s1, ..st }, t, done, b);
            }
        }
    }
}

/// The start of lowering a block.
pub open spec fn block_start(s: SsaView) -> LowerView {
    LowerView { ssa: s, nodes: Seq::empty(), stack: Seq::empty(), term: None }
}

pub proof fn lemma_start_lowers(
    g: GraphView,
    s: SsaView,
    t: Trace,
    done: Seq<bool>,
    b: int,
)
    requires
        tracks(g, s, t, done, b),
        0 <= b < g.cfg.preds.len(),
        !done[b],
        forall|w: u16| !t.code.contains_key(#[trigger] key(w, b)),
    ensures
        lowers(g, block_start(s), t, done, b),
{
    let n = g.cfg.level(BlockId(b as u32));
    assert(with_nodes(t, Seq::empty(), n) =~= t) by {
        assert(with_nodes(t, Seq::empty(), n).homes =~= t.homes);
    }
}

pub proof fn lemma_block_lowers(
    g: GraphView,
    s: SsaView,
    ctx: ContextView,
    t: Trace,
    done: Seq<bool>,
    b: int,
    insns: Seq<Insn>,
    depth: int,
)
    requires
        tracks(g, s, t, done, b),
        0 <= b < g.cfg.preds.len(),
        !done[b],
        forall|w: u16| !t.code.contains_key(#[trigger] key(w, b)),
        g.cfg.preds.len() <= u32::MAX,
        ctx.cfg == g.cfg,
        ctx.block == BlockId(b as u32),
    ensures
        block_lowered(s, ctx, insns, depth) matches Ok(l) ==> lowers_on(
            g,
            block_start(s),
            l,
            t,
            done,
            b,
        ),
{
    let start = block_start(s);
    lemma_start_lowers(g, s, t, done, b);
    lemma_entered_from_lowers(g, start, ctx, t, done, b, 0, depth);
    if let Ok(st) = entered_from(start, ctx, 0, depth) {
        lemma_lowered_from_lowers(g, st, ctx, t, done, b, insns, 0);
        if let Ok(st1) = lowered_from(st, ctx, insns, 0) {
            lemma_lowers_trans(g, start, st, st1, t, done, b);
            lemma_left_from_lowers(g, st1, ctx, t, done, b, 0);
            if let Ok(s1) = left_from(st1.ssa, ctx, st1.stack, 0) {
                lemma_lowers_trans(g, start, st1, LowerView { ssa: s1, ..st1 }, t, done, b);
            }
        }
    }
}

/// Whether a key belongs to block `b` and is defined.
pub open spec fn own_key(s: SsaView, b: int, k: u64) -> bool {
    s.defs.contains_key(k) && exists|v: u16| k == #[trigger] key(v, b)
}

/// A trace with the definitions that the code of block `b` left.
pub open spec fn with_code(t: Trace, s: SsaView, b: int) -> Trace {
    Trace {
        code: Map::new(
            |k: u64| t.code.contains_key(k) || own_key(s, b, k),
            |k: u64|
                if own_key(s, b, k) {
                    s.defs[k]
                } else {
                    t.code[k]
                },
        ),
        ..t
    }
}

/// A block begins to be processed.
pub proof fn lemma_begun_tracks(g: GraphView, s: SsaView, t: Trace, done: Seq<bool>, b: int)
    requires
        tracks(g, s, t, done, -1),
        0 <= b < g.cfg.preds.len(),
        g.cfg.preds[b].len() <= 1 ==> s.sealed[b],
        b == g.entry.0 || g.cfg.preds[b].len() > 0,
    ensures
        tracks(g, s, t, done, b),
{
    let total = g.cfg.preds.len();
    assert forall|c: int| 0 <= c < total && #[trigger] begun(done, b, c) implies {
        &&& g.cfg.preds[c].len() <= 1 ==> s.sealed[c]
        &&& c == g.entry.0 || g.cfg.preds[c].len() > 0
    } by {
        if c != b {
            assert(begun(done, -1, c));
        }
    }
    assert forall|i: int| 0 <= i < s.phis.len() implies #[trigger] phi_ok(g, s, t, done, b, i) by {
        assert(phi_ok(g, s, t, done, -1, i));
    }
    assert forall|c: int, v: u16|
        0 <= c < total && s.defs.contains_key(#[trigger] key(v, c)) implies definition_ok(
        g,
        s,
        t,
        done,
        b,
        c,
        v,
    ) by {
        assert(definition_ok(g, s, t, done, -1, c, v));
    }
}

/// A block is processed: its own definitions are what its code left.
pub proof fn lemma_finished_tracks(g: GraphView, s: SsaView, t: Trace, done: Seq<bool>, b: int)
    requires
        tracks(g, s, t, done, b),
        0 <= b < g.cfg.preds.len(),
        !done[b],
        forall|w: u16| !t.code.contains_key(#[trigger] key(w, b)),
    ensures
        tracks(g, s, with_code(t, s, b), done.update(b, true), -1),
        forall|c: int, v: u16|
            0 <= c < g.cfg.preds.len() ==> (with_code(t, s, b).code.contains_key(
                #[trigger] key(v, c),
            ) <==> if c == b {
                s.defs.contains_key(key(v, c))
            } else {
                t.code.contains_key(key(v, c))
            }),
{
    let total = g.cfg.preds.len();
    let more = done.update(b, true);
    let t1 = with_code(t, s, b);
    assert forall|c: int, v: u16| 0 <= c < total implies (t1.code.contains_key(
        #[trigger] key(v, c),
    ) <==> if c == b {
        s.defs.contains_key(key(v, c))
    } else {
        t.code.contains_key(key(v, c))
    }) && (t1.code.contains_key(key(v, c)) ==> t1.code[key(v, c)] == s.defs[key(v, c)]) by {
        if own_key(s, b, key(v, c)) {
            let w = choose|w: u16| key(v, c) == #[trigger] key(w, b);
            lemma_key(v, c, w, b);
        }
    }
    assert forall|c: int| 0 <= c < total && #[trigger] s.sealed[c] implies sealed_well(
        g,
        more,
        c,
    ) by {
        assert(sealed_well(g, done, c));
        assert forall|k: int| 0 <= k < g.cfg.preds[c].len() implies more[(
        #[trigger] g.cfg.preds[c][k]).0 as int] by {
            assert(g.cfg.preds[c][k].0 < total);
            assert(done[g.cfg.preds[c][k].0 as int]);
        }
    }
    assert forall|c: int| 0 <= c < total && #[trigger] begun(more, -1, c) implies {
        &&& g.cfg.preds[c].len() <= 1 ==> s.sealed[c]
        &&& c == g.entry.0 || g.cfg.preds[c].len() > 0
    } by {
        assert(begun(done, b, c));
    }
    assert forall|i: int| 0 <= i < s.phis.len() implies #[trigger] phi_ok(
        g,
        s,
        t1,
        more,
        -1,
        i,
    ) by {
        assert(phi_ok(g, s, t, done, b, i));
    }
    assert forall|i: int, j: int|
        0 <= i < s.phis.len() && 0 <= j < s.phis[i].sources.len() implies #[trigger] operand_ok(
        g,
        s,
        more,
        i,
        j,
    ) by {
        assert(operand_ok(g, s, done, i, j));
    }
    assert forall|c: int, v: u16|
        0 <= c < total && s.defs.contains_key(#[trigger] key(v, c)) implies definition_ok(
        g,
        s,
        t1,
        more,
        -1,
        c,
        v,
    ) by {
        assert(definition_ok(g, s, t, done, b, c, v));
        if c != b && done[c] {
            assert(t.code.contains_key(key(v, c)) || through(
                g,
                s,
                t,
                c,
                v,
                s.defs[key(v, c)],
            ));
            if through(g, s, t, c, v, s.defs[key(v, c)]) {
                assert(through(g, s, t1, c, v, s.defs[key(v, c)]));
            }
        }
    }
}

} // verus!
