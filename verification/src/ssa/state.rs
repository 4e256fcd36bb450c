//! SSA-construction state: per-block variable definitions, sealed blocks and incomplete φ place
//! φ nodes at merges and loop headers without a separate dominance pass.

use vstd::prelude::*;
use std::collections::HashMap;
use crate::ids::{BlockId, ValId};
use crate::ssa::cfg::{ids_below, inner_views};
use crate::ssa::error::IrError;

verus! {

/// A φ under construction: its owning block, the variable it merges, its value, and its operands.
pub struct PhiDef {
    pub block: BlockId,
    pub var: u16,
    pub val: ValId,
    pub sources: Vec<(BlockId, ValId)>,
}

/// What a φ under construction holds.
#[verifier::ext_equal]
pub struct PhiDefView {
    pub block: BlockId,
    pub var: u16,
    pub val: ValId,
    pub sources: Seq<(BlockId, ValId)>,
}

impl View for PhiDef {
    type V = PhiDefView;

    open spec fn view(&self) -> PhiDefView {
        PhiDefView { block: self.block, var: self.var, val: self.val, sources: self.sources@ }
    }
}

impl PhiDefView {
    /// Every value has one of `n` slots, and the block is one of `blocks`.
    pub open spec fn fits(self, n: int, blocks: int) -> bool {
        &&& self.block.0 < blocks
        &&& self.val.fits(n)
        &&& forall|i: int| 0 <= i < self.sources.len() ==> (#[trigger] self.sources[i]).1.fits(n)
    }
}

/// What a list of φ under construction holds.
pub open spec fn phi_def_views(s: Seq<PhiDef>) -> Seq<PhiDefView> {
    Seq::new(s.len(), |i: int| s[i]@)
}

/// The predecessors of each block, and the place of each in the order of processing.
pub struct Cfg {
    pub preds: Vec<Vec<BlockId>>,
    pub rank: Ghost<Seq<nat>>,
}

/// What a graph holds.
#[verifier::ext_equal]
pub struct CfgView {
    pub preds: Seq<Seq<BlockId>>,
    pub rank: Seq<nat>,
}

impl View for Cfg {
    type V = CfgView;

    open spec fn view(&self) -> CfgView {
        CfgView { preds: inner_views(self.preds@), rank: self.rank@ }
    }
}

impl CfgView {
    /// Predecessors are blocks, and every block has a place, at most the number of blocks.
    pub open spec fn wf(self) -> bool {
        &&& ids_below(self.preds, self.preds.len() as int)
        &&& self.rank.len() == self.preds.len()
        &&& forall|b: int| 0 <= b < self.rank.len() ==> #[trigger] self.rank[b] <= self.rank.len()
    }

    /// A block's place, at most the number of blocks.
    pub open spec fn level(self, b: BlockId) -> nat {
        if b.0 < self.rank.len() && self.rank[b.0 as int] <= self.rank.len() {
            self.rank[b.0 as int]
        } else {
            self.rank.len()
        }
    }

    /// Whether the only predecessor of a block, if it has just one, has an earlier place.
    pub open spec fn descends(self, b: int) -> bool {
        self.preds[b].len() == 1 ==> self.level(self.preds[b][0]) < self.level(BlockId(b as u32))
    }
}

/// SSA-construction state.
pub struct Ssa {
    current_def: HashMap<u64, ValId>,
    phis: Vec<PhiDef>,
    incomplete: Vec<Vec<usize>>,
    sealed: Vec<bool>,
    next: u16,
}

/// What the state holds.
#[verifier::ext_equal]
pub struct SsaView {
    /// The current definition of each variable in each block.
    pub defs: Map<u64, ValId>,
    pub phis: Seq<PhiDefView>,
    /// Per block, the φ whose operands wait for the block to be sealed.
    pub incomplete: Seq<Seq<usize>>,
    /// Per block, whether all its predecessors are known.
    pub sealed: Seq<bool>,
    /// The next value.
    pub next: u16,
}

impl View for Ssa {
    type V = SsaView;

    closed spec fn view(&self) -> SsaView {
        SsaView {
            defs: self.current_def@,
            phis: phi_def_views(self.phis@),
            incomplete: inner_views(self.incomplete@),
            sealed: self.sealed@,
            next: self.next,
        }
    }
}

/// The key of a variable in a block.
pub open spec fn var_key(var: u16, block: BlockId) -> u64 {
    (block.0 * 0x1_0000 + var) as u64
}

impl SsaView {
    /// Nothing defined, nothing sealed.
    pub open spec fn fresh_state(blocks: nat) -> SsaView {
        SsaView {
            defs: Map::empty(),
            phis: Seq::empty(),
            incomplete: Seq::new(blocks, |i: int| Seq::<usize>::empty()),
            sealed: Seq::new(blocks, |i: int| false),
            next: 0,
        }
    }

    /// Every value in use has been handed out, every φ belongs to a block, and following the only
    /// predecessor of a sealed block leads to an earlier one.
    pub open spec fn ok(self, cfg: CfgView) -> bool {
        &&& cfg.wf()
        &&& self.incomplete.len() == cfg.preds.len()
        &&& self.sealed.len() == cfg.preds.len()
        &&& forall|k: u64| #[trigger]
            self.defs.contains_key(k) ==> self.defs[k].fits(self.next as int)
        &&& forall|i: int|
            0 <= i < self.phis.len() ==> (#[trigger] self.phis[i]).fits(
                self.next as int,
                cfg.preds.len() as int,
            )
        &&& forall|b: int, j: int|
            0 <= b < self.incomplete.len() && 0 <= j < self.incomplete[b].len() ==> (
            #[trigger] self.incomplete[b][j]) < self.phis.len()
        &&& forall|b: int|
            0 <= b < self.sealed.len() && (#[trigger] self.sealed[b]) ==> cfg.descends(b)
    }

    /// A new value.
    pub open spec fn fresh(self) -> Result<(ValId, SsaView), IrError> {
        if self.next == u16::MAX {
            Err(IrError::TooManyValues)
        } else {
            Ok(
                (
                    ValId { scope_level: 0, offset: self.next },
                    SsaView { next: (self.next + 1) as u16, ..self },
                ),
            )
        }
    }

    /// With a variable defined in a block.
    pub open spec fn wrote(self, var: u16, block: BlockId, val: ValId) -> SsaView {
        SsaView { defs: self.defs.insert(var_key(var, block), val), ..self }
    }

    /// With a new φ, without operands.
    pub open spec fn with_phi(self, block: BlockId, var: u16) -> Result<
        (ValId, SsaView),
        IrError,
    > {
        match self.fresh() {
            Err(e) => Err(e),
            Ok((val, s)) => Ok(
                (
                    val,
                    SsaView {
                        phis: s.phis.push(PhiDefView { block, var, val, sources: Seq::empty() }),
                        ..s
                    },
                ),
            ),
        }
    }

    /// With the φ made last waiting for its block to be sealed.
    pub open spec fn waiting(self, block: BlockId) -> SsaView {
        let b = block.0 as int;
        SsaView {
            incomplete: self.incomplete.update(
                b,
                self.incomplete[b].push((self.phis.len() - 1) as usize),
            ),
            ..self
        }
    }

    /// With one more operand of a φ.
    pub open spec fn with_source(self, idx: int, pred: BlockId, val: ValId) -> SsaView {
        let phi = self.phis[idx];
        SsaView {
            phis: self.phis.update(
                idx,
                PhiDefView { sources: phi.sources.push((pred, val)), ..phi },
            ),
            ..self
        }
    }
}

/// The value of a variable at the end of a block, as defined there or else by its predecessors: an
/// unsealed block gets a φ whose operands come later, a block with one predecessor looks there, and
/// a merge gets a φ. The state changes as definitions are noted and φ are made.
///
/// Following only predecessors always leads to an earlier block and values are never taken back;
/// the two tests of that only make the recursion well-founded.
pub open spec fn read(s: SsaView, cfg: CfgView, var: u16, block: BlockId) -> Result<
    (ValId, SsaView),
    IrError,
>
    decreases 0x1_0000 - s.next, cfg.level(block), 0int,
{
    let key = var_key(var, block);
    let b = block.0 as int;
    if s.defs.contains_key(key) {
        Ok((s.defs[key], s))
    } else if !s.sealed[b] {
        match s.with_phi(block, var) {
            Err(e) => Err(e),
            Ok((val, s1)) => Ok((val, s1.waiting(block).wrote(var, block, val))),
        }
    } else if cfg.preds[b].len() == 0 {
        Err(IrError::BadLocalRead { index: var as usize })
    } else if cfg.preds[b].len() == 1 {
        if cfg.level(cfg.preds[b][0]) < cfg.level(block) {
            match read(s, cfg, var, cfg.preds[b][0]) {
                Err(e) => Err(e),
                Ok((val, s1)) => Ok((val, s1.wrote(var, block, val))),
            }
        } else {
            Err(IrError::BadLocalRead { index: var as usize })
        }
    } else {
        match s.with_phi(block, var) {
            Err(e) => Err(e),
            Ok((val, s1)) => match operands(
                s1.wrote(var, block, val),
                cfg,
                s.phis.len() as int,
                var,
                cfg.preds[b],
                0,
            ) {
                Err(e) => Err(e),
                Ok(s2) => Ok((val, s2.wrote(var, block, val))),
            },
        }
    }
}

/// The state after a φ got as operands the values of its variable in the blocks `from`, from
/// position `k` on.
pub open spec fn operands(
    s: SsaView,
    cfg: CfgView,
    idx: int,
    var: u16,
    from: Seq<BlockId>,
    k: int,
) -> Result<SsaView, IrError>
    decreases 0x1_0000 - s.next, cfg.rank.len() + 1, from.len() - k,
{
    if k >= from.len() {
        Ok(s)
    } else {
        match read(s, cfg, var, from[k]) {
            Err(e) => Err(e),
            Ok((val, s1)) => if s1.next < s.next {
                Err(IrError::TooManyValues)
            } else {
                operands(s1.with_source(idx, from[k], val), cfg, idx, var, from, k + 1)
            },
        }
    }
}

/// The state after the φ of a list, from position `j` on, got their operands.
pub open spec fn completed(s: SsaView, cfg: CfgView, list: Seq<usize>, j: int) -> Result<
    SsaView,
    IrError,
>
    decreases list.len() - j,
{
    if j >= list.len() {
        Ok(s)
    } else {
        let idx = list[j] as int;
        match operands(
            s,
            cfg,
            idx,
            s.phis[idx].var,
            cfg.preds[s.phis[idx].block.0 as int],
            0,
        ) {
            Err(e) => Err(e),
            Ok(s1) => completed(s1, cfg, list, j + 1),
        }
    }
}

/// The state after a block was sealed: its incomplete φ are completed.
pub open spec fn seal(s: SsaView, cfg: CfgView, block: BlockId) -> Result<SsaView, IrError> {
    let b = block.0 as int;
    match completed(
        SsaView { incomplete: s.incomplete.update(b, Seq::empty()), ..s },
        cfg,
        s.incomplete[b],
        0,
    ) {
        Err(e) => Err(e),
        Ok(s1) => Ok(SsaView { sealed: s1.sealed.update(b, true), ..s1 }),
    }
}

fn key_of(var: u16, block: BlockId) -> (k: u64)
    ensures
        k == var_key(var, block),
{
    block.0 as u64 * 0x1_0000 + var as u64
}

impl Ssa {
    /// Nothing defined, nothing sealed.
    pub(crate) fn new(blocks: usize) -> (s: Ssa)
        ensures
            s@ == SsaView::fresh_state(blocks as nat),
    {
        broadcast use vstd::std_specs::hash::group_hash_axioms;

        let mut incomplete: Vec<Vec<usize>> = Vec::new();
        let mut sealed: Vec<bool> = Vec::new();
        while sealed.len() < blocks
            invariant
                sealed@.len() == incomplete@.len() <= blocks,
                forall|i: int| 0 <= i < sealed@.len() ==> !sealed@[i],
                forall|i: int|
                    0 <= i < incomplete@.len() ==> (#[trigger] incomplete@[i])@ == Seq::<
                        usize,
                    >::empty(),
            decreases blocks - sealed@.len(),
        {
            sealed.push(false);
            incomplete.push(Vec::new());
        }
        let s = Ssa { current_def: HashMap::new(), phis: Vec::new(), incomplete, sealed, next: 0 };
        assert(s@ =~= SsaView::fresh_state(blocks as nat));
        s
    }

    /// The next value's number: how many there are.
    pub(crate) fn count(&self) -> (n: u16)
        ensures
            n == self@.next,
    {
        self.next
    }

    /// The φ made so far.
    pub(crate) fn phi_defs(&self) -> (r: &Vec<PhiDef>)
        ensures
            phi_def_views(r@) == self@.phis,
    {
        &self.phis
    }

    /// Whether a block is sealed.
    pub(crate) fn is_sealed(&self, b: BlockId) -> (r: bool)
        requires
            b.0 < self@.sealed.len(),
        ensures
            r == self@.sealed[b.0 as int],
    {
        self.sealed[b.0 as usize]
    }

    pub(crate) fn fresh(&mut self) -> (r: Result<ValId, IrError>)
        ensures
            match old(self)@.fresh() {
                Ok((v, s)) => r == Ok::<ValId, IrError>(v) && final(self)@ == s,
                Err(e) => r == Err::<ValId, IrError>(e),
            },
            forall|cfg: CfgView| old(self)@.ok(cfg) && r is Ok ==> #[trigger] final(self)@.ok(cfg),
    {
        let id = ValId { scope_level: 0, offset: self.next };
        match self.next.checked_add(1) {
            Some(n) => {
                self.next = n;
                Ok(id)
            },
            None => Err(IrError::TooManyValues),
        }
    }

    pub(crate) fn write_variable(&mut self, var: u16, block: BlockId, val: ValId)
        requires
            val.fits(old(self)@.next as int),
        ensures
            final(self)@ == old(self)@.wrote(var, block, val),
            forall|cfg: CfgView| old(self)@.ok(cfg) ==> #[trigger] final(self)@.ok(cfg),
    {
        broadcast use vstd::std_specs::hash::group_hash_axioms;

        self.current_def.insert(key_of(var, block), val);
        assert(self@ =~= old(self)@.wrote(var, block, val));
    }

    pub(crate) fn read_variable(&mut self, cfg: &Cfg, var: u16, block: BlockId) -> (r: Result<
        ValId,
        IrError,
    >)
        requires
            old(self)@.ok(cfg@),
            block.0 < cfg@.preds.len(),
        ensures
            match read(old(self)@, cfg@, var, block) {
                Ok((v, s)) => r == Ok::<ValId, IrError>(v) && final(self)@ == s,
                Err(e) => r == Err::<ValId, IrError>(e),
            },
            r matches Ok(v) ==> final(self)@.ok(cfg@) && v.fits(final(self)@.next as int)
                && final(self)@.next >= old(self)@.next && final(self)@.sealed == old(self)@.sealed
                && final(self)@.phis.len() >= old(self)@.phis.len(),
        decreases 0x1_0000 - old(self)@.next, cfg@.level(block), 1int,
    {
        broadcast use vstd::std_specs::hash::group_hash_axioms;

        if let Some(v) = self.current_def.get(&key_of(var, block)) {
            return Ok(*v);
        }
        self.read_variable_recursive(cfg, var, block)
    }

    fn read_variable_recursive(&mut self, cfg: &Cfg, var: u16, block: BlockId) -> (r: Result<
        ValId,
        IrError,
    >)
        requires
            old(self)@.ok(cfg@),
            block.0 < cfg@.preds.len(),
            !old(self)@.defs.contains_key(var_key(var, block)),
        ensures
            match read(old(self)@, cfg@, var, block) {
                Ok((v, s)) => r == Ok::<ValId, IrError>(v) && final(self)@ == s,
                Err(e) => r == Err::<ValId, IrError>(e),
            },
            r matches Ok(v) ==> final(self)@.ok(cfg@) && v.fits(final(self)@.next as int)
                && final(self)@.next >= old(self)@.next && final(self)@.sealed == old(self)@.sealed
                && final(self)@.phis.len() >= old(self)@.phis.len(),
        decreases 0x1_0000 - old(self)@.next, cfg@.level(block), 0int,
    {
        let b: usize = block.0 as usize;
        assert(cfg@.preds[b as int] == cfg.preds@[b as int]@);
        if !self.sealed[b] {
            let val = self.new_phi(cfg, block, var)?;
            let idx: usize = self.phis.len() - 1;
            let ghost mid = self@;
            self.incomplete[b].push(idx);
            proof {
                assert(self@ =~= mid.waiting(block));
                assert(self@.ok(cfg@));
            }
            self.write_variable(var, block, val);
            return Ok(val);
        }
        let n: usize = cfg.preds[b].len();
        if n == 0 {
            return Err(IrError::BadLocalRead { index: var as usize });
        }
        if n == 1 {
            let p = cfg.preds[b][0];
            assert(cfg@.preds[b as int][0].0 < cfg@.preds.len());
            assert(cfg@.descends(b as int));
            let val = self.read_variable(cfg, var, p)?;
            self.write_variable(var, block, val);
            return Ok(val);
        }
        let val = self.new_phi(cfg, block, var)?;
        let idx: usize = self.phis.len() - 1;
        self.write_variable(var, block, val);
        self.add_phi_operands(cfg, idx)?;
        self.write_variable(var, block, val);
        Ok(val)
    }

    fn new_phi(&mut self, cfg: &Cfg, block: BlockId, var: u16) -> (r: Result<ValId, IrError>)
        requires
            old(self)@.ok(cfg@),
            block.0 < cfg@.preds.len(),
        ensures
            match old(self)@.with_phi(block, var) {
                Ok((v, s)) => r == Ok::<ValId, IrError>(v) && final(self)@ == s,
                Err(e) => r == Err::<ValId, IrError>(e),
            },
            r matches Ok(v) ==> final(self)@.ok(cfg@) && v.fits(final(self)@.next as int)
                && final(self).phis@.len() == final(self)@.phis.len(),
    {
        let val = self.fresh()?;
        let ghost mid = self@;
        self.phis.push(PhiDef { block, var, val, sources: Vec::new() });
        proof {
            assert(self@.phis =~= mid.phis.push(
                PhiDefView { block, var, val, sources: Seq::empty() },
            ));
            assert(self@.ok(cfg@));
        }
        Ok(val)
    }

    fn add_phi_operands(&mut self, cfg: &Cfg, idx: usize) -> (r: Result<(), IrError>)
        requires
            old(self)@.ok(cfg@),
            idx < old(self)@.phis.len(),
        ensures
            ({
                let phi = old(self)@.phis[idx as int];
                match operands(
                    old(self)@,
                    cfg@,
                    idx as int,
                    phi.var,
                    cfg@.preds[phi.block.0 as int],
                    0,
                ) {
                    Ok(s) => r is Ok && final(self)@ == s,
                    Err(e) => r is Err && r->Err_0 == e,
                }
            }),
            r is Ok ==> final(self)@.ok(cfg@) && final(self)@.next >= old(self)@.next && final(self)@.sealed == old(self)@.sealed && final(self)@.phis.len() >= old(self)@.phis.len(),
        decreases 0x1_0000 - old(self)@.next, cfg@.rank.len() + 1, 0int,
    {
        let block = self.phis[idx].block;
        let var: u16 = self.phis[idx].var;
        assert(old(self)@.phis[idx as int].fits(
            old(self)@.next as int,
            cfg@.preds.len() as int,
        ));
        let b: usize = block.0 as usize;
        assert(cfg@.preds[b as int] == cfg.preds@[b as int]@);
        let mut k: usize = 0;
        while k < cfg.preds[b].len()
            invariant
                self@.ok(cfg@),
                idx < old(self)@.phis.len(),
                var == old(self)@.phis[idx as int].var,
                b == old(self)@.phis[idx as int].block.0 as int,
                b < cfg@.preds.len(),
                cfg@.preds[b as int] == cfg.preds@[b as int]@,
                k <= cfg@.preds[b as int].len(),
                idx < self@.phis.len(),
                self@.next >= old(self)@.next,
                self@.sealed == old(self)@.sealed,
                self@.phis.len() >= old(self)@.phis.len(),
                operands(old(self)@, cfg@, idx as int, var, cfg@.preds[b as int], 0) == operands(
                    self@,
                    cfg@,
                    idx as int,
                    var,
                    cfg@.preds[b as int],
                    k as int,
                ),
            decreases cfg@.preds[b as int].len() - k,
        {
            let p = cfg.preds[b][k];
            assert(cfg@.preds[b as int][k as int].0 < cfg@.preds.len());
            let v = self.read_variable(cfg, var, p)?;
            let ghost mid = self@;
            self.phis[idx].sources.push((p, v));
            proof {
                assert(self@ =~= mid.with_source(idx as int, p, v));
                assert forall|i: int| 0 <= i < self@.phis.len() implies (
                #[trigger] self@.phis[i]).fits(self@.next as int, cfg@.preds.len() as int) by {
                    assert(mid.phis[i].fits(mid.next as int, cfg@.preds.len() as int));
                }
                assert(self@.ok(cfg@));
            }
            k += 1;
        }
        Ok(())
    }

    /// All predecessors of a block are known: complete its φ.
    pub(crate) fn seal_block(&mut self, cfg: &Cfg, block: BlockId) -> (r: Result<(), IrError>)
        requires
            old(self)@.ok(cfg@),
            block.0 < cfg@.preds.len(),
            cfg@.descends(block.0 as int),
        ensures
            match seal(old(self)@, cfg@, block) {
                Ok(s) => r is Ok && final(self)@ == s,
                Err(e) => r is Err && r->Err_0 == e,
            },
            r is Ok ==> final(self)@.ok(cfg@) && final(self)@.next >= old(self)@.next && final(self)@.sealed == old(self)@.sealed.update(block.0 as int, true),
    {
        let b: usize = block.0 as usize;
        let mut list: Vec<usize> = Vec::new();
        assert(old(self)@.incomplete[b as int] == self.incomplete@[b as int]@);
        std::mem::swap(&mut self.incomplete[b], &mut list);
        let ghost start = self@;
        proof {
            assert(list@ == old(self)@.incomplete[b as int]);
            assert(start =~= (SsaView {
                incomplete: old(self)@.incomplete.update(b as int, Seq::empty()),
                ..old(self)@
            }));
            assert forall|c: int, j: int|
                0 <= c < self@.incomplete.len() && 0 <= j < self@.incomplete[c].len() implies (
            #[trigger] self@.incomplete[c][j]) < self@.phis.len() by {
                assert(c != b);
                assert(old(self)@.incomplete[c][j] < old(self)@.phis.len());
            }
            assert(self@.ok(cfg@));
            assert forall|j: int| 0 <= j < list@.len() implies (#[trigger] list@[j])
                < self@.phis.len() by {
                assert(old(self)@.incomplete[b as int][j] < old(self)@.phis.len());
            }
        }
        let mut j: usize = 0;
        while j < list.len()
            invariant
                self@.ok(cfg@),
                b == block.0 as int,
                list@ == old(self)@.incomplete[b as int],
                start == (SsaView {
                    incomplete: old(self)@.incomplete.update(b as int, Seq::empty()),
                    ..old(self)@
                }),
                j <= list@.len(),
                forall|i: int| 0 <= i < list@.len() ==> (#[trigger] list@[i]) < self@.phis.len(),
                self@.next >= old(self)@.next,
                self@.sealed == old(self)@.sealed,
                completed(start, cfg@, list@, 0) == completed(self@, cfg@, list@, j as int),
            decreases list@.len() - j,
        {
            self.add_phi_operands(cfg, list[j])?;
            j += 1;
        }
        let ghost mid = self@;
        self.sealed.set(b, true);
        proof {
            assert(self@ =~= (SsaView { sealed: mid.sealed.update(b as int, true), ..mid }));
            assert(self@.ok(cfg@));
        }
        Ok(())
    }
}

} // verus!
