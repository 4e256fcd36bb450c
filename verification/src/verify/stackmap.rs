//! `StackMapTable` decoding into per-offset frames. Locals are produced in the slot model
//! (category-2 types expand to `[T, Top]`); the operand stack stays in the item model (one entry
//! per value).

use vstd::prelude::*;
use std::collections::BTreeMap;
use crate::classfile::reader::be16;
use crate::verify::error::VerifyError;
use crate::verify::vtype::{expand_to_slots, expanded, VType};

verus! {

/// A verification frame at a bytecode offset.
#[derive(Debug, Clone, PartialEq, Eq)]
pub struct Frame {
    /// Slot model: category-2 locals occupy two entries (`[value, Top]`).
    pub locals: Vec<VType>,
    /// Item model: one entry per value (a `long`/`double` is a single stack item).
    pub stack: Vec<VType>,
}

/// What a frame holds.
#[verifier::ext_equal]
pub struct FrameView {
    pub locals: Seq<VType>,
    pub stack: Seq<VType>,
}

impl View for Frame {
    type V = FrameView;

    open spec fn view(&self) -> FrameView {
        FrameView { locals: self.locals@, stack: self.stack@ }
    }
}

/// The frames of a map, by offset.
pub open spec fn frame_views(m: Map<u32, Frame>) -> Map<u32, FrameView> {
    m.map_values(|f: Frame| f@)
}

/// The verification type at `i`, and the position behind it.
pub open spec fn vti_at(b: Seq<u8>, i: int) -> Option<(VType, int)> {
    if i >= b.len() {
        None
    } else {
        match b[i] {
            0u8 => Some((VType::Top, i + 1)),
            1u8 => Some((VType::Int, i + 1)),
            2u8 => Some((VType::Float, i + 1)),
            3u8 => Some((VType::Double, i + 1)),
            4u8 => Some((VType::Long, i + 1)),
            5u8 => Some((VType::Null, i + 1)),
            6u8 => Some((VType::UninitializedThis, i + 1)),
            7u8 => if i + 2 < b.len() {
                Some((VType::Reference, i + 3))
            } else {
                None
            },
            8u8 => if i + 2 < b.len() {
                Some((VType::Uninitialized(be16(b, i + 1) as u32), i + 3))
            } else {
                None
            },
            _ => None,
        }
    }
}

/// `items`, and `n` more from `i` on, with the position behind them.
pub open spec fn vtis_from(b: Seq<u8>, i: int, n: nat, items: Seq<VType>) -> Option<
    (Seq<VType>, int),
>
    decreases n,
{
    if n == 0 {
        Some((items, i))
    } else {
        match vti_at(b, i) {
            None => None,
            Some((t, j)) => vtis_from(b, j, (n - 1) as nat, items.push(t)),
        }
    }
}

/// One entry of a stack map: how far it lies behind the one before, and the frame it leaves.
pub struct Entry {
    pub delta: int,
    /// Locals, in the item model.
    pub items: Seq<VType>,
    pub stack: Seq<VType>,
    /// Position behind the entry.
    pub next: int,
}

/// The entry at `i`, given the locals of the frame before. Entry kinds: same locals (0-63, 251),
/// same locals and one stack item (64-127, 247), some locals chopped (248-250) or appended
/// (252-254), or everything spelled out (255).
pub open spec fn entry_at(b: Seq<u8>, i: int, items: Seq<VType>) -> Option<Entry> {
    if i >= b.len() {
        None
    } else {
        let kind = b[i];
        if kind <= 63 {
            Some(Entry { delta: kind as int, items, stack: Seq::empty(), next: i + 1 })
        } else if kind <= 127 {
            match vti_at(b, i + 1) {
                None => None,
                Some((t, next)) => Some(Entry { delta: kind - 64, items, stack: seq![t], next }),
            }
        } else if kind < 247 || i + 2 >= b.len() {
            None
        } else {
            let delta = be16(b, i + 1) as int;
            if kind == 247 {
                match vti_at(b, i + 3) {
                    None => None,
                    Some((t, next)) => Some(Entry { delta, items, stack: seq![t], next }),
                }
            } else if kind <= 251 {
                let chopped = 251 - kind;
                if chopped > items.len() {
                    None
                } else {
                    Some(
                        Entry {
                            delta,
                            items: items.take(items.len() - chopped),
                            stack: Seq::empty(),
                            next: i + 3,
                        },
                    )
                }
            } else if kind <= 254 {
                match vtis_from(b, i + 3, (kind - 251) as nat, items) {
                    None => None,
                    Some((more, next)) => Some(
                        Entry { delta, items: more, stack: Seq::empty(), next },
                    ),
                }
            } else if i + 4 >= b.len() {
                None
            } else {
                match vtis_from(b, i + 5, be16(b, i + 3) as nat, Seq::empty()) {
                    None => None,
                    Some((locals, j)) => if j + 1 >= b.len() {
                        None
                    } else {
                        match vtis_from(b, j + 2, be16(b, j) as nat, Seq::empty()) {
                            None => None,
                            Some((stack, next)) => Some(Entry { delta, items: locals, stack, next }),
                        }
                    },
                }
            }
        }
    }
}

/// `frames`, and those of `n` more entries from `i` on, where the last frame was at `pc` with
/// locals `items`. Each frame lies `delta + 1` behind the one before.
pub open spec fn frames_from(
    b: Seq<u8>,
    i: int,
    n: nat,
    items: Seq<VType>,
    pc: int,
    frames: Map<u32, FrameView>,
) -> Option<Map<u32, FrameView>>
    decreases n,
{
    if n == 0 {
        Some(frames)
    } else {
        match entry_at(b, i, items) {
            None => None,
            Some(e) => frames_from(
                b,
                e.next,
                (n - 1) as nat,
                e.items,
                pc + e.delta + 1,
                frames.insert(
                    (pc + e.delta + 1) as u32,
                    FrameView { locals: expanded(e.items), stack: e.stack },
                ),
            ),
        }
    }
}

/// The frames that a `StackMapTable` body declares, by offset.
pub open spec fn declared_frames(b: Seq<u8>, initial: Seq<VType>) -> Option<Map<u32, FrameView>> {
    if b.len() < 2 {
        None
    } else {
        frames_from(b, 2, be16(b, 0) as nat, initial, -1, Map::empty())
    }
}

struct Cur<'a> {
    b: &'a [u8],
    i: usize,
}

impl<'a> Cur<'a> {
    spec fn inside(self) -> bool {
        self.i <= self.b@.len()
    }

    fn u1(&mut self) -> (r: Result<u8, VerifyError>)
        requires
            old(self).inside(),
        ensures
            final(self).inside(),
            final(self).b@ == old(self).b@,
            match r {
                Ok(v) => old(self).i < old(self).b@.len() && v == old(self).b@[old(self).i as int]
                    && final(self).i == old(self).i + 1,
                Err(e) => old(self).i >= old(self).b@.len() && e == VerifyError::BadStackMap,
            },
    {
        if self.i >= self.b.len() {
            return Err(VerifyError::BadStackMap);
        }
        let v: u8 = self.b[self.i];
        self.i = self.i + 1;
        Ok(v)
    }

    fn u2(&mut self) -> (r: Result<u16, VerifyError>)
        requires
            old(self).inside(),
        ensures
            final(self).inside(),
            final(self).b@ == old(self).b@,
            match r {
                Ok(v) => old(self).i + 1 < old(self).b@.len() && v == be16(
                    old(self).b@,
                    old(self).i as int,
                ) && final(self).i == old(self).i + 2,
                Err(e) => old(self).i + 1 >= old(self).b@.len() && e == VerifyError::BadStackMap,
            },
    {
        let hi: u16 = self.u1()? as u16;
        let lo: u16 = self.u1()? as u16;
        Ok(hi * 0x100 + lo)
    }
}

fn parse_vti(c: &mut Cur) -> (r: Result<VType, VerifyError>)
    requires
        old(c).inside(),
    ensures
        final(c).inside(),
        final(c).b@ == old(c).b@,
        match r {
            Ok(t) => vti_at(old(c).b@, old(c).i as int) == Some((t, final(c).i as int)),
            Err(e) => vti_at(old(c).b@, old(c).i as int) is None && e == VerifyError::BadStackMap,
        },
{
    Ok(
        match c.u1()? {
            0 => VType::Top,
            1 => VType::Int,
            2 => VType::Float,
            3 => VType::Double,
            4 => VType::Long,
            5 => VType::Null,
            6 => VType::UninitializedThis,
            7 => {
                let _class: u16 = c.u2()?;
                VType::Reference
            },
            8 => VType::Uninitialized(c.u2()? as u32),
            _ => {
                return Err(VerifyError::BadStackMap);
            },
        },
    )
}

/// Append `n` types to `items`.
fn parse_vtis(c: &mut Cur, n: u16, items: &mut Vec<VType>) -> (r: Result<(), VerifyError>)
    requires
        old(c).inside(),
    ensures
        final(c).inside(),
        final(c).b@ == old(c).b@,
        match r {
            Ok(_) => vtis_from(old(c).b@, old(c).i as int, n as nat, old(items)@) == Some(
                (final(items)@, final(c).i as int),
            ),
            Err(e) => vtis_from(old(c).b@, old(c).i as int, n as nat, old(items)@) is None && e
                == VerifyError::BadStackMap,
        },
{
    let mut k: u16 = 0;
    while k < n
        invariant
            k <= n,
            c.inside(),
            c.b@ == old(c).b@,
            vtis_from(old(c).b@, old(c).i as int, n as nat, old(items)@) == vtis_from(
                c.b@,
                c.i as int,
                (n - k) as nat,
                items@,
            ),
        decreases n - k,
    {
        items.push(parse_vti(c)?);
        k += 1;
    }
    Ok(())
}

/// Parse one entry: `items` becomes its locals; the result is its distance and its stack.
fn parse_entry(c: &mut Cur, items: &mut Vec<VType>) -> (r: Result<(u16, Vec<VType>), VerifyError>)
    requires
        old(c).inside(),
    ensures
        final(c).inside(),
        final(c).b@ == old(c).b@,
        match r {
            Ok((delta, stack)) => entry_at(old(c).b@, old(c).i as int, old(items)@) == Some(
                Entry {
                    delta: delta as int,
                    items: final(items)@,
                    stack: stack@,
                    next: final(c).i as int,
                },
            ),
            Err(e) => entry_at(old(c).b@, old(c).i as int, old(items)@) is None && e
                == VerifyError::BadStackMap,
        },
{
    let kind: u8 = c.u1()?;
    let mut stack: Vec<VType> = Vec::new();
    if kind <= 63 {
        return Ok((kind as u16, stack));
    }
    if kind <= 127 {
        stack.push(parse_vti(c)?);
        assert(stack@ =~= seq![stack@[0]]);
        return Ok((kind as u16 - 64, stack));
    }
    if kind < 247 {
        return Err(VerifyError::BadStackMap);
    }
    let delta: u16 = c.u2()?;
    if kind == 247 {
        stack.push(parse_vti(c)?);
        assert(stack@ =~= seq![stack@[0]]);
    } else if kind <= 251 {
        let chopped: usize = 251 - kind as usize;
        if chopped > items.len() {
            return Err(VerifyError::BadStackMap);
        }
        let keep: usize = items.len() - chopped;
        items.truncate(keep);
        assert(items@ =~= old(items)@.take(keep as int));
    } else if kind <= 254 {
        parse_vtis(c, kind as u16 - 251, items)?;
    } else {
        let nl: u16 = c.u2()?;
        items.clear();
        parse_vtis(c, nl, items)?;
        let ns: u16 = c.u2()?;
        parse_vtis(c, ns, &mut stack)?;
    }
    Ok((delta, stack))
}

/// Declare a frame.
fn put_frame(frames: &mut BTreeMap<u32, Frame>, pc: u32, f: Frame)
    ensures
        frame_views(final(frames)@) == frame_views(old(frames)@).insert(pc, f@),
{
    broadcast use vstd::std_specs::btree::group_btree_axioms;
    broadcast use vstd::laws_cmp::group_laws_cmp;

    let ghost fv = f@;
    frames.insert(pc, f);
    assert(frame_views(frames@) =~= frame_views(old(frames)@).insert(pc, fv));
}

/// The frame declared at an offset, if any.
pub(crate) fn frame_at(frames: &BTreeMap<u32, Frame>, pc: u32) -> (f: Option<&Frame>)
    ensures
        f is Some <==> frame_views(frames@).contains_key(pc),
        f matches Some(x) ==> x@ == frame_views(frames@)[pc],
{
    broadcast use vstd::std_specs::btree::group_btree_axioms;
    broadcast use vstd::laws_cmp::group_laws_cmp;

    frames.get(&pc)
}

/// Decode a `StackMapTable` attribute body (starting at `number_of_entries`), given the method's
/// initial locals in the item model. Returns the frame declared at each bytecode offset.
pub fn decode(smt: &[u8], initial_locals_items: &[VType]) -> (r: Result<
    BTreeMap<u32, Frame>,
    VerifyError,
>)
    ensures
        match declared_frames(smt@, initial_locals_items@) {
            Some(frames) => r is Ok && frame_views(r->Ok_0@) == frames,
            None => r is Err && r->Err_0 == VerifyError::BadStackMap,
        },
{
    let mut c = Cur { b: smt, i: 0 };
    let entries: u16 = c.u2()?;
    let mut items: Vec<VType> = Vec::new();
    items.extend_from_slice(initial_locals_items);
    assert(items@ =~= initial_locals_items@);
    let mut frames: BTreeMap<u32, Frame> = BTreeMap::new();
    assert(frame_views(frames@) =~= Map::empty());
    let mut pc: i64 = -1;
    let mut k: u16 = 0;
    while k < entries
        invariant
            k <= entries,
            c.inside(),
            c.b@ == smt@,
            -1 <= pc < k * 0x1_0000,
            declared_frames(smt@, initial_locals_items@) == frames_from(
                smt@,
                c.i as int,
                (entries - k) as nat,
                items@,
                pc as int,
                frame_views(frames@),
            ),
        decreases entries - k,
    {
        let (delta, stack) = parse_entry(&mut c, &mut items)?;
        pc = pc + delta as i64 + 1;
        put_frame(&mut frames, pc as u32, Frame { locals: expand_to_slots(&items), stack });
        k += 1;
    }
    Ok(frames)
}

} // verus!
