//! Bytecode instruction decoding. Opcodes outside the supported set are rejected, and every read
//! is bounds-checked.

use vstd::prelude::*;
use std::collections::HashMap;
use crate::classfile::reader::be16;
use crate::verify::error::VerifyError;

verus! {

/// A decoded instruction. `arg` carries the sole operand where one exists: a local/constant-pool
/// index, an immediate, or, for branches, the absolute target pc.
#[derive(Debug, Clone, Copy, PartialEq, Eq, Structural)]
pub struct Insn {
    pub pc: u32,
    pub op: u8,
    pub arg: i64,
    pub len: u8,
}

/// The form of an instruction's operand.
#[derive(Clone, Copy, PartialEq, Eq, Debug, Structural)]
pub enum Operand {
    /// None.
    Nothing,
    /// A signed byte.
    SignedByte,
    /// A signed 16-bit number.
    SignedShort,
    /// An unsigned byte.
    Byte,
    /// An unsigned 16-bit number; for `iinc`, the local in its high and the constant in its low
    /// byte.
    Short,
    /// A signed 16-bit offset from the instruction's own pc.
    Offset,
}

/// `if<cond>`, `if_icmp<cond>`, `goto`, `ifnull` and `ifnonnull`.
pub open spec fn is_branch(op: u8) -> bool {
    0x99 <= op <= 0xa4 || op == 0xa7 || op == 0xc6 || op == 0xc7
}

/// The supported opcodes without an operand: `nop`, constants, implicit-index loads and stores,
/// `dup`, arithmetic, conversions, compares and returns.
pub open spec fn is_bare(op: u8) -> bool {
    ||| 0x00 <= op <= 0x0d
    ||| 0x1a <= op <= 0x2d
    ||| 0x3b <= op <= 0x4e
    ||| op == 0x59
    ||| 0x60 <= op <= 0x62
    ||| 0x64 <= op <= 0x66
    ||| 0x68 <= op <= 0x6a
    ||| op == 0x6c
    ||| op == 0x70
    ||| op == 0x74
    ||| op == 0x7e
    ||| op == 0x85
    ||| op == 0x86
    ||| op == 0x88
    ||| op == 0x89
    ||| op == 0x8b
    ||| op == 0x8c
    ||| 0x94 <= op <= 0x96
    ||| op == 0xac
    ||| op == 0xad
    ||| op == 0xb0
    ||| op == 0xb1
}

/// The operand form of a supported opcode.
pub open spec fn operand_form(op: u8) -> Option<Operand> {
    if is_bare(op) {
        Some(Operand::Nothing)
    } else if op == 0x10 {
        Some(Operand::SignedByte)
    } else if op == 0x11 {
        Some(Operand::SignedShort)
    } else if op == 0x12 || 0x15 <= op <= 0x17 || op == 0x19 || 0x36 <= op <= 0x38 || op == 0x3a {
        Some(Operand::Byte)
    } else if op == 0x13 || op == 0x14 || op == 0x84 || 0xb2 <= op <= 0xb8 || op == 0xbb || op
        == 0xc0 || op == 0xc1 {
        Some(Operand::Short)
    } else if is_branch(op) {
        Some(Operand::Offset)
    } else {
        None
    }
}

impl Operand {
    /// Length of an instruction with this operand.
    pub open spec fn insn_len(self) -> u8 {
        match self {
            Operand::Nothing => 1,
            Operand::SignedByte | Operand::Byte => 2,
            Operand::SignedShort | Operand::Short | Operand::Offset => 3,
        }
    }
}

/// A byte read as a signed number.
pub open spec fn signed8(b: u8) -> i64 {
    if b < 0x80 {
        b as i64
    } else {
        (b - 0x100) as i64
    }
}

/// A 16-bit number read as a signed one.
pub open spec fn signed16(v: u16) -> i64 {
    if v < 0x8000 {
        v as i64
    } else {
        (v - 0x1_0000) as i64
    }
}

/// The operand of the instruction at `pc`.
pub open spec fn operand_at(code: Seq<u8>, pc: int, form: Operand) -> i64 {
    match form {
        Operand::Nothing => 0,
        Operand::SignedByte => signed8(code[pc + 1]),
        Operand::Byte => code[pc + 1] as i64,
        Operand::SignedShort => signed16(be16(code, pc + 1)),
        Operand::Short => be16(code, pc + 1) as i64,
        Operand::Offset => (pc as i64).wrapping_add(signed16(be16(code, pc + 1))),
    }
}

/// The instruction at `pc`.
pub open spec fn insn_at(code: Seq<u8>, pc: int) -> Result<Insn, VerifyError> {
    let op = code[pc];
    match operand_form(op) {
        None => Err(VerifyError::UnsupportedOpcode { op, pc: pc as u32 }),
        Some(form) => if pc + form.insn_len() > code.len() {
            Err(VerifyError::Truncated(code.len() as u32))
        } else {
            Ok(Insn { pc: pc as u32, op, arg: operand_at(code, pc, form), len: form.insn_len() })
        },
    }
}

/// `insns`, and those that follow from `pc` on.
pub open spec fn insns_from(code: Seq<u8>, pc: int, insns: Seq<Insn>) -> Result<
    Seq<Insn>,
    VerifyError,
>
    decreases code.len() - pc,
{
    if pc >= code.len() {
        Ok(insns)
    } else {
        match insn_at(code, pc) {
            Err(e) => Err(e),
            Ok(ins) => insns_from(code, pc + ins.len, insns.push(ins)),
        }
    }
}

/// The instructions of a `Code` byte array.
pub open spec fn decoded(code: Seq<u8>) -> Result<Seq<Insn>, VerifyError> {
    insns_from(code, 0, Seq::empty())
}

impl Insn {
    /// Where a branch goes.
    pub open spec fn target(self) -> Option<u32> {
        if is_branch(self.op) {
            Some(self.arg as u32)
        } else {
            None
        }
    }

    /// Whether control cannot fall through.
    pub open spec fn ends(self) -> bool {
        self.op == 0xa7 || 0xac <= self.op <= 0xb1
    }

    /// The pc behind the instruction.
    pub open spec fn next_pc(self) -> u32 {
        self.pc.wrapping_add(self.len as u32)
    }

    /// The absolute branch target, for conditional branches and `goto`.
    pub fn branch_target(&self) -> (t: Option<u32>)
        ensures
            t == self.target(),
    {
        match self.op {
            0x99..=0xa4 | 0xa7 | 0xc6 | 0xc7 => Some(self.arg as u32),
            _ => None,
        }
    }

    /// True when control cannot fall through to the next instruction: `goto` and every return.
    pub fn is_unconditional_end(&self) -> (b: bool)
        ensures
            b == self.ends(),
    {
        self.op == 0xa7 || (0xac <= self.op && self.op <= 0xb1)
    }

    /// The pc behind the instruction.
    pub(crate) fn following_pc(&self) -> (p: u32)
        ensures
            p == self.next_pc(),
    {
        self.pc.wrapping_add(self.len as u32)
    }
}

fn u1_at(code: &[u8], i: usize) -> (r: Result<u8, VerifyError>)
    ensures
        r == (if i < code@.len() {
            Ok(code@[i as int])
        } else {
            Err(VerifyError::Truncated(i as u32))
        }),
{
    if i < code.len() {
        Ok(code[i])
    } else {
        Err(VerifyError::Truncated(i as u32))
    }
}

fn s1_at(code: &[u8], i: usize) -> (r: Result<i64, VerifyError>)
    ensures
        r == (if i < code@.len() {
            Ok(signed8(code@[i as int]))
        } else {
            Err(VerifyError::Truncated(i as u32))
        }),
{
    let b: u8 = u1_at(code, i)?;
    if b < 0x80 {
        Ok(b as i64)
    } else {
        Ok(b as i64 - 0x100)
    }
}

fn u2_at(code: &[u8], i: usize) -> (r: Result<i64, VerifyError>)
    requires
        i <= code@.len(),
    ensures
        r == (if i + 1 < code@.len() {
            Ok(be16(code@, i as int) as i64)
        } else {
            Err(VerifyError::Truncated(code@.len() as u32))
        }),
{
    assert(code@.len() == code.len());
    let hi: i64 = u1_at(code, i)? as i64;
    let lo: i64 = u1_at(code, i + 1)? as i64;
    Ok(hi * 0x100 + lo)
}

fn s2_at(code: &[u8], i: usize) -> (r: Result<i64, VerifyError>)
    requires
        i <= code@.len(),
    ensures
        r == (if i + 1 < code@.len() {
            Ok(signed16(be16(code@, i as int)))
        } else {
            Err(VerifyError::Truncated(code@.len() as u32))
        }),
{
    let v: i64 = u2_at(code, i)?;
    if v < 0x8000 {
        Ok(v)
    } else {
        Ok(v - 0x1_0000)
    }
}

/// Decode a `Code` byte array into instructions.
pub fn decode(code: &[u8]) -> (r: Result<Vec<Insn>, VerifyError>)
    ensures
        match decoded(code@) {
            Ok(insns) => r is Ok && r->Ok_0@ == insns,
            Err(e) => r is Err && r->Err_0 == e,
        },
{
    let mut out: Vec<Insn> = Vec::new();
    let mut pc: usize = 0;
    while pc < code.len()
        invariant
            pc <= code@.len(),
            decoded(code@) == insns_from(code@, pc as int, out@),
        decreases code@.len() - pc,
    {
        let op: u8 = code[pc];
        let (arg, len): (i64, u8) = match op {
            0x00..=0x0d | 0x1a..=0x2d | 0x3b..=0x4e | 0x59 | 0x60..=0x62 | 0x64..=0x66
            | 0x68..=0x6a | 0x6c | 0x70 | 0x74 | 0x7e | 0x85 | 0x86 | 0x88 | 0x89 | 0x8b | 0x8c
            | 0x94..=0x96 | 0xac | 0xad | 0xb0 | 0xb1 => (0, 1),
            0x10 => (s1_at(code, pc + 1)?, 2),
            0x11 => (s2_at(code, pc + 1)?, 3),
            0x12 | 0x15..=0x17 | 0x19 | 0x36..=0x38 | 0x3a => (u1_at(code, pc + 1)? as i64, 2),
            0x13 | 0x14 | 0x84 | 0xb2..=0xb8 | 0xbb | 0xc0 | 0xc1 => (u2_at(code, pc + 1)?, 3),
            0x99..=0xa4 | 0xa7 | 0xc6 | 0xc7 => (
                (pc as i64).wrapping_add(s2_at(code, pc + 1)?),
                3,
            ),
            _ => {
                return Err(VerifyError::UnsupportedOpcode { op, pc: pc as u32 });
            },
        };
        out.push(Insn { pc: pc as u32, op, arg, len });
        pc += len as usize;
    }
    Ok(out)
}

/// The pc of an instruction to its index; the last index, where a pc occurs more than once.
pub open spec fn indexed(insns: Seq<Insn>) -> Map<u32, usize>
    decreases insns.len(),
{
    if insns.len() == 0 {
        Map::empty()
    } else {
        indexed(insns.drop_last()).insert(insns.last().pc, (insns.len() - 1) as usize)
    }
}

/// Map every instruction's pc to its index in the decoded stream.
pub fn pc_index(insns: &[Insn]) -> (m: HashMap<u32, usize>)
    ensures
        m@ == indexed(insns@),
{
    broadcast use vstd::std_specs::hash::group_hash_axioms;

    let mut m: HashMap<u32, usize> = HashMap::new();
    let mut i: usize = 0;
    while i < insns.len()
        invariant
            i <= insns@.len(),
            m@ == indexed(insns@.take(i as int)),
        decreases insns@.len() - i,
    {
        broadcast use vstd::std_specs::hash::group_hash_axioms;

        proof {
            assert(insns@.take(i + 1).drop_last() =~= insns@.take(i as int));
            assert(insns@.take(i + 1).last() == insns@[i as int]);
        }
        m.insert(insns[i].pc, i);
        i += 1;
    }
    assert(insns@.take(insns@.len() as int) =~= insns@);
    m
}

/// The index has exactly the pcs that occur.
pub proof fn lemma_index_has_the_pcs(insns: Seq<Insn>, pc: u32)
    ensures
        indexed(insns).contains_key(pc) <==> exists|i: int|
            0 <= i < insns.len() && (#[trigger] insns[i]).pc == pc,
        indexed(insns).contains_key(pc) && insns.len() <= usize::MAX ==> indexed(insns)[pc]
            < insns.len() && insns[indexed(insns)[pc] as int].pc == pc,
    decreases insns.len(),
{
    if insns.len() > 0 {
        let rest = insns.drop_last();
        lemma_index_has_the_pcs(rest, pc);
        if insns.last().pc == pc {
            assert(insns[insns.len() - 1].pc == pc);
        }
        if exists|i: int| 0 <= i < insns.len() && (#[trigger] insns[i]).pc == pc {
            let i = choose|i: int| 0 <= i < insns.len() && (#[trigger] insns[i]).pc == pc;
            if i < rest.len() {
                assert(rest[i].pc == pc);
            }
        }
        if indexed(rest).contains_key(pc) {
            let i = choose|i: int| 0 <= i < rest.len() && (#[trigger] rest[i]).pc == pc;
            assert(insns[i].pc == pc);
        }
    }
}

/// The instructions lie one behind the other: the first at 0, each at the end of the one before,
/// the last ending at `end`.
pub open spec fn contiguous(insns: Seq<Insn>, end: int) -> bool {
    &&& insns.len() == 0 ==> end == 0
    &&& insns.len() > 0 ==> insns[0].pc == 0 && insns.last().pc + insns.last().len == end
    &&& forall|i: int, j: int|
        0 <= i < insns.len() && j == i + 1 && j < insns.len() ==> (#[trigger] insns[i]).pc
            + insns[i].len == (#[trigger] insns[j]).pc
    &&& forall|i: int| 0 <= i < insns.len() ==> (#[trigger] insns[i]).len > 0
}

/// Decoding covers the code without gaps or overlaps, and reads every opcode where it stands.
pub proof fn lemma_decoding_covers_the_code(code: Seq<u8>)
    requires
        code.len() <= u32::MAX,
        decoded(code) is Ok,
    ensures
        contiguous(decoded(code)->Ok_0, code.len() as int),
        forall|i: int|
            0 <= i < decoded(code)->Ok_0.len() ==> (#[trigger] decoded(code)->Ok_0[i]).op
                == code[decoded(code)->Ok_0[i].pc as int],
{
    lemma_insns_from_contiguous(code, 0, Seq::empty());
}

proof fn lemma_insns_from_contiguous(code: Seq<u8>, pc: int, insns: Seq<Insn>)
    requires
        code.len() <= u32::MAX,
        0 <= pc <= code.len(),
        contiguous(insns, pc),
        forall|i: int| 0 <= i < insns.len() ==> (#[trigger] insns[i]).op == code[insns[i].pc as int],
        insns_from(code, pc, insns) is Ok,
    ensures
        contiguous(insns_from(code, pc, insns)->Ok_0, code.len() as int),
        forall|i: int|
            0 <= i < insns_from(code, pc, insns)->Ok_0.len() ==> (
            #[trigger] insns_from(code, pc, insns)->Ok_0[i]).op == code[insns_from(
                code,
                pc,
                insns,
            )->Ok_0[i].pc as int],
    decreases code.len() - pc,
{
    if pc < code.len() {
        let ins = insn_at(code, pc)->Ok_0;
        let more = insns.push(ins);
        assert(contiguous(more, pc + ins.len)) by {
            assert forall|i: int, j: int|
                0 <= i < more.len() && j == i + 1 && j < more.len() implies (
            #[trigger] more[i]).pc + more[i].len == (#[trigger] more[j]).pc by {
                if j < insns.len() {
                    assert(insns[i].pc + insns[i].len == insns[j].pc);
                }
            }
        }
        lemma_insns_from_contiguous(code, pc + ins.len, more);
    }
}

} // verus!
