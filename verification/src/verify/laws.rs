//! What the verifier promises, stated apart from how it is written: what descriptors denote, how
//! instructions lie in code, which types each instruction takes and leaves, and which methods are
//! accepted.

use vstd::prelude::*;
use vstd::utf8::encode_utf8;
use crate::classfile::constant_pool::{pool_utf8, ConstantView, PoolView};
use crate::classfile::{first_code, ClassFileView, MemberView};
use crate::ssa::lower::inc_delta;
use crate::verify::error::VerifyError;
use crate::verify::insn::{decoded, insn_at, Insn};
use crate::verify::stackmap::{
    declared_frames, entry_at, frames_from, vti_at, vtis_from, Entry, FrameView,
};
use crate::verify::typecheck::{
    applied, branch_checked, checked_from, entered, inc_local, padded, stack_rule, Limits,
};
use crate::verify::vtype::{
    args_from, assignable, descriptor_types, expanded, field_type_at, lemma_expanded_len,
    method_types, next_byte, skip_byte, total_slots, VType,
};
use crate::verify::{
    first_raw, initial_items, is_boundary, static_flag, targets_checked, verified, VerifiedView,
};

verus! {

/// What a field may hold.
pub enum Held {
    Byte,
    Char,
    Double,
    Float,
    Int,
    Long,
    Short,
    Boolean,
    /// An object of a class whose internal name has that many bytes.
    Object(nat),
}

/// A field type: what it holds, as the component of an array of so many dimensions, or by itself.
pub struct Described {
    pub dims: nat,
    pub held: Held,
}

impl Held {
    /// The letter that stands for it.
    pub open spec fn letter(self) -> u8 {
        match self {
            Held::Byte => 0x42,
            Held::Char => 0x43,
            Held::Double => 0x44,
            Held::Float => 0x46,
            Held::Int => 0x49,
            Held::Long => 0x4A,
            Held::Object(_) => 0x4C,
            Held::Short => 0x53,
            Held::Boolean => 0x5A,
        }
    }
}

impl Described {
    /// How many bytes a descriptor has: a bracket for each dimension, a letter, and for an object its
    /// name and a semicolon.
    pub open spec fn len(self) -> int {
        self.dims + 1 + match self.held {
            Held::Object(n) => n as int + 1,
            _ => 0int,
        }
    }

    /// The type of its values.
    pub open spec fn denotes(self) -> VType {
        if self.dims > 0 {
            VType::Reference
        } else {
            match self.held {
                Held::Object(_) => VType::Reference,
                Held::Long => VType::Long,
                Held::Float => VType::Float,
                Held::Double => VType::Double,
                Held::Byte | Held::Char | Held::Int | Held::Short | Held::Boolean => VType::Int,
            }
        }
    }

    /// Whether its descriptor stands at a position.
    pub open spec fn stands_at(self, b: Seq<u8>, i: int) -> bool {
        let at = i + self.dims;
        &&& 0 <= i
        &&& i + self.len() <= b.len()
        &&& forall|j: int| i <= j < at ==> #[trigger] b[j] == 0x5B
        &&& b[at] == self.held.letter()
        &&& self.held matches Held::Object(n) ==> {
            &&& b[at + 1 + n] == 0x3B
            &&& forall|j: int| at < j < at + 1 + n ==> #[trigger] b[j] != 0x3B
        }
    }
}

proof fn lemma_skipped(b: Seq<u8>, i: int, to: int, c: u8)
    requires
        0 <= i <= to < b.len(),
        forall|j: int| i <= j < to ==> #[trigger] b[j] == c,
        b[to] != c,
    ensures
        skip_byte(b, i, c) == to,
    decreases to - i,
{
    if i < to {
        lemma_skipped(b, i + 1, to, c);
    }
}

proof fn lemma_sought(b: Seq<u8>, i: int, to: int, c: u8)
    requires
        0 <= i <= to < b.len(),
        forall|j: int| i <= j < to ==> #[trigger] b[j] != c,
        b[to] == c,
    ensures
        next_byte(b, i, c) == to,
    decreases to - i,
{
    if i < to {
        lemma_sought(b, i + 1, to, c);
    }
}

/// Descriptors denote types: wherever the descriptor of a field type stands, it is read as that type,
/// and ends where it ends.
pub proof fn lemma_descriptors_denote(b: Seq<u8>, i: int, d: Described)
    requires
        d.stands_at(b, i),
    ensures
        field_type_at(b, i) == Some((d.denotes(), i + d.len())),
{
    let at = i + d.dims;
    if d.dims > 0 {
        assert(b[i] == 0x5B);
        lemma_skipped(b, i, at, 0x5B);
    }
    if let Held::Object(n) = d.held {
        assert forall|j: int| at <= j < at + 1 + n implies #[trigger] b[j] != 0x3B by {}
        lemma_sought(b, at, at + 1 + n, 0x3B);
    }
}

/// Nothing else is a field descriptor: it starts with the letter of what a field may hold, or with a
/// bracket.
pub proof fn lemma_only_descriptors_denote(b: Seq<u8>, i: int)
    requires
        0 <= i < b.len(),
        field_type_at(b, i) is Some,
    ensures
        ({
            let c = b[i];
            ||| c == 0x42 || c == 0x43 || c == 0x44 || c == 0x46 || c == 0x49 || c == 0x4A
            ||| c == 0x4C || c == 0x53 || c == 0x5A || c == 0x5B
        }),
{
}

/// Whether descriptors stand one behind the other.
pub open spec fn stand_from(b: Seq<u8>, i: int, ds: Seq<Described>) -> bool
    decreases ds.len(),
{
    ds.len() == 0 || ds.first().stands_at(b, i) && stand_from(
        b,
        i + ds.first().len(),
        ds.drop_first(),
    )
}

/// How many bytes descriptors have together.
pub open spec fn total_len(ds: Seq<Described>) -> int
    decreases ds.len(),
{
    if ds.len() == 0 {
        0
    } else {
        ds.first().len() + total_len(ds.drop_first())
    }
}

proof fn lemma_args_denote(b: Seq<u8>, i: int, ds: Seq<Described>, before: Seq<VType>)
    requires
        0 <= i,
        stand_from(b, i, ds),
        0 <= i + total_len(ds) < b.len(),
        b[i + total_len(ds)] == 0x29,
    ensures
        args_from(b, i, before) == Some(
            (before + Seq::new(ds.len(), |k: int| ds[k].denotes()), i + total_len(ds)),
        ),
    decreases ds.len(),
{
    let types = Seq::new(ds.len(), |k: int| ds[k].denotes());
    if ds.len() == 0 {
        assert(before + types =~= before);
    } else {
        let d = ds.first();
        lemma_descriptors_denote(b, i, d);
        lemma_args_denote(b, i + d.len(), ds.drop_first(), before.push(d.denotes()));
        let rest = Seq::new(ds.drop_first().len(), |k: int| ds.drop_first()[k].denotes());
        assert(before.push(d.denotes()) + rest =~= before + types);
        assert(b[i] == 0x5B || b[i] == d.held.letter());
    }
}

/// Method descriptors denote types: the arguments in their order, and the result, or none for `V`.
pub proof fn lemma_method_descriptors_denote(
    b: Seq<u8>,
    args: Seq<Described>,
    result: Option<Described>,
)
    requires
        b.len() > 0,
        b[0] == 0x28,
        stand_from(b, 1, args),
        0 <= 1 + total_len(args) < b.len() - 1,
        b[1 + total_len(args)] == 0x29,
        match result {
            Some(d) => d.stands_at(b, 2 + total_len(args)),
            None => b[2 + total_len(args)] == 0x56,
        },
    ensures
        descriptor_types(b) == Some(
            (
                Seq::new(args.len(), |k: int| args[k].denotes()),
                match result {
                    Some(d) => Some(d.denotes()),
                    None => None,
                },
            ),
        ),
{
    lemma_args_denote(b, 1, args, Seq::empty());
    let types = Seq::new(args.len(), |k: int| args[k].denotes());
    assert(Seq::<VType>::empty() + types =~= types);
    if let Some(d) = result {
        let i = 2 + total_len(args);
        lemma_descriptors_denote(b, i, d);
        assert(b[i] == 0x5B || b[i] == d.held.letter());
    }
}

/// How many bytes an instruction takes, by its opcode; none, if it is not supported.
pub open spec fn bytes_taken(op: u8) -> Option<int> {
    if op <= 0x0d {
        // nop and the constants
        Some(1)
    } else if op == 0x10 || op == 0x12 {
        // bipush, ldc
        Some(2)
    } else if op == 0x11 || op == 0x13 || op == 0x14 {
        // sipush, ldc_w, ldc2_w
        Some(3)
    } else if 0x15 <= op <= 0x19 && op != 0x18 || 0x36 <= op <= 0x3a && op != 0x39 {
        // loads and stores of a numbered local
        Some(2)
    } else if 0x1a <= op <= 0x2d || 0x3b <= op <= 0x4e {
        // loads and stores of the first four locals
        Some(1)
    } else if op == 0x59 || op == 0x6c || op == 0x70 || op == 0x74 || op == 0x7e {
        // dup, idiv, irem, ineg, iand
        Some(1)
    } else if 0x60 <= op <= 0x6a && op % 4 != 3 {
        // add, sub and mul of ints, longs and floats
        Some(1)
    } else if op == 0x84 {
        // iinc
        Some(3)
    } else if 0x85 <= op <= 0x8c && op != 0x87 && op != 0x8a {
        // conversions between ints, longs and floats
        Some(1)
    } else if 0x94 <= op <= 0x96 {
        // compares of longs and floats
        Some(1)
    } else if 0x99 <= op <= 0xa4 || op == 0xa7 || op == 0xc6 || op == 0xc7 {
        // branches
        Some(3)
    } else if op == 0xac || op == 0xad || op == 0xb0 || op == 0xb1 {
        // returns
        Some(1)
    } else if 0xb2 <= op <= 0xb8 || op == 0xbb || op == 0xc0 || op == 0xc1 {
        // fields, calls, new, checkcast, instanceof
        Some(3)
    } else {
        None
    }
}

/// A number below `2 * half`, read as a signed one.
pub open spec fn as_signed(v: int, half: int) -> int {
    if v >= half {
        v - 2 * half
    } else {
        v
    }
}

/// Instructions lie in code as their opcodes say: an unsupported opcode and a lack of bytes are
/// refused, and else the instruction has the place, the opcode and the length that it takes.
pub proof fn lemma_instructions_lie_in_code(code: Seq<u8>, pc: int)
    requires
        0 <= pc < code.len() <= u32::MAX,
    ensures
        match bytes_taken(code[pc]) {
            None => insn_at(code, pc) == Err::<Insn, VerifyError>(
                VerifyError::UnsupportedOpcode { op: code[pc], pc: pc as u32 },
            ),
            Some(n) => {
                &&& insn_at(code, pc) is Ok <==> pc + n <= code.len()
                &&& insn_at(code, pc) matches Ok(ins) ==> ins.pc == pc && ins.op == code[pc]
                    && ins.len == n
            },
        },
{
}

/// Operands are what the bytes behind the opcode say. Immediates and branch offsets are signed, indices
/// are not, a branch is relative to its own place, and `iinc` names a local and a signed number.
pub proof fn lemma_operands_lie_in_code(code: Seq<u8>, pc: int)
    requires
        0 <= pc < code.len() <= u32::MAX,
        insn_at(code, pc) is Ok,
    ensures
        ({
            let op = code[pc];
            let ins = insn_at(code, pc)->Ok_0;
            let byte = code[pc + 1] as int;
            let short = code[pc + 1] * 0x100 + code[pc + 2];
            if op == 0x10 {
                ins.arg == as_signed(byte, 0x80)
            } else if op == 0x11 {
                ins.arg == as_signed(short, 0x8000)
            } else if bytes_taken(op) == Some(2int) {
                ins.arg == byte
            } else if op == 0x84 {
                inc_local(ins) == byte && inc_delta(ins) == as_signed(code[pc + 2] as int, 0x80)
            } else if 0x99 <= op <= 0xa7 || op == 0xc6 || op == 0xc7 {
                let to = pc + as_signed(short, 0x8000);
                0 <= to <= u32::MAX ==> ins.target() == Some(to as u32)
            } else {
                &&& bytes_taken(op) == Some(3int) ==> ins.arg == short
                &&& ins.target() is None
            }
        }),
{
    let op = code[pc];
    let ins = insn_at(code, pc)->Ok_0;
    if op == 0x84 {
        let (hi, lo) = (code[pc + 1], code[pc + 2]);
        let arg = ins.arg;
        assert(arg == hi * 0x100 + lo);
        assert(((arg >> 8) & 0xFF) as u16 == hi as u16 && (arg & 0xFF) as u8 == lo) by (bit_vector)
            requires
                arg == hi * 0x100 + lo,
        ;
        assert(lo as i8 as i32 == (if lo >= 0x80 {
            lo - 0x100
        } else {
            lo as int
        })) by (bit_vector);
    }
}

/// Control ends at a jump and at a return, and only there.
pub proof fn lemma_what_ends_control(ins: Insn)
    requires
        bytes_taken(ins.op) is Some,
    ensures
        ins.ends() <==> ins.op == 0xa7 || ins.op == 0xac || ins.op == 0xad || ins.op == 0xb0
            || ins.op == 0xb1,
{
}

/// Longs and doubles take two slots, everything else one.
pub proof fn lemma_sizes(t: VType)
    ensures
        t.slots() == (if t == VType::Long || t == VType::Double {
            2int
        } else {
            1
        }),
        t.wide() <==> t == VType::Long || t == VType::Double,
{
}

/// What may be used as what: numbers only as what they are, any reference as a reference, and
/// everything as nothing in particular.
pub proof fn lemma_what_may_be_used(from: VType, to: VType)
    ensures
        to == VType::Top ==> assignable(from, to),
        to == VType::Int || to == VType::Float || to == VType::Long || to == VType::Double
            || to == VType::Null || to == VType::UninitializedThis || to is Uninitialized ==> (
        assignable(from, to) <==> from == to),
        to == VType::Reference ==> (assignable(from, to) <==> !(from == VType::Top || from
            == VType::Int || from == VType::Float || from == VType::Long || from
            == VType::Double)),
{
}

/// The types that an instruction takes from the stack, deepest first, and those that it leaves.
pub open spec fn stack_types(op: u8) -> Option<(Seq<VType>, Seq<VType>)> {
    let (i, l, f) = (VType::Int, VType::Long, VType::Float);
    match op {
        // nop, goto
        0x00u8 | 0xa7u8 => Some((seq![], seq![])),
        // iconst_m1 to iconst_5, bipush, sipush
        0x02u8 | 0x03u8 | 0x04u8 | 0x05u8 | 0x06u8 | 0x07u8 | 0x08u8 | 0x10u8 | 0x11u8 => Some(
            (seq![], seq![i]),
        ),
        // lconst
        0x09u8 | 0x0au8 => Some((seq![], seq![l])),
        // fconst
        0x0bu8 | 0x0cu8 | 0x0du8 => Some((seq![], seq![f])),
        // iadd, isub, imul, idiv, irem, iand
        0x60u8 | 0x64u8 | 0x68u8 | 0x6cu8 | 0x70u8 | 0x7eu8 => Some((seq![i, i], seq![i])),
        // ladd, lsub, lmul
        0x61u8 | 0x65u8 | 0x69u8 => Some((seq![l, l], seq![l])),
        // fadd, fsub, fmul
        0x62u8 | 0x66u8 | 0x6au8 => Some((seq![f, f], seq![f])),
        // ineg
        0x74u8 => Some((seq![i], seq![i])),
        // i2l, i2f, l2i, l2f, f2i, f2l
        0x85u8 => Some((seq![i], seq![l])),
        0x86u8 => Some((seq![i], seq![f])),
        0x88u8 => Some((seq![l], seq![i])),
        0x89u8 => Some((seq![l], seq![f])),
        0x8bu8 => Some((seq![f], seq![i])),
        0x8cu8 => Some((seq![f], seq![l])),
        // compares of two longs, of two floats
        0x94u8 => Some((seq![l, l], seq![i])),
        0x95u8 | 0x96u8 => Some((seq![f, f], seq![i])),
        // branches on one int, on two
        0x99u8 | 0x9au8 | 0x9bu8 | 0x9cu8 | 0x9du8 | 0x9eu8 => Some((seq![i], seq![])),
        0x9fu8 | 0xa0u8 | 0xa1u8 | 0xa2u8 | 0xa3u8 | 0xa4u8 => Some((seq![i, i], seq![])),
        _ => None,
    }
}

/// Whether the topmost types of a stack may be used as the given ones.
pub open spec fn offers(stack: Seq<VType>, takes: Seq<VType>) -> bool {
    &&& takes.len() <= stack.len()
    &&& forall|k: int|
        0 <= k < takes.len() ==> assignable(
            stack[stack.len() - takes.len() + k],
            #[trigger] takes[k],
        )
}

/// Whether types fit on a stack.
pub open spec fn have_room(below: Seq<VType>, leaves: Seq<VType>, max_stack: u16) -> bool {
    leaves.len() == 0 || total_slots(below) + total_slots(leaves) <= max_stack
}

proof fn lemma_rule_of_types(op: u8)
    ensures
        stack_types(op) is Some <==> stack_rule(op) is Some,
        stack_types(op) matches Some((takes, leaves)) ==> {
            let rule = stack_rule(op)->0;
            &&& takes.len() <= 2
            &&& leaves.len() <= 1
            &&& rule.first == (if takes.len() > 0 {
                Some(takes.last())
            } else {
                None
            })
            &&& rule.second == (if takes.len() > 1 {
                Some(takes[0])
            } else {
                None
            })
            &&& rule.result == (if leaves.len() > 0 {
                Some(leaves[0])
            } else {
                None
            })
        },
{
}

/// The verifier takes and leaves the types that an instruction works on: it accepts the instruction
/// exactly if the stack offers what the instruction takes and has room for what it leaves, which then
/// stands in its place; locals stay as they are.
pub proof fn lemma_stack_types_are_checked(f: FrameView, ins: Insn, pool: PoolView, lim: Limits)
    requires
        stack_types(ins.op) is Some,
    ensures
        ({
            let (takes, leaves) = stack_types(ins.op)->0;
            let below = f.stack.take(f.stack.len() - takes.len());
            let r = applied(f, ins, pool, lim);
            &&& r is Ok <==> offers(f.stack, takes) && have_room(below, leaves, lim.max_stack)
            &&& r matches Ok(g) ==> g.locals == f.locals && g.stack == below + leaves
        }),
{
    lemma_rule_of_types(ins.op);
    let (takes, leaves) = stack_types(ins.op)->0;
    let n = f.stack.len() as int;
    let below = f.stack.take(n - takes.len());
    if takes.len() == 0 {
        assert(below =~= f.stack);
    } else {
        assert(takes[takes.len() - 1] == takes.last());
        if n >= 1 {
            assert(f.stack[n - 1] == f.stack.last());
            if takes.len() == 1 {
                assert(f.stack.drop_last() =~= below);
            } else if n >= 2 {
                assert(f.stack.drop_last().drop_last() =~= below);
                assert(f.stack.drop_last().last() == f.stack[n - 2]);
            }
        }
        if offers(f.stack, takes) {
            assert(assignable(f.stack[n - takes.len()], takes[0]));
            assert(assignable(f.stack[n - 1], takes[takes.len() - 1]));
        }
    }
    if leaves.len() == 1 {
        assert(leaves.drop_last() =~= Seq::empty());
        assert(total_slots(leaves.drop_last()) == 0);
        assert(leaves.last() == leaves[0]);
        assert(below.push(leaves[0]) =~= below + leaves);
    } else {
        assert(below + leaves =~= below);
    }
}

/// The local that an instruction reads and the type that it must have: an int, a long or a float.
pub open spec fn read_by(ins: Insn) -> Option<(int, VType)> {
    match ins.op {
        0x15u8 => Some((ins.arg as u16 as int, VType::Int)),
        0x16u8 => Some((ins.arg as u16 as int, VType::Long)),
        0x17u8 => Some((ins.arg as u16 as int, VType::Float)),
        0x1au8 => Some((0, VType::Int)),
        0x1bu8 => Some((1, VType::Int)),
        0x1cu8 => Some((2, VType::Int)),
        0x1du8 => Some((3, VType::Int)),
        0x1eu8 => Some((0, VType::Long)),
        0x1fu8 => Some((1, VType::Long)),
        0x20u8 => Some((2, VType::Long)),
        0x21u8 => Some((3, VType::Long)),
        0x22u8 => Some((0, VType::Float)),
        0x23u8 => Some((1, VType::Float)),
        0x24u8 => Some((2, VType::Float)),
        0x25u8 => Some((3, VType::Float)),
        _ => None,
    }
}

/// The local that an instruction writes and the type that it leaves there.
pub open spec fn written_by(ins: Insn) -> Option<(int, VType)> {
    match ins.op {
        0x36u8 => Some((ins.arg as u16 as int, VType::Int)),
        0x37u8 => Some((ins.arg as u16 as int, VType::Long)),
        0x38u8 => Some((ins.arg as u16 as int, VType::Float)),
        0x3bu8 => Some((0, VType::Int)),
        0x3cu8 => Some((1, VType::Int)),
        0x3du8 => Some((2, VType::Int)),
        0x3eu8 => Some((3, VType::Int)),
        0x3fu8 => Some((0, VType::Long)),
        0x40u8 => Some((1, VType::Long)),
        0x41u8 => Some((2, VType::Long)),
        0x42u8 => Some((3, VType::Long)),
        0x43u8 => Some((0, VType::Float)),
        0x44u8 => Some((1, VType::Float)),
        0x45u8 => Some((2, VType::Float)),
        0x46u8 => Some((3, VType::Float)),
        _ => None,
    }
}

/// A load is accepted exactly if its local is of its type, with both halves of a long, and there is
/// room on the stack, where the type is then on top.
pub proof fn lemma_loads_are_checked(f: FrameView, ins: Insn, pool: PoolView, lim: Limits)
    requires
        read_by(ins) is Some,
        f.locals.len() == lim.max_locals,
    ensures
        ({
            let (var, t) = read_by(ins)->0;
            let n = if t == VType::Long {
                2int
            } else {
                1
            };
            let r = applied(f, ins, pool, lim);
            &&& r is Ok <==> {
                &&& var + n <= f.locals.len()
                &&& f.locals[var] == t
                &&& t == VType::Long ==> f.locals[var + 1] == VType::Top
                &&& total_slots(f.stack) + n <= lim.max_stack
            }
            &&& r matches Ok(g) ==> g.locals == f.locals && g.stack == f.stack.push(t)
        }),
{
}

/// A store is accepted exactly if its type is on top of the stack and its local lies in the frame. It
/// moves the type there, and makes what follows a long unusable; no other local changes.
pub proof fn lemma_stores_are_checked(f: FrameView, ins: Insn, pool: PoolView, lim: Limits)
    requires
        written_by(ins) is Some,
        f.locals.len() == lim.max_locals,
    ensures
        ({
            let (var, t) = written_by(ins)->0;
            let n = if t == VType::Long {
                2int
            } else {
                1
            };
            let r = applied(f, ins, pool, lim);
            &&& r is Ok <==> var + n <= f.locals.len() && f.stack.len() > 0 && assignable(
                f.stack.last(),
                t,
            )
            &&& r matches Ok(g) ==> {
                &&& g.stack == f.stack.drop_last()
                &&& g.locals.len() == f.locals.len()
                &&& g.locals[var] == t
                &&& t == VType::Long ==> g.locals[var + 1] == VType::Top
                &&& forall|i: int|
                    0 <= i < f.locals.len() && !(var <= i < var + n) ==> g.locals[i]
                        == #[trigger] f.locals[i]
            }
        }),
{
}

/// `iinc` is accepted exactly on an int local, and changes no type.
pub proof fn lemma_increments_are_checked(f: FrameView, ins: Insn, pool: PoolView, lim: Limits)
    requires
        ins.op == 0x84,
        f.locals.len() == lim.max_locals,
    ensures
        applied(f, ins, pool, lim) is Ok <==> inc_local(ins) < f.locals.len()
            && f.locals[inc_local(ins) as int] == VType::Int,
        applied(f, ins, pool, lim) matches Ok(g) ==> g == f,
{
}

/// The type of a constant that can be loaded.
pub open spec fn loadable(c: ConstantView) -> Option<VType> {
    match c {
        ConstantView::Utf8(_) => None,
        ConstantView::Plain(k) => if k is Integer {
            Some(VType::Int)
        } else if k is Float {
            Some(VType::Float)
        } else if k is Long {
            Some(VType::Long)
        } else if k is Double {
            Some(VType::Double)
        } else if k is String || k is Class {
            Some(VType::Reference)
        } else {
            None
        },
    }
}

/// A constant is loaded exactly if it can be, by the instruction for its size, and if there is room.
pub proof fn lemma_constants_are_checked(f: FrameView, ins: Insn, pool: PoolView, lim: Limits)
    requires
        ins.op == 0x12 || ins.op == 0x13 || ins.op == 0x14,
        pool.len() <= 0x1_0000,
    ensures
        ({
            let r = applied(f, ins, pool, lim);
            let at = if 0 <= ins.arg < pool.len() {
                loadable(pool[ins.arg as int])
            } else {
                None
            };
            &&& r is Ok <==> (at matches Some(t) && {
                &&& (t == VType::Long || t == VType::Double) == (ins.op == 0x14)
                &&& total_slots(f.stack) + t.slots() <= lim.max_stack
            })
            &&& r matches Ok(g) ==> g.locals == f.locals && g.stack == f.stack.push(at->0)
        }),
{
}

/// A return of a value is accepted exactly if the value is on top and is what the method returns.
pub proof fn lemma_returns_are_checked(f: FrameView, ins: Insn, pool: PoolView, lim: Limits)
    requires
        ins.op == 0xac || ins.op == 0xad,
    ensures
        ({
            let t = if ins.op == 0xac {
                VType::Int
            } else {
                VType::Long
            };
            let r = applied(f, ins, pool, lim);
            &&& r is Ok <==> lim.ret == Some(t) && f.stack.len() > 0 && assignable(
                f.stack.last(),
                t,
            )
            &&& r matches Ok(g) ==> g.locals == f.locals && g.stack == f.stack.drop_last()
        }),
{
}

/// No other instruction is accepted.
pub proof fn lemma_other_instructions_are_refused(
    f: FrameView,
    ins: Insn,
    pool: PoolView,
    lim: Limits,
)
    requires
        stack_types(ins.op) is None,
        read_by(ins) is None,
        written_by(ins) is None,
        !(0x12 <= ins.op <= 0x14),
        ins.op != 0x84,
        ins.op != 0xac,
        ins.op != 0xad,
    ensures
        applied(f, ins, pool, lim) == Err::<FrameView, VerifyError>(
            VerifyError::UnsupportedOpcode { op: ins.op, pc: ins.pc },
        ),
{
    lemma_rule_of_types(ins.op);
}

/// The static flag is the fourth bit of the access flags.
pub proof fn lemma_static_is_a_bit(access_flags: u16)
    ensures
        static_flag(access_flags) <==> (access_flags / 8) % 2 == 1,
{
    assert((access_flags & 0x0008 != 0) <==> ((access_flags / 8) % 2 == 1)) by (bit_vector);
}

/// A method finds its receiver first, unless it is static, and its arguments behind it, each in the
/// slots that it takes: a slot holds what the list of items holds, behind as many slots as the items
/// before it take.
pub proof fn lemma_arguments_lie_in_slots(is_static: bool, args: Seq<VType>, k: int)
    requires
        0 <= k < initial_items(is_static, args).len(),
    ensures
        ({
            let items = initial_items(is_static, args);
            let at = total_slots(items.take(k));
            &&& !is_static && k == 0 ==> items[k] == VType::Reference
            &&& items[k] == (if is_static {
                args[k]
            } else if k > 0 {
                args[k - 1]
            } else {
                VType::Reference
            })
            &&& items.len() == args.len() + (if is_static {
                0int
            } else {
                1
            })
            &&& 0 <= at < expanded(items).len()
            &&& expanded(items)[at] == items[k]
            &&& items[k] == VType::Long || items[k] == VType::Double ==> {
                &&& at + 1 < expanded(items).len()
                &&& expanded(items)[at + 1] == VType::Top
            }
        }),
{
    let items = initial_items(is_static, args);
    lemma_expanded_at(items, k);
}

proof fn lemma_expanded_at(items: Seq<VType>, k: int)
    requires
        0 <= k < items.len(),
    ensures
        ({
            let at = total_slots(items.take(k));
            &&& 0 <= at
            &&& at + items[k].slots() <= expanded(items).len()
            &&& expanded(items)[at] == items[k]
            &&& items[k].wide() ==> expanded(items)[at + 1] == VType::Top
        }),
    decreases items.len(),
{
    let below = items.drop_last();
    lemma_expanded_len(below);
    if k == items.len() - 1 {
        assert(items.take(k) =~= below);
    } else {
        lemma_expanded_at(below, k);
        assert(below.take(k) =~= items.take(k));
    }
}

/// Unused locals come last, and are of no use.
pub proof fn lemma_padding(s: Seq<VType>, n: int)
    requires
        s.len() <= n,
    ensures
        padded(s, n).len() == n,
        forall|i: int| 0 <= i < n ==> (#[trigger] padded(s, n)[i]) == (if i < s.len() {
            s[i]
        } else {
            VType::Top
        }),
{
}

/// A state does for a frame exactly if it has as many stack items, each of which may be used as the
/// frame's, and locals that may be used as the frame's.
pub proof fn lemma_what_satisfies(f: FrameView, d: FrameView)
    ensures
        f.satisfies(f),
        f.satisfies(d) <==> {
            &&& d.locals.len() <= f.locals.len()
            &&& f.stack.len() == d.stack.len()
            &&& offers(f.stack, d.stack)
            &&& forall|i: int|
                0 <= i < d.locals.len() ==> assignable(f.locals[i], #[trigger] d.locals[i])
        },
{
    if f.satisfies(d) {
        assert forall|k: int| 0 <= k < d.stack.len() implies assignable(
            f.stack[f.stack.len() - d.stack.len() + k],
            #[trigger] d.stack[k],
        ) by {
            assert(assignable(f.stack[k], d.stack[k]));
        }
        assert forall|i: int| 0 <= i < d.locals.len() implies assignable(
            f.locals[i],
            #[trigger] d.locals[i],
        ) by {
            assert(assignable(f.locals[i], d.locals[i]));
        }
    }
    if offers(f.stack, d.stack) && f.stack.len() == d.stack.len() {
        assert forall|i: int| 0 <= i < f.stack.len() implies assignable(
            #[trigger] f.stack[i],
            d.stack[i],
        ) by {
            assert(assignable(f.stack[f.stack.len() - d.stack.len() + i], d.stack[i]));
        }
    }
}

/// Where an instruction is reached from above with a state: that state, or the frame declared there,
/// which the state must do for.
pub open spec fn reached_with(
    from: FrameView,
    at: FrameView,
    frames: Map<u32, FrameView>,
    pc: u32,
) -> bool {
    if frames.contains_key(pc) {
        from.satisfies(frames[pc])
    } else {
        at == from
    }
}

/// Whether an instruction is well-typed among others, given the state before each of them: its own
/// typing holds, where it branches a frame is declared that its outcome does for, and where it falls
/// through the next one is reached with its outcome. What follows a jump or a return has a frame.
pub open spec fn well_typed_at(
    insns: Seq<Insn>,
    states: Seq<FrameView>,
    frames: Map<u32, FrameView>,
    lim: Limits,
    pool: PoolView,
    k: int,
) -> bool {
    let ins = insns[k];
    let last = k + 1 == insns.len();
    &&& frames.contains_key(ins.pc) ==> {
        &&& frames[ins.pc].locals.len() <= lim.max_locals
        &&& states[k] == FrameView {
            locals: padded(frames[ins.pc].locals, lim.max_locals as int),
            stack: frames[ins.pc].stack,
        }
    }
    &&& applied(states[k], ins, pool, lim) matches Ok(g) && {
        &&& ins.target() matches Some(t) ==> frames.contains_key(t) && g.satisfies(frames[t])
        &&& ins.ends() ==> last || frames.contains_key(insns[k + 1].pc)
        &&& !ins.ends() ==> !last && reached_with(g, states[k + 1], frames, insns[k + 1].pc)
    }
}

proof fn lemma_well_typed_from(
    insns: Seq<Insn>,
    states: Seq<FrameView>,
    frames: Map<u32, FrameView>,
    lim: Limits,
    pool: PoolView,
    k: int,
    cur: Option<FrameView>,
)
    requires
        insns.len() == states.len() > 0,
        0 <= k <= insns.len(),
        forall|i: int|
            0 <= i < insns.len() ==> #[trigger] well_typed_at(insns, states, frames, lim, pool, i),
        match cur {
            Some(f) => k < insns.len() && reached_with(f, states[k], frames, insns[k].pc),
            None => k < insns.len() ==> frames.contains_key(insns[k].pc),
        },
    ensures
        checked_from(insns, k, frames, cur, lim, pool) is Ok,
    decreases insns.len() - k,
{
    if k < insns.len() {
        assert(well_typed_at(insns, states, frames, lim, pool, k));
        let g = applied(states[k], insns[k], pool, lim)->Ok_0;
        let next = if insns[k].ends() {
            None
        } else {
            Some(g)
        };
        lemma_well_typed_from(insns, states, frames, lim, pool, k + 1, next);
    }
}

proof fn lemma_targets_hold(insns: Seq<Insn>, k: int)
    requires
        0 <= k,
        forall|i: int|
            0 <= i < insns.len() ==> ((#[trigger] insns[i]).target() matches Some(t)
                ==> is_boundary(insns, t)),
    ensures
        targets_checked(insns, k) is Ok,
    decreases insns.len() - k,
{
    if k < insns.len() {
        lemma_targets_hold(insns, k + 1);
    }
}

/// Well-typed methods are accepted: a method whose code can be decoded, branches to instructions, has
/// locals for its arguments, and is well-typed throughout with the frames that it declares, starting
/// with its arguments and an empty stack.
pub proof fn lemma_well_typed_methods_are_accepted(
    cf: ClassFileView,
    m: MemberView,
    descriptor: Seq<char>,
    frames: Map<u32, FrameView>,
    states: Seq<FrameView>,
)
    requires
        first_code(m.attributes) is Some,
        pool_utf8(cf.constant_pool, m.descriptor_index) == Some(descriptor),
        method_types(descriptor) is Some,
        decoded(first_code(m.attributes)->0.code) is Ok,
        ({
            let code = first_code(m.attributes)->0;
            let (args, ret) = method_types(descriptor)->0;
            let insns = decoded(code.code)->Ok_0;
            let items = initial_items(static_flag(m.access_flags), args);
            let lim = Limits { max_stack: code.max_stack, max_locals: code.max_locals, ret };
            &&& insns.len() == states.len() > 0
            &&& match first_raw(code.attributes, cf.constant_pool, "StackMapTable"@) {
                Some(b) => declared_frames(b, items) == Some(frames),
                None => frames == Map::<u32, FrameView>::empty(),
            }
            &&& total_slots(items) <= code.max_locals
            &&& forall|i: int|
                0 <= i < insns.len() ==> ((#[trigger] insns[i]).target() matches Some(t)
                    ==> is_boundary(insns, t))
            &&& reached_with(
                FrameView {
                    locals: padded(expanded(items), code.max_locals as int),
                    stack: Seq::empty(),
                },
                states[0],
                frames,
                insns[0].pc,
            )
            &&& forall|i: int|
                0 <= i < insns.len() ==> #[trigger] well_typed_at(
                    insns,
                    states,
                    frames,
                    lim,
                    cf.constant_pool,
                    i,
                )
        }),
    ensures
        ({
            let code = first_code(m.attributes)->0;
            let (args, ret) = method_types(descriptor)->0;
            verified(cf, m) == Ok::<VerifiedView, VerifyError>(
                VerifiedView {
                    insns: decoded(code.code)->Ok_0,
                    max_stack: code.max_stack,
                    max_locals: code.max_locals,
                    is_static: static_flag(m.access_flags),
                    arg_types: args,
                    ret,
                    frames,
                },
            )
        }),
{
    let code = first_code(m.attributes)->0;
    let (args, ret) = method_types(descriptor)->0;
    let insns = decoded(code.code)->Ok_0;
    let items = initial_items(static_flag(m.access_flags), args);
    let lim = Limits { max_stack: code.max_stack, max_locals: code.max_locals, ret };
    let initial = FrameView {
        locals: padded(expanded(items), code.max_locals as int),
        stack: Seq::empty(),
    };
    lemma_expanded_len(items);
    lemma_targets_hold(insns, 0);
    lemma_well_typed_from(insns, states, frames, lim, cf.constant_pool, 0, Some(initial));
}

/// Straight-line methods that return a byte, a char, an int, a short or a boolean are accepted if
/// their code leaves an int for `ireturn`.
pub proof fn lemma_int_methods_are_accepted(
    cf: ClassFileView,
    m: MemberView,
    descriptor: Seq<char>,
    args: Seq<Described>,
    result: Held,
    states: Seq<FrameView>,
)
    requires
        result is Byte || result is Char || result is Int || result is Short || result is Boolean,
        first_code(m.attributes) is Some,
        pool_utf8(cf.constant_pool, m.descriptor_index) == Some(descriptor),
        decoded(first_code(m.attributes)->0.code) is Ok,
        ({
            let b = encode_utf8(descriptor);
            let end = 1 + total_len(args);
            &&& b.len() == end + 2
            &&& b[0] == 0x28
            &&& stand_from(b, 1, args)
            &&& 0 < end
            &&& b[end] == 0x29
            &&& b[end + 1] == result.letter()
        }),
        ({
            let code = first_code(m.attributes)->0;
            let insns = decoded(code.code)->Ok_0;
            let types = Seq::new(args.len(), |k: int| args[k].denotes());
            let items = initial_items(static_flag(m.access_flags), types);
            let lim = Limits {
                max_stack: code.max_stack,
                max_locals: code.max_locals,
                ret: Some(VType::Int),
            };
            &&& insns.len() == states.len() > 0
            &&& first_raw(code.attributes, cf.constant_pool, "StackMapTable"@) is None
            &&& total_slots(items) <= code.max_locals
            &&& states[0] == FrameView {
                locals: padded(expanded(items), code.max_locals as int),
                stack: Seq::empty(),
            }
            &&& forall|i: int|
                0 <= i < insns.len() - 1 ==> {
                    &&& (#[trigger] insns[i]).target() is None
                    &&& !insns[i].ends()
                    &&& applied(states[i], insns[i], cf.constant_pool, lim) == Ok::<
                        FrameView,
                        VerifyError,
                    >(states[i + 1])
                }
            &&& insns.last().op == 0xac
            &&& states.last().stack.len() > 0
            &&& states.last().stack.last() == VType::Int
        }),
    ensures
        verified(cf, m) is Ok,
        verified(cf, m)->Ok_0.ret == Some(VType::Int),
{
    let b = encode_utf8(descriptor);
    let code = first_code(m.attributes)->0;
    let insns = decoded(code.code)->Ok_0;
    let types = Seq::new(args.len(), |k: int| args[k].denotes());
    let d = Described { dims: 0, held: result };
    let lim = Limits {
        max_stack: code.max_stack,
        max_locals: code.max_locals,
        ret: Some(VType::Int),
    };
    lemma_method_descriptors_denote(b, args, Some(d));
    assert forall|i: int| 0 <= i < insns.len() implies #[trigger] well_typed_at(
        insns,
        states,
        Map::empty(),
        lim,
        cf.constant_pool,
        i,
    ) by {
        if i == insns.len() - 1 {
            assert(insns[i] == insns.last());
            assert(states[i] == states.last());
            lemma_returns_are_checked(states[i], insns[i], cf.constant_pool, lim);
            lemma_what_may_be_used(VType::Int, VType::Int);
        }
    }
    assert forall|i: int| 0 <= i < insns.len() implies (#[trigger] insns[i]).target() is None by {
        if i == insns.len() - 1 {
            assert(insns[i] == insns.last());
        }
    }
    lemma_well_typed_methods_are_accepted(cf, m, descriptor, Map::empty(), states);
}

/// The byte that stands for a type in a stack map.
pub open spec fn map_tag(t: VType) -> u8 {
    match t {
        VType::Top => 0,
        VType::Int => 1,
        VType::Float => 2,
        VType::Double => 3,
        VType::Long => 4,
        VType::Null => 5,
        VType::UninitializedThis => 6,
        VType::Reference => 7,
        VType::Uninitialized(_) => 8,
    }
}

/// How many bytes a type takes in a stack map: a class, or the place of its `new`, takes two more.
pub open spec fn map_len(t: VType) -> int {
    if t is Reference || t is Uninitialized {
        3
    } else {
        1
    }
}

/// Whether a type stands at a position of a stack map.
pub open spec fn type_stands(b: Seq<u8>, i: int, t: VType) -> bool {
    &&& 0 <= i
    &&& i + map_len(t) <= b.len()
    &&& b[i] == map_tag(t)
    &&& t matches VType::Uninitialized(at) ==> at == b[i + 1] * 0x100 + b[i + 2]
}

/// Whether types stand one behind the other, up to a position.
pub open spec fn types_stand(b: Seq<u8>, i: int, ts: Seq<VType>, end: int) -> bool
    decreases ts.len(),
{
    if ts.len() == 0 {
        i == end
    } else {
        type_stands(b, i, ts.first()) && types_stand(
            b,
            i + map_len(ts.first()),
            ts.drop_first(),
            end,
        )
    }
}

/// A type in a stack map is read as what it stands for, and nothing else is a type.
pub proof fn lemma_map_types_are_read(b: Seq<u8>, i: int, t: VType)
    ensures
        type_stands(b, i, t) ==> vti_at(b, i) == Some((t, i + map_len(t))),
        0 <= i < b.len() && b[i] > 8 ==> vti_at(b, i) is None,
{
}

proof fn lemma_map_types_from(b: Seq<u8>, i: int, ts: Seq<VType>, end: int, before: Seq<VType>)
    requires
        types_stand(b, i, ts, end),
    ensures
        vtis_from(b, i, ts.len(), before) == Some((before + ts, end)),
    decreases ts.len(),
{
    if ts.len() == 0 {
        assert(before + ts =~= before);
    } else {
        lemma_map_types_are_read(b, i, ts.first());
        lemma_map_types_from(
            b,
            i + map_len(ts.first()),
            ts.drop_first(),
            end,
            before.push(ts.first()),
        );
        assert(before.push(ts.first()) + ts.drop_first() =~= before + ts);
    }
}

/// How a frame differs from the one before it.
pub enum Change {
    /// The same locals, and an empty stack.
    Same,
    /// The same locals, and one item on the stack.
    SameButOne(VType),
    /// Without the last one, two or three locals, and an empty stack.
    Chopped(int),
    /// With one, two or three more locals, and an empty stack.
    Appended(Seq<VType>),
    /// All locals and the whole stack anew.
    Full(Seq<VType>, Seq<VType>),
}

/// The locals that a change leaves.
pub open spec fn locals_after(c: Change, items: Seq<VType>) -> Seq<VType> {
    match c {
        Change::Same | Change::SameButOne(_) => items,
        Change::Chopped(n) => items.take(items.len() - n),
        Change::Appended(more) => items + more,
        Change::Full(locals, _) => locals,
    }
}

/// The stack that a change leaves.
pub open spec fn stack_after(c: Change) -> Seq<VType> {
    match c {
        Change::SameButOne(t) => seq![t],
        Change::Full(_, stack) => stack,
        _ => Seq::empty(),
    }
}

/// Whether a change stands at a position of a stack map, `delta` behind the frame before, and up to
/// a position. Small distances of the two simplest kinds have a form of their own.
pub open spec fn change_stands(b: Seq<u8>, i: int, delta: int, c: Change, end: int) -> bool {
    let kind = b[i] as int;
    let far = i + 2 < b.len() && delta == b[i + 1] * 0x100 + b[i + 2];
    &&& 0 <= i < b.len()
    &&& match c {
        Change::Same => {
            ||| delta <= 63 && kind == delta && end == i + 1
            ||| kind == 251 && far && end == i + 3
        },
        Change::SameButOne(t) => {
            ||| 0 <= delta <= 63 && kind == 64 + delta && type_stands(b, i + 1, t) && end == i + 1
                + map_len(t)
            ||| kind == 247 && far && type_stands(b, i + 3, t) && end == i + 3 + map_len(t)
        },
        Change::Chopped(n) => 1 <= n <= 3 && kind == 251 - n && far && end == i + 3,
        Change::Appended(more) => 1 <= more.len() <= 3 && kind == 251 + more.len() && far
            && types_stand(b, i + 3, more, end),
        Change::Full(locals, stack) => {
            &&& kind == 255
            &&& far
            &&& i + 4 < b.len()
            &&& locals.len() == b[i + 3] * 0x100 + b[i + 4]
            &&& exists|mid: int|
                #![trigger types_stand(b, i + 5, locals, mid)]
                types_stand(b, i + 5, locals, mid) && 0 <= mid && mid + 1 < b.len() && stack.len()
                    == b[mid] * 0x100 + b[mid + 1] && types_stand(b, mid + 2, stack, end)
        },
    }
}

/// A frame in a stack map is read as the change that stands there.
pub proof fn lemma_map_frames_are_read(
    b: Seq<u8>,
    i: int,
    items: Seq<VType>,
    delta: int,
    c: Change,
    end: int,
)
    requires
        change_stands(b, i, delta, c, end),
        c matches Change::Chopped(n) ==> n <= items.len(),
    ensures
        entry_at(b, i, items) == Some(
            Entry { delta, items: locals_after(c, items), stack: stack_after(c), next: end },
        ),
{
    match c {
        Change::Same => {
            assert(items.take(items.len() as int) =~= items);
        },
        Change::SameButOne(t) => {
            lemma_map_types_are_read(b, i + 1, t);
            lemma_map_types_are_read(b, i + 3, t);
        },
        Change::Chopped(n) => {},
        Change::Appended(more) => {
            lemma_map_types_from(b, i + 3, more, end, items);
        },
        Change::Full(locals, stack) => {
            let mid = choose|mid: int|
                #![trigger types_stand(b, i + 5, locals, mid)]
                types_stand(b, i + 5, locals, mid) && 0 <= mid && mid + 1 < b.len() && stack.len()
                    == b[mid] * 0x100 + b[mid + 1] && types_stand(b, mid + 2, stack, end);
            lemma_map_types_from(b, i + 5, locals, mid, Seq::empty());
            lemma_map_types_from(b, mid + 2, stack, end, Seq::empty());
            assert(Seq::<VType>::empty() + locals =~= locals);
            assert(Seq::<VType>::empty() + stack =~= stack);
        },
    }
}

/// One frame more lies one further than its distance behind the frame before, the first at its distance
/// from the start; it holds the locals in slots, and its stack.
pub proof fn lemma_frames_lie_behind_each_other(
    b: Seq<u8>,
    i: int,
    n: nat,
    items: Seq<VType>,
    before: Option<u32>,
    frames: Map<u32, FrameView>,
    delta: int,
    c: Change,
    end: int,
)
    requires
        n > 0,
        change_stands(b, i, delta, c, end),
        c matches Change::Chopped(k) ==> k <= items.len(),
    ensures
        ({
            let at = match before {
                Some(pc) => pc + delta + 1,
                None => delta,
            };
            let locals = locals_after(c, items);
            0 <= at <= u32::MAX ==> frames_from(
                b,
                i,
                n,
                items,
                match before {
                    Some(pc) => pc as int,
                    None => -1,
                },
                frames,
            ) == frames_from(
                b,
                end,
                (n - 1) as nat,
                locals,
                at,
                frames.insert(
                    at as u32,
                    FrameView { locals: expanded(locals), stack: stack_after(c) },
                ),
            )
        }),
{
    lemma_map_frames_are_read(b, i, items, delta, c, end);
}

/// A stack map starts with the number of its frames, and the locals of the first are told from those
/// that the method starts with.
pub proof fn lemma_stack_maps_start_with_a_count(b: Seq<u8>, initial: Seq<VType>)
    ensures
        b.len() < 2 ==> declared_frames(b, initial) is None,
        b.len() >= 2 ==> declared_frames(b, initial) == frames_from(
            b,
            2,
            (b[0] * 0x100 + b[1]) as nat,
            initial,
            -1,
            Map::empty(),
        ),
{
}

/// The next instruction lies right behind.
pub proof fn lemma_instructions_follow_each_other(ins: Insn)
    requires
        ins.pc + ins.len <= u32::MAX,
    ensures
        ins.next_pc() == ins.pc + ins.len,
{
}

/// Why an instruction on the stack is refused: there is nothing to take, what is there is of another
/// type, or there is no room for what it leaves. The topmost operand is looked at first.
pub proof fn lemma_why_the_stack_is_refused(f: FrameView, ins: Insn, pool: PoolView, lim: Limits)
    requires
        stack_types(ins.op) is Some,
    ensures
        ({
            let (takes, leaves) = stack_types(ins.op)->0;
            let n = f.stack.len() as int;
            let r = applied(f, ins, pool, lim);
            let under = Err::<FrameView, VerifyError>(VerifyError::StackUnderflow(ins.pc));
            let below = f.stack.take(n - takes.len());
            &&& takes.len() > 0 && n == 0 ==> r == under
            &&& takes.len() > 0 && n > 0 && !assignable(f.stack[n - 1], takes[takes.len() - 1])
                ==> (r matches Err(e) && e is TypeMismatch && e->TypeMismatch_pc == ins.pc)
            &&& takes.len() == 2 && n == 1 && assignable(f.stack[0], takes[1]) ==> r == under
            &&& takes.len() == 2 && n > 1 && assignable(f.stack[n - 1], takes[1]) && !assignable(
                f.stack[n - 2],
                takes[0],
            ) ==> (r matches Err(e) && e is TypeMismatch && e->TypeMismatch_pc == ins.pc)
            &&& offers(f.stack, takes) && !have_room(below, leaves, lim.max_stack) ==> r == Err::<
                FrameView,
                VerifyError,
            >(VerifyError::StackOverflow(ins.pc))
        }),
{
    lemma_rule_of_types(ins.op);
    lemma_stack_types_are_checked(f, ins, pool, lim);
    let (takes, leaves) = stack_types(ins.op)->0;
    let n = f.stack.len() as int;
    if takes.len() > 0 {
        assert(takes[takes.len() - 1] == takes.last());
        if n > 0 {
            assert(f.stack[n - 1] == f.stack.last());
        }
        if n > 1 {
            assert(f.stack.drop_last().last() == f.stack[n - 2]);
        }
        if offers(f.stack, takes) {
            assert(assignable(f.stack[n - takes.len()], takes[0]));
            assert(assignable(f.stack[n - 1], takes[takes.len() - 1]));
        }
    }
    if leaves.len() == 1 {
        assert(leaves.drop_last() =~= Seq::empty());
        assert(total_slots(leaves.drop_last()) == 0);
        let below = f.stack.take(n - takes.len());
        if takes.len() == 0 {
            assert(below =~= f.stack);
        } else if takes.len() == 1 && n >= 1 {
            assert(f.stack.drop_last() =~= below);
        } else if takes.len() == 2 && n >= 2 {
            assert(f.stack.drop_last().drop_last() =~= below);
        }
    }
}

/// Why a local is refused: it lies outside the frame, or is of another type. A return is refused as
/// such if the method returns something else.
pub proof fn lemma_why_locals_and_returns_are_refused(
    f: FrameView,
    ins: Insn,
    pool: PoolView,
    lim: Limits,
)
    requires
        f.locals.len() == lim.max_locals,
    ensures
        read_by(ins) matches Some((var, t)) ==> {
            let r = applied(f, ins, pool, lim);
            &&& var + t.slots() > lim.max_locals ==> r == Err::<FrameView, VerifyError>(
                VerifyError::BadLocal { pc: ins.pc, index: var as u16 },
            )
            &&& var + t.slots() <= lim.max_locals && f.locals[var] != t ==> (r matches Err(e)
                && e is TypeMismatch)
        },
        written_by(ins) matches Some((var, t)) ==> (var + t.slots() > lim.max_locals ==> applied(
            f,
            ins,
            pool,
            lim,
        ) == Err::<FrameView, VerifyError>(
            VerifyError::BadLocal { pc: ins.pc, index: var as u16 },
        )),
        ins.op == 0xac && f.stack.len() > 0 && assignable(f.stack.last(), VType::Int) && lim.ret
            != Some(VType::Int) ==> applied(f, ins, pool, lim) == Err::<FrameView, VerifyError>(
            VerifyError::BadReturn(ins.pc),
        ),
        ins.op == 0xad && f.stack.len() > 0 && assignable(f.stack.last(), VType::Long) && lim.ret
            != Some(VType::Long) ==> applied(f, ins, pool, lim) == Err::<FrameView, VerifyError>(
            VerifyError::BadReturn(ins.pc),
        ),
{
}

/// Why control flow is refused: a place that is only branched to, or a target, has no frame, or the
/// state that reaches one does not do for it.
pub proof fn lemma_why_control_is_refused(
    cur: Option<FrameView>,
    frames: Map<u32, FrameView>,
    ins: Insn,
    max_locals: u16,
)
    ensures
        cur is None && !frames.contains_key(ins.pc) ==> entered(cur, frames, ins.pc, max_locals)
            == Err::<FrameView, VerifyError>(VerifyError::MissingFrame(ins.pc)),
        cur matches Some(f) ==> (frames.contains_key(ins.pc) && !f.satisfies(frames[ins.pc])
            ==> entered(cur, frames, ins.pc, max_locals) == Err::<FrameView, VerifyError>(
            VerifyError::FrameMismatch(ins.pc),
        )),
        cur matches Some(f) ==> (ins.target() matches Some(t) ==> {
            &&& !frames.contains_key(t) ==> branch_checked(ins, f, frames) == Err::<(), VerifyError>(
                VerifyError::MissingFrame(t),
            )
            &&& frames.contains_key(t) && !f.satisfies(frames[t]) ==> branch_checked(ins, f, frames)
                == Err::<(), VerifyError>(VerifyError::FrameMismatch(t))
        }),
{
}

/// Why a method is refused: it has no code, or no descriptor that denotes types, or code that cannot be
/// decoded; a branch that leads to no instruction; or more arguments than locals.
pub proof fn lemma_why_methods_are_refused(cf: ClassFileView, m: MemberView)
    ensures
        first_code(m.attributes) is None ==> verified(cf, m) == Err::<VerifiedView, VerifyError>(
            VerifyError::NoCode,
        ),
        first_code(m.attributes) is Some && (match pool_utf8(cf.constant_pool, m.descriptor_index) {
            Some(d) => method_types(d) is None,
            None => true,
        }) ==> verified(cf, m) == Err::<VerifiedView, VerifyError>(VerifyError::BadDescriptor),
        first_code(m.attributes) matches Some(code) ==> (pool_utf8(
            cf.constant_pool,
            m.descriptor_index,
        ) matches Some(d) ==> (method_types(d) is Some ==> (decoded(code.code) matches Err(e)
            ==> verified(cf, m) == Err::<VerifiedView, VerifyError>(e)))),
{
}

proof fn lemma_bad_target(insns: Seq<Insn>, k: int, i: int)
    requires
        0 <= k <= i < insns.len(),
        insns[i].target() matches Some(t) && !is_boundary(insns, t),
    ensures
        targets_checked(insns, k) matches Err(e) && e is BadBranchTarget,
    decreases insns.len() - k,
{
    if k < i {
        lemma_bad_target(insns, k + 1, i);
    }
}

/// A method with a branch that leads to no instruction is refused for it.
pub proof fn lemma_stray_branches_are_refused(
    cf: ClassFileView,
    m: MemberView,
    descriptor: Seq<char>,
    i: int,
)
    requires
        first_code(m.attributes) is Some,
        pool_utf8(cf.constant_pool, m.descriptor_index) == Some(descriptor),
        method_types(descriptor) is Some,
        decoded(first_code(m.attributes)->0.code) matches Ok(insns) && {
            &&& 0 <= i < insns.len()
            &&& insns[i].target() matches Some(t) && !is_boundary(insns, t)
        },
    ensures
        verified(cf, m) matches Err(e) && e is BadBranchTarget,
{
    lemma_bad_target(decoded(first_code(m.attributes)->0.code)->Ok_0, 0, i);
}

} // verus!
