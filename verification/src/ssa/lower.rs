//! Lowering of instructions to SSA nodes. Within a block, a symbolic operand stack and the current
//! definitions of the locals stand in for the machine's; only descriptors are read of symbolic
//! references, because the shape of the operand stack must be known. Targets stay symbolic.

use vstd::prelude::*;
use vstd::utf8::encode_utf8;
use crate::classfile::constant_pool::{pool_utf8, Constant, ConstantPool, ConstantView, PoolView};
use crate::diff::EscapeState;
use crate::ids::{BlockId, ValId};
use crate::inline::Operands;
use crate::ir::{node_views, Effect, IntCond, Node, NodeView, Op, Terminator};
use crate::ssa::cfg::{block_at, find_block};
use crate::ssa::error::IrError;
use crate::ssa::state::{read, Cfg, CfgView, Ssa, SsaView};
use crate::text::text_of;
use crate::value::{Tag, Val128};
use crate::verify::insn::Insn;
use crate::verify::typecheck::inc_local;
use crate::verify::vtype::{method_types, parse_method_descriptor, VType};

verus! {

/// What an instruction becomes.
#[derive(Clone, Copy, PartialEq, Eq, Debug, Structural)]
pub enum Lowering {
    Nothing,
    /// A known constant on the stack.
    Const(Val128),
    /// A constant of the pool on the stack.
    PoolConstant,
    /// A local on the stack.
    Load(u16),
    /// The top of the stack into a local.
    Store(u16),
    /// A local increased by a constant.
    Increment,
    /// A node over the two topmost items.
    Binary { op: Op, ty: Tag, effect: Effect },
    /// A node over the topmost item.
    Unary { op: Op, ty: Tag, effect: Effect },
    /// A node that takes nothing.
    Source { op: Op, ty: Tag, effect: Effect },
    /// A field read: a node over the topmost item, or over nothing for a static field, of the
    /// field's type.
    FieldRead { op: Op, of_object: bool, effect: Effect },
    /// A field write over the topmost one or two items, without a result.
    FieldWrite { op: Op, of_object: bool, effect: Effect },
    /// A conditional branch on a test of the topmost item.
    BranchOnOne(Op),
    /// A conditional branch on a test of the two topmost items.
    BranchOnTwo(Op),
    Jump,
    ReturnValue,
    ReturnVoid,
    Duplicate,
    Call { op: Op, has_receiver: bool },
    Unsupported,
}

/// The condition of `if<cond>`.
pub open spec fn zero_cond(op: u8) -> IntCond {
    match op {
        0x99u8 => IntCond::Eq,
        0x9au8 => IntCond::Ne,
        0x9bu8 => IntCond::Lt,
        0x9cu8 => IntCond::Ge,
        0x9du8 => IntCond::Gt,
        _ => IntCond::Le,
    }
}

/// The condition of a branch on two ints.
pub open spec fn pair_cond(op: u8) -> IntCond {
    match op {
        0x9fu8 => IntCond::Eq,
        0xa0u8 => IntCond::Ne,
        0xa1u8 => IntCond::Lt,
        0xa2u8 => IntCond::Ge,
        0xa3u8 => IntCond::Gt,
        _ => IntCond::Le,
    }
}

pub open spec fn pure_binary(op: Op, ty: Tag) -> Lowering {
    Lowering::Binary { op, ty, effect: Effect::Pure }
}

pub open spec fn trapping_binary(op: Op, ty: Tag) -> Lowering {
    Lowering::Binary { op, ty, effect: Effect::MayThrow { caught: false } }
}

pub open spec fn pure_unary(op: Op, ty: Tag) -> Lowering {
    Lowering::Unary { op, ty, effect: Effect::Pure }
}

/// Arithmetic, conversions and compares.
pub open spec fn arithmetic_lowering(op: u8) -> Lowering {
    match op {
        0x60u8 => pure_binary(Op::Add, Tag::I32),
        0x61u8 => pure_binary(Op::Add, Tag::I64),
        0x62u8 => pure_binary(Op::Add, Tag::F32),
        0x64u8 => pure_binary(Op::Sub, Tag::I32),
        0x65u8 => pure_binary(Op::Sub, Tag::I64),
        0x66u8 => pure_binary(Op::Sub, Tag::F32),
        0x68u8 => pure_binary(Op::Mul, Tag::I32),
        0x69u8 => pure_binary(Op::Mul, Tag::I64),
        0x6au8 => pure_binary(Op::Mul, Tag::F32),
        0x6cu8 => trapping_binary(Op::Div, Tag::I32),
        0x70u8 => trapping_binary(Op::Rem, Tag::I32),
        0x74u8 => pure_unary(Op::Neg, Tag::I32),
        0x7eu8 => pure_binary(Op::And, Tag::I32),
        0x85u8 => pure_unary(Op::Convert, Tag::I64),
        0x86u8 => pure_unary(Op::Convert, Tag::F32),
        0x88u8 => pure_unary(Op::Convert, Tag::I32),
        0x89u8 => pure_unary(Op::Convert, Tag::F32),
        0x8bu8 => pure_unary(Op::Convert, Tag::I32),
        0x8cu8 => pure_unary(Op::Convert, Tag::I64),
        0x94u8 => pure_binary(Op::Cmp { nan_greater: false }, Tag::I32),
        0x95u8 => pure_binary(Op::Cmp { nan_greater: false }, Tag::I32),
        0x96u8 => pure_binary(Op::Cmp { nan_greater: true }, Tag::I32),
        _ => Lowering::Unsupported,
    }
}

/// Branches and returns.
pub open spec fn control_lowering(op: u8) -> Lowering {
    if 0x99 <= op <= 0x9e {
        Lowering::BranchOnOne(Op::TestZero(zero_cond(op)))
    } else if 0x9f <= op <= 0xa4 {
        Lowering::BranchOnTwo(Op::ICmp(pair_cond(op)))
    } else if op == 0xa5 || op == 0xa6 {
        Lowering::BranchOnTwo(Op::RefEq { expect_same: op == 0xa5 })
    } else if op == 0xc6 || op == 0xc7 {
        Lowering::BranchOnOne(Op::TestNull { expect_null: op == 0xc6 })
    } else if op == 0xa7 {
        Lowering::Jump
    } else if op == 0xac || op == 0xad || op == 0xb0 {
        Lowering::ReturnValue
    } else if op == 0xb1 {
        Lowering::ReturnVoid
    } else {
        Lowering::Unsupported
    }
}

/// Calls, fields, allocation and casts, each with its constant-pool index.
pub open spec fn symbolic_lowering(op: u8, cp: u16) -> Lowering {
    match op {
        0xb2u8 => Lowering::FieldRead {
            op: Op::GetStatic(cp),
            of_object: false,
            effect: Effect::Extern,
        },
        0xb3u8 => Lowering::FieldWrite {
            op: Op::PutStatic(cp),
            of_object: false,
            effect: Effect::Extern,
        },
        0xb4u8 => Lowering::FieldRead {
            op: Op::GetField(cp),
            of_object: true,
            effect: Effect::ReadHeap,
        },
        0xb5u8 => Lowering::FieldWrite {
            op: Op::PutField(cp),
            of_object: true,
            effect: Effect::WriteHeap,
        },
        0xb6u8 => Lowering::Call { op: Op::InvokeVirtual(cp), has_receiver: true },
        0xb7u8 => Lowering::Call { op: Op::InvokeSpecial(cp), has_receiver: true },
        0xb8u8 => Lowering::Call { op: Op::InvokeStatic(cp), has_receiver: false },
        0xbbu8 => Lowering::Source {
            op: Op::New { class_cp: cp, escape: EscapeState::S1 },
            ty: Tag::Handle,
            effect: Effect::WriteHeap,
        },
        0xc0u8 => Lowering::Unary {
            op: Op::CheckCast(cp),
            ty: Tag::Ptr,
            effect: Effect::MayThrow { caught: false },
        },
        0xc1u8 => Lowering::Unary {
            op: Op::InstanceOf(cp),
            ty: Tag::I32,
            effect: Effect::ReadHeap,
        },
        _ => Lowering::Unsupported,
    }
}

/// The bits of the floats 0, 1 and 2.
pub open spec fn small_float(op: u8) -> u32 {
    match op {
        0x0bu8 => 0,
        0x0cu8 => 0x3F80_0000,
        _ => 0x4000_0000,
    }
}

/// What an instruction becomes.
pub open spec fn lowering_of(ins: Insn) -> Lowering {
    let op = ins.op;
    if op == 0x00 {
        Lowering::Nothing
    } else if op == 0x01 {
        Lowering::Const(Val128::null())
    } else if 0x02 <= op <= 0x08 {
        Lowering::Const(Val128::from_i32((op - 3) as i32))
    } else if op == 0x09 || op == 0x0a {
        Lowering::Const(Val128::from_i64((op - 9) as i64))
    } else if 0x0b <= op <= 0x0d {
        Lowering::Const(Val128::from_f32(small_float(op)))
    } else if op == 0x10 || op == 0x11 {
        Lowering::Const(Val128::from_i32(ins.arg as i32))
    } else if 0x12 <= op <= 0x14 {
        Lowering::PoolConstant
    } else if 0x15 <= op <= 0x17 || op == 0x19 {
        Lowering::Load(ins.arg as u16)
    } else if 0x1a <= op <= 0x1d {
        Lowering::Load((op - 0x1a) as u16)
    } else if 0x1e <= op <= 0x21 {
        Lowering::Load((op - 0x1e) as u16)
    } else if 0x22 <= op <= 0x25 {
        Lowering::Load((op - 0x22) as u16)
    } else if 0x2a <= op <= 0x2d {
        Lowering::Load((op - 0x2a) as u16)
    } else if 0x36 <= op <= 0x38 || op == 0x3a {
        Lowering::Store(ins.arg as u16)
    } else if 0x3b <= op <= 0x3e {
        Lowering::Store((op - 0x3b) as u16)
    } else if 0x3f <= op <= 0x42 {
        Lowering::Store((op - 0x3f) as u16)
    } else if 0x43 <= op <= 0x46 {
        Lowering::Store((op - 0x43) as u16)
    } else if 0x4b <= op <= 0x4e {
        Lowering::Store((op - 0x4b) as u16)
    } else if op == 0x59 {
        Lowering::Duplicate
    } else if op == 0x84 {
        Lowering::Increment
    } else if 0x60 <= op <= 0x96 {
        arithmetic_lowering(op)
    } else if 0xb2 <= op <= 0xc1 {
        symbolic_lowering(op, ins.arg as u16)
    } else {
        control_lowering(op)
    }
}

pub fn if_cond(op: u8) -> (c: IntCond)
    ensures
        c == zero_cond(op),
{
    match op {
        0x99 => IntCond::Eq,
        0x9a => IntCond::Ne,
        0x9b => IntCond::Lt,
        0x9c => IntCond::Ge,
        0x9d => IntCond::Gt,
        _ => IntCond::Le,
    }
}

pub fn if_icmp_cond(op: u8) -> (c: IntCond)
    ensures
        c == pair_cond(op),
{
    match op {
        0x9f => IntCond::Eq,
        0xa0 => IntCond::Ne,
        0xa1 => IntCond::Lt,
        0xa2 => IntCond::Ge,
        0xa3 => IntCond::Gt,
        _ => IntCond::Le,
    }
}

fn lower_arithmetic(op: u8) -> (l: Lowering)
    ensures
        l == arithmetic_lowering(op),
{
    let pure = Effect::Pure;
    let trap = Effect::MayThrow { caught: false };
    match op {
        0x60 => Lowering::Binary { op: Op::Add, ty: Tag::I32, effect: pure },
        0x61 => Lowering::Binary { op: Op::Add, ty: Tag::I64, effect: pure },
        0x62 => Lowering::Binary { op: Op::Add, ty: Tag::F32, effect: pure },
        0x64 => Lowering::Binary { op: Op::Sub, ty: Tag::I32, effect: pure },
        0x65 => Lowering::Binary { op: Op::Sub, ty: Tag::I64, effect: pure },
        0x66 => Lowering::Binary { op: Op::Sub, ty: Tag::F32, effect: pure },
        0x68 => Lowering::Binary { op: Op::Mul, ty: Tag::I32, effect: pure },
        0x69 => Lowering::Binary { op: Op::Mul, ty: Tag::I64, effect: pure },
        0x6a => Lowering::Binary { op: Op::Mul, ty: Tag::F32, effect: pure },
        0x6c => Lowering::Binary { op: Op::Div, ty: Tag::I32, effect: trap },
        0x70 => Lowering::Binary { op: Op::Rem, ty: Tag::I32, effect: trap },
        0x74 => Lowering::Unary { op: Op::Neg, ty: Tag::I32, effect: pure },
        0x7e => Lowering::Binary { op: Op::And, ty: Tag::I32, effect: pure },
        0x85 | 0x8c => Lowering::Unary { op: Op::Convert, ty: Tag::I64, effect: pure },
        0x86 | 0x89 => Lowering::Unary { op: Op::Convert, ty: Tag::F32, effect: pure },
        0x88 | 0x8b => Lowering::Unary { op: Op::Convert, ty: Tag::I32, effect: pure },
        0x94 | 0x95 => Lowering::Binary {
            op: Op::Cmp { nan_greater: false },
            ty: Tag::I32,
            effect: pure,
        },
        0x96 => Lowering::Binary {
            op: Op::Cmp { nan_greater: true },
            ty: Tag::I32,
            effect: pure,
        },
        _ => Lowering::Unsupported,
    }
}

fn lower_control(op: u8) -> (l: Lowering)
    ensures
        l == control_lowering(op),
{
    match op {
        0x99..=0x9e => Lowering::BranchOnOne(Op::TestZero(if_cond(op))),
        0x9f..=0xa4 => Lowering::BranchOnTwo(Op::ICmp(if_icmp_cond(op))),
        0xa5 => Lowering::BranchOnTwo(Op::RefEq { expect_same: true }),
        0xa6 => Lowering::BranchOnTwo(Op::RefEq { expect_same: false }),
        0xc6 => Lowering::BranchOnOne(Op::TestNull { expect_null: true }),
        0xc7 => Lowering::BranchOnOne(Op::TestNull { expect_null: false }),
        0xa7 => Lowering::Jump,
        0xac | 0xad | 0xb0 => Lowering::ReturnValue,
        0xb1 => Lowering::ReturnVoid,
        _ => Lowering::Unsupported,
    }
}

fn lower_symbolic(op: u8, cp: u16) -> (l: Lowering)
    ensures
        l == symbolic_lowering(op, cp),
{
    match op {
        0xb2 => Lowering::FieldRead {
            op: Op::GetStatic(cp),
            of_object: false,
            effect: Effect::Extern,
        },
        0xb3 => Lowering::FieldWrite {
            op: Op::PutStatic(cp),
            of_object: false,
            effect: Effect::Extern,
        },
        0xb4 => Lowering::FieldRead {
            op: Op::GetField(cp),
            of_object: true,
            effect: Effect::ReadHeap,
        },
        0xb5 => Lowering::FieldWrite {
            op: Op::PutField(cp),
            of_object: true,
            effect: Effect::WriteHeap,
        },
        0xb6 => Lowering::Call { op: Op::InvokeVirtual(cp), has_receiver: true },
        0xb7 => Lowering::Call { op: Op::InvokeSpecial(cp), has_receiver: true },
        0xb8 => Lowering::Call { op: Op::InvokeStatic(cp), has_receiver: false },
        0xbb => Lowering::Source {
            op: Op::New { class_cp: cp, escape: EscapeState::S1 },
            ty: Tag::Handle,
            effect: Effect::WriteHeap,
        },
        0xc0 => Lowering::Unary {
            op: Op::CheckCast(cp),
            ty: Tag::Ptr,
            effect: Effect::MayThrow { caught: false },
        },
        0xc1 => Lowering::Unary {
            op: Op::InstanceOf(cp),
            ty: Tag::I32,
            effect: Effect::ReadHeap,
        },
        _ => Lowering::Unsupported,
    }
}

/// What an instruction becomes.
pub fn classify(ins: &Insn) -> (l: Lowering)
    ensures
        l == lowering_of(*ins),
{
    let op: u8 = ins.op;
    match op {
        0x00 => Lowering::Nothing,
        0x01 => Lowering::Const(Val128::null()),
        0x02..=0x08 => Lowering::Const(Val128::from_i32(op as i32 - 3)),
        0x09..=0x0a => Lowering::Const(Val128::from_i64(op as i64 - 9)),
        0x0b => Lowering::Const(Val128::from_f32(0)),
        0x0c => Lowering::Const(Val128::from_f32(0x3F80_0000)),
        0x0d => Lowering::Const(Val128::from_f32(0x4000_0000)),
        0x10..=0x11 => Lowering::Const(Val128::from_i32(ins.arg as i32)),
        0x12..=0x14 => Lowering::PoolConstant,
        0x15..=0x17 | 0x19 => Lowering::Load(ins.arg as u16),
        0x1a..=0x1d => Lowering::Load((op - 0x1a) as u16),
        0x1e..=0x21 => Lowering::Load((op - 0x1e) as u16),
        0x22..=0x25 => Lowering::Load((op - 0x22) as u16),
        0x2a..=0x2d => Lowering::Load((op - 0x2a) as u16),
        0x36..=0x38 | 0x3a => Lowering::Store(ins.arg as u16),
        0x3b..=0x3e => Lowering::Store((op - 0x3b) as u16),
        0x3f..=0x42 => Lowering::Store((op - 0x3f) as u16),
        0x43..=0x46 => Lowering::Store((op - 0x43) as u16),
        0x4b..=0x4e => Lowering::Store((op - 0x4b) as u16),
        0x59 => Lowering::Duplicate,
        0x84 => Lowering::Increment,
        0x60..=0x96 => lower_arithmetic(op),
        0xb2..=0xc1 => lower_symbolic(op, ins.arg as u16),
        _ => lower_control(op),
    }
}

/// The value of a numeric constant of the pool.
pub open spec fn numeric_constant(pool: PoolView, index: i64) -> Option<Val128> {
    if 0 <= index < pool.len() && index <= 0xFFFF {
        match pool[index as int] {
            ConstantView::Plain(Constant::Integer(v)) => Some(Val128::from_i32(v)),
            ConstantView::Plain(Constant::Float(v)) => Some(Val128::from_f32(v)),
            ConstantView::Plain(Constant::Long(v)) => Some(Val128::from_i64(v)),
            ConstantView::Plain(Constant::Double(v)) => Some(Val128::from_f64(v)),
            _ => None,
        }
    } else {
        None
    }
}

/// Whether an index names a string constant.
pub open spec fn is_string_constant(pool: PoolView, index: i64) -> bool {
    0 <= index < pool.len() && index <= 0xFFFF && (pool[index as int] matches ConstantView::Plain(
        k,
    ) && k is String)
}

pub fn cp_const(cp: &ConstantPool, index: i64, pc: u32) -> (r: Result<Val128, IrError>)
    ensures
        r == (match numeric_constant(cp@, index) {
            Some(v) => Ok(v),
            None => Err(IrError::BadConstant(pc)),
        }),
{
    if index < 0 || index > 0xFFFF {
        return Err(IrError::BadConstant(pc));
    }
    match cp.get(index as u16) {
        Some(Constant::Integer(v)) => Ok(Val128::from_i32(*v)),
        Some(Constant::Float(v)) => Ok(Val128::from_f32(*v)),
        Some(Constant::Long(v)) => Ok(Val128::from_i64(*v)),
        Some(Constant::Double(v)) => Ok(Val128::from_f64(*v)),
        _ => Err(IrError::BadConstant(pc)),
    }
}

fn names_string(cp: &ConstantPool, index: i64) -> (r: bool)
    ensures
        r == is_string_constant(cp@, index),
{
    if index < 0 || index > 0xFFFF {
        return false;
    }
    match cp.get(index as u16) {
        Some(Constant::String { .. }) => true,
        _ => false,
    }
}

/// The variable that stands for operand-stack position `pos`: stack positions lie above the locals.
pub open spec fn stack_variable(max_locals: u16, pos: int) -> Result<u16, IrError> {
    if max_locals + pos > 0xFFFF {
        Err(IrError::TooManyValues)
    } else {
        Ok((max_locals + pos) as u16)
    }
}

pub fn stack_var(max_locals: u16, pos: usize) -> (r: Result<u16, IrError>)
    ensures
        r == stack_variable(max_locals, pos as int),
{
    if pos > (0xFFFF - max_locals) as usize {
        return Err(IrError::TooManyValues);
    }
    Ok(max_locals + pos as u16)
}

/// The index of the name and type that a field or method reference names.
pub open spec fn name_and_type(pool: PoolView, index: u16) -> Option<u16> {
    if index < pool.len() {
        match pool[index as int] {
            ConstantView::Plain(Constant::MethodRef { name_and_type_index, .. }) => Some(
                name_and_type_index,
            ),
            ConstantView::Plain(Constant::InterfaceMethodRef { name_and_type_index, .. }) => Some(
                name_and_type_index,
            ),
            ConstantView::Plain(Constant::FieldRef { name_and_type_index, .. }) => Some(
                name_and_type_index,
            ),
            _ => None,
        }
    } else {
        None
    }
}

/// The descriptor that a field or method reference names.
pub open spec fn reference_descriptor(pool: PoolView, index: u16) -> Option<Seq<char>> {
    match name_and_type(pool, index) {
        None => None,
        Some(nt) => if nt < pool.len() {
            match pool[nt as int] {
                ConstantView::Plain(Constant::NameAndType { descriptor_index, .. }) => pool_utf8(
                    pool,
                    descriptor_index,
                ),
                _ => None,
            }
        } else {
            None
        },
    }
}

/// The descriptor text a field or method reference names.
pub(crate) fn ref_descriptor<'a>(cp: &'a ConstantPool, index: u16) -> (t: Option<&'a str>)
    ensures
        text_of(t) == reference_descriptor(cp@, index),
{
    let nt: u16 = match cp.get(index) {
        Some(Constant::MethodRef { name_and_type_index, .. }) => *name_and_type_index,
        Some(Constant::InterfaceMethodRef { name_and_type_index, .. }) => *name_and_type_index,
        Some(Constant::FieldRef { name_and_type_index, .. }) => *name_and_type_index,
        _ => {
            return None;
        },
    };
    match cp.get(nt) {
        Some(Constant::NameAndType { descriptor_index, .. }) => cp.utf8(*descriptor_index),
        _ => None,
    }
}

/// Argument and return types of the method that a reference names.
pub open spec fn callee_types(pool: PoolView, index: u16) -> Option<
    (Seq<VType>, Option<VType>),
> {
    match reference_descriptor(pool, index) {
        None => None,
        Some(d) => method_types(d),
    }
}

/// Argument and return types of the callee a method reference names.
fn callee_descriptor(cp: &ConstantPool, index: u16, pc: u32) -> (r: Result<
    (Vec<VType>, Option<VType>),
    IrError,
>)
    ensures
        match callee_types(cp@, index) {
            Some((args, ret)) => r is Ok && r->Ok_0.0@ == args && r->Ok_0.1 == ret,
            None => r is Err && r->Err_0 == (IrError::Unsupported { op: 0xb8, pc }),
        },
{
    match ref_descriptor(cp, index) {
        None => Err(IrError::Unsupported { op: 0xb8, pc }),
        Some(d) => match parse_method_descriptor(d) {
            Ok(types) => Ok(types),
            Err(_) => Err(IrError::Unsupported { op: 0xb8, pc }),
        },
    }
}

/// The tag of a value of the given field descriptor.
pub open spec fn descriptor_tag(b: Seq<u8>) -> Option<Tag> {
    if b.len() == 0 {
        None
    } else {
        match b[0] {
            0x42u8 | 0x43u8 | 0x49u8 | 0x53u8 | 0x5Au8 => Some(Tag::I32),
            0x4Au8 => Some(Tag::I64),
            0x46u8 => Some(Tag::F32),
            0x44u8 => Some(Tag::F64),
            0x4Cu8 | 0x5Bu8 => Some(Tag::Ptr),
            _ => None,
        }
    }
}

/// The tag of the field that a reference names.
pub open spec fn field_tag(pool: PoolView, index: u16) -> Option<Tag> {
    match reference_descriptor(pool, index) {
        None => None,
        Some(d) => descriptor_tag(encode_utf8(d)),
    }
}

/// The value tag of the field a reference names.
fn fieldref_tag(cp: &ConstantPool, index: u16, pc: u32) -> (r: Result<Tag, IrError>)
    ensures
        r == (match field_tag(cp@, index) {
            Some(t) => Ok(t),
            None => Err(IrError::Unsupported { op: 0xb4, pc }),
        }),
{
    match ref_descriptor(cp, index) {
        None => Err(IrError::Unsupported { op: 0xb4, pc }),
        Some(d) => {
            let b = d.as_bytes();
            if b.len() == 0 {
                return Err(IrError::Unsupported { op: 0xb4, pc });
            }
            match b[0] {
                0x42 | 0x43 | 0x49 | 0x53 | 0x5A => Ok(Tag::I32),
                0x4A => Ok(Tag::I64),
                0x46 => Ok(Tag::F32),
                0x44 => Ok(Tag::F64),
                0x4C | 0x5B => Ok(Tag::Ptr),
                _ => Err(IrError::Unsupported { op: 0xb4, pc }),
            }
        },
    }
}

/// The tag a call's result carries; `void` gets a placeholder that is never pushed.
pub open spec fn result_tag(ret: Option<VType>) -> Option<Tag> {
    match ret {
        None | Some(VType::Int) => Some(Tag::I32),
        Some(VType::Long) => Some(Tag::I64),
        Some(VType::Float) => Some(Tag::F32),
        Some(VType::Double) => Some(Tag::F64),
        Some(VType::Reference) | Some(VType::Null) => Some(Tag::Ptr),
        Some(_) => None,
    }
}

pub fn return_tag(ret: Option<VType>, op: u8, pc: u32) -> (r: Result<Tag, IrError>)
    ensures
        r == (match result_tag(ret) {
            Some(t) => Ok(t),
            None => Err(IrError::Unsupported { op, pc }),
        }),
{
    match ret {
        None | Some(VType::Int) => Ok(Tag::I32),
        Some(VType::Long) => Ok(Tag::I64),
        Some(VType::Float) => Ok(Tag::F32),
        Some(VType::Double) => Ok(Tag::F64),
        Some(VType::Reference) | Some(VType::Null) => Ok(Tag::Ptr),
        Some(_) => Err(IrError::Unsupported { op, pc }),
    }
}

/// What lowering a block needs to know.
pub struct Context<'a> {
    pub cfg: &'a Cfg,
    pub pool: &'a ConstantPool,
    pub leaders: &'a Vec<u32>,
    pub block: BlockId,
    pub max_locals: u16,
}

/// What lowering a block needs to know.
pub struct ContextView {
    pub cfg: CfgView,
    pub pool: PoolView,
    pub leaders: Seq<u32>,
    pub block: BlockId,
    pub max_locals: u16,
}

impl<'a> View for Context<'a> {
    type V = ContextView;

    open spec fn view(&self) -> ContextView {
        ContextView {
            cfg: self.cfg@,
            pool: self.pool@,
            leaders: self.leaders@,
            block: self.block,
            max_locals: self.max_locals,
        }
    }
}

impl ContextView {
    /// The block is one of the graph, and blocks are numbered in 32 bits.
    pub open spec fn wf(self) -> bool {
        &&& self.block.0 < self.cfg.preds.len()
        &&& self.leaders.len() < u32::MAX
    }
}

/// A block being lowered.
pub struct Lower {
    pub ssa: Ssa,
    pub nodes: Vec<Node>,
    pub stack: Vec<ValId>,
    pub term: Option<Terminator>,
}

/// What a block being lowered holds.
#[verifier::ext_equal]
pub struct LowerView {
    pub ssa: SsaView,
    pub nodes: Seq<NodeView>,
    pub stack: Seq<ValId>,
    pub term: Option<Terminator>,
}

impl View for Lower {
    type V = LowerView;

    open spec fn view(&self) -> LowerView {
        LowerView {
            ssa: self.ssa@,
            nodes: node_views(self.nodes@),
            stack: self.stack@,
            term: self.term,
        }
    }
}

impl LowerView {
    /// Every value in use has been handed out, and every target is a block.
    pub open spec fn ok(self, ctx: ContextView) -> bool {
        &&& self.ssa.ok(ctx.cfg)
        &&& forall|i: int|
            0 <= i < self.nodes.len() ==> (#[trigger] self.nodes[i]).fits(self.ssa.next as int)
        &&& forall|i: int|
            0 <= i < self.stack.len() ==> (#[trigger] self.stack[i]).fits(self.ssa.next as int)
        &&& self.term matches Some(t) ==> t.fits(
            self.ssa.next as int,
            ctx.leaders.len() as int,
        )
    }

    /// Whether a later state has all values of this one, and the same blocks sealed.
    pub open spec fn grows(self, later: LowerView) -> bool {
        &&& later.ssa.next >= self.ssa.next
        &&& later.ssa.sealed == self.ssa.sealed
    }

    /// Without the `n` topmost items.
    pub open spec fn dropped(self, n: int) -> LowerView {
        LowerView { stack: self.stack.take(self.stack.len() - n), ..self }
    }

    /// With one more item.
    pub open spec fn pushed(self, v: ValId) -> LowerView {
        LowerView { stack: self.stack.push(v), ..self }
    }

    /// With a new node, whose value comes first.
    pub open spec fn noded(self, op: Op, ins: Seq<ValId>, ty: Tag, effect: Effect) -> Result<
        (ValId, LowerView),
        IrError,
    > {
        match self.ssa.fresh() {
            Err(e) => Err(e),
            Ok((id, ssa)) => Ok(
                (
                    id,
                    LowerView {
                        ssa,
                        nodes: self.nodes.push(NodeView { id, op, ins, ty, effect }),
                        ..self
                    },
                ),
            ),
        }
    }

    /// With a new node over the `n` topmost items, whose value takes their place.
    pub open spec fn emitted(self, n: int, op: Op, ty: Tag, effect: Effect, pc: u32) -> Result<
        LowerView,
        IrError,
    > {
        if self.stack.len() < n {
            Err(IrError::StackUnderflow(pc))
        } else {
            match self.dropped(n).noded(
                op,
                self.stack.skip(self.stack.len() - n),
                ty,
                effect,
            ) {
                Err(e) => Err(e),
                Ok((id, st)) => Ok(st.pushed(id)),
            }
        }
    }

    /// With a new node over the `n` topmost items, which has no value to speak of.
    pub open spec fn consumed(self, n: int, op: Op, ty: Tag, effect: Effect, pc: u32) -> Result<
        LowerView,
        IrError,
    > {
        if self.stack.len() < n {
            Err(IrError::StackUnderflow(pc))
        } else {
            match self.dropped(n).noded(
                op,
                self.stack.skip(self.stack.len() - n),
                ty,
                effect,
            ) {
                Err(e) => Err(e),
                Ok((_, st)) => Ok(st),
            }
        }
    }

    /// With a local, or the variable of a stack position, on the stack.
    pub open spec fn loaded(self, ctx: ContextView, var: u16) -> Result<LowerView, IrError> {
        match read(self.ssa, ctx.cfg, var, ctx.block) {
            Err(e) => Err(e),
            Ok((v, ssa)) => Ok(LowerView { ssa, ..self }.pushed(v)),
        }
    }

    /// With the topmost item in a local.
    pub open spec fn stored(self, ctx: ContextView, var: u16, pc: u32) -> Result<
        LowerView,
        IrError,
    > {
        if self.stack.len() == 0 {
            Err(IrError::StackUnderflow(pc))
        } else {
            Ok(
                LowerView {
                    ssa: self.ssa.wrote(var, ctx.block, self.stack.last()),
                    ..self.dropped(1)
                },
            )
        }
    }

    /// With a local increased by the constant of an `iinc`.
    pub open spec fn incremented(self, ctx: ContextView, ins: Insn) -> Result<
        LowerView,
        IrError,
    > {
        let var = inc_local(ins);
        match read(self.ssa, ctx.cfg, var, ctx.block) {
            Err(e) => Err(e),
            Ok((cur, ssa)) => match (LowerView { ssa, ..self }).noded(
                Op::Const(Val128::from_i32(inc_delta(ins))),
                Seq::empty(),
                Tag::I32,
                Effect::Pure,
            ) {
                Err(e) => Err(e),
                Ok((k, st)) => match st.noded(Op::Add, seq![cur, k], Tag::I32, Effect::Pure) {
                    Err(e) => Err(e),
                    Ok((r, st2)) => Ok(
                        LowerView { ssa: st2.ssa.wrote(var, ctx.block, r), ..st2 },
                    ),
                },
            },
        }
    }

    /// With a constant of the pool on the stack: strings are materialised when run, numbers here.
    pub open spec fn pool_constant(self, ctx: ContextView, ins: Insn) -> Result<
        LowerView,
        IrError,
    > {
        if is_string_constant(ctx.pool, ins.arg) {
            self.emitted(0, Op::LoadString(ins.arg as u16), Tag::Ptr, Effect::ReadHeap, ins.pc)
        } else {
            match numeric_constant(ctx.pool, ins.arg) {
                None => Err(IrError::BadConstant(ins.pc)),
                Some(v) => self.emitted(0, Op::Const(v), v.tag(), Effect::Pure, ins.pc),
            }
        }
    }

    /// Ending in a branch on a test of the `n` topmost items.
    pub open spec fn branched(self, ctx: ContextView, n: int, op: Op, ins: Insn) -> Result<
        LowerView,
        IrError,
    > {
        if self.stack.len() < n {
            Err(IrError::StackUnderflow(ins.pc))
        } else {
            match self.dropped(n).noded(
                op,
                self.stack.skip(self.stack.len() - n),
                Tag::I32,
                Effect::Pure,
            ) {
                Err(e) => Err(e),
                Ok((cond, st)) => match branch_ends(ctx.leaders, ins) {
                    None => Err(IrError::BadBlock(ins.pc)),
                    Some((taken, not_taken)) => Ok(
                        LowerView {
                            term: Some(Terminator::CondBranch { cond, taken, not_taken }),
                            ..st
                        },
                    ),
                },
            }
        }
    }

    /// With a call of the method that the instruction names.
    pub open spec fn called(self, ctx: ContextView, op: Op, has_receiver: bool, ins: Insn) -> Result<
        LowerView,
        IrError,
    > {
        match callee_types(ctx.pool, ins.arg as u16) {
            None => Err(IrError::Unsupported { op: 0xb8, pc: ins.pc }),
            Some((args, ret)) => {
                let n = args.len() + if has_receiver {
                    1int
                } else {
                    0int
                };
                if self.stack.len() < n {
                    Err(IrError::StackUnderflow(ins.pc))
                } else {
                    match result_tag(ret) {
                        None => Err(IrError::Unsupported { op: ins.op, pc: ins.pc }),
                        Some(ty) => if ret is Some {
                            self.emitted(n, op, ty, Effect::Extern, ins.pc)
                        } else {
                            self.consumed(n, op, ty, Effect::Extern, ins.pc)
                        },
                    }
                }
            },
        }
    }
}

/// The constant of an `iinc`, sign-extended.
pub open spec fn inc_delta(ins: Insn) -> i32 {
    (ins.arg & 0xFF) as u8 as i8 as i32
}

/// The two blocks that a conditional branch leads to.
pub open spec fn branch_ends(leaders: Seq<u32>, ins: Insn) -> Option<(BlockId, BlockId)> {
    match ins.target() {
        None => None,
        Some(t) => match (block_at(leaders, t), block_at(leaders, ins.next_pc())) {
            (Some(taken), Some(not_taken)) => Some((taken, not_taken)),
            _ => None,
        },
    }
}

/// A block after one more instruction.
pub open spec fn lowered(st: LowerView, ctx: ContextView, ins: Insn) -> Result<
    LowerView,
    IrError,
> {
    let pc = ins.pc;
    match lowering_of(ins) {
        Lowering::Nothing => Ok(st),
        Lowering::Const(v) => st.emitted(0, Op::Const(v), v.tag(), Effect::Pure, pc),
        Lowering::PoolConstant => st.pool_constant(ctx, ins),
        Lowering::Load(var) => st.loaded(ctx, var),
        Lowering::Store(var) => st.stored(ctx, var, pc),
        Lowering::Increment => st.incremented(ctx, ins),
        Lowering::Binary { op, ty, effect } => st.emitted(2, op, ty, effect, pc),
        Lowering::Unary { op, ty, effect } => st.emitted(1, op, ty, effect, pc),
        Lowering::Source { op, ty, effect } => st.emitted(0, op, ty, effect, pc),
        Lowering::FieldRead { op, of_object, effect } => match field_tag(
            ctx.pool,
            ins.arg as u16,
        ) {
            None => Err(IrError::Unsupported { op: 0xb4, pc }),
            Some(ty) => st.emitted(
                if of_object {
                    1
                } else {
                    0
                },
                op,
                ty,
                effect,
                pc,
            ),
        },
        Lowering::FieldWrite { op, of_object, effect } => st.consumed(
            if of_object {
                2
            } else {
                1
            },
            op,
            Tag::I32,
            effect,
            pc,
        ),
        Lowering::BranchOnOne(op) => st.branched(ctx, 1, op, ins),
        Lowering::BranchOnTwo(op) => st.branched(ctx, 2, op, ins),
        Lowering::Jump => match ins.target() {
            None => Err(IrError::BadBlock(pc)),
            Some(t) => match block_at(ctx.leaders, t) {
                None => Err(IrError::BadBlock(pc)),
                Some(b) => Ok(LowerView { term: Some(Terminator::Goto(b)), ..st }),
            },
        },
        Lowering::ReturnValue => if st.stack.len() == 0 {
            Err(IrError::StackUnderflow(pc))
        } else {
            Ok(
                LowerView {
                    term: Some(Terminator::Return(Some(st.stack.last()))),
                    ..st.dropped(1)
                },
            )
        },
        Lowering::ReturnVoid => Ok(LowerView { term: Some(Terminator::Return(None)), ..st }),
        Lowering::Duplicate => if st.stack.len() == 0 {
            Err(IrError::StackUnderflow(pc))
        } else {
            Ok(st.pushed(st.stack.last()))
        },
        Lowering::Call { op, has_receiver } => st.called(ctx, op, has_receiver, ins),
        Lowering::Unsupported => Err(IrError::Unsupported { op: ins.op, pc }),
    }
}

/// A block after the instructions from `k` on.
pub open spec fn lowered_from(st: LowerView, ctx: ContextView, insns: Seq<Insn>, k: int) -> Result<
    LowerView,
    IrError,
>
    decreases insns.len() - k,
{
    if k >= insns.len() {
        Ok(st)
    } else {
        match lowered(st, ctx, insns[k]) {
            Err(e) => Err(e),
            Ok(st1) => lowered_from(st1, ctx, insns, k + 1),
        }
    }
}

/// A block with the operand stack it is entered with, from position `s` up to `depth`.
pub open spec fn entered_from(st: LowerView, ctx: ContextView, s: int, depth: int) -> Result<
    LowerView,
    IrError,
>
    decreases depth - s,
{
    if s >= depth {
        Ok(st)
    } else {
        match stack_variable(ctx.max_locals, s) {
            Err(e) => Err(e),
            Ok(var) => match st.loaded(ctx, var) {
                Err(e) => Err(e),
                Ok(st1) => entered_from(st1, ctx, s + 1, depth),
            },
        }
    }
}

/// The state with the operand stack a block is left with noted, from position `s` on.
pub open spec fn left_from(ssa: SsaView, ctx: ContextView, stack: Seq<ValId>, s: int) -> Result<
    SsaView,
    IrError,
>
    decreases stack.len() - s,
{
    if s >= stack.len() {
        Ok(ssa)
    } else {
        match stack_variable(ctx.max_locals, s) {
            Err(e) => Err(e),
            Ok(var) => left_from(ssa.wrote(var, ctx.block, stack[s]), ctx, stack, s + 1),
        }
    }
}

/// A whole block, entered with an operand stack of the given depth.
pub open spec fn block_lowered(
    ssa: SsaView,
    ctx: ContextView,
    insns: Seq<Insn>,
    depth: int,
) -> Result<LowerView, IrError> {
    let start = LowerView { ssa, nodes: Seq::empty(), stack: Seq::empty(), term: None };
    match entered_from(start, ctx, 0, depth) {
        Err(e) => Err(e),
        Ok(st) => match lowered_from(st, ctx, insns, 0) {
            Err(e) => Err(e),
            Ok(st1) => match left_from(st1.ssa, ctx, st1.stack, 0) {
                Err(e) => Err(e),
                Ok(ssa1) => Ok(LowerView { ssa: ssa1, ..st1 }),
            },
        },
    }
}

impl Lower {
    /// The `n` topmost items, oldest first, taken off the stack.
    fn take_operands(&mut self, n: usize, pc: u32) -> (r: Result<Operands, IrError>)
        ensures
            match r {
                Ok(ops) => n <= old(self)@.stack.len() && ops@ == old(self)@.stack.skip(
                    old(self)@.stack.len() - n,
                ) && final(self)@ == old(self)@.dropped(n as int),
                Err(e) => n > old(self)@.stack.len() && e == IrError::StackUnderflow(pc),
            },
    {
        let len: usize = self.stack.len();
        if len < n {
            return Err(IrError::StackUnderflow(pc));
        }
        let keep: usize = len - n;
        let mut ops = Operands::empty();
        let mut i: usize = keep;
        assert(self.stack@.subrange(keep as int, keep as int) =~= Seq::<ValId>::empty());
        while i < len
            invariant
                self@ == old(self)@,
                len == self.stack@.len(),
                keep <= i <= len,
                ops@ == self.stack@.subrange(keep as int, i as int),
            decreases len - i,
        {
            ops.append(self.stack[i]);
            i += 1;
            assert(self.stack@.subrange(keep as int, i as int) =~= self.stack@.subrange(
                keep as int,
                i - 1,
            ).push(self.stack@[i - 1]));
        }
        assert(self.stack@.subrange(keep as int, len as int) =~= self.stack@.skip(keep as int));
        self.stack.truncate(keep);
        assert(self@.stack =~= old(self)@.stack.take(keep as int));
        Ok(ops)
    }

    /// A new node.
    fn node(&mut self, op: Op, ins: Operands, ty: Tag, effect: Effect) -> (r: Result<
        ValId,
        IrError,
    >)
        ensures
            match old(self)@.noded(op, ins@, ty, effect) {
                Ok((v, st)) => r == Ok::<ValId, IrError>(v) && final(self)@ == st,
                Err(e) => r == Err::<ValId, IrError>(e),
            },
            forall|cfg: CfgView|
                old(self)@.ssa.ok(cfg) && r is Ok ==> #[trigger] final(self)@.ssa.ok(cfg),
    {
        let id = self.ssa.fresh()?;
        let ghost iv = ins@;
        self.nodes.push(Node { id, op, ins, ty, effect });
        assert(self@.nodes =~= old(self)@.nodes.push(NodeView { id, op, ins: iv, ty, effect }));
        Ok(id)
    }

    /// A node over the `n` topmost items, whose value takes their place.
    fn emit(&mut self, n: usize, op: Op, ty: Tag, effect: Effect, pc: u32, ctx: &Context) -> (r:
        Result<(), IrError>)
        requires
            old(self)@.ok(ctx@),
        ensures
            match old(self)@.emitted(n as int, op, ty, effect, pc) {
                Ok(st) => r is Ok && final(self)@ == st && st.ok(ctx@) && old(self)@.grows(st),
                Err(e) => r is Err && r->Err_0 == e,
            },
    {
        let ops = self.take_operands(n, pc)?;
        let id = self.node(op, ops, ty, effect)?;
        self.stack.push(id);
        proof {
            lemma_noded_ok(old(self)@.dropped(n as int), ctx@, op, ops@, ty, effect);
        }
        Ok(())
    }

    /// A node over the `n` topmost items, which has no value to speak of.
    fn consume(&mut self, n: usize, op: Op, ty: Tag, effect: Effect, pc: u32, ctx: &Context) -> (r:
        Result<(), IrError>)
        requires
            old(self)@.ok(ctx@),
        ensures
            match old(self)@.consumed(n as int, op, ty, effect, pc) {
                Ok(st) => r is Ok && final(self)@ == st && st.ok(ctx@) && old(self)@.grows(st),
                Err(e) => r is Err && r->Err_0 == e,
            },
    {
        let ops = self.take_operands(n, pc)?;
        let _ = self.node(op, ops, ty, effect)?;
        proof {
            lemma_noded_ok(old(self)@.dropped(n as int), ctx@, op, ops@, ty, effect);
        }
        Ok(())
    }

    fn load(&mut self, ctx: &Context, var: u16) -> (r: Result<(), IrError>)
        requires
            old(self)@.ok(ctx@),
            ctx@.wf(),
        ensures
            match old(self)@.loaded(ctx@, var) {
                Ok(st) => r is Ok && final(self)@ == st && st.ok(ctx@) && old(self)@.grows(st),
                Err(e) => r is Err && r->Err_0 == e,
            },
    {
        let v = self.ssa.read_variable(ctx.cfg, var, ctx.block)?;
        self.stack.push(v);
        Ok(())
    }

    fn store(&mut self, ctx: &Context, var: u16, pc: u32) -> (r: Result<(), IrError>)
        requires
            old(self)@.ok(ctx@),
        ensures
            match old(self)@.stored(ctx@, var, pc) {
                Ok(st) => r is Ok && final(self)@ == st && st.ok(ctx@) && old(self)@.grows(st),
                Err(e) => r is Err && r->Err_0 == e,
            },
    {
        match self.stack.pop() {
            None => Err(IrError::StackUnderflow(pc)),
            Some(v) => {
                assert(old(self)@.stack[old(self)@.stack.len() - 1] == v);
                self.ssa.write_variable(var, ctx.block, v);
                assert(self@.stack =~= old(self)@.stack.take(old(self)@.stack.len() - 1));
                Ok(())
            },
        }
    }

    fn increment(&mut self, ctx: &Context, ins: &Insn) -> (r: Result<(), IrError>)
        requires
            old(self)@.ok(ctx@),
            ctx@.wf(),
        ensures
            match old(self)@.incremented(ctx@, *ins) {
                Ok(st) => r is Ok && final(self)@ == st && st.ok(ctx@) && old(self)@.grows(st),
                Err(e) => r is Err && r->Err_0 == e,
            },
    {
        let var: u16 = ((ins.arg >> 8) & 0xFF) as u16;
        let delta: i32 = (ins.arg & 0xFF) as u8 as i8 as i32;
        let cur = self.ssa.read_variable(ctx.cfg, var, ctx.block)?;
        let ghost st0 = self@;
        let k = self.node(
            Op::Const(Val128::from_i32(delta)),
            Operands::empty(),
            Tag::I32,
            Effect::Pure,
        )?;
        proof {
            lemma_noded_ok(
                st0,
                ctx@,
                Op::Const(Val128::from_i32(delta)),
                Seq::empty(),
                Tag::I32,
                Effect::Pure,
            );
        }
        let ghost st1 = self@;
        let mut pair = Operands::empty();
        pair.append(cur);
        pair.append(k);
        assert(pair@ =~= seq![cur, k]);
        let sum = self.node(Op::Add, pair, Tag::I32, Effect::Pure)?;
        proof {
            lemma_noded_ok(st1, ctx@, Op::Add, seq![cur, k], Tag::I32, Effect::Pure);
        }
        self.ssa.write_variable(var, ctx.block, sum);
        Ok(())
    }

    fn branch(&mut self, ctx: &Context, n: usize, op: Op, ins: &Insn) -> (r: Result<(), IrError>)
        requires
            old(self)@.ok(ctx@),
            ctx@.wf(),
        ensures
            match old(self)@.branched(ctx@, n as int, op, *ins) {
                Ok(st) => r is Ok && final(self)@ == st && st.ok(ctx@) && old(self)@.grows(st),
                Err(e) => r is Err && r->Err_0 == e,
            },
    {
        let ops = self.take_operands(n, ins.pc)?;
        let cond = self.node(op, ops, Tag::I32, Effect::Pure)?;
        proof {
            lemma_noded_ok(
                old(self)@.dropped(n as int),
                ctx@,
                op,
                ops@,
                Tag::I32,
                Effect::Pure,
            );
        }
        self.term = Some(cond_branch(cond, ins, ctx.leaders)?);
        Ok(())
    }

    fn call(&mut self, ctx: &Context, op: Op, has_receiver: bool, ins: &Insn) -> (r: Result<
        (),
        IrError,
    >)
        requires
            old(self)@.ok(ctx@),
        ensures
            match old(self)@.called(ctx@, op, has_receiver, *ins) {
                Ok(st) => r is Ok && final(self)@ == st && st.ok(ctx@) && old(self)@.grows(st),
                Err(e) => r is Err && r->Err_0 == e,
            },
    {
        let (args, ret) = callee_descriptor(ctx.pool, ins.arg as u16, ins.pc)?;
        let items: usize = self.stack.len();
        if items < args.len() || (has_receiver && items == args.len()) {
            return Err(IrError::StackUnderflow(ins.pc));
        }
        let n: usize = if has_receiver {
            args.len() + 1
        } else {
            args.len()
        };
        let ty = return_tag(ret, ins.op, ins.pc)?;
        if ret.is_some() {
            self.emit(n, op, ty, Effect::Extern, ins.pc, ctx)
        } else {
            self.consume(n, op, ty, Effect::Extern, ins.pc, ctx)
        }
    }

    /// Lower one instruction.
    fn step(&mut self, ctx: &Context, ins: &Insn) -> (r: Result<(), IrError>)
        requires
            old(self)@.ok(ctx@),
            ctx@.wf(),
        ensures
            match lowered(old(self)@, ctx@, *ins) {
                Ok(st) => r is Ok && final(self)@ == st && st.ok(ctx@) && old(self)@.grows(st),
                Err(e) => r is Err && r->Err_0 == e,
            },
    {
        let pc: u32 = ins.pc;
        match classify(ins) {
            Lowering::Nothing => Ok(()),
            Lowering::Const(v) => self.emit(0, Op::Const(v), v.tag(), Effect::Pure, pc, ctx),
            Lowering::PoolConstant => {
                if names_string(ctx.pool, ins.arg) {
                    return self.emit(
                        0,
                        Op::LoadString(ins.arg as u16),
                        Tag::Ptr,
                        Effect::ReadHeap,
                        pc,
                        ctx,
                    );
                }
                let v = cp_const(ctx.pool, ins.arg, pc)?;
                self.emit(0, Op::Const(v), v.tag(), Effect::Pure, pc, ctx)
            },
            Lowering::Load(var) => self.load(ctx, var),
            Lowering::Store(var) => self.store(ctx, var, pc),
            Lowering::Increment => self.increment(ctx, ins),
            Lowering::Binary { op, ty, effect } => self.emit(2, op, ty, effect, pc, ctx),
            Lowering::Unary { op, ty, effect } => self.emit(1, op, ty, effect, pc, ctx),
            Lowering::Source { op, ty, effect } => self.emit(0, op, ty, effect, pc, ctx),
            Lowering::FieldRead { op, of_object, effect } => {
                let ty = fieldref_tag(ctx.pool, ins.arg as u16, pc)?;
                let n: usize = if of_object {
                    1
                } else {
                    0
                };
                self.emit(n, op, ty, effect, pc, ctx)
            },
            Lowering::FieldWrite { op, of_object, effect } => {
                let n: usize = if of_object {
                    2
                } else {
                    1
                };
                self.consume(n, op, Tag::I32, effect, pc, ctx)
            },
            Lowering::BranchOnOne(op) => self.branch(ctx, 1, op, ins),
            Lowering::BranchOnTwo(op) => self.branch(ctx, 2, op, ins),
            Lowering::Jump => {
                let taken = match ins.branch_target() {
                    Some(t) => find_block(ctx.leaders, t),
                    None => None,
                };
                match taken {
                    Some(b) => {
                        self.term = Some(Terminator::Goto(b));
                        Ok(())
                    },
                    None => Err(IrError::BadBlock(pc)),
                }
            },
            Lowering::ReturnValue => match self.stack.pop() {
                None => Err(IrError::StackUnderflow(pc)),
                Some(v) => {
                    assert(old(self)@.stack[old(self)@.stack.len() - 1] == v);
                    self.term = Some(Terminator::Return(Some(v)));
                    assert(self@.stack =~= old(self)@.stack.take(old(self)@.stack.len() - 1));
                    Ok(())
                },
            },
            Lowering::ReturnVoid => {
                self.term = Some(Terminator::Return(None));
                Ok(())
            },
            Lowering::Duplicate => {
                let n: usize = self.stack.len();
                if n == 0 {
                    return Err(IrError::StackUnderflow(pc));
                }
                let top = self.stack[n - 1];
                self.stack.push(top);
                Ok(())
            },
            Lowering::Call { op, has_receiver } => self.call(ctx, op, has_receiver, ins),
            Lowering::Unsupported => Err(IrError::Unsupported { op: ins.op, pc }),
        }
    }
}

proof fn lemma_noded_ok(
    st: LowerView,
    ctx: ContextView,
    op: Op,
    ins: Seq<ValId>,
    ty: Tag,
    effect: Effect,
)
    requires
        st.ok(ctx),
        forall|i: int| 0 <= i < ins.len() ==> (#[trigger] ins[i]).fits(st.ssa.next as int),
        st.noded(op, ins, ty, effect) is Ok,
    ensures
        (st.noded(op, ins, ty, effect)->Ok_0).1.ok(ctx),
        (st.noded(op, ins, ty, effect)->Ok_0).0.fits(
            (st.noded(op, ins, ty, effect)->Ok_0).1.ssa.next as int,
        ),
{
    let (id, st1) = st.noded(op, ins, ty, effect)->Ok_0;
    assert forall|i: int| 0 <= i < st1.nodes.len() implies (#[trigger] st1.nodes[i]).fits(
        st1.ssa.next as int,
    ) by {
        if i < st.nodes.len() {
            assert(st.nodes[i].fits(st.ssa.next as int));
        }
    }
    assert forall|i: int| 0 <= i < st1.ssa.phis.len() implies (#[trigger] st1.ssa.phis[i]).fits(
        st1.ssa.next as int,
        ctx.cfg.preds.len() as int,
    ) by {
        assert(st.ssa.phis[i].fits(st.ssa.next as int, ctx.cfg.preds.len() as int));
    }
}

fn cond_branch(cond: ValId, ins: &Insn, leaders: &Vec<u32>) -> (r: Result<Terminator, IrError>)
    requires
        leaders@.len() < u32::MAX,
    ensures
        match branch_ends(leaders@, *ins) {
            Some((taken, not_taken)) => r == Ok::<Terminator, IrError>(
                Terminator::CondBranch { cond, taken, not_taken },
            ) && taken.0 < leaders@.len() && not_taken.0 < leaders@.len(),
            None => r == Err::<Terminator, IrError>(IrError::BadBlock(ins.pc)),
        },
{
    match ins.branch_target() {
        None => Err(IrError::BadBlock(ins.pc)),
        Some(t) => match (find_block(leaders, t), find_block(leaders, ins.following_pc())) {
            (Some(taken), Some(not_taken)) => Ok(
                Terminator::CondBranch { cond, taken, not_taken },
            ),
            _ => Err(IrError::BadBlock(ins.pc)),
        },
    }
}

/// Lower a whole block.
pub(crate) fn process_block(ssa: Ssa, ctx: &Context, insns: &Vec<Insn>, entry_depth: usize) -> (r:
    Result<Lower, IrError>)
    requires
        ssa@.ok(ctx@.cfg),
        ctx@.wf(),
    ensures
        match block_lowered(ssa@, ctx@, insns@, entry_depth as int) {
            Ok(st) => r is Ok && r->Ok_0@ == st && st.ok(ctx@) && st.ssa.next >= ssa@.next
                && st.ssa.sealed == ssa@.sealed,
            Err(e) => r is Err && r->Err_0 == e,
        },
{
    let ghost ssa0 = ssa@;
    let mut st = Lower { ssa, nodes: Vec::new(), stack: Vec::new(), term: None };
    let ghost start = st@;
    assert(start =~= LowerView {
        ssa: ssa0,
        nodes: Seq::empty(),
        stack: Seq::empty(),
        term: None,
    });
    let mut s: usize = 0;
    while s < entry_depth
        invariant
            s <= entry_depth,
            ctx@.wf(),
            st@.ok(ctx@),
            ssa0 == ssa@,
            start == (LowerView {
                ssa: ssa0,
                nodes: Seq::empty(),
                stack: Seq::empty(),
                term: None,
            }),
            st@.ssa.next >= ssa0.next,
            st@.ssa.sealed == ssa0.sealed,
            entered_from(start, ctx@, 0, entry_depth as int) == entered_from(
                st@,
                ctx@,
                s as int,
                entry_depth as int,
            ),
        decreases entry_depth - s,
    {
        let var: u16 = stack_var(ctx.max_locals, s)?;
        st.load(ctx, var)?;
        s += 1;
    }
    let ghost entered = st@;
    let mut k: usize = 0;
    while k < insns.len()
        invariant
            k <= insns@.len(),
            ctx@.wf(),
            st@.ok(ctx@),
            ssa0 == ssa@,
            st@.ssa.next >= ssa0.next,
            st@.ssa.sealed == ssa0.sealed,
            entered_from(
                LowerView { ssa: ssa@, nodes: Seq::empty(), stack: Seq::empty(), term: None },
                ctx@,
                0,
                entry_depth as int,
            ) == Ok::<LowerView, IrError>(entered),
            lowered_from(entered, ctx@, insns@, 0) == lowered_from(
                st@,
                ctx@,
                insns@,
                k as int,
            ),
        decreases insns@.len() - k,
    {
        st.step(ctx, &insns[k])?;
        k += 1;
    }
    let ghost done = st@;
    let mut p: usize = 0;
    while p < st.stack.len()
        invariant
            p <= st@.stack.len(),
            st@.ok(ctx@),
            ssa0 == ssa@,
            st@ == (LowerView { ssa: st@.ssa, ..done }),
            st@.ssa.next == done.ssa.next >= ssa0.next,
            st@.ssa.sealed == ssa0.sealed,
            entered_from(
                LowerView { ssa: ssa@, nodes: Seq::empty(), stack: Seq::empty(), term: None },
                ctx@,
                0,
                entry_depth as int,
            ) == Ok::<LowerView, IrError>(entered),
            lowered_from(entered, ctx@, insns@, 0) == Ok::<LowerView, IrError>(done),
            left_from(done.ssa, ctx@, done.stack, 0) == left_from(
                st@.ssa,
                ctx@,
                done.stack,
                p as int,
            ),
        decreases st@.stack.len() - p,
    {
        let var: u16 = stack_var(ctx.max_locals, p)?;
        let v = st.stack[p];
        assert(st@.stack[p as int].fits(st@.ssa.next as int));
        let ghost before = st@;
        st.ssa.write_variable(var, ctx.block, v);
        proof {
            assert(st.ssa@.ok(ctx@.cfg));
            assert(st@.nodes == before.nodes && st@.stack == before.stack);
            assert(st@.term == before.term);
            assert(st@.ssa.next == before.ssa.next);
        }
        p += 1;
    }
    Ok(st)
}

} // verus!
