//! Evaluation of pure nodes. Integer arithmetic wraps, integer division by zero is an error, and
//! floats are carried as raw bits: negation and comparison work on the bits, while arithmetic and
//! conversions that involve floats are requests to the floating-point unit of the embedder.

use vstd::prelude::*;
use crate::interp::error::ExecError;
use crate::ir::Op;
use crate::value::{Tag, Val128};

verus! {

/// An arithmetic operation on two floats.
#[derive(Clone, Copy, PartialEq, Eq, Debug, Structural)]
pub enum FloatOp {
    Add,
    Sub,
    Mul,
    Div,
    /// The remainder of truncating division.
    Rem,
}

/// Work for the floating-point unit: IEEE-754 arithmetic on raw bits, or a conversion that involves
/// a float. Integers convert to the nearest float; floats convert to integers by truncation, with
/// NaN becoming 0 and out-of-range values the nearest bound.
#[derive(Clone, Copy, PartialEq, Eq, Debug, Structural)]
pub enum FloatRequest {
    Single { op: FloatOp, a: u32, b: u32 },
    Double { op: FloatOp, a: u64, b: u64 },
    Convert { value: Val128, to: Tag },
}

/// What evaluating a node comes to.
#[derive(Clone, Copy, PartialEq, Eq, Debug, Structural)]
pub enum Outcome {
    Value(Val128),
    /// The value is what the floating-point unit answers.
    Float(FloatRequest),
    Fault(ExecError),
}

/// The quotient of truncating division.
pub open spec fn quotient(x: int, y: int) -> int {
    if (x >= 0) == (y >= 0) {
        magnitude(x) / magnitude(y)
    } else {
        -(magnitude(x) / magnitude(y))
    }
}

/// The remainder of truncating division: it has the sign of the dividend.
pub open spec fn remainder(x: int, y: int) -> int {
    if x >= 0 {
        magnitude(x) % magnitude(y)
    } else {
        -(magnitude(x) % magnitude(y))
    }
}

/// The distance from zero.
pub open spec fn magnitude(x: int) -> int {
    if x >= 0 {
        x
    } else {
        -x
    }
}

/// Division and remainder belong together, and the remainder has the sign of what is divided. There is
/// only one such pair.
pub proof fn lemma_division(x: int, y: int)
    requires
        y != 0,
    ensures
        x == y * quotient(x, y) + remainder(x, y),
        magnitude(remainder(x, y)) < magnitude(y),
        x >= 0 ==> remainder(x, y) >= 0,
        x <= 0 ==> remainder(x, y) <= 0,
{
    let a = magnitude(x);
    let b = magnitude(y);
    vstd::arithmetic::div_mod::lemma_fundamental_div_mod(a, b);
    vstd::arithmetic::div_mod::lemma_mod_bound(a, b);
    let q = a / b;
    assert((-b) * q == -(b * q)) by (nonlinear_arith);
    assert(b * (-q) == -(b * q)) by (nonlinear_arith);
    assert((-b) * (-q) == b * q) by (nonlinear_arith);
    if x == 0 {
        assert(0int % b == 0) by (nonlinear_arith)
            requires
                b > 0,
        ;
    }
}

/// A quotient of ints; the one that is too large wraps.
pub open spec fn wrapped_quotient(x: i32, y: i32) -> i32 {
    let q = quotient(x as int, y as int);
    if q > i32::MAX {
        (q - 0x1_0000_0000) as i32
    } else {
        q as i32
    }
}

/// A quotient of longs; the one that is too large wraps.
pub open spec fn wrapped_long_quotient(x: i64, y: i64) -> i64 {
    let q = quotient(x as int, y as int);
    if q > i64::MAX {
        (q - 0x1_0000_0000_0000_0000) as i64
    } else {
        q as i64
    }
}

/// A quotient is no further from zero than what is divided.
pub proof fn lemma_quotient_bound(x: int, y: int)
    requires
        y != 0,
    ensures
        magnitude(quotient(x, y)) <= magnitude(x),
        magnitude(remainder(x, y)) <= magnitude(x),
{
    let (a, b) = (magnitude(x), magnitude(y));
    vstd::arithmetic::div_mod::lemma_div_is_ordered_by_denominator(a, 1, b);
    assert(a / 1 == a);
    assert(0 <= a / b) by (nonlinear_arith)
        requires
            0 <= a,
            0 < b,
    ;
    vstd::arithmetic::div_mod::lemma_fundamental_div_mod(a, b);
    assert(a % b <= a) by (nonlinear_arith)
        requires
            0 <= a / b,
            0 < b,
            a == b * (a / b) + a % b,
    ;
}

/// The bits of a negated float: the sign bit is flipped.
pub open spec fn negated32(raw: u32) -> u32 {
    if raw < 0x8000_0000 {
        (raw + 0x8000_0000) as u32
    } else {
        (raw - 0x8000_0000) as u32
    }
}

/// The bits of a negated double: the sign bit is flipped.
pub open spec fn negated64(raw: u64) -> u64 {
    if raw < 0x8000_0000_0000_0000 {
        (raw + 0x8000_0000_0000_0000) as u64
    } else {
        (raw - 0x8000_0000_0000_0000) as u64
    }
}

/// Whether bits denote NaN: the exponent is all ones and the fraction is not zero.
pub open spec fn is_nan32(raw: u32) -> bool {
    raw % 0x8000_0000 > 0x7F80_0000
}

/// Whether bits denote NaN: the exponent is all ones and the fraction is not zero.
pub open spec fn is_nan64(raw: u64) -> bool {
    raw % 0x8000_0000_0000_0000 > 0x7FF0_0000_0000_0000
}

/// A number that orders floats other than NaN: both zeros are equal, negative values come in
/// reverse.
pub open spec fn order32(raw: u32) -> int {
    if raw < 0x8000_0000 {
        raw as int
    } else {
        0x8000_0000 - raw
    }
}

/// A number that orders doubles other than NaN.
pub open spec fn order64(raw: u64) -> int {
    if raw < 0x8000_0000_0000_0000 {
        raw as int
    } else {
        0x8000_0000_0000_0000 - raw
    }
}

/// -1, 0 or 1: how two numbers compare.
pub open spec fn three_way(x: int, y: int) -> i32 {
    if x > y {
        1i32
    } else if x < y {
        -1i32
    } else {
        0i32
    }
}

/// How two floats compare, where NaN decides for one side.
pub open spec fn three_way_float(nan: bool, x: int, y: int, nan_greater: bool) -> i32 {
    if nan {
        if nan_greater {
            1i32
        } else {
            -1i32
        }
    } else {
        three_way(x, y)
    }
}

/// A boolean, as an int.
pub open spec fn flag(b: bool) -> Outcome {
    if b {
        Outcome::Value(Val128::from_i32(1))
    } else {
        Outcome::Value(Val128::from_i32(0))
    }
}

/// The float operation of an arithmetic node.
pub open spec fn float_op(op: Op) -> Option<FloatOp> {
    match op {
        Op::Add => Some(FloatOp::Add),
        Op::Sub => Some(FloatOp::Sub),
        Op::Mul => Some(FloatOp::Mul),
        Op::Div => Some(FloatOp::Div),
        Op::Rem => Some(FloatOp::Rem),
        _ => None,
    }
}

/// Arithmetic on ints.
pub open spec fn int_result(op: Op, x: i32, y: i32) -> Outcome {
    match op {
        Op::Add => Outcome::Value(Val128::from_i32(x.wrapping_add(y))),
        Op::Sub => Outcome::Value(Val128::from_i32(x.wrapping_sub(y))),
        Op::Mul => Outcome::Value(Val128::from_i32(x.wrapping_mul(y))),
        Op::Div => if y == 0 {
            Outcome::Fault(ExecError::DivByZero)
        } else {
            Outcome::Value(Val128::from_i32(wrapped_quotient(x, y)))
        },
        Op::Rem => if y == 0 {
            Outcome::Fault(ExecError::DivByZero)
        } else {
            Outcome::Value(Val128::from_i32(remainder(x as int, y as int) as i32))
        },
        _ => Outcome::Fault(ExecError::UnsupportedOp),
    }
}

/// Arithmetic on longs.
pub open spec fn long_result(op: Op, x: i64, y: i64) -> Outcome {
    match op {
        Op::Add => Outcome::Value(Val128::from_i64(x.wrapping_add(y))),
        Op::Sub => Outcome::Value(Val128::from_i64(x.wrapping_sub(y))),
        Op::Mul => Outcome::Value(Val128::from_i64(x.wrapping_mul(y))),
        Op::Div => if y == 0 {
            Outcome::Fault(ExecError::DivByZero)
        } else {
            Outcome::Value(Val128::from_i64(wrapped_long_quotient(x, y)))
        },
        Op::Rem => if y == 0 {
            Outcome::Fault(ExecError::DivByZero)
        } else {
            Outcome::Value(Val128::from_i64(remainder(x as int, y as int) as i64))
        },
        _ => Outcome::Fault(ExecError::UnsupportedOp),
    }
}

/// Arithmetic, typed by the node.
pub open spec fn binary_result(op: Op, ty: Tag, a: Val128, b: Val128) -> Outcome {
    match ty {
        Tag::I32 => int_result(op, a.as_i32(), b.as_i32()),
        Tag::I64 => long_result(op, a.as_i64(), b.as_i64()),
        Tag::F32 => match float_op(op) {
            Some(f) => Outcome::Float(
                FloatRequest::Single { op: f, a: a.as_f32(), b: b.as_f32() },
            ),
            None => Outcome::Fault(ExecError::UnsupportedOp),
        },
        Tag::F64 => match float_op(op) {
            Some(f) => Outcome::Float(
                FloatRequest::Double { op: f, a: a.as_f64(), b: b.as_f64() },
            ),
            None => Outcome::Fault(ExecError::UnsupportedOp),
        },
        _ => Outcome::Fault(ExecError::UnsupportedOp),
    }
}

/// Negation, typed by the node.
pub open spec fn negation(ty: Tag, a: Val128) -> Outcome {
    match ty {
        Tag::I32 => Outcome::Value(Val128::from_i32(0i32.wrapping_sub(a.as_i32()))),
        Tag::I64 => Outcome::Value(Val128::from_i64(0i64.wrapping_sub(a.as_i64()))),
        Tag::F32 => Outcome::Value(Val128::from_f32(negated32(a.as_f32()))),
        Tag::F64 => Outcome::Value(Val128::from_f64(negated64(a.as_f64()))),
        _ => Outcome::Fault(ExecError::UnsupportedOp),
    }
}

/// Whether a tag is numeric.
pub open spec fn is_numeric(t: Tag) -> bool {
    t is I32 || t is I64 || t is F32 || t is F64
}

/// Numeric conversion, from the value's own type to another.
pub open spec fn conversion(a: Val128, to: Tag) -> Outcome {
    let from = a.tag();
    if !is_numeric(from) || !is_numeric(to) || from == to {
        Outcome::Fault(ExecError::UnsupportedOp)
    } else if from is I32 && to is I64 {
        Outcome::Value(Val128::from_i64(a.as_i32() as i64))
    } else if from is I64 && to is I32 {
        Outcome::Value(Val128::from_i32(a.as_i64() as i32))
    } else {
        Outcome::Float(FloatRequest::Convert { value: a, to })
    }
}

/// Three-way compare, typed by the first value.
pub open spec fn comparison(a: Val128, b: Val128, nan_greater: bool) -> Outcome {
    match a.tag() {
        Tag::I64 => Outcome::Value(
            Val128::from_i32(three_way(a.as_i64() as int, b.as_i64() as int)),
        ),
        Tag::F32 => Outcome::Value(
            Val128::from_i32(
                three_way_float(
                    is_nan32(a.as_f32()) || is_nan32(b.as_f32()),
                    order32(a.as_f32()),
                    order32(b.as_f32()),
                    nan_greater,
                ),
            ),
        ),
        Tag::F64 => Outcome::Value(
            Val128::from_i32(
                three_way_float(
                    is_nan64(a.as_f64()) || is_nan64(b.as_f64()),
                    order64(a.as_f64()),
                    order64(b.as_f64()),
                    nan_greater,
                ),
            ),
        ),
        _ => Outcome::Fault(ExecError::UnsupportedOp),
    }
}

/// Whether two references name the same object; `null` is only itself.
pub open spec fn same_object(a: Val128, b: Val128) -> bool {
    ||| a.tag() is Null && b.tag() is Null
    ||| a.tag().is_ref() && b.tag().is_ref() && a.ref_index() == b.ref_index()
}

/// Bitwise and, typed by the node.
pub open spec fn conjunction(ty: Tag, a: Val128, b: Val128) -> Outcome {
    match ty {
        Tag::I32 => Outcome::Value(Val128::from_i32(a.as_i32() & b.as_i32())),
        Tag::I64 => Outcome::Value(Val128::from_i64(a.as_i64() & b.as_i64())),
        _ => Outcome::Fault(ExecError::UnsupportedOp),
    }
}

/// Number of operands that a pure operation reads; none, if it is not pure.
pub open spec fn arity(op: Op) -> Option<nat> {
    match op {
        Op::Const(_) => Some(0),
        Op::Neg | Op::Convert | Op::TestZero(_) | Op::TestNull { .. } => Some(1),
        Op::Add
        | Op::Sub
        | Op::Mul
        | Op::Div
        | Op::Rem
        | Op::Cmp { .. }
        | Op::RefEq { .. }
        | Op::ICmp(_)
        | Op::And => Some(2),
        _ => None,
    }
}

/// The outcome of a node over its inputs.
pub open spec fn evaluated(op: Op, ty: Tag, ins: Seq<Val128>) -> Outcome {
    match arity(op) {
        None => Outcome::Fault(ExecError::UnsupportedOp),
        Some(n) => if ins.len() < n {
            Outcome::Fault(ExecError::BadValue)
        } else {
            match op {
                Op::Const(v) => Outcome::Value(v),
                Op::Neg => negation(ty, ins[0]),
                Op::Convert => conversion(ins[0], ty),
                Op::TestZero(cond) => flag(cond.holds(ins[0].as_i32() as int, 0)),
                Op::TestNull { expect_null } => flag(ins[0].tag() is Null == expect_null),
                Op::Cmp { nan_greater } => comparison(ins[0], ins[1], nan_greater),
                Op::RefEq { expect_same } => flag(same_object(ins[0], ins[1]) == expect_same),
                Op::ICmp(cond) => flag(
                    cond.holds(ins[0].as_i32() as int, ins[1].as_i32() as int),
                ),
                Op::And => conjunction(ty, ins[0], ins[1]),
                _ => binary_result(op, ty, ins[0], ins[1]),
            }
        },
    }
}

fn distance(x: i64) -> (m: u64)
    ensures
        m == magnitude(x as int),
{
    if x >= 0 {
        x as u64
    } else {
        (-(x + 1)) as u64 + 1
    }
}

/// Truncating division of longs, exactly.
fn divide(x: i64, y: i64) -> (q: i128)
    requires
        y != 0,
    ensures
        q == quotient(x as int, y as int),
        -0x8000_0000_0000_0000 <= q <= 0x8000_0000_0000_0000,
{
    let q: u64 = distance(x) / distance(y);
    proof {
        let a = magnitude(x as int);
        let b = magnitude(y as int);
        vstd::arithmetic::div_mod::lemma_div_is_ordered_by_denominator(a, 1, b);
        assert(a / 1 == a);
    }
    if (x >= 0) == (y >= 0) {
        q as i128
    } else {
        -(q as i128)
    }
}

/// The remainder of truncating division of longs.
fn remain(x: i64, y: i64) -> (r: i128)
    requires
        y != 0,
    ensures
        r == remainder(x as int, y as int),
{
    let r: u64 = distance(x) % distance(y);
    if x >= 0 {
        r as i128
    } else {
        -(r as i128)
    }
}

fn float_operation(op: Op) -> (f: Option<FloatOp>)
    ensures
        f == float_op(op),
{
    match op {
        Op::Add => Some(FloatOp::Add),
        Op::Sub => Some(FloatOp::Sub),
        Op::Mul => Some(FloatOp::Mul),
        Op::Div => Some(FloatOp::Div),
        Op::Rem => Some(FloatOp::Rem),
        _ => None,
    }
}

fn int_arithmetic(op: Op, x: i32, y: i32) -> (r: Outcome)
    ensures
        r == int_result(op, x, y),
{
    match op {
        Op::Add => Outcome::Value(Val128::from_i32(x.wrapping_add(y))),
        Op::Sub => Outcome::Value(Val128::from_i32(x.wrapping_sub(y))),
        Op::Mul => Outcome::Value(Val128::from_i32(x.wrapping_mul(y))),
        Op::Div => {
            if y == 0 {
                return Outcome::Fault(ExecError::DivByZero);
            }
            let q: i128 = divide(x as i64, y as i64);
            proof {
                lemma_quotient_bound(x as int, y as int);
            }
            Outcome::Value(
                Val128::from_i32(
                    if q > 0x7FFF_FFFF {
                        (q - 0x1_0000_0000) as i32
                    } else {
                        q as i32
                    },
                ),
            )
        },
        Op::Rem => {
            if y == 0 {
                return Outcome::Fault(ExecError::DivByZero);
            }
            Outcome::Value(Val128::from_i32(remain(x as i64, y as i64) as i32))
        },
        _ => Outcome::Fault(ExecError::UnsupportedOp),
    }
}

fn long_arithmetic(op: Op, x: i64, y: i64) -> (r: Outcome)
    ensures
        r == long_result(op, x, y),
{
    match op {
        Op::Add => Outcome::Value(Val128::from_i64(x.wrapping_add(y))),
        Op::Sub => Outcome::Value(Val128::from_i64(x.wrapping_sub(y))),
        Op::Mul => Outcome::Value(Val128::from_i64(x.wrapping_mul(y))),
        Op::Div => {
            if y == 0 {
                return Outcome::Fault(ExecError::DivByZero);
            }
            let q: i128 = divide(x, y);
            Outcome::Value(
                Val128::from_i64(
                    if q > 0x7FFF_FFFF_FFFF_FFFF {
                        (q - 0x1_0000_0000_0000_0000) as i64
                    } else {
                        q as i64
                    },
                ),
            )
        },
        Op::Rem => {
            if y == 0 {
                return Outcome::Fault(ExecError::DivByZero);
            }
            Outcome::Value(Val128::from_i64(remain(x, y) as i64))
        },
        _ => Outcome::Fault(ExecError::UnsupportedOp),
    }
}

/// Typed binary arithmetic. Integer div/rem fail on a zero divisor and wrap on `MIN / -1`.
pub fn binary(op: Op, ty: Tag, a: Val128, b: Val128) -> (r: Outcome)
    ensures
        r == binary_result(op, ty, a, b),
{
    match ty {
        Tag::I32 => int_arithmetic(op, a.as_i32(), b.as_i32()),
        Tag::I64 => long_arithmetic(op, a.as_i64(), b.as_i64()),
        Tag::F32 => match float_operation(op) {
            Some(f) => Outcome::Float(
                FloatRequest::Single { op: f, a: a.as_f32(), b: b.as_f32() },
            ),
            None => Outcome::Fault(ExecError::UnsupportedOp),
        },
        Tag::F64 => match float_operation(op) {
            Some(f) => Outcome::Float(
                FloatRequest::Double { op: f, a: a.as_f64(), b: b.as_f64() },
            ),
            None => Outcome::Fault(ExecError::UnsupportedOp),
        },
        _ => Outcome::Fault(ExecError::UnsupportedOp),
    }
}

fn negate(ty: Tag, a: Val128) -> (r: Outcome)
    ensures
        r == negation(ty, a),
{
    match ty {
        Tag::I32 => Outcome::Value(Val128::from_i32(0i32.wrapping_sub(a.as_i32()))),
        Tag::I64 => Outcome::Value(Val128::from_i64(0i64.wrapping_sub(a.as_i64()))),
        Tag::F32 => {
            let raw: u32 = a.as_f32();
            Outcome::Value(
                Val128::from_f32(
                    if raw < 0x8000_0000 {
                        raw + 0x8000_0000
                    } else {
                        raw - 0x8000_0000
                    },
                ),
            )
        },
        Tag::F64 => {
            let raw: u64 = a.as_f64();
            Outcome::Value(
                Val128::from_f64(
                    if raw < 0x8000_0000_0000_0000 {
                        raw + 0x8000_0000_0000_0000
                    } else {
                        raw - 0x8000_0000_0000_0000
                    },
                ),
            )
        },
        _ => Outcome::Fault(ExecError::UnsupportedOp),
    }
}

/// Numeric conversion driven by the source value's tag and the target type.
pub fn convert(a: Val128, ty: Tag) -> (r: Outcome)
    ensures
        r == conversion(a, ty),
{
    match (a.tag(), ty) {
        (Tag::I32, Tag::I64) => Outcome::Value(Val128::from_i64(a.as_i32() as i64)),
        (Tag::I64, Tag::I32) => Outcome::Value(Val128::from_i32(a.as_i64() as i32)),
        (Tag::I32, Tag::F32)
        | (Tag::I32, Tag::F64)
        | (Tag::I64, Tag::F32)
        | (Tag::I64, Tag::F64)
        | (Tag::F32, Tag::I32)
        | (Tag::F32, Tag::I64)
        | (Tag::F32, Tag::F64)
        | (Tag::F64, Tag::I32)
        | (Tag::F64, Tag::I64)
        | (Tag::F64, Tag::F32) => Outcome::Float(FloatRequest::Convert { value: a, to: ty }),
        _ => Outcome::Fault(ExecError::UnsupportedOp),
    }
}

fn rank32(raw: u32) -> (k: i64)
    ensures
        k == order32(raw),
{
    if raw < 0x8000_0000 {
        raw as i64
    } else {
        0x8000_0000 - raw as i64
    }
}

fn rank64(raw: u64) -> (k: i128)
    ensures
        k == order64(raw),
{
    if raw < 0x8000_0000_0000_0000 {
        raw as i128
    } else {
        0x8000_0000_0000_0000 - raw as i128
    }
}

fn sign_of(x: i128, y: i128) -> (r: i32)
    ensures
        r == three_way(x as int, y as int),
{
    if x > y {
        1
    } else if x < y {
        -1
    } else {
        0
    }
}

fn float_sign(nan: bool, x: i128, y: i128, nan_greater: bool) -> (r: i32)
    ensures
        r == three_way_float(nan, x as int, y as int, nan_greater),
{
    if nan {
        if nan_greater {
            1
        } else {
            -1
        }
    } else {
        sign_of(x, y)
    }
}

fn compare(a: Val128, b: Val128, nan_greater: bool) -> (r: Outcome)
    ensures
        r == comparison(a, b, nan_greater),
{
    let sign: i32 = match a.tag() {
        Tag::I64 => sign_of(a.as_i64() as i128, b.as_i64() as i128),
        Tag::F32 => {
            let (x, y): (u32, u32) = (a.as_f32(), b.as_f32());
            let nan = x % 0x8000_0000 > 0x7F80_0000 || y % 0x8000_0000 > 0x7F80_0000;
            float_sign(nan, rank32(x) as i128, rank32(y) as i128, nan_greater)
        },
        Tag::F64 => {
            let (x, y): (u64, u64) = (a.as_f64(), b.as_f64());
            let nan = x % 0x8000_0000_0000_0000 > 0x7FF0_0000_0000_0000 || y
                % 0x8000_0000_0000_0000 > 0x7FF0_0000_0000_0000;
            float_sign(nan, rank64(x), rank64(y), nan_greater)
        },
        _ => {
            return Outcome::Fault(ExecError::UnsupportedOp);
        },
    };
    Outcome::Value(Val128::from_i32(sign))
}

/// Three-way compare: -1/0/1. On a float NaN the result is 1 or -1, as `nan_greater` says.
pub fn cmp3(a: Val128, b: Val128, nan_greater: bool) -> (r: Outcome)
    ensures
        r == comparison(a, b, nan_greater),
{
    compare(a, b, nan_greater)
}

fn truth(b: bool) -> (r: Outcome)
    ensures
        r == flag(b),
{
    if b {
        Outcome::Value(Val128::from_i32(1))
    } else {
        Outcome::Value(Val128::from_i32(0))
    }
}

fn identical(a: Val128, b: Val128) -> (r: bool)
    ensures
        r == same_object(a, b),
{
    if a.tag() == Tag::Null && b.tag() == Tag::Null {
        return true;
    }
    a.tag().is_ref() && b.tag().is_ref() && a.ref_index() == b.ref_index()
}

fn operand_count(op: Op) -> (n: Option<usize>)
    ensures
        match arity(op) {
            Some(k) => n == Some(k as usize) && k <= 2,
            None => n is None,
        },
{
    match op {
        Op::Const(_) => Some(0),
        Op::Neg | Op::Convert | Op::TestZero(_) | Op::TestNull { .. } => Some(1),
        Op::Add
        | Op::Sub
        | Op::Mul
        | Op::Div
        | Op::Rem
        | Op::Cmp { .. }
        | Op::RefEq { .. }
        | Op::ICmp(_)
        | Op::And => Some(2),
        _ => None,
    }
}

/// Evaluate a single SSA node.
pub fn eval(op: Op, ty: Tag, ins: &[Val128]) -> (r: Outcome)
    ensures
        r == evaluated(op, ty, ins@),
{
    let need: usize = match operand_count(op) {
        Some(n) => n,
        None => {
            return Outcome::Fault(ExecError::UnsupportedOp);
        },
    };
    if ins.len() < need {
        return Outcome::Fault(ExecError::BadValue);
    }
    match op {
        Op::Const(v) => Outcome::Value(v),
        Op::Neg => negate(ty, ins[0]),
        Op::Convert => convert(ins[0], ty),
        Op::TestZero(cond) => truth(cond.test(ins[0].as_i32(), 0)),
        Op::TestNull { expect_null } => {
            let is_null = ins[0].tag() == Tag::Null;
            truth(is_null == expect_null)
        },
        Op::Cmp { nan_greater } => cmp3(ins[0], ins[1], nan_greater),
        Op::RefEq { expect_same } => truth(identical(ins[0], ins[1]) == expect_same),
        Op::ICmp(cond) => truth(cond.test(ins[0].as_i32(), ins[1].as_i32())),
        Op::And => match ty {
            Tag::I32 => Outcome::Value(Val128::from_i32(ins[0].as_i32() & ins[1].as_i32())),
            Tag::I64 => Outcome::Value(Val128::from_i64(ins[0].as_i64() & ins[1].as_i64())),
            _ => Outcome::Fault(ExecError::UnsupportedOp),
        },
        _ => binary(op, ty, ins[0], ins[1]),
    }
}

/// Negating twice gives the float back, and flips its order.
pub proof fn lemma_float_negation(x: u32, y: u64)
    ensures
        negated32(negated32(x)) == x,
        negated64(negated64(y)) == y,
        order32(negated32(x)) == -order32(x),
        order64(negated64(y)) == -order64(y),
        is_nan32(negated32(x)) == is_nan32(x),
        is_nan64(negated64(y)) == is_nan64(y),
{
}

/// Comparing the other way round gives the opposite sign, unless NaN decides.
pub proof fn lemma_three_way_is_antisymmetric(x: int, y: int)
    ensures
        three_way(x, y) == -three_way(y, x),
        three_way(x, y) == 0 <==> x == y,
{
}

} // verus!
