//! What operations on values compute, stated on the numbers that the values carry.

use vstd::prelude::*;
use crate::interp::error::ExecError;
use crate::interp::eval::{
    evaluated, lemma_division, lemma_quotient_bound, magnitude, quotient, remainder, FloatOp,
    FloatRequest, Outcome,
};
use crate::ir::{IntCond, Op};
use crate::ssa::meaning::{
    compared, double_less, float_less, lemma_comparing, lemma_low_bits, no_double, no_number,
    wrapped32,
};
use crate::value::{group_values, Tag, Val128};

verus! {

/// What an operation over two values comes to.
pub open spec fn over(op: Op, ty: Tag, a: Val128, b: Val128) -> Outcome {
    evaluated(op, ty, seq![a, b])
}

/// Whether an int is what a whole number wraps to.
pub open spec fn wraps_to(x: int, z: i32) -> bool {
    (x - z) % 0x1_0000_0000 == 0
}

/// Whether a long is what a whole number wraps to.
pub open spec fn wraps_to_long(x: int, z: i64) -> bool {
    (x - z) % 0x1_0000_0000_0000_0000 == 0
}

/// Sums, differences and products of ints wrap at 32 bits.
pub proof fn lemma_ints_wrap(x: i32, y: i32, z: i32)
    ensures
        ({
            let (a, b) = (Val128::from_i32(x), Val128::from_i32(y));
            let r = Outcome::Value(Val128::from_i32(z));
            &&& wraps_to(x + y, z) ==> over(Op::Add, Tag::I32, a, b) == r
            &&& wraps_to(x - y, z) ==> over(Op::Sub, Tag::I32, a, b) == r
            &&& wraps_to(x * y, z) ==> over(Op::Mul, Tag::I32, a, b) == r
            &&& wraps_to(-x, z) ==> evaluated(Op::Neg, Tag::I32, seq![a]) == r
        }),
{
    broadcast use group_values;

}

/// Sums, differences and products of longs wrap at 64 bits.
pub proof fn lemma_longs_wrap(x: i64, y: i64, z: i64)
    ensures
        ({
            let (a, b) = (Val128::from_i64(x), Val128::from_i64(y));
            let r = Outcome::Value(Val128::from_i64(z));
            &&& wraps_to_long(x + y, z) ==> over(Op::Add, Tag::I64, a, b) == r
            &&& wraps_to_long(x - y, z) ==> over(Op::Sub, Tag::I64, a, b) == r
            &&& wraps_to_long(x * y, z) ==> over(Op::Mul, Tag::I64, a, b) == r
            &&& wraps_to_long(-x, z) ==> evaluated(Op::Neg, Tag::I64, seq![a]) == r
        }),
{
    broadcast use group_values;

}

/// Whether `q` and `r` are quotient and remainder: they make up the dividend, and the remainder is
/// smaller than the divisor and has the sign of the dividend.
pub open spec fn divides(x: int, y: int, q: int, r: int) -> bool {
    &&& x == y * q + r
    &&& -magnitude(y) < r < magnitude(y)
    &&& x >= 0 ==> r >= 0
    &&& x <= 0 ==> r <= 0
}

proof fn lemma_division_is_unique(x: int, y: int, q: int, r: int)
    requires
        y != 0,
        divides(x, y, q, r),
    ensures
        q == quotient(x, y),
        r == remainder(x, y),
{
    lemma_division(x, y);
    let (p, s) = (quotient(x, y), remainder(x, y));
    let d = q - p;
    assert(y * d == s - r) by (nonlinear_arith)
        requires
            x == y * q + r,
            x == y * p + s,
            d == q - p,
    ;
    if d != 0 {
        assert(magnitude(y * d) >= magnitude(y)) by (nonlinear_arith)
            requires
                d != 0,
                y != 0,
        ;
    }
    assert(y * 0 == 0);
}

/// Division of ints cuts off, and only the largest quotient wraps; division by zero is a fault.
pub proof fn lemma_ints_divide(x: i32, y: i32, q: int, r: int, z: i32)
    ensures
        ({
            let (a, b) = (Val128::from_i32(x), Val128::from_i32(y));
            let (div, rem) = (over(Op::Div, Tag::I32, a, b), over(Op::Rem, Tag::I32, a, b));
            &&& y == 0 ==> div == Outcome::Fault(ExecError::DivByZero) && rem == Outcome::Fault(
                ExecError::DivByZero,
            )
            &&& y != 0 && divides(x as int, y as int, q, r) && wraps_to(q, z) ==> div
                == Outcome::Value(Val128::from_i32(z))
            &&& y != 0 && divides(x as int, y as int, q, r) && z == r ==> rem == Outcome::Value(
                Val128::from_i32(z),
            )
        }),
{
    broadcast use group_values;

    if y != 0 && divides(x as int, y as int, q, r) {
        lemma_division_is_unique(x as int, y as int, q, r);
        lemma_quotient_bound(x as int, y as int);
    }
}

/// Division of longs, likewise.
pub proof fn lemma_longs_divide(x: i64, y: i64, q: int, r: int, z: i64)
    ensures
        ({
            let (a, b) = (Val128::from_i64(x), Val128::from_i64(y));
            let (div, rem) = (over(Op::Div, Tag::I64, a, b), over(Op::Rem, Tag::I64, a, b));
            &&& y == 0 ==> div == Outcome::Fault(ExecError::DivByZero) && rem == Outcome::Fault(
                ExecError::DivByZero,
            )
            &&& y != 0 && divides(x as int, y as int, q, r) && wraps_to_long(q, z) ==> div
                == Outcome::Value(Val128::from_i64(z))
            &&& y != 0 && divides(x as int, y as int, q, r) && z == r ==> rem == Outcome::Value(
                Val128::from_i64(z),
            )
        }),
{
    broadcast use group_values;

    if y != 0 && divides(x as int, y as int, q, r) {
        lemma_division_is_unique(x as int, y as int, q, r);
        lemma_quotient_bound(x as int, y as int);
    }
}

/// A conjunction has the bits that both have: with itself it is itself, with all bits the other, with
/// none nothing, and each of its bits is in both.
pub proof fn lemma_conjunctions(x: i32, y: i32, l: i64, n: i64)
    ensures
        over(Op::And, Tag::I32, Val128::from_i32(x), Val128::from_i32(y)) == Outcome::Value(
            Val128::from_i32(x & y),
        ),
        over(Op::And, Tag::I64, Val128::from_i64(l), Val128::from_i64(n)) == Outcome::Value(
            Val128::from_i64(l & n),
        ),
{
    broadcast use group_values;

}

/// Negating a float or a double flips its sign bit and nothing else.
pub proof fn lemma_floats_negate(x: u32, y: u32, v: u64, w: u64)
    ensures
        x != y && x % 0x8000_0000 == y % 0x8000_0000 ==> evaluated(
            Op::Neg,
            Tag::F32,
            seq![Val128::from_f32(x)],
        ) == Outcome::Value(Val128::from_f32(y)),
        v != w && v % 0x8000_0000_0000_0000 == w % 0x8000_0000_0000_0000 ==> evaluated(
            Op::Neg,
            Tag::F64,
            seq![Val128::from_f64(v)],
        ) == Outcome::Value(Val128::from_f64(w)),
{
    broadcast use group_values;

}

/// The arithmetic that the floating-point unit is asked for is that of the operation, on the bits of
/// both operands in their order.
pub proof fn lemma_floats_are_asked_for(a: u32, b: u32, c: u64, d: u64)
    ensures
        ({
            let (x, y) = (Val128::from_f32(a), Val128::from_f32(b));
            let ask = |op: FloatOp| Outcome::Float(FloatRequest::Single { op, a, b });
            &&& over(Op::Add, Tag::F32, x, y) == ask(FloatOp::Add)
            &&& over(Op::Sub, Tag::F32, x, y) == ask(FloatOp::Sub)
            &&& over(Op::Mul, Tag::F32, x, y) == ask(FloatOp::Mul)
            &&& over(Op::Div, Tag::F32, x, y) == ask(FloatOp::Div)
            &&& over(Op::Rem, Tag::F32, x, y) == ask(FloatOp::Rem)
        }),
        ({
            let (x, y) = (Val128::from_f64(c), Val128::from_f64(d));
            let ask = |op: FloatOp| Outcome::Float(FloatRequest::Double { op, a: c, b: d });
            &&& over(Op::Add, Tag::F64, x, y) == ask(FloatOp::Add)
            &&& over(Op::Sub, Tag::F64, x, y) == ask(FloatOp::Sub)
            &&& over(Op::Mul, Tag::F64, x, y) == ask(FloatOp::Mul)
            &&& over(Op::Div, Tag::F64, x, y) == ask(FloatOp::Div)
            &&& over(Op::Rem, Tag::F64, x, y) == ask(FloatOp::Rem)
        }),
{
    broadcast use group_values;

}

/// Conversions between ints and longs keep the number, or its low bits; those from or to a float are
/// asked of the floating-point unit; and nothing is converted to what it is, nor what is no number.
pub proof fn lemma_conversions(x: i32, l: i64, z: i32, v: Val128, to: Tag)
    ensures
        evaluated(Op::Convert, Tag::I64, seq![Val128::from_i32(x)]) == Outcome::Value(
            Val128::from_i64(x as i64),
        ),
        wraps_to(l as int, z) ==> evaluated(Op::Convert, Tag::I32, seq![Val128::from_i64(l)])
            == Outcome::Value(Val128::from_i32(z)),
        ({
            let number = |t: Tag| t is I32 || t is I64 || t is F32 || t is F64;
            let r = evaluated(Op::Convert, to, seq![v]);
            &&& v.tag() == to || !number(v.tag()) || !number(to) ==> r == Outcome::Fault(
                ExecError::UnsupportedOp,
            )
            &&& v.tag() != to && number(v.tag()) && number(to) && (v.tag() is F32 || v.tag() is F64
                || to is F32 || to is F64) ==> r == Outcome::Float(
                FloatRequest::Convert { value: v, to },
            )
        }),
{
    broadcast use group_values;

    lemma_low_bits(l);
    reveal(wrapped32);
}

/// Compares give -1, 0 or 1 as the first number is less, equal or greater. Where a float is no number
/// the answer is 1 or -1, as asked.
pub proof fn lemma_comparisons(x: i64, y: i64, a: u32, b: u32, c: u64, d: u64, greater: bool)
    ensures
        ({
            let sign = |less: bool, more: bool|
                Outcome::Value(
                    Val128::from_i32(
                        if less {
                            -1i32
                        } else if more {
                            1
                        } else {
                            0
                        },
                    ),
                );
            let op = Op::Cmp { nan_greater: greater };
            &&& over(op, Tag::I32, Val128::from_i64(x), Val128::from_i64(y)) == sign(x < y, x > y)
            &&& over(op, Tag::I32, Val128::from_f32(a), Val128::from_f32(b)) == (if no_number(a)
                || no_number(b) {
                sign(!greater, greater)
            } else {
                sign(float_less(a, b), float_less(b, a))
            })
            &&& over(op, Tag::I32, Val128::from_f64(c), Val128::from_f64(d)) == (if no_double(c)
                || no_double(d) {
                sign(!greater, greater)
            } else {
                sign(double_less(c, d), double_less(d, c))
            })
        }),
{
    broadcast use group_values;

    let floats = |q: FloatRequest| Val128::from_i32(0);
    reveal(compared);
    lemma_comparing(Val128::from_i64(x), Val128::from_i64(y), floats);
    lemma_comparing(Val128::from_f32(a), Val128::from_f32(b), floats);
    lemma_comparing(Val128::from_f64(c), Val128::from_f64(d), floats);
}

/// Tests give 1 if they hold and 0 if not: of an int against zero or another, of a reference against
/// `null`, or of two references against each other.
pub proof fn lemma_tests(x: i32, y: i32, v: Val128, w: Val128)
    ensures
        ({
            let (a, b) = (Val128::from_i32(x), Val128::from_i32(y));
            let is = |r: Outcome, yes: bool|
                r == Outcome::Value(
                    Val128::from_i32(
                        if yes {
                            1
                        } else {
                            0
                        },
                    ),
                );
            let zero = |c: IntCond| evaluated(Op::TestZero(c), Tag::I32, seq![a]);
            let pair = |c: IntCond| over(Op::ICmp(c), Tag::I32, a, b);
            &&& is(zero(IntCond::Eq), x == 0) && is(pair(IntCond::Eq), x == y)
            &&& is(zero(IntCond::Ne), x != 0) && is(pair(IntCond::Ne), x != y)
            &&& is(zero(IntCond::Lt), x < 0) && is(pair(IntCond::Lt), x < y)
            &&& is(zero(IntCond::Ge), x >= 0) && is(pair(IntCond::Ge), x >= y)
            &&& is(zero(IntCond::Gt), x > 0) && is(pair(IntCond::Gt), x > y)
            &&& is(zero(IntCond::Le), x <= 0) && is(pair(IntCond::Le), x <= y)
            &&& is(
                evaluated(Op::TestNull { expect_null: true }, Tag::I32, seq![v]),
                v.tag() is Null,
            )
            &&& is(
                evaluated(Op::TestNull { expect_null: false }, Tag::I32, seq![v]),
                !(v.tag() is Null),
            )
            &&& (v.tag().is_ref() || v.tag() is Null) && (w.tag().is_ref() || w.tag() is Null) ==> {
                let same = (v.tag() is Null && w.tag() is Null) || (v.tag().is_ref()
                    && w.tag().is_ref() && v.ref_index() == w.ref_index());
                &&& is(over(Op::RefEq { expect_same: true }, Tag::I32, v, w), same)
                &&& is(over(Op::RefEq { expect_same: false }, Tag::I32, v, w), !same)
            }
        }),
{
    broadcast use group_values;

}

/// A constant is itself. An operation that lacks an operand is a fault, and so is one that is not on
/// values alone.
pub proof fn lemma_operands_are_needed(op: Op, ty: Tag, v: Val128)
    ensures
        evaluated(Op::Const(v), ty, Seq::empty()) == Outcome::Value(v),
        op is Neg || op is Convert || op is TestZero || op is TestNull || op is Add || op is Sub
            || op is Mul || op is Div || op is Rem || op is Cmp || op is RefEq || op is ICmp
            || op is And ==> evaluated(op, ty, Seq::empty()) == Outcome::Fault(ExecError::BadValue),
        op is Add || op is Sub || op is Mul || op is Div || op is Rem || op is Cmp || op is RefEq
            || op is ICmp || op is And ==> evaluated(op, ty, seq![v]) == Outcome::Fault(
            ExecError::BadValue,
        ),
        op is InvokeStatic || op is InvokeSpecial || op is InvokeVirtual || op is New
            || op is GetField || op is PutField || op is LoadString || op is GetStatic
            || op is PutStatic || op is InstanceOf || op is CheckCast ==> evaluated(op, ty, seq![v, v])
            == Outcome::Fault(ExecError::UnsupportedOp),
{
}

} // verus!
