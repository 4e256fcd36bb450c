//! What bytecode means, and that verified bytecode is type-safe.

use vstd::prelude::*;
use crate::classfile::constant_pool::{Constant, ConstantView, PoolView};
use crate::interp::error::ExecError;
use crate::interp::eval::{
    evaluated, is_nan32, is_nan64, lemma_division, magnitude, order32, order64, quotient, remainder,
    FloatOp, FloatRequest, Outcome,
};
use crate::ir::Op;
use crate::ssa::accepted::{
    flow_at, lemma_other_matches, lemma_rule_matches, lemma_steps_checked, loads_class, pops,
    state_after, state_at,
};
use crate::ssa::lower::{inc_delta, is_string_constant, lowering_of, numeric_constant, Lowering};
use crate::value::{group_values, lemma_i32_round_trip, Tag, Val128};
use crate::verify::insn::Insn;
use crate::verify::stackmap::FrameView;
use crate::verify::typecheck::{
    inc_local, load_of, maybe_popped, operated, padded, stack_rule, store_of,
};
use crate::verify::vtype::{assignable, VType};
use crate::verify::VerifiedView;

verus! {

/// Locals and operand stack.
#[verifier::ext_equal]
pub struct Machine {
    pub locals: Seq<Val128>,
    pub stack: Seq<Val128>,
}

/// What an instruction comes to: the locals and the stack after it, and the value that a branch tests
/// or a return hands over.
#[verifier::ext_equal]
pub struct Moved {
    pub to: Machine,
    pub value: Option<Val128>,
}

/// How the floating-point unit answers.
pub type Floats = spec_fn(FloatRequest) -> Val128;

/// What string constants are loaded as.
pub type Strings = spec_fn(u16) -> Result<Val128, ExecError>;

/// What an operation computes, with the floating-point unit's answer where it is needed.
pub open spec fn computed(op: Op, ty: Tag, vals: Seq<Val128>, floats: Floats) -> Result<
    Val128,
    ExecError,
> {
    match evaluated(op, ty, vals) {
        Outcome::Value(v) => Ok(v),
        Outcome::Float(q) => Ok(floats(q)),
        Outcome::Fault(e) => Err(e),
    }
}

impl Machine {
    /// With a value on the stack.
    pub open spec fn pushed(self, v: Val128) -> Machine {
        Machine { stack: self.stack.push(v), ..self }
    }

    /// Without the `n` topmost items.
    pub open spec fn dropped(self, n: int) -> Machine {
        Machine { stack: self.stack.take(self.stack.len() - n), ..self }
    }

    /// The `n` topmost items, oldest first.
    pub open spec fn top(self, n: int) -> Seq<Val128> {
        self.stack.skip(self.stack.len() - n)
    }

    /// With what an operation over the `n` topmost items computes in their place.
    pub open spec fn operated(self, n: int, op: Op, ty: Tag, floats: Floats) -> Result<
        Moved,
        ExecError,
    > {
        if self.stack.len() < n {
            Err(ExecError::BadValue)
        } else {
            match computed(op, ty, self.top(n), floats) {
                Ok(v) => Ok(Moved { to: self.dropped(n).pushed(v), value: None }),
                Err(e) => Err(e),
            }
        }
    }

    /// With the `n` topmost items tested.
    pub open spec fn tested(self, n: int, op: Op, floats: Floats) -> Result<Moved, ExecError> {
        if self.stack.len() < n {
            Err(ExecError::BadValue)
        } else {
            match computed(op, Tag::I32, self.top(n), floats) {
                Ok(v) => Ok(Moved { to: self.dropped(n), value: Some(v) }),
                Err(e) => Err(e),
            }
        }
    }
}

/// The int that a whole number wraps to: it differs from it by a multiple of 2^32.
#[verifier::opaque]
pub open spec fn wrapped32(x: int) -> i32 {
    let r = x % 0x1_0000_0000;
    (if r < 0x8000_0000 {
        r
    } else {
        r - 0x1_0000_0000
    }) as i32
}

/// The long that a whole number wraps to: it differs from it by a multiple of 2^64.
#[verifier::opaque]
pub open spec fn wrapped64(x: int) -> i64 {
    let r = x % 0x1_0000_0000_0000_0000;
    (if r < 0x8000_0000_0000_0000 {
        r
    } else {
        r - 0x1_0000_0000_0000_0000
    }) as i64
}

/// A quotient with its fraction cut off.
#[verifier::opaque]
pub open spec fn cut_off(x: int, y: int) -> int {
    let (n, d) = if y < 0 {
        (-x, -y)
    } else {
        (x, y)
    };
    if n < 0 {
        -((-n) / d)
    } else {
        n / d
    }
}

/// Whether the bits of a float denote no number.
pub open spec fn no_number(raw: u32) -> bool {
    let below_sign = raw % 0x8000_0000;
    below_sign / 0x80_0000 == 0xFF && below_sign % 0x80_0000 != 0
}

/// Whether one float that is a number is less than another. Magnitudes are ordered as the bits below
/// the sign are, and both zeros are equal.
pub open spec fn float_less(a: u32, b: u32) -> bool {
    let (minus, minus_b) = (a >= 0x8000_0000, b >= 0x8000_0000);
    let (x, y) = (a % 0x8000_0000, b % 0x8000_0000);
    if minus {
        if minus_b {
            y < x
        } else {
            x != 0 || y != 0
        }
    } else {
        !minus_b && x < y
    }
}

/// Whether the bits of a double denote no number.
pub open spec fn no_double(raw: u64) -> bool {
    let below_sign = raw % 0x8000_0000_0000_0000;
    below_sign / 0x10_0000_0000_0000 == 0x7FF && below_sign % 0x10_0000_0000_0000 != 0
}

/// Whether one double that is a number is less than another.
pub open spec fn double_less(a: u64, b: u64) -> bool {
    let (minus, minus_b) = (a >= 0x8000_0000_0000_0000, b >= 0x8000_0000_0000_0000);
    let (x, y) = (a % 0x8000_0000_0000_0000, b % 0x8000_0000_0000_0000);
    if minus {
        if minus_b {
            y < x
        } else {
            x != 0 || y != 0
        }
    } else {
        !minus_b && x < y
    }
}

/// -1 for less, 1 for greater, 0 for equal.
pub open spec fn ordering_sign(less: bool, greater: bool) -> Val128 {
    Val128::from_i32(
        if less {
            -1i32
        } else if greater {
            1
        } else {
            0
        },
    )
}

/// How a value compares with another of its type: longs by their numbers, floats and doubles by
/// theirs, unless one is no number.
#[verifier::opaque]
pub open spec fn compared(a: Val128, b: Val128, without_number: i32) -> Result<Val128, ExecError> {
    if a.tag() is I64 {
        let (x, y) = (a.as_i64(), b.as_i64());
        Ok(ordering_sign(x < y, y < x))
    } else if a.tag() is F32 {
        let (x, y) = (a.as_f32(), b.as_f32());
        if no_number(x) || no_number(y) {
            Ok(Val128::from_i32(without_number))
        } else {
            Ok(ordering_sign(float_less(x, y), float_less(y, x)))
        }
    } else if a.tag() is F64 {
        let (x, y) = (a.as_f64(), b.as_f64());
        if no_double(x) || no_double(y) {
            Ok(Val128::from_i32(without_number))
        } else {
            Ok(ordering_sign(double_less(x, y), double_less(y, x)))
        }
    } else {
        Err(ExecError::UnsupportedOp)
    }
}

/// What a number becomes as a long.
pub open spec fn as_long(a: Val128, floats: Floats) -> Result<Val128, ExecError> {
    match a.tag() {
        Tag::I32 => Ok(Val128::from_i64(a.as_i32() as i64)),
        Tag::F32 | Tag::F64 => Ok(floats(FloatRequest::Convert { value: a, to: Tag::I64 })),
        _ => Err(ExecError::UnsupportedOp),
    }
}

/// What a number becomes as an int: a long loses its high bits.
pub open spec fn as_int(a: Val128, floats: Floats) -> Result<Val128, ExecError> {
    match a.tag() {
        Tag::I64 => Ok(Val128::from_i32(wrapped32(a.as_i64() as int))),
        Tag::F32 | Tag::F64 => Ok(floats(FloatRequest::Convert { value: a, to: Tag::I32 })),
        _ => Err(ExecError::UnsupportedOp),
    }
}

/// What a number becomes as a float.
pub open spec fn as_float(a: Val128, floats: Floats) -> Result<Val128, ExecError> {
    match a.tag() {
        Tag::I32 | Tag::I64 | Tag::F64 => Ok(
            floats(FloatRequest::Convert { value: a, to: Tag::F32 }),
        ),
        _ => Err(ExecError::UnsupportedOp),
    }
}

/// Whether two references are the same one, or both are `null`.
pub open spec fn same_reference(a: Val128, b: Val128) -> bool {
    if a.tag().is_ref() {
        b.tag().is_ref() && a.ref_index() == b.ref_index()
    } else {
        a.tag() is Null && b.tag() is Null
    }
}

impl Machine {
    /// With a value in place of the `n` topmost items.
    pub open spec fn replaced(self, n: int, r: Result<Val128, ExecError>) -> Result<
        Moved,
        ExecError,
    > {
        if self.stack.len() < n {
            Err(ExecError::BadValue)
        } else {
            match r {
                Ok(v) => Ok(Moved { to: self.dropped(n).pushed(v), value: None }),
                Err(e) => Err(e),
            }
        }
    }

    /// With the `n` topmost items judged: 1 lets a branch be taken.
    pub open spec fn judged(self, n: int, yes: bool) -> Result<Moved, ExecError> {
        if self.stack.len() < n {
            Err(ExecError::BadValue)
        } else {
            Ok(
                Moved {
                    to: self.dropped(n),
                    value: Some(
                        Val128::from_i32(
                            if yes {
                                1
                            } else {
                                0
                            },
                        ),
                    ),
                },
            )
        }
    }

    /// With a constant on the stack.
    pub open spec fn given(self, v: Val128) -> Result<Moved, ExecError> {
        Ok(Moved { to: self.pushed(v), value: None })
    }

    /// With a local on the stack.
    pub open spec fn loaded(self, var: int) -> Result<Moved, ExecError> {
        if 0 <= var < self.locals.len() {
            self.given(self.locals[var])
        } else {
            Err(ExecError::BadValue)
        }
    }

    /// With the top of the stack in a local.
    pub open spec fn stored(self, var: int) -> Result<Moved, ExecError> {
        if 0 <= var < self.locals.len() && self.stack.len() > 0 {
            Ok(
                Moved {
                    to: Machine {
                        locals: self.locals.update(var, self.stack.last()),
                        stack: self.stack.drop_last(),
                    },
                    value: None,
                },
            )
        } else {
            Err(ExecError::BadValue)
        }
    }
}

/// What the floating-point unit makes of two floats.
pub open spec fn by_unit(a: Val128, b: Val128, floats: Floats, op: FloatOp) -> Val128 {
    floats(FloatRequest::Single { op, a: a.as_f32(), b: b.as_f32() })
}

/// What arithmetic instructions do: `a` and `b` are the two topmost items, `b` on top.
#[verifier::opaque]
pub open spec fn arithmetic_meaning(m: Machine, op: u8, floats: Floats) -> Result<Moved, ExecError> {
    let a = m.stack[m.stack.len() - 2];
    let b = m.stack[m.stack.len() - 1];
    let (x, y) = (a.as_i32() as int, b.as_i32() as int);
    let (v, w) = (a.as_i64() as int, b.as_i64() as int);
    if op == 0x60 {
        // iadd
        m.replaced(2, Ok(Val128::from_i32(wrapped32(x + y))))
    } else if op == 0x61 {
        // ladd
        m.replaced(2, Ok(Val128::from_i64(wrapped64(v + w))))
    } else if op == 0x62 {
        // fadd
        m.replaced(2, Ok(by_unit(a, b, floats, FloatOp::Add)))
    } else if op == 0x64 {
        // isub
        m.replaced(2, Ok(Val128::from_i32(wrapped32(x - y))))
    } else if op == 0x65 {
        // lsub
        m.replaced(2, Ok(Val128::from_i64(wrapped64(v - w))))
    } else if op == 0x66 {
        // fsub
        m.replaced(2, Ok(by_unit(a, b, floats, FloatOp::Sub)))
    } else if op == 0x68 {
        // imul
        m.replaced(2, Ok(Val128::from_i32(wrapped32(x * y))))
    } else if op == 0x69 {
        // lmul
        m.replaced(2, Ok(Val128::from_i64(wrapped64(v * w))))
    } else if op == 0x6a {
        // fmul
        m.replaced(2, Ok(by_unit(a, b, floats, FloatOp::Mul)))
    } else if op == 0x6c {
        // idiv
        m.replaced(
            2,
            if y == 0 {
                Err(ExecError::DivByZero)
            } else {
                Ok(Val128::from_i32(wrapped32(cut_off(x, y))))
            },
        )
    } else if op == 0x70 {
        // irem
        m.replaced(
            2,
            if y == 0 {
                Err(ExecError::DivByZero)
            } else {
                Ok(Val128::from_i32(wrapped32(x - y * cut_off(x, y))))
            },
        )
    } else if op == 0x74 {
        // ineg
        m.replaced(1, Ok(Val128::from_i32(wrapped32(-y))))
    } else if op == 0x7e {
        // iand
        m.replaced(2, Ok(Val128::from_i32(a.as_i32() & b.as_i32())))
    } else if op == 0x85 || op == 0x8c {
        // i2l, f2l
        m.replaced(1, as_long(b, floats))
    } else if op == 0x86 || op == 0x89 {
        // i2f, l2f
        m.replaced(1, as_float(b, floats))
    } else if op == 0x88 || op == 0x8b {
        // l2i, f2i
        m.replaced(1, as_int(b, floats))
    } else if op == 0x94 || op == 0x95 {
        // lcmp, fcmpl
        m.replaced(2, compared(a, b, -1i32))
    } else if op == 0x96 {
        // fcmpg
        m.replaced(2, compared(a, b, 1))
    } else {
        Err(ExecError::UnsupportedOp)
    }
}

/// What branches and returns do: `a` and `b` are the two topmost items, `b` on top.
#[verifier::opaque]
pub open spec fn control_meaning(m: Machine, op: u8) -> Result<Moved, ExecError> {
    let a = m.stack[m.stack.len() - 2];
    let b = m.stack[m.stack.len() - 1];
    let (x, y) = (a.as_i32(), b.as_i32());
    if op == 0x99 {
        // ifeq
        m.judged(1, y == 0)
    } else if op == 0x9a {
        // ifne
        m.judged(1, y != 0)
    } else if op == 0x9b {
        // iflt
        m.judged(1, y < 0)
    } else if op == 0x9c {
        // ifge
        m.judged(1, 0 <= y)
    } else if op == 0x9d {
        // ifgt
        m.judged(1, 0 < y)
    } else if op == 0x9e {
        // ifle
        m.judged(1, y <= 0)
    } else if op == 0x9f {
        // if_icmpeq
        m.judged(2, x == y)
    } else if op == 0xa0 {
        // if_icmpne
        m.judged(2, x != y)
    } else if op == 0xa1 {
        // if_icmplt
        m.judged(2, x < y)
    } else if op == 0xa2 {
        // if_icmpge
        m.judged(2, y <= x)
    } else if op == 0xa3 {
        // if_icmpgt
        m.judged(2, y < x)
    } else if op == 0xa4 {
        // if_icmple
        m.judged(2, x <= y)
    } else if op == 0xa5 {
        // if_acmpeq
        m.judged(2, same_reference(a, b))
    } else if op == 0xa6 {
        // if_acmpne
        m.judged(2, !same_reference(a, b))
    } else if op == 0xc6 {
        // ifnull
        m.judged(1, b.tag() is Null)
    } else if op == 0xc7 {
        // ifnonnull
        m.judged(1, !(b.tag() is Null))
    } else if op == 0xac || op == 0xad || op == 0xb0 {
        // ireturn, lreturn, areturn
        if m.stack.len() > 0 {
            Ok(Moved { to: m.dropped(1), value: Some(b) })
        } else {
            Err(ExecError::BadValue)
        }
    } else if op == 0xa7 || op == 0xb1 {
        // goto, return
        Ok(Moved { to: m, value: None })
    } else {
        Err(ExecError::UnsupportedOp)
    }
}

/// What a constant of the pool is on the stack.
pub open spec fn pool_value(pool: PoolView, index: int, strings: Strings) -> Result<
    Val128,
    ExecError,
> {
    if 0 <= index < pool.len() && index < 0x1_0000 {
        match pool[index] {
            ConstantView::Plain(Constant::Integer(v)) => Ok(Val128::from_i32(v)),
            ConstantView::Plain(Constant::Long(v)) => Ok(Val128::from_i64(v)),
            ConstantView::Plain(Constant::Float(raw)) => Ok(Val128::from_f32(raw)),
            ConstantView::Plain(Constant::Double(raw)) => Ok(Val128::from_f64(raw)),
            ConstantView::Plain(Constant::String { .. }) => strings(index as u16),
            _ => Err(ExecError::Unresolved),
        }
    } else {
        Err(ExecError::Unresolved)
    }
}

/// What an instruction does to the locals and the stack, by its opcode. Only instructions that need
/// neither the heap nor other methods have a meaning here.
#[verifier::opaque]
pub open spec fn meaning(
    m: Machine,
    ins: Insn,
    pool: PoolView,
    floats: Floats,
    strings: Strings,
) -> Result<Moved, ExecError> {
    let op = ins.op;
    if op == 0x00 {
        // nop
        Ok(Moved { to: m, value: None })
    } else if op == 0x01 {
        // aconst_null
        m.given(Val128::null())
    } else if op == 0x02 {
        // iconst_m1
        m.given(Val128::from_i32(-1i32))
    } else if op == 0x03 {
        m.given(Val128::from_i32(0))
    } else if op == 0x04 {
        m.given(Val128::from_i32(1))
    } else if op == 0x05 {
        m.given(Val128::from_i32(2))
    } else if op == 0x06 {
        m.given(Val128::from_i32(3))
    } else if op == 0x07 {
        m.given(Val128::from_i32(4))
    } else if op == 0x08 {
        // iconst_5
        m.given(Val128::from_i32(5))
    } else if op == 0x09 {
        // lconst_0
        m.given(Val128::from_i64(0))
    } else if op == 0x0a {
        m.given(Val128::from_i64(1))
    } else if op == 0x0b {
        // fconst_0, fconst_1 and fconst_2: no exponent bias, the bias itself, and one more
        m.given(Val128::from_f32(0))
    } else if op == 0x0c {
        m.given(Val128::from_f32((127 * 0x80_0000) as u32))
    } else if op == 0x0d {
        m.given(Val128::from_f32((128 * 0x80_0000) as u32))
    } else if op == 0x10 || op == 0x11 {
        // bipush, sipush
        m.given(Val128::from_i32(ins.arg as i32))
    } else if op == 0x12 || op == 0x13 || op == 0x14 {
        // ldc, ldc_w, ldc2_w
        match pool_value(pool, ins.arg as int, strings) {
            Ok(v) => m.given(v),
            Err(e) => Err(e),
        }
    } else if op == 0x15 || op == 0x16 || op == 0x17 || op == 0x19 {
        // iload, lload, fload, aload
        m.loaded(ins.arg as u16 as int)
    } else if op == 0x1a || op == 0x1e || op == 0x22 || op == 0x2a {
        // iload_0, lload_0, fload_0, aload_0
        m.loaded(0)
    } else if op == 0x1b || op == 0x1f || op == 0x23 || op == 0x2b {
        m.loaded(1)
    } else if op == 0x1c || op == 0x20 || op == 0x24 || op == 0x2c {
        m.loaded(2)
    } else if op == 0x1d || op == 0x21 || op == 0x25 || op == 0x2d {
        m.loaded(3)
    } else if op == 0x36 || op == 0x37 || op == 0x38 || op == 0x3a {
        // istore, lstore, fstore, astore
        m.stored(ins.arg as u16 as int)
    } else if op == 0x3b || op == 0x3f || op == 0x43 || op == 0x4b {
        // istore_0, lstore_0, fstore_0, astore_0
        m.stored(0)
    } else if op == 0x3c || op == 0x40 || op == 0x44 || op == 0x4c {
        m.stored(1)
    } else if op == 0x3d || op == 0x41 || op == 0x45 || op == 0x4d {
        m.stored(2)
    } else if op == 0x3e || op == 0x42 || op == 0x46 || op == 0x4e {
        m.stored(3)
    } else if op == 0x59 {
        // dup
        if m.stack.len() > 0 {
            m.given(m.stack[m.stack.len() - 1])
        } else {
            Err(ExecError::BadValue)
        }
    } else if op == 0x84 {
        // iinc
        let var = inc_local(ins) as int;
        if var < m.locals.len() {
            let sum = wrapped32(m.locals[var].as_i32() + inc_delta(ins));
            Ok(
                Moved {
                    to: Machine { locals: m.locals.update(var, Val128::from_i32(sum)), ..m },
                    value: None,
                },
            )
        } else {
            Err(ExecError::BadValue)
        }
    } else if op == 0xc0 || op == 0xc1 {
        m.replaced(1, Err(ExecError::UnsupportedOp))
    } else if 0x60 <= op <= 0x96 {
        arithmetic_meaning(m, op, floats)
    } else {
        control_meaning(m, op)
    }
}

/// What the operation that an instruction becomes does to the locals and the stack.
pub open spec fn performed(
    m: Machine,
    ins: Insn,
    pool: PoolView,
    floats: Floats,
    strings: Strings,
) -> Result<Moved, ExecError> {
    match lowering_of(ins) {
        Lowering::Nothing | Lowering::Jump => Ok(Moved { to: m, value: None }),
        Lowering::Const(v) => Ok(Moved { to: m.pushed(v), value: None }),
        Lowering::PoolConstant => if is_string_constant(pool, ins.arg) {
            match strings(ins.arg as u16) {
                Ok(v) => Ok(Moved { to: m.pushed(v), value: None }),
                Err(e) => Err(e),
            }
        } else {
            match numeric_constant(pool, ins.arg) {
                Some(v) => Ok(Moved { to: m.pushed(v), value: None }),
                None => Err(ExecError::Unresolved),
            }
        },
        Lowering::Load(var) => if var < m.locals.len() {
            Ok(Moved { to: m.pushed(m.locals[var as int]), value: None })
        } else {
            Err(ExecError::BadValue)
        },
        Lowering::Store(var) => if var < m.locals.len() && m.stack.len() > 0 {
            Ok(
                Moved {
                    to: Machine {
                        locals: m.locals.update(var as int, m.stack.last()),
                        ..m.dropped(1)
                    },
                    value: None,
                },
            )
        } else {
            Err(ExecError::BadValue)
        },
        Lowering::Increment => if inc_local(ins) < m.locals.len() {
            let by = Val128::from_i32(inc_delta(ins));
            match computed(
                Op::Add,
                Tag::I32,
                seq![m.locals[inc_local(ins) as int], by],
                floats,
            ) {
                Ok(v) => Ok(
                    Moved {
                        to: Machine { locals: m.locals.update(inc_local(ins) as int, v), ..m },
                        value: None,
                    },
                ),
                Err(e) => Err(e),
            }
        } else {
            Err(ExecError::BadValue)
        },
        Lowering::Binary { op, ty, effect } => m.operated(2, op, ty, floats),
        Lowering::Unary { op, ty, effect } => m.operated(1, op, ty, floats),
        Lowering::BranchOnOne(op) => m.tested(1, op, floats),
        Lowering::BranchOnTwo(op) => m.tested(2, op, floats),
        Lowering::ReturnValue => if m.stack.len() > 0 {
            Ok(Moved { to: m.dropped(1), value: Some(m.stack.last()) })
        } else {
            Err(ExecError::BadValue)
        },
        Lowering::ReturnVoid => Ok(Moved { to: m, value: None }),
        Lowering::Duplicate => if m.stack.len() > 0 {
            Ok(Moved { to: m.pushed(m.stack.last()), value: None })
        } else {
            Err(ExecError::BadValue)
        },
        _ => Err(ExecError::UnsupportedOp),
    }
}

/// Division with the fraction cut off.
proof fn lemma_cut_off(x: int, y: int)
    requires
        y != 0,
    ensures
        cut_off(x, y) == quotient(x, y),
        x - y * cut_off(x, y) == remainder(x, y),
{
    reveal(cut_off);
    lemma_division(x, y);
    if x == 0 {
        assert(0int / magnitude(y) == 0) by (nonlinear_arith)
            requires
                magnitude(y) > 0,
        ;
    }
}

/// Floats are ordered as numbers are.
proof fn lemma_float_order(a: u32, b: u32)
    ensures
        no_number(a) == is_nan32(a),
        float_less(a, b) == (order32(a) < order32(b)),
{
}

proof fn lemma_double_order(a: u64, b: u64)
    ensures
        no_double(a) == is_nan64(a),
        double_less(a, b) == (order64(a) < order64(b)),
{
}

/// Integer arithmetic wraps.
proof fn lemma_wrapping(a: Val128, b: Val128, floats: Floats)
    ensures
        ({
            let (x, y) = (a.as_i32() as int, b.as_i32() as int);
            let ins = seq![a, b];
            &&& computed(Op::Add, Tag::I32, ins, floats) == Ok::<Val128, ExecError>(
                Val128::from_i32(wrapped32(x + y)),
            )
            &&& computed(Op::Sub, Tag::I32, ins, floats) == Ok::<Val128, ExecError>(
                Val128::from_i32(wrapped32(x - y)),
            )
            &&& computed(Op::Mul, Tag::I32, ins, floats) == Ok::<Val128, ExecError>(
                Val128::from_i32(wrapped32(x * y)),
            )
            &&& computed(Op::Neg, Tag::I32, seq![b], floats) == Ok::<Val128, ExecError>(
                Val128::from_i32(wrapped32(-y)),
            )
        }),
{
    reveal(wrapped32);
}

/// Arithmetic on longs wraps.
proof fn lemma_long_wrapping(a: Val128, b: Val128, floats: Floats)
    ensures
        ({
            let (x, y) = (a.as_i64() as int, b.as_i64() as int);
            let ins = seq![a, b];
            &&& computed(Op::Add, Tag::I64, ins, floats) == Ok::<Val128, ExecError>(
                Val128::from_i64(wrapped64(x + y)),
            )
            &&& computed(Op::Sub, Tag::I64, ins, floats) == Ok::<Val128, ExecError>(
                Val128::from_i64(wrapped64(x - y)),
            )
            &&& computed(Op::Mul, Tag::I64, ins, floats) == Ok::<Val128, ExecError>(
                Val128::from_i64(wrapped64(x * y)),
            )
        }),
{
    reveal(wrapped64);
}

/// Division cuts off, and wraps only in one case.
proof fn lemma_dividing(a: Val128, b: Val128, floats: Floats)
    ensures
        ({
            let (x, y) = (a.as_i32() as int, b.as_i32() as int);
            let ins = seq![a, b];
            &&& computed(Op::Div, Tag::I32, ins, floats) == (if y == 0 {
                Err(ExecError::DivByZero)
            } else {
                Ok(Val128::from_i32(wrapped32(cut_off(x, y))))
            })
            &&& computed(Op::Rem, Tag::I32, ins, floats) == (if y == 0 {
                Err(ExecError::DivByZero)
            } else {
                Ok(Val128::from_i32(wrapped32(x - y * cut_off(x, y))))
            })
        }),
{
    let (x, y) = (a.as_i32() as int, b.as_i32() as int);
    reveal(wrapped32);
    if y != 0 {
        lemma_cut_off(x, y);
        lemma_division(x, y);
    }
}

/// Comparisons go by the numbers.
pub proof fn lemma_comparing(a: Val128, b: Val128, floats: Floats)
    ensures
        computed(Op::Cmp { nan_greater: false }, Tag::I32, seq![a, b], floats) == compared(
            a,
            b,
            -1i32,
        ),
        computed(Op::Cmp { nan_greater: true }, Tag::I32, seq![a, b], floats) == compared(a, b, 1),
{
    reveal(compared);
    lemma_float_order(a.as_f32(), b.as_f32());
    lemma_float_order(b.as_f32(), a.as_f32());
    lemma_double_order(a.as_f64(), b.as_f64());
    lemma_double_order(b.as_f64(), a.as_f64());
}

/// Conversions keep the number, or its low bits.
proof fn lemma_converting(a: Val128, floats: Floats)
    ensures
        computed(Op::Convert, Tag::I64, seq![a], floats) == as_long(a, floats),
        computed(Op::Convert, Tag::I32, seq![a], floats) == as_int(a, floats),
        computed(Op::Convert, Tag::F32, seq![a], floats) == as_float(a, floats),
{
    lemma_low_bits(a.as_i64());
}

/// The low 32 bits of a long are the int that it wraps to.
pub proof fn lemma_low_bits(v: i64)
    ensures
        v as i32 == wrapped32(v as int),
{
    reveal(wrapped32);
    let lo: i64 = v & 0xFFFF_FFFF;
    let hi: i64 = v >> 32;
    assert(0 <= lo < 0x1_0000_0000 && -0x8000_0000 <= hi < 0x8000_0000 && v == hi * 0x1_0000_0000
        + lo) by (bit_vector)
        requires
            lo == v & 0xFFFF_FFFF,
            hi == v >> 32,
    ;
    assert((v as i32) as i64 == (if lo < 0x8000_0000 {
        lo as int
    } else {
        lo - 0x1_0000_0000
    })) by (bit_vector)
        requires
            lo == v & 0xFFFF_FFFF,
    ;
}

proof fn lemma_ints_performed(m: Machine, ins: Insn, pool: PoolView, floats: Floats, strings: Strings)
    requires
        ins.op == 0x60 || ins.op == 0x64 || ins.op == 0x68 || ins.op == 0x74 || ins.op == 0x7e,
    ensures
        arithmetic_meaning(m, ins.op, floats) == performed(m, ins, pool, floats, strings),
{
    reveal(arithmetic_meaning);
    let n = m.stack.len() as int;
    let (a, b) = (m.stack[n - 2], m.stack[n - 1]);
    if n >= 1 {
        assert(m.top(1) =~= seq![b]);
    }
    if n >= 2 {
        assert(m.top(2) =~= seq![a, b]);
    }
    lemma_wrapping(a, b, floats);
}

proof fn lemma_longs_performed(m: Machine, ins: Insn, pool: PoolView, floats: Floats, strings: Strings)
    requires
        ins.op == 0x61 || ins.op == 0x65 || ins.op == 0x69,
    ensures
        arithmetic_meaning(m, ins.op, floats) == performed(m, ins, pool, floats, strings),
{
    reveal(arithmetic_meaning);
    let n = m.stack.len() as int;
    let (a, b) = (m.stack[n - 2], m.stack[n - 1]);
    if n >= 1 {
        assert(m.top(1) =~= seq![b]);
    }
    if n >= 2 {
        assert(m.top(2) =~= seq![a, b]);
    }
    lemma_long_wrapping(a, b, floats);
}

proof fn lemma_floats_performed(m: Machine, ins: Insn, pool: PoolView, floats: Floats, strings: Strings)
    requires
        ins.op == 0x62 || ins.op == 0x66 || ins.op == 0x6a,
    ensures
        arithmetic_meaning(m, ins.op, floats) == performed(m, ins, pool, floats, strings),
{
    reveal(arithmetic_meaning);
    let n = m.stack.len() as int;
    let (a, b) = (m.stack[n - 2], m.stack[n - 1]);
    if n >= 1 {
        assert(m.top(1) =~= seq![b]);
    }
    if n >= 2 {
        assert(m.top(2) =~= seq![a, b]);
    }
}

proof fn lemma_division_performed(m: Machine, ins: Insn, pool: PoolView, floats: Floats, strings: Strings)
    requires
        ins.op == 0x6c || ins.op == 0x70,
    ensures
        arithmetic_meaning(m, ins.op, floats) == performed(m, ins, pool, floats, strings),
{
    reveal(arithmetic_meaning);
    let n = m.stack.len() as int;
    let (a, b) = (m.stack[n - 2], m.stack[n - 1]);
    if n >= 1 {
        assert(m.top(1) =~= seq![b]);
    }
    if n >= 2 {
        assert(m.top(2) =~= seq![a, b]);
    }
    lemma_dividing(a, b, floats);
}

proof fn lemma_conversions_performed(m: Machine, ins: Insn, pool: PoolView, floats: Floats, strings: Strings)
    requires
        0x85 <= ins.op <= 0x8c,
    ensures
        arithmetic_meaning(m, ins.op, floats) == performed(m, ins, pool, floats, strings),
{
    reveal(arithmetic_meaning);
    let n = m.stack.len() as int;
    let (a, b) = (m.stack[n - 2], m.stack[n - 1]);
    if n >= 1 {
        assert(m.top(1) =~= seq![b]);
    }
    if n >= 2 {
        assert(m.top(2) =~= seq![a, b]);
    }
    lemma_converting(b, floats);
}

proof fn lemma_comparisons_performed(m: Machine, ins: Insn, pool: PoolView, floats: Floats, strings: Strings)
    requires
        0x94 <= ins.op <= 0x96,
    ensures
        arithmetic_meaning(m, ins.op, floats) == performed(m, ins, pool, floats, strings),
{
    reveal(arithmetic_meaning);
    let n = m.stack.len() as int;
    let (a, b) = (m.stack[n - 2], m.stack[n - 1]);
    if n >= 1 {
        assert(m.top(1) =~= seq![b]);
    }
    if n >= 2 {
        assert(m.top(2) =~= seq![a, b]);
    }
    lemma_comparing(a, b, floats);
}

proof fn lemma_arithmetic_performed(
    m: Machine,
    ins: Insn,
    pool: PoolView,
    floats: Floats,
    strings: Strings,
)
    requires
        0x60 <= ins.op <= 0x96,
        ins.op != 0x84,
    ensures
        arithmetic_meaning(m, ins.op, floats) == performed(m, ins, pool, floats, strings),
{
    let op = ins.op;
    if op == 0x60 || op == 0x64 || op == 0x68 || op == 0x74 || op == 0x7e {
        lemma_ints_performed(m, ins, pool, floats, strings);
    } else if op == 0x61 || op == 0x65 || op == 0x69 {
        lemma_longs_performed(m, ins, pool, floats, strings);
    } else if op == 0x62 || op == 0x66 || op == 0x6a {
        lemma_floats_performed(m, ins, pool, floats, strings);
    } else if op == 0x6c || op == 0x70 {
        lemma_division_performed(m, ins, pool, floats, strings);
    } else if 0x85 <= op <= 0x8c {
        lemma_conversions_performed(m, ins, pool, floats, strings);
    } else if op >= 0x94 {
        lemma_comparisons_performed(m, ins, pool, floats, strings);
    } else {
        reveal(arithmetic_meaning);
    }
}

proof fn lemma_control_performed(
    m: Machine,
    ins: Insn,
    pool: PoolView,
    floats: Floats,
    strings: Strings,
)
    requires
        ins.op > 0x96,
        ins.op != 0xc0,
        ins.op != 0xc1,
    ensures
        control_meaning(m, ins.op) == performed(m, ins, pool, floats, strings),
{
    reveal(control_meaning);
    let n = m.stack.len() as int;
    let (a, b) = (m.stack[n - 2], m.stack[n - 1]);
    if n >= 1 {
        assert(m.top(1) =~= seq![b]);
    }
    if n >= 2 {
        assert(m.top(2) =~= seq![a, b]);
    }
}

proof fn lemma_constants_performed(
    m: Machine,
    ins: Insn,
    pool: PoolView,
    floats: Floats,
    strings: Strings,
)
    requires
        ins.op <= 0x14,
    ensures
        performed(m, ins, pool, floats, strings) == meaning(m, ins, pool, floats, strings),
{
    reveal(meaning);
    assert((127 * 0x80_0000) as u32 == 0x3F80_0000);
    assert((128 * 0x80_0000) as u32 == 0x4000_0000);
    reveal(control_meaning);
}

proof fn lemma_locals_performed(
    m: Machine,
    ins: Insn,
    pool: PoolView,
    floats: Floats,
    strings: Strings,
)
    requires
        0x15 <= ins.op < 0x60 || ins.op == 0x84,
    ensures
        performed(m, ins, pool, floats, strings) == meaning(m, ins, pool, floats, strings),
{
    reveal(meaning);
    reveal(control_meaning);
    if ins.op == 0x84 {
        let by = Val128::from_i32(inc_delta(ins));
        lemma_i32_round_trip(inc_delta(ins));
        lemma_wrapping(m.locals[inc_local(ins) as int], by, floats);
    }
    if m.stack.len() > 0 {
        assert(m.dropped(1).stack =~= m.stack.drop_last());
    }
}

/// Every instruction becomes an operation that does what the instruction means.
pub proof fn lemma_operations_do_what_instructions_mean(
    m: Machine,
    ins: Insn,
    pool: PoolView,
    floats: Floats,
    strings: Strings,
)
    ensures
        performed(m, ins, pool, floats, strings) == meaning(m, ins, pool, floats, strings),
{
    if ins.op <= 0x14 {
        lemma_constants_performed(m, ins, pool, floats, strings);
    } else if ins.op < 0x60 || ins.op == 0x84 {
        lemma_locals_performed(m, ins, pool, floats, strings);
    } else {
        reveal(meaning);
        if ins.op <= 0x96 {
            lemma_arithmetic_performed(m, ins, pool, floats, strings);
        } else if ins.op != 0xc0 && ins.op != 0xc1 {
            lemma_control_performed(m, ins, pool, floats, strings);
        }
    }
}

/// Whether a value is of a type.
pub open spec fn has_type(v: Val128, t: VType) -> bool {
    match t {
        VType::Top => true,
        VType::Int => v.tag() is I32,
        VType::Float => v.tag() is F32,
        VType::Long => v.tag() is I64,
        VType::Double => v.tag() is F64,
        _ => v.tag().is_ref() || v.tag() is Null,
    }
}

/// Whether locals and stack hold values of the types that a frame says.
pub open spec fn matches_frame(m: Machine, f: FrameView) -> bool {
    &&& m.locals.len() == f.locals.len()
    &&& m.stack.len() == f.stack.len()
    &&& forall|i: int| 0 <= i < m.locals.len() ==> has_type(#[trigger] m.locals[i], f.locals[i])
    &&& forall|i: int| 0 <= i < m.stack.len() ==> has_type(#[trigger] m.stack[i], f.stack[i])
}

/// Whether the floating-point unit answers with values of the types asked for.
pub open spec fn floats_typed(floats: Floats) -> bool {
    forall|q: FloatRequest|
        match q {
            FloatRequest::Single { .. } => (#[trigger] floats(q)).tag() is F32,
            FloatRequest::Double { .. } => floats(q).tag() is F64,
            FloatRequest::Convert { to, .. } => floats(q).tag() == to,
        }
}

/// Whether string constants are loaded as references.
pub open spec fn strings_typed(strings: Strings) -> bool {
    forall|cp: u16| (#[trigger] strings(cp)) matches Ok(v) ==> v.tag().is_ref()
}

/// A value of a type is a value of every type that it may be used as.
proof fn lemma_type_widens(v: Val128, from: VType, to: VType)
    requires
        has_type(v, from),
        assignable(from, to),
    ensures
        has_type(v, to),
{
}

/// What an opcode with a plain stack effect is lowered to computes a value of the type that its rule
/// says, given operands of the types that it takes; only division by zero fails.
proof fn lemma_operation_typed(ins: Insn, a: Val128, b: Val128, floats: Floats)
    requires
        stack_rule(ins.op) is Some,
        floats_typed(floats),
        (stack_rule(ins.op)->0).first matches Some(t) ==> has_type(b, t),
        (stack_rule(ins.op)->0).second matches Some(t) ==> has_type(a, t),
    ensures
        match lowering_of(ins) {
            Lowering::Unary { op, ty, .. } => (computed(op, ty, seq![b], floats) matches Ok(v)
                && has_type(v, (stack_rule(ins.op)->0).result->0)),
            Lowering::Binary { op, ty, .. } => match computed(op, ty, seq![a, b], floats) {
                Ok(v) => has_type(v, (stack_rule(ins.op)->0).result->0),
                Err(e) => e == ExecError::DivByZero && (op is Div || op is Rem),
            },
            Lowering::BranchOnOne(op) => (computed(op, Tag::I32, seq![b], floats) matches Ok(v)
                && v.tag() is I32),
            Lowering::BranchOnTwo(op) => (computed(op, Tag::I32, seq![a, b], floats) matches Ok(v)
                && v.tag() is I32),
            Lowering::Const(v) => has_type(v, (stack_rule(ins.op)->0).result->0),
            _ => true,
        },
{
    broadcast use group_values;

    lemma_rule_matches(ins);
}

/// What type safety asks of an instruction: it leaves values of the types that the verifier says, the
/// value that it tests is an int, the value that it returns is of the method's type, and it fails
/// only in division by zero, in loading a string, or in loading a class constant.
pub open spec fn type_safe(
    vm: VerifiedView,
    pool: PoolView,
    k: int,
    r: Result<Moved, ExecError>,
    strings: Strings,
) -> bool {
    let ins = vm.insns[k];
    match r {
        Ok(moved) => {
            &&& matches_frame(moved.to, state_after(vm, pool, k))
            &&& moved.value matches Some(v) ==> if ins.ends() {
                vm.ret is Some && has_type(v, vm.ret->0)
            } else {
                v.tag() is I32
            }
        },
        Err(e) => {
            ||| e == ExecError::DivByZero && (ins.op == 0x6c || ins.op == 0x70)
            ||| is_string_constant(pool, ins.arg) && strings(ins.arg as u16) == Err::<
                Val128,
                ExecError,
            >(e)
            ||| loads_class(ins, pool)
        },
    }
}

/// What a plain stack effect pops is of the types that its rule names.
proof fn lemma_popped_typed(m: Machine, f: FrameView, op: u8, max_stack: u16, pc: u32)
    requires
        matches_frame(m, f),
        stack_rule(op) is Some,
        operated(f, stack_rule(op)->0, max_stack, pc) is Ok,
    ensures
        pops(op) <= m.stack.len(),
        (stack_rule(op)->0).first matches Some(t) ==> has_type(m.stack[m.stack.len() - 1], t),
        (stack_rule(op)->0).second matches Some(t) ==> has_type(m.stack[m.stack.len() - 2], t),
        ({
            let g = operated(f, stack_rule(op)->0, max_stack, pc)->Ok_0;
            let rest = f.stack.take(f.stack.len() - pops(op));
            &&& g.locals == f.locals
            &&& g.stack == (match (stack_rule(op)->0).result {
                Some(t) => rest.push(t),
                None => rest,
            })
        }),
{
    let rule = stack_rule(op)->0;
    assert(rule.second is Some ==> rule.first is Some);
    let n = f.stack.len() as int;
    if let Some(t) = rule.first {
        assert(assignable(f.stack[n - 1], t));
        assert(has_type(m.stack[n - 1], f.stack[n - 1]));
        lemma_type_widens(m.stack[n - 1], f.stack[n - 1], t);
        assert(f.stack.drop_last() =~= f.stack.take(n - 1));
        if let Some(u) = rule.second {
            let g = maybe_popped(f, rule.first, pc)->Ok_0;
            assert(g.stack.last() == f.stack[n - 2]);
            assert(has_type(m.stack[n - 2], f.stack[n - 2]));
            lemma_type_widens(m.stack[n - 2], f.stack[n - 2], u);
            assert(g.stack.drop_last() =~= f.stack.take(n - 2));
        }
    } else {
        assert(f.stack.take(n) =~= f.stack);
    }
}

proof fn lemma_plain_type_safe(
    vm: VerifiedView,
    pool: PoolView,
    k: int,
    m: Machine,
    floats: Floats,
    strings: Strings,
)
    requires
        vm.accepted(pool),
        0 <= k < vm.insns.len(),
        matches_frame(m, state_at(vm, pool, k)),
        floats_typed(floats),
        stack_rule(vm.insns[k].op) is Some,
    ensures
        type_safe(vm, pool, k, meaning(m, vm.insns[k], pool, floats, strings), strings),
{
    let ins = vm.insns[k];
    let (f, g) = (state_at(vm, pool, k), state_after(vm, pool, k));
    let n = m.stack.len() as int;
    lemma_steps_checked(vm, pool, k);
    lemma_rule_matches(ins);
    lemma_popped_typed(m, f, ins.op, vm.max_stack, ins.pc);
    let (a, b) = (m.stack[n - 2], m.stack[n - 1]);
    lemma_operations_do_what_instructions_mean(m, ins, pool, floats, strings);
    lemma_operation_typed(ins, a, b, floats);
    if pops(ins.op) == 1 {
        assert(m.top(1) =~= seq![b]);
    } else if pops(ins.op) == 2 {
        assert(m.top(2) =~= seq![a, b]);
    }
    match meaning(m, ins, pool, floats, strings) {
        Ok(moved) => {
            assert forall|i: int| 0 <= i < moved.to.stack.len() implies has_type(
                #[trigger] moved.to.stack[i],
                g.stack[i],
            ) by {
                if i < n - pops(ins.op) {
                    assert(has_type(m.stack[i], f.stack[i]));
                }
            }
        },
        Err(e) => {},
    }
}

/// Verified code is type-safe: in a state that the verifier's frame describes, an instruction finds
/// operands of the types that it takes and leaves a state that the next frame describes.
pub proof fn lemma_verified_code_is_type_safe(
    vm: VerifiedView,
    pool: PoolView,
    k: int,
    m: Machine,
    floats: Floats,
    strings: Strings,
)
    requires
        vm.accepted(pool),
        0 <= k < vm.insns.len(),
        matches_frame(m, state_at(vm, pool, k)),
        floats_typed(floats),
        strings_typed(strings),
    ensures
        type_safe(vm, pool, k, meaning(m, vm.insns[k], pool, floats, strings), strings),
{
    broadcast use group_values;

    let ins = vm.insns[k];
    let (f, g) = (state_at(vm, pool, k), state_after(vm, pool, k));
    let r = meaning(m, ins, pool, floats, strings);
    lemma_operations_do_what_instructions_mean(m, ins, pool, floats, strings);
    let n = m.stack.len() as int;
    lemma_steps_checked(vm, pool, k);
    lemma_other_matches(ins);
    if stack_rule(ins.op) is Some {
        lemma_plain_type_safe(vm, pool, k, m, floats, strings);
    } else if load_of(ins) is Some {
        let (var, t) = load_of(ins)->0;
        assert(has_type(m.locals[var as int], f.locals[var as int]));
        let to = r->Ok_0.to;
        assert forall|i: int| 0 <= i < to.stack.len() implies has_type(
            #[trigger] to.stack[i],
            g.stack[i],
        ) by {
            if i < n {
                assert(has_type(m.stack[i], f.stack[i]));
            }
        }
    } else if store_of(ins) is Some {
        let (var, t) = store_of(ins)->0;
        assert(assignable(f.stack[n - 1], t));
        assert(has_type(m.stack[n - 1], f.stack[n - 1]));
        lemma_type_widens(m.stack[n - 1], f.stack[n - 1], t);
        let to = r->Ok_0.to;
        assert forall|i: int| 0 <= i < to.stack.len() implies has_type(
            #[trigger] to.stack[i],
            g.stack[i],
        ) by {
            assert(has_type(m.stack[i], f.stack[i]));
        }
        assert forall|i: int| 0 <= i < to.locals.len() implies has_type(
            #[trigger] to.locals[i],
            g.locals[i],
        ) by {
            if i != var {
                assert(has_type(m.locals[i], f.locals[i]));
            }
        }
    } else if 0x12 <= ins.op <= 0x14 {
        if let Ok(moved) = r {
            assert forall|i: int| 0 <= i < moved.to.stack.len() implies has_type(
                #[trigger] moved.to.stack[i],
                g.stack[i],
            ) by {
                if i < n {
                    assert(has_type(m.stack[i], f.stack[i]));
                }
            }
        }
    } else if ins.op == 0x84 {
        let var = inc_local(ins) as int;
        assert(has_type(m.locals[var], f.locals[var]));
        let to = r->Ok_0.to;
        assert forall|i: int| 0 <= i < to.locals.len() implies has_type(
            #[trigger] to.locals[i],
            g.locals[i],
        ) by {
            if i != var {
                assert(has_type(m.locals[i], f.locals[i]));
            }
        }
    } else {
        assert(has_type(m.stack[n - 1], f.stack[n - 1]));
        let t = if ins.op == 0xac {
            VType::Int
        } else {
            VType::Long
        };
        lemma_type_widens(m.stack[n - 1], f.stack[n - 1], t);
        let to = r->Ok_0.to;
        assert forall|i: int| 0 <= i < to.stack.len() implies has_type(
            #[trigger] to.stack[i],
            g.stack[i],
        ) by {
            assert(has_type(m.stack[i], f.stack[i]));
        }
    }
}

/// A state that satisfies a declared frame is described by it.
proof fn lemma_satisfying_matches(m: Machine, f: FrameView, d: FrameView, max_locals: u16)
    requires
        matches_frame(m, f),
        f.locals.len() == max_locals,
        f.satisfies(d),
    ensures
        matches_frame(
            m,
            FrameView { locals: padded(d.locals, max_locals as int), stack: d.stack },
        ),
{
    let g = FrameView { locals: padded(d.locals, max_locals as int), stack: d.stack };
    assert forall|i: int| 0 <= i < m.locals.len() implies has_type(
        #[trigger] m.locals[i],
        g.locals[i],
    ) by {
        assert(has_type(m.locals[i], f.locals[i]));
        if i < d.locals.len() {
            assert(assignable(f.locals[i], d.locals[i]));
            lemma_type_widens(m.locals[i], f.locals[i], d.locals[i]);
        }
    }
    assert forall|i: int| 0 <= i < m.stack.len() implies has_type(
        #[trigger] m.stack[i],
        g.stack[i],
    ) by {
        assert(has_type(m.stack[i], f.stack[i]));
        assert(assignable(f.stack[i], d.stack[i]));
        lemma_type_widens(m.stack[i], f.stack[i], d.stack[i]);
    }
}

/// Control carries the verifier's promise along: whether it falls through or branches, the state that
/// one instruction leaves is described by the frame of the instruction that follows.
pub proof fn lemma_control_flow_is_type_safe(
    vm: VerifiedView,
    pool: PoolView,
    k: int,
    next: int,
    m: Machine,
)
    requires
        vm.accepted(pool),
        0 <= k < vm.insns.len(),
        0 <= next < vm.insns.len(),
        matches_frame(m, state_after(vm, pool, k)),
        (next == k + 1 && !vm.insns[k].ends()) || vm.insns[k].target() == Some(vm.insns[next].pc),
    ensures
        matches_frame(m, state_at(vm, pool, next)),
{
    lemma_steps_checked(vm, pool, k);
    lemma_steps_checked(vm, pool, next);
    let f = state_after(vm, pool, k);
    let pc = vm.insns[next].pc;
    if vm.insns[k].target() == Some(pc) {
        lemma_satisfying_matches(m, f, vm.frames[pc], vm.max_locals);
    } else {
        assert(flow_at(vm, pool, next) == Some(f));
        if vm.frames.contains_key(pc) {
            lemma_satisfying_matches(m, f, vm.frames[pc], vm.max_locals);
        }
    }
}

/// A method starts as the verifier says, if its arguments are of the types that its descriptor names.
pub proof fn lemma_start_is_type_safe(vm: VerifiedView, pool: PoolView, m: Machine)
    requires
        vm.accepted(pool),
        vm.insns.len() > 0,
        matches_frame(m, vm.initial()),
    ensures
        matches_frame(m, state_at(vm, pool, 0)),
{
    lemma_steps_checked(vm, pool, 0);
    let pc = vm.insns[0].pc;
    assert(flow_at(vm, pool, 0) == Some(vm.initial()));
    if vm.frames.contains_key(pc) {
        lemma_satisfying_matches(m, vm.initial(), vm.frames[pc], vm.max_locals);
    }
}

} // verus!
