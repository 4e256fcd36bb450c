//! The type-checking verifier: an abstract interpreter over verification types that reconciles its
//! state with the declared `StackMapTable` frames.

use vstd::prelude::*;
use std::collections::BTreeMap;
use crate::classfile::constant_pool::{Constant, ConstantPool, ConstantView, PoolView};
use crate::verify::error::VerifyError;
use crate::verify::insn::Insn;
use crate::verify::stackmap::{frame_at, frame_views, Frame, FrameView};
use crate::verify::vtype::{assignable, is_assignable, total_slots, VType};

verus! {

/// Abstract interpreter state: slot-model locals and item-model operand stack.
pub struct AbstractFrame {
    pub locals: Vec<VType>,
    pub stack: Vec<VType>,
}

impl View for AbstractFrame {
    type V = FrameView;

    open spec fn view(&self) -> FrameView {
        FrameView { locals: self.locals@, stack: self.stack@ }
    }
}

/// What a method allows its frames, and what its instructions refer to.
pub struct Limits {
    pub max_stack: u16,
    pub max_locals: u16,
    pub ret: Option<VType>,
}

/// A list padded with `Top` to `n` entries.
pub open spec fn padded(s: Seq<VType>, n: int) -> Seq<VType> {
    s + Seq::new((n - s.len()) as nat, |i: int| VType::Top)
}

impl FrameView {
    /// With `t` on the stack, if there is room.
    pub open spec fn pushed(self, t: VType, max_stack: u16, pc: u32) -> Result<
        FrameView,
        VerifyError,
    > {
        if total_slots(self.stack) + t.slots() > max_stack {
            Err(VerifyError::StackOverflow(pc))
        } else {
            Ok(FrameView { stack: self.stack.push(t), ..self })
        }
    }

    /// Without its topmost item, which must do for `want`.
    pub open spec fn popped(self, want: VType, pc: u32) -> Result<FrameView, VerifyError> {
        if self.stack.len() == 0 {
            Err(VerifyError::StackUnderflow(pc))
        } else if !assignable(self.stack.last(), want) {
            Err(VerifyError::TypeMismatch { pc, what: "operand type" })
        } else {
            Ok(FrameView { stack: self.stack.drop_last(), ..self })
        }
    }

    /// Whether this outgoing state satisfies a declared frame.
    pub open spec fn satisfies(self, declared: FrameView) -> bool {
        &&& declared.locals.len() <= self.locals.len()
        &&& self.stack.len() == declared.stack.len()
        &&& forall|i: int|
            0 <= i < declared.locals.len() ==> assignable(
                #[trigger] self.locals[i],
                declared.locals[i],
            )
        &&& forall|i: int|
            0 <= i < self.stack.len() ==> assignable(#[trigger] self.stack[i], declared.stack[i])
    }

    /// With local `index` on the stack: it must lie inside the frame and hold exactly that type.
    pub open spec fn loaded(self, index: u16, want: VType, lim: Limits, pc: u32) -> Result<
        FrameView,
        VerifyError,
    > {
        if index + want.slots() > lim.max_locals {
            Err(VerifyError::BadLocal { pc, index })
        } else if self.locals[index as int] != want {
            Err(VerifyError::TypeMismatch { pc, what: "local type" })
        } else if want.wide() && self.locals[index + 1] != VType::Top {
            Err(VerifyError::TypeMismatch { pc, what: "category-2 local half" })
        } else {
            self.pushed(want, lim.max_stack, pc)
        }
    }

    /// With the topmost item moved into local `index`.
    pub open spec fn stored(self, index: u16, t: VType, lim: Limits, pc: u32) -> Result<
        FrameView,
        VerifyError,
    > {
        if index + t.slots() > lim.max_locals {
            Err(VerifyError::BadLocal { pc, index })
        } else {
            match self.popped(t, pc) {
                Err(e) => Err(e),
                Ok(f) => Ok(
                    FrameView {
                        locals: if t.wide() {
                            f.locals.update(index as int, t).update(index + 1, VType::Top)
                        } else {
                            f.locals.update(index as int, t)
                        },
                        ..f
                    },
                ),
            }
        }
    }
}

/// A plain stack effect: up to two operands popped, and possibly a result pushed.
#[derive(Clone, Copy)]
pub struct StackRule {
    pub first: Option<VType>,
    pub second: Option<VType>,
    pub result: Option<VType>,
}

/// Two operands of one type to a result.
pub open spec fn binary_rule(t: VType, result: VType) -> StackRule {
    StackRule { first: Some(t), second: Some(t), result: Some(result) }
}

/// One operand to a result.
pub open spec fn unary_rule(t: VType, result: VType) -> StackRule {
    StackRule { first: Some(t), second: None, result: Some(result) }
}

/// A result out of nothing.
pub open spec fn push_rule(result: VType) -> StackRule {
    StackRule { first: None, second: None, result: Some(result) }
}

/// The opcodes that do no more than pop and push.
pub open spec fn stack_rule(op: u8) -> Option<StackRule> {
    if op == 0x00 || op == 0xa7 {
        // nop, goto
        Some(StackRule { first: None, second: None, result: None })
    } else if 0x02 <= op <= 0x08 || op == 0x10 || op == 0x11 {
        // iconst, bipush, sipush
        Some(push_rule(VType::Int))
    } else if op == 0x09 || op == 0x0a {
        // lconst
        Some(push_rule(VType::Long))
    } else if 0x0b <= op <= 0x0d {
        // fconst
        Some(push_rule(VType::Float))
    } else if op == 0x60 || op == 0x64 || op == 0x68 || op == 0x6c || op == 0x70 || op == 0x7e {
        // iadd, isub, imul, idiv, irem, iand
        Some(binary_rule(VType::Int, VType::Int))
    } else if op == 0x61 || op == 0x65 || op == 0x69 {
        // ladd, lsub, lmul
        Some(binary_rule(VType::Long, VType::Long))
    } else if op == 0x62 || op == 0x66 || op == 0x6a {
        // fadd, fsub, fmul
        Some(binary_rule(VType::Float, VType::Float))
    } else if op == 0x74 {
        // ineg
        Some(unary_rule(VType::Int, VType::Int))
    } else if op == 0x85 {
        // i2l
        Some(unary_rule(VType::Int, VType::Long))
    } else if op == 0x86 {
        // i2f
        Some(unary_rule(VType::Int, VType::Float))
    } else if op == 0x88 {
        // l2i
        Some(unary_rule(VType::Long, VType::Int))
    } else if op == 0x89 {
        // l2f
        Some(unary_rule(VType::Long, VType::Float))
    } else if op == 0x8b {
        // f2i
        Some(unary_rule(VType::Float, VType::Int))
    } else if op == 0x8c {
        // f2l
        Some(unary_rule(VType::Float, VType::Long))
    } else if op == 0x94 {
        // three-way compare of longs
        Some(binary_rule(VType::Long, VType::Int))
    } else if op == 0x95 || op == 0x96 {
        // three-way compares of floats
        Some(binary_rule(VType::Float, VType::Int))
    } else if 0x99 <= op <= 0x9e {
        // branches on one int
        Some(StackRule { first: Some(VType::Int), second: None, result: None })
    } else if 0x9f <= op <= 0xa4 {
        // branches on two ints
        Some(StackRule { first: Some(VType::Int), second: Some(VType::Int), result: None })
    } else {
        None
    }
}

/// A frame after popping an operand, if one is called for.
pub open spec fn maybe_popped(f: FrameView, want: Option<VType>, pc: u32) -> Result<
    FrameView,
    VerifyError,
> {
    match want {
        None => Ok(f),
        Some(t) => f.popped(t, pc),
    }
}

/// A frame after a plain stack effect.
pub open spec fn operated(f: FrameView, rule: StackRule, max_stack: u16, pc: u32) -> Result<
    FrameView,
    VerifyError,
> {
    match maybe_popped(f, rule.first, pc) {
        Err(e) => Err(e),
        Ok(g) => match maybe_popped(g, rule.second, pc) {
            Err(e) => Err(e),
            Ok(h) => match rule.result {
                None => Ok(h),
                Some(t) => h.pushed(t, max_stack, pc),
            },
        },
    }
}

/// The local that a load names, and its type.
pub open spec fn load_of(ins: Insn) -> Option<(u16, VType)> {
    let op = ins.op;
    if op == 0x15 {
        Some((ins.arg as u16, VType::Int))
    } else if 0x1a <= op <= 0x1d {
        Some(((op - 0x1a) as u16, VType::Int))
    } else if op == 0x16 {
        Some((ins.arg as u16, VType::Long))
    } else if 0x1e <= op <= 0x21 {
        Some(((op - 0x1e) as u16, VType::Long))
    } else if op == 0x17 {
        Some((ins.arg as u16, VType::Float))
    } else if 0x22 <= op <= 0x25 {
        Some(((op - 0x22) as u16, VType::Float))
    } else {
        None
    }
}

/// The local that a store names, and its type.
pub open spec fn store_of(ins: Insn) -> Option<(u16, VType)> {
    let op = ins.op;
    if op == 0x36 {
        Some((ins.arg as u16, VType::Int))
    } else if 0x3b <= op <= 0x3e {
        Some(((op - 0x3b) as u16, VType::Int))
    } else if op == 0x37 {
        Some((ins.arg as u16, VType::Long))
    } else if 0x3f <= op <= 0x42 {
        Some(((op - 0x3f) as u16, VType::Long))
    } else if op == 0x38 {
        Some((ins.arg as u16, VType::Float))
    } else if 0x43 <= op <= 0x46 {
        Some(((op - 0x43) as u16, VType::Float))
    } else {
        None
    }
}

/// The type of a loadable constant.
pub open spec fn constant_type(pool: PoolView, index: i64, pc: u32) -> Result<VType, VerifyError> {
    if index < 0 || index > 0xFFFF {
        Err(VerifyError::TypeMismatch { pc, what: "ldc index" })
    } else if index < pool.len() {
        match pool[index as int] {
            ConstantView::Plain(Constant::Integer(_)) => Ok(VType::Int),
            ConstantView::Plain(Constant::Float(_)) => Ok(VType::Float),
            ConstantView::Plain(Constant::Long(_)) => Ok(VType::Long),
            ConstantView::Plain(Constant::Double(_)) => Ok(VType::Double),
            ConstantView::Plain(Constant::String { .. }) => Ok(VType::Reference),
            ConstantView::Plain(Constant::Class { .. }) => Ok(VType::Reference),
            _ => Err(VerifyError::TypeMismatch { pc, what: "ldc constant kind" }),
        }
    } else {
        Err(VerifyError::TypeMismatch { pc, what: "ldc constant kind" })
    }
}

/// The local that an `iinc` names.
pub open spec fn inc_local(ins: Insn) -> u16 {
    ((ins.arg >> 8) & 0xFF) as u16
}

/// One instruction's type transition.
pub open spec fn applied(f: FrameView, ins: Insn, pool: PoolView, lim: Limits) -> Result<
    FrameView,
    VerifyError,
> {
    let pc = ins.pc;
    if stack_rule(ins.op) is Some {
        operated(f, stack_rule(ins.op)->0, lim.max_stack, pc)
    } else if load_of(ins) is Some {
        f.loaded((load_of(ins)->0).0, (load_of(ins)->0).1, lim, pc)
    } else if store_of(ins) is Some {
        f.stored((store_of(ins)->0).0, (store_of(ins)->0).1, lim, pc)
    } else if 0x12 <= ins.op <= 0x14 {
        // ldc, ldc_w for one-slot constants, ldc2_w for two-slot ones
        match constant_type(pool, ins.arg, pc) {
            Err(e) => Err(e),
            Ok(t) => if ins.op != 0x14 && t.wide() {
                Err(VerifyError::TypeMismatch { pc, what: "ldc of category-2 constant" })
            } else if ins.op == 0x14 && !t.wide() {
                Err(VerifyError::TypeMismatch { pc, what: "ldc2_w of category-1 constant" })
            } else {
                f.pushed(t, lim.max_stack, pc)
            },
        }
    } else if ins.op == 0x84 {
        // iinc: the local must be an int and stays one
        if inc_local(ins) >= lim.max_locals {
            Err(VerifyError::BadLocal { pc, index: inc_local(ins) })
        } else if f.locals[inc_local(ins) as int] != VType::Int {
            Err(VerifyError::TypeMismatch { pc, what: "iinc on non-int local" })
        } else {
            Ok(f)
        }
    } else if ins.op == 0xac || ins.op == 0xad {
        // ireturn, lreturn
        let t = if ins.op == 0xac {
            VType::Int
        } else {
            VType::Long
        };
        match f.popped(t, pc) {
            Err(e) => Err(e),
            Ok(g) => if lim.ret != Some(t) {
                Err(VerifyError::BadReturn(pc))
            } else {
                Ok(g)
            },
        }
    } else {
        Err(VerifyError::UnsupportedOpcode { op: ins.op, pc })
    }
}

/// The state in which an instruction is reached: the declared frame, where there is one, which the
/// state that falls through must satisfy; else the state that falls through.
pub open spec fn entered(
    cur: Option<FrameView>,
    frames: Map<u32, FrameView>,
    pc: u32,
    max_locals: u16,
) -> Result<FrameView, VerifyError> {
    if frames.contains_key(pc) {
        let declared = frames[pc];
        if cur is Some && !(cur->0).satisfies(declared) {
            Err(VerifyError::FrameMismatch(pc))
        } else if declared.locals.len() > max_locals {
            Err(VerifyError::BadStackMap)
        } else {
            Ok(
                FrameView {
                    locals: padded(declared.locals, max_locals as int),
                    stack: declared.stack,
                },
            )
        }
    } else {
        match cur {
            None => Err(VerifyError::MissingFrame(pc)),
            Some(f) => Ok(f),
        }
    }
}

/// Whether a branch may leave with state `f`: its target must declare a frame, and `f` satisfy it.
pub open spec fn branch_checked(ins: Insn, f: FrameView, frames: Map<u32, FrameView>) -> Result<
    (),
    VerifyError,
> {
    match ins.target() {
        None => Ok(()),
        Some(t) => if !frames.contains_key(t) {
            Err(VerifyError::MissingFrame(t))
        } else if !f.satisfies(frames[t]) {
            Err(VerifyError::FrameMismatch(t))
        } else {
            Ok(())
        },
    }
}

/// The pc behind the last instruction.
pub open spec fn end_pc(insns: Seq<Insn>) -> u32 {
    if insns.len() == 0 {
        0
    } else {
        insns.last().next_pc()
    }
}

/// The check of the instructions from `k` on, where `cur` falls through to the first of them. There
/// must be an instruction, and control must not run off the end.
pub open spec fn checked_from(
    insns: Seq<Insn>,
    k: int,
    frames: Map<u32, FrameView>,
    cur: Option<FrameView>,
    lim: Limits,
    pool: PoolView,
) -> Result<(), VerifyError>
    decreases insns.len() - k,
{
    if k >= insns.len() {
        if cur is None && insns.len() > 0 {
            Ok(())
        } else {
            Err(VerifyError::Truncated(end_pc(insns)))
        }
    } else {
        let ins = insns[k];
        match entered(cur, frames, ins.pc, lim.max_locals) {
            Err(e) => Err(e),
            Ok(f) => match applied(f, ins, pool, lim) {
                Err(e) => Err(e),
                Ok(g) => match branch_checked(ins, g, frames) {
                    Err(e) => Err(e),
                    Ok(_) => checked_from(
                        insns,
                        k + 1,
                        frames,
                        if ins.ends() {
                            None
                        } else {
                            Some(g)
                        },
                        lim,
                        pool,
                    ),
                },
            },
        }
    }
}

impl AbstractFrame {
    /// Number of slots on the operand stack.
    fn slot_depth(&self) -> (n: u128)
        ensures
            n == total_slots(self@.stack),
            n <= 2 * usize::MAX,
    {
        let len: usize = self.stack.len();
        let mut n: u128 = 0;
        let mut i: usize = 0;
        while i < len
            invariant
                i <= len == self.stack@.len(),
                n == total_slots(self.stack@.take(i as int)),
                n <= 2 * i,
            decreases self.stack@.len() - i,
        {
            proof {
                assert(self.stack@.take(i + 1).drop_last() =~= self.stack@.take(i as int));
                assert(self.stack@.take(i + 1).last() == self.stack@[i as int]);
            }
            n = n + self.stack[i].size() as u128;
            i += 1;
        }
        assert(self.stack@.take(self.stack@.len() as int) =~= self.stack@);
        n
    }

    fn push(&mut self, t: VType, max_stack: u16, pc: u32) -> (r: Result<(), VerifyError>)
        ensures
            match old(self)@.pushed(t, max_stack, pc) {
                Ok(f) => r is Ok && final(self)@ == f,
                Err(e) => r is Err && r->Err_0 == e,
            },
    {
        if self.slot_depth() + t.size() as u128 > max_stack as u128 {
            return Err(VerifyError::StackOverflow(pc));
        }
        self.stack.push(t);
        Ok(())
    }

    fn pop_expect(&mut self, want: VType, pc: u32) -> (r: Result<(), VerifyError>)
        ensures
            match old(self)@.popped(want, pc) {
                Ok(f) => r is Ok && final(self)@ == f,
                Err(e) => r is Err && r->Err_0 == e,
            },
    {
        match self.stack.pop() {
            None => Err(VerifyError::StackUnderflow(pc)),
            Some(got) => {
                if is_assignable(got, want) {
                    Ok(())
                } else {
                    Err(VerifyError::TypeMismatch { pc, what: "operand type" })
                }
            },
        }
    }

    /// Reconstruct an abstract frame from a declared frame, padding locals to `max_locals` with
    /// `Top`.
    fn from_declared(declared: &Frame, max_locals: u16) -> (r: Result<AbstractFrame, VerifyError>)
        ensures
            match r {
                Ok(f) => declared@.locals.len() <= max_locals && f@ == (FrameView {
                    locals: padded(declared@.locals, max_locals as int),
                    stack: declared@.stack,
                }),
                Err(e) => declared@.locals.len() > max_locals && e == VerifyError::BadStackMap,
            },
    {
        if declared.locals.len() > max_locals as usize {
            return Err(VerifyError::BadStackMap);
        }
        Ok(
            AbstractFrame {
                locals: pad_locals(&declared.locals, max_locals),
                stack: copy_types(&declared.stack),
            },
        )
    }

    /// Whether this (outgoing) state satisfies a declared frame at a merge/target.
    fn assignable_to(&self, declared: &Frame) -> (b: bool)
        ensures
            b == self@.satisfies(declared@),
    {
        if declared.locals.len() > self.locals.len() || self.stack.len() != declared.stack.len() {
            return false;
        }
        let mut i: usize = 0;
        while i < declared.locals.len()
            invariant
                i <= declared.locals@.len() <= self.locals@.len(),
                forall|j: int|
                    0 <= j < i ==> assignable(#[trigger] self.locals@[j], declared.locals@[j]),
            decreases declared.locals@.len() - i,
        {
            if !is_assignable(self.locals[i], declared.locals[i]) {
                assert(!assignable(self@.locals[i as int], declared@.locals[i as int]));
                return false;
            }
            i += 1;
        }
        let mut j: usize = 0;
        while j < self.stack.len()
            invariant
                j <= self.stack@.len() == declared.stack@.len(),
                forall|k: int|
                    0 <= k < j ==> assignable(#[trigger] self.stack@[k], declared.stack@[k]),
            decreases self.stack@.len() - j,
        {
            if !is_assignable(self.stack[j], declared.stack[j]) {
                assert(!assignable(self@.stack[j as int], declared@.stack[j as int]));
                return false;
            }
            j += 1;
        }
        true
    }
}

/// The same types again.
fn copy_types(s: &Vec<VType>) -> (r: Vec<VType>)
    ensures
        r@ == s@,
{
    let mut r: Vec<VType> = Vec::new();
    r.extend_from_slice(s.as_slice());
    assert(r@ =~= s@);
    r
}

/// A list of at most `n` types, padded with `Top` to exactly `n`.
pub(crate) fn pad_locals(s: &Vec<VType>, n: u16) -> (r: Vec<VType>)
    requires
        s@.len() <= n,
    ensures
        r@ == padded(s@, n as int),
{
    let mut r = copy_types(s);
    while r.len() < n as usize
        invariant
            s@.len() <= r@.len() <= n,
            r@ == padded(s@, r@.len() as int),
        decreases n - r@.len(),
    {
        r.push(VType::Top);
        assert(r@ =~= padded(s@, r@.len() as int));
    }
    r
}

/// The opcodes that do no more than pop and push.
fn rule_of(op: u8) -> (r: Option<StackRule>)
    ensures
        r == stack_rule(op),
{
    let (first, second, result): (Option<VType>, Option<VType>, Option<VType>) = match op {
        0x00 | 0xa7 => (None, None, None),
        0x02..=0x08 | 0x10 | 0x11 => (None, None, Some(VType::Int)),
        0x09 | 0x0a => (None, None, Some(VType::Long)),
        0x0b..=0x0d => (None, None, Some(VType::Float)),
        0x60 | 0x64 | 0x68 | 0x6c | 0x70 | 0x7e => (
            Some(VType::Int),
            Some(VType::Int),
            Some(VType::Int),
        ),
        0x61 | 0x65 | 0x69 => (Some(VType::Long), Some(VType::Long), Some(VType::Long)),
        0x62 | 0x66 | 0x6a => (Some(VType::Float), Some(VType::Float), Some(VType::Float)),
        0x74 => (Some(VType::Int), None, Some(VType::Int)),
        0x85 => (Some(VType::Int), None, Some(VType::Long)),
        0x86 => (Some(VType::Int), None, Some(VType::Float)),
        0x88 => (Some(VType::Long), None, Some(VType::Int)),
        0x89 => (Some(VType::Long), None, Some(VType::Float)),
        0x8b => (Some(VType::Float), None, Some(VType::Int)),
        0x8c => (Some(VType::Float), None, Some(VType::Long)),
        0x94 => (Some(VType::Long), Some(VType::Long), Some(VType::Int)),
        0x95 | 0x96 => (Some(VType::Float), Some(VType::Float), Some(VType::Int)),
        0x99..=0x9e => (Some(VType::Int), None, None),
        0x9f..=0xa4 => (Some(VType::Int), Some(VType::Int), None),
        _ => {
            return None;
        },
    };
    Some(StackRule { first, second, result })
}

fn operate(f: &mut AbstractFrame, rule: StackRule, max_stack: u16, pc: u32) -> (r: Result<
    (),
    VerifyError,
>)
    ensures
        match operated(old(f)@, rule, max_stack, pc) {
            Ok(g) => r is Ok && final(f)@ == g,
            Err(e) => r is Err && r->Err_0 == e,
        },
{
    if let Some(t) = rule.first {
        f.pop_expect(t, pc)?;
    }
    if let Some(t) = rule.second {
        f.pop_expect(t, pc)?;
    }
    if let Some(t) = rule.result {
        f.push(t, max_stack, pc)?;
    }
    Ok(())
}

fn ldc_type(cp: &ConstantPool, index: i64, pc: u32) -> (r: Result<VType, VerifyError>)
    ensures
        r == constant_type(cp@, index, pc),
{
    if index < 0 || index > 0xFFFF {
        return Err(VerifyError::TypeMismatch { pc, what: "ldc index" });
    }
    match cp.get(index as u16) {
        Some(Constant::Integer(_)) => Ok(VType::Int),
        Some(Constant::Float(_)) => Ok(VType::Float),
        Some(Constant::Long(_)) => Ok(VType::Long),
        Some(Constant::Double(_)) => Ok(VType::Double),
        Some(Constant::String { .. }) => Ok(VType::Reference),
        Some(Constant::Class { .. }) => Ok(VType::Reference),
        _ => Err(VerifyError::TypeMismatch { pc, what: "ldc constant kind" }),
    }
}

fn load(f: &mut AbstractFrame, idx: u16, want: VType, lim: &Limits, pc: u32) -> (r: Result<
    (),
    VerifyError,
>)
    requires
        old(f)@.locals.len() >= lim.max_locals,
    ensures
        match old(f)@.loaded(idx, want, *lim, pc) {
            Ok(g) => r is Ok && final(f)@ == g,
            Err(e) => r is Err && r->Err_0 == e,
        },
{
    if idx as usize + want.size() as usize > lim.max_locals as usize {
        return Err(VerifyError::BadLocal { pc, index: idx });
    }
    if f.locals[idx as usize] != want {
        return Err(VerifyError::TypeMismatch { pc, what: "local type" });
    }
    if want.is_category2() && f.locals[idx as usize + 1] != VType::Top {
        return Err(VerifyError::TypeMismatch { pc, what: "category-2 local half" });
    }
    f.push(want, lim.max_stack, pc)
}

fn store(f: &mut AbstractFrame, idx: u16, t: VType, lim: &Limits, pc: u32) -> (r: Result<
    (),
    VerifyError,
>)
    requires
        old(f)@.locals.len() >= lim.max_locals,
    ensures
        match old(f)@.stored(idx, t, *lim, pc) {
            Ok(g) => r is Ok && final(f)@ == g,
            Err(e) => r is Err && r->Err_0 == e,
        },
{
    if idx as usize + t.size() as usize > lim.max_locals as usize {
        return Err(VerifyError::BadLocal { pc, index: idx });
    }
    f.pop_expect(t, pc)?;
    f.locals.set(idx as usize, t);
    if t.is_category2() {
        f.locals.set(idx as usize + 1, VType::Top);
    }
    Ok(())
}

/// Apply one instruction's type transition to the frame.
fn apply(f: &mut AbstractFrame, ins: &Insn, cp: &ConstantPool, lim: &Limits) -> (r: Result<
    (),
    VerifyError,
>)
    requires
        old(f)@.locals.len() >= lim.max_locals,
    ensures
        match applied(old(f)@, *ins, cp@, *lim) {
            Ok(g) => r is Ok && final(f)@ == g && g.locals.len() == old(f)@.locals.len(),
            Err(e) => r is Err && r->Err_0 == e,
        },
{
    let pc: u32 = ins.pc;
    if let Some(rule) = rule_of(ins.op) {
        return operate(f, rule, lim.max_stack, pc);
    }
    match ins.op {
        0x12 | 0x13 => {
            let t = ldc_type(cp, ins.arg, pc)?;
            if t.is_category2() {
                return Err(VerifyError::TypeMismatch { pc, what: "ldc of category-2 constant" });
            }
            f.push(t, lim.max_stack, pc)
        },
        0x14 => {
            let t = ldc_type(cp, ins.arg, pc)?;
            if !t.is_category2() {
                return Err(VerifyError::TypeMismatch { pc, what: "ldc2_w of category-1 constant" });
            }
            f.push(t, lim.max_stack, pc)
        },
        0x15 => load(f, ins.arg as u16, VType::Int, lim, pc),
        0x1a..=0x1d => load(f, (ins.op - 0x1a) as u16, VType::Int, lim, pc),
        0x16 => load(f, ins.arg as u16, VType::Long, lim, pc),
        0x1e..=0x21 => load(f, (ins.op - 0x1e) as u16, VType::Long, lim, pc),
        0x17 => load(f, ins.arg as u16, VType::Float, lim, pc),
        0x22..=0x25 => load(f, (ins.op - 0x22) as u16, VType::Float, lim, pc),
        0x36 => store(f, ins.arg as u16, VType::Int, lim, pc),
        0x3b..=0x3e => store(f, (ins.op - 0x3b) as u16, VType::Int, lim, pc),
        0x37 => store(f, ins.arg as u16, VType::Long, lim, pc),
        0x3f..=0x42 => store(f, (ins.op - 0x3f) as u16, VType::Long, lim, pc),
        0x38 => store(f, ins.arg as u16, VType::Float, lim, pc),
        0x43..=0x46 => store(f, (ins.op - 0x43) as u16, VType::Float, lim, pc),
        0x84 => {
            let idx: u16 = ((ins.arg >> 8) & 0xFF) as u16;
            if idx >= lim.max_locals {
                return Err(VerifyError::BadLocal { pc, index: idx });
            }
            if f.locals[idx as usize] != VType::Int {
                return Err(VerifyError::TypeMismatch { pc, what: "iinc on non-int local" });
            }
            Ok(())
        },
        0xac => {
            f.pop_expect(VType::Int, pc)?;
            match lim.ret {
                Some(VType::Int) => Ok(()),
                _ => Err(VerifyError::BadReturn(pc)),
            }
        },
        0xad => {
            f.pop_expect(VType::Long, pc)?;
            match lim.ret {
                Some(VType::Long) => Ok(()),
                _ => Err(VerifyError::BadReturn(pc)),
            }
        },
        _ => Err(VerifyError::UnsupportedOpcode { op: ins.op, pc }),
    }
}

/// Check every instruction in order against the declared frames.
pub fn typecheck(
    insns: &[Insn],
    frames: &BTreeMap<u32, Frame>,
    initial: AbstractFrame,
    lim: &Limits,
    cp: &ConstantPool,
) -> (r: Result<(), VerifyError>)
    requires
        initial@.locals.len() >= lim.max_locals,
    ensures
        r == checked_from(insns@, 0, frame_views(frames@), Some(initial@), *lim, cp@),
{
    let ghost start = initial@;
    let mut cur: Option<AbstractFrame> = Some(initial);
    let mut k: usize = 0;
    while k < insns.len()
        invariant
            k <= insns@.len(),
            start == initial@,
            cur matches Some(f) ==> f@.locals.len() >= lim.max_locals,
            checked_from(insns@, 0, frame_views(frames@), Some(start), *lim, cp@) == checked_from(
                insns@,
                k as int,
                frame_views(frames@),
                match cur {
                    Some(f) => Some(f@),
                    None => None,
                },
                *lim,
                cp@,
            ),
        decreases insns@.len() - k,
    {
        let ins = insns[k];
        let mut frame: AbstractFrame = match frame_at(frames, ins.pc) {
            Some(declared) => {
                if let Some(c) = &cur {
                    if !c.assignable_to(declared) {
                        return Err(VerifyError::FrameMismatch(ins.pc));
                    }
                }
                AbstractFrame::from_declared(declared, lim.max_locals)?
            },
            None => match cur {
                Some(c) => c,
                None => {
                    return Err(VerifyError::MissingFrame(ins.pc));
                },
            },
        };
        apply(&mut frame, &ins, cp, lim)?;
        if let Some(target) = ins.branch_target() {
            match frame_at(frames, target) {
                None => {
                    return Err(VerifyError::MissingFrame(target));
                },
                Some(declared) => {
                    if !frame.assignable_to(declared) {
                        return Err(VerifyError::FrameMismatch(target));
                    }
                },
            }
        }
        cur = if ins.is_unconditional_end() {
            None
        } else {
            Some(frame)
        };
        k += 1;
    }
    if insns.len() == 0 {
        return Err(VerifyError::Truncated(0));
    }
    match cur {
        Some(_) => {
            let last = insns[insns.len() - 1];
            Err(VerifyError::Truncated(last.pc.wrapping_add(last.len as u32)))
        },
        None => Ok(()),
    }
}

/// In a method that passes the check, every branch goes to an offset with a declared frame.
pub proof fn lemma_checked_branches_have_frames(
    insns: Seq<Insn>,
    k: int,
    frames: Map<u32, FrameView>,
    cur: Option<FrameView>,
    lim: Limits,
    pool: PoolView,
    i: int,
)
    requires
        0 <= k <= i < insns.len(),
        checked_from(insns, k, frames, cur, lim, pool) is Ok,
    ensures
        insns[i].target() matches Some(t) ==> frames.contains_key(t),
    decreases insns.len() - k,
{
    let ins = insns[k];
    let f = entered(cur, frames, ins.pc, lim.max_locals)->Ok_0;
    let g = applied(f, ins, pool, lim)->Ok_0;
    if i > k {
        lemma_checked_branches_have_frames(
            insns,
            k + 1,
            frames,
            if ins.ends() {
                None
            } else {
                Some(g)
            },
            lim,
            pool,
            i,
        );
    }
}

/// A method that passes the check has an instruction, and its last one does not fall through.
pub proof fn lemma_checked_code_ends(
    insns: Seq<Insn>,
    k: int,
    frames: Map<u32, FrameView>,
    cur: Option<FrameView>,
    lim: Limits,
    pool: PoolView,
)
    requires
        0 <= k <= insns.len(),
        checked_from(insns, k, frames, cur, lim, pool) is Ok,
    ensures
        insns.len() > 0,
        k < insns.len() ==> insns.last().ends(),
    decreases insns.len() - k,
{
    if k < insns.len() {
        let ins = insns[k];
        let f = entered(cur, frames, ins.pc, lim.max_locals)->Ok_0;
        let g = applied(f, ins, pool, lim)->Ok_0;
        let next = if ins.ends() {
            None
        } else {
            Some(g)
        };
        lemma_checked_code_ends(insns, k + 1, frames, next, lim, pool);
    }
}

} // verus!
