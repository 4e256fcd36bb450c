//! Bytecode verification by type-checking against the `StackMapTable`. It rejects any type-unsafe
//! or malformed method with a [`VerifyError`], never panicking, and produces the static facts
//! ([`VerifiedMethod`]) from which SSA is built. Opcodes outside the supported set are rejected.

use vstd::prelude::*;
use std::collections::BTreeMap;

pub mod error;
pub mod insn;
pub mod laws;
pub mod stackmap;
pub mod typecheck;
pub mod vtype;

use crate::classfile::attribute::{attribute_views, raw_bytes};
use crate::classfile::constant_pool::{pool_utf8, PoolView};
use crate::classfile::{
    first_code, Attribute, AttributeView, ClassFile, ClassFileView, CodeView, ConstantPool,
    MemberInfo, MemberView,
};
use insn::{decoded, indexed, lemma_index_has_the_pcs};
use stackmap::{declared_frames, frame_views, FrameView};
use typecheck::{
    checked_from, lemma_checked_branches_have_frames, lemma_checked_code_ends, pad_locals, padded,
    typecheck, AbstractFrame, Limits,
};
use vtype::{expand_to_slots, expanded, method_types};

pub use error::VerifyError;
pub use insn::{decode, pc_index, Insn};
pub use stackmap::Frame;
pub use vtype::{is_assignable, parse_method_descriptor, VType};

verus! {

/// A verified method: decoded instructions plus the static facts SSA construction needs.
#[derive(Debug, Clone)]
pub struct VerifiedMethod {
    pub insns: Vec<Insn>,
    pub max_stack: u16,
    pub max_locals: u16,
    pub is_static: bool,
    /// Argument types in declaration order, item model.
    pub arg_types: Vec<VType>,
    /// Return type, or `None` for `void`.
    pub ret: Option<VType>,
    /// The declared frame at each offset (empty if the method has no branches).
    pub frames: BTreeMap<u32, Frame>,
}

/// What a verified method holds.
#[verifier::ext_equal]
pub struct VerifiedView {
    pub insns: Seq<Insn>,
    pub max_stack: u16,
    pub max_locals: u16,
    pub is_static: bool,
    pub arg_types: Seq<VType>,
    pub ret: Option<VType>,
    pub frames: Map<u32, FrameView>,
}

impl View for VerifiedMethod {
    type V = VerifiedView;

    open spec fn view(&self) -> VerifiedView {
        VerifiedView {
            insns: self.insns@,
            max_stack: self.max_stack,
            max_locals: self.max_locals,
            is_static: self.is_static,
            arg_types: self.arg_types@,
            ret: self.ret,
            frames: frame_views(self.frames@),
        }
    }
}

/// Whether an instruction starts at `pc`.
pub open spec fn is_boundary(insns: Seq<Insn>, pc: u32) -> bool {
    exists|i: int| 0 <= i < insns.len() && (#[trigger] insns[i]).pc == pc
}

/// The check of the branch targets of the instructions from `k` on.
pub open spec fn targets_checked(insns: Seq<Insn>, k: int) -> Result<(), VerifyError>
    decreases insns.len() - k,
{
    if k >= insns.len() {
        Ok(())
    } else {
        match insns[k].target() {
            Some(t) => if is_boundary(insns, t) {
                targets_checked(insns, k + 1)
            } else {
                Err(VerifyError::BadBranchTarget { at: insns[k].pc, target: t as i64 })
            },
            None => targets_checked(insns, k + 1),
        }
    }
}

/// The bytes of the first raw attribute of that name.
pub open spec fn first_raw(
    attributes: Seq<AttributeView>,
    pool: PoolView,
    name: Seq<char>,
) -> Option<Seq<u8>>
    decreases attributes.len(),
{
    if attributes.len() == 0 {
        None
    } else {
        match raw_bytes(attributes.first(), pool, name) {
            Some(b) => Some(b),
            None => first_raw(attributes.drop_first(), pool, name),
        }
    }
}

/// The types that a method finds in its locals, in the item model: `this` for an instance method,
/// then the arguments.
pub open spec fn initial_items(is_static: bool, args: Seq<VType>) -> Seq<VType> {
    if is_static {
        args
    } else {
        seq![VType::Reference] + args
    }
}

/// The static flag of a member.
pub open spec fn static_flag(access_flags: u16) -> bool {
    access_flags & 0x0008 != 0
}

/// The check of a method whose descriptor and instructions are known.
pub open spec fn body_verified(
    pool: PoolView,
    code: CodeView,
    is_static: bool,
    args: Seq<VType>,
    ret: Option<VType>,
    insns: Seq<Insn>,
) -> Result<VerifiedView, VerifyError> {
    let items = initial_items(is_static, args);
    let lim = Limits { max_stack: code.max_stack, max_locals: code.max_locals, ret };
    let declared = match first_raw(code.attributes, pool, "StackMapTable"@) {
        Some(b) => declared_frames(b, items),
        None => Some(Map::empty()),
    };
    match targets_checked(insns, 0) {
        Err(e) => Err(e),
        Ok(_) => match declared {
            None => Err(VerifyError::BadStackMap),
            Some(frames) => if expanded(items).len() > code.max_locals {
                Err(VerifyError::BadLocal { pc: 0, index: code.max_locals })
            } else {
                let initial = FrameView {
                    locals: padded(expanded(items), code.max_locals as int),
                    stack: Seq::empty(),
                };
                match checked_from(insns, 0, frames, Some(initial), lim, pool) {
                    Err(e) => Err(e),
                    Ok(_) => Ok(
                        VerifiedView {
                            insns,
                            max_stack: code.max_stack,
                            max_locals: code.max_locals,
                            is_static,
                            arg_types: args,
                            ret,
                            frames,
                        },
                    ),
                }
            },
        },
    }
}

/// The verification of method `m` of class `cf`.
pub open spec fn verified(cf: ClassFileView, m: MemberView) -> Result<VerifiedView, VerifyError> {
    match first_code(m.attributes) {
        None => Err(VerifyError::NoCode),
        Some(code) => match pool_utf8(cf.constant_pool, m.descriptor_index) {
            None => Err(VerifyError::BadDescriptor),
            Some(descriptor) => match method_types(descriptor) {
                None => Err(VerifyError::BadDescriptor),
                Some((args, ret)) => match decoded(code.code) {
                    Err(e) => Err(e),
                    Ok(insns) => body_verified(
                        cf.constant_pool,
                        code,
                        static_flag(m.access_flags),
                        args,
                        ret,
                        insns,
                    ),
                },
            },
        },
    }
}

/// Branch targets must land on an instruction boundary.
fn check_targets(insns: &Vec<Insn>) -> (r: Result<(), VerifyError>)
    ensures
        r == targets_checked(insns@, 0),
{
    broadcast use vstd::std_specs::hash::group_hash_axioms;

    let index = pc_index(insns.as_slice());
    let mut k: usize = 0;
    while k < insns.len()
        invariant
            k <= insns@.len(),
            index@ == indexed(insns@),
            targets_checked(insns@, 0) == targets_checked(insns@, k as int),
        decreases insns@.len() - k,
    {
        broadcast use vstd::std_specs::hash::group_hash_axioms;

        if let Some(t) = insns[k].branch_target() {
            proof {
                lemma_index_has_the_pcs(insns@, t);
            }
            if !index.contains_key(&t) {
                return Err(VerifyError::BadBranchTarget { at: insns[k].pc, target: t as i64 });
            }
        }
        k += 1;
    }
    Ok(())
}

/// The frames that the first `StackMapTable` declares; none, if there is no such attribute.
fn frames_of(attributes: &Vec<Attribute>, cp: &ConstantPool, items: &[VType]) -> (r: Result<
    BTreeMap<u32, Frame>,
    VerifyError,
>)
    ensures
        match (match first_raw(attribute_views(attributes@), cp@, "StackMapTable"@) {
            Some(b) => declared_frames(b, items@),
            None => Some(Map::empty()),
        }) {
            Some(frames) => r is Ok && frame_views(r->Ok_0@) == frames,
            None => r is Err && r->Err_0 == VerifyError::BadStackMap,
        },
{
    let ghost views = attribute_views(attributes@);
    let mut i: usize = 0;
    assert(views.skip(0) =~= views);
    while i < attributes.len()
        invariant
            i <= attributes@.len(),
            views == attribute_views(attributes@),
            first_raw(views, cp@, "StackMapTable"@) == first_raw(
                views.skip(i as int),
                cp@,
                "StackMapTable"@,
            ),
        decreases attributes@.len() - i,
    {
        assert(views.skip(i as int).first() == attributes@[i as int]@);
        assert(views.skip(i as int).drop_first() =~= views.skip(i + 1));
        if let Some(smt) = attributes[i].raw_named(cp, "StackMapTable") {
            return stackmap::decode(smt, items);
        }
        i += 1;
    }
    let frames: BTreeMap<u32, Frame> = BTreeMap::new();
    assert(frame_views(frames@) =~= Map::empty());
    Ok(frames)
}

/// Verify a method, returning the facts needed downstream.
pub fn verify_method(cf: &ClassFile, m: &MemberInfo) -> (r: Result<VerifiedMethod, VerifyError>)
    ensures
        match verified(cf@, m@) {
            Ok(v) => r is Ok && r->Ok_0@ == v,
            Err(e) => r is Err && r->Err_0 == e,
        },
{
    let code = match m.code() {
        Some(c) => c,
        None => {
            return Err(VerifyError::NoCode);
        },
    };
    let is_static: bool = m.access_flags & 0x0008 != 0;
    let descriptor = match m.descriptor(&cf.constant_pool) {
        Some(d) => d,
        None => {
            return Err(VerifyError::BadDescriptor);
        },
    };
    let (arg_types, ret) = parse_method_descriptor(descriptor)?;
    let insns = decode(code.code.as_slice())?;
    check_targets(&insns)?;

    // Initial locals in the item model: `this` (if instance) then the arguments.
    let mut items: Vec<VType> = Vec::new();
    if !is_static {
        items.push(VType::Reference);
    }
    items.extend_from_slice(arg_types.as_slice());
    assert(items@ =~= initial_items(is_static, arg_types@));

    assert(code@.attributes =~= attribute_views(code.attributes@));
    let frames = frames_of(&code.attributes, &cf.constant_pool, items.as_slice())?;

    // Initial abstract frame: slot-model locals padded to max_locals with Top; empty stack.
    let locals = expand_to_slots(items.as_slice());
    if locals.len() > code.max_locals as usize {
        return Err(VerifyError::BadLocal { pc: 0, index: code.max_locals });
    }
    let initial = AbstractFrame { locals: pad_locals(&locals, code.max_locals), stack: Vec::new() };
    let lim = Limits { max_stack: code.max_stack, max_locals: code.max_locals, ret };
    typecheck(insns.as_slice(), &frames, initial, &lim, &cf.constant_pool)?;
    Ok(
        VerifiedMethod {
            insns,
            max_stack: code.max_stack,
            max_locals: code.max_locals,
            is_static,
            arg_types,
            ret,
            frames,
        },
    )
}

proof fn lemma_targets_are_boundaries(insns: Seq<Insn>, k: int, i: int)
    requires
        0 <= k <= i < insns.len(),
        targets_checked(insns, k) is Ok,
    ensures
        insns[i].target() matches Some(t) ==> is_boundary(insns, t),
    decreases insns.len() - k,
{
    if i > k {
        lemma_targets_are_boundaries(insns, k + 1, i);
    }
}

/// Every branch of a verified method lands on an instruction, and its target declares a frame.
pub proof fn lemma_verified_branches(cf: ClassFileView, m: MemberView, i: int)
    requires
        verified(cf, m) is Ok,
        0 <= i < verified(cf, m)->Ok_0.insns.len(),
    ensures
        verified(cf, m)->Ok_0.insns[i].target() matches Some(t) ==> is_boundary(
            verified(cf, m)->Ok_0.insns,
            t,
        ) && verified(cf, m)->Ok_0.frames.contains_key(t),
{
    let v = verified(cf, m)->Ok_0;
    lemma_targets_are_boundaries(v.insns, 0, i);
    lemma_checked_branches_have_frames(
        v.insns,
        0,
        v.frames,
        Some(
            FrameView {
                locals: padded(
                    expanded(initial_items(v.is_static, v.arg_types)),
                    v.max_locals as int,
                ),
                stack: Seq::empty(),
            },
        ),
        Limits { max_stack: v.max_stack, max_locals: v.max_locals, ret: v.ret },
        cf.constant_pool,
        i,
    );
}

/// The locals of a verified method hold its receiver and its arguments.
pub proof fn lemma_verified_arguments_fit(cf: ClassFileView, m: MemberView)
    requires
        verified(cf, m) is Ok,
    ensures
        ({
            let v = verified(cf, m)->Ok_0;
            expanded(initial_items(v.is_static, v.arg_types)).len() <= v.max_locals
        }),
{
}

/// Control never runs off the end of a verified method, which has at least one instruction.
pub proof fn lemma_verified_code_ends(cf: ClassFileView, m: MemberView)
    requires
        verified(cf, m) is Ok,
    ensures
        verified(cf, m)->Ok_0.insns.len() > 0,
        verified(cf, m)->Ok_0.insns.last().ends(),
{
    let v = verified(cf, m)->Ok_0;
    let initial = FrameView {
        locals: padded(expanded(initial_items(v.is_static, v.arg_types)), v.max_locals as int),
        stack: Seq::empty(),
    };
    let lim = Limits { max_stack: v.max_stack, max_locals: v.max_locals, ret: v.ret };
    lemma_checked_code_ends(v.insns, 0, v.frames, Some(initial), lim, cf.constant_pool);
}

} // verus!
