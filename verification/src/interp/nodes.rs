//! Running a single node.

use vstd::prelude::*;
use crate::diff::EscapeState;
use crate::env::{copy_values, Env, EnvView};
use crate::heap::Heap;
use crate::ids::{ClassId, RefIndex, SlotId, ValId};
use crate::interp::error::ExecError;
use crate::interp::eval::{eval, FloatRequest, Outcome};
use crate::interp::soundness::keeps_shape;
use crate::interp::machine::{
    chain_landed, dispatched, field_deltas, frame_left, get_field_outcome, handles_freed,
    in_transit, init_need, instance_of, instance_slot, invoke_outcome, load_string_outcome,
    new_outcome, node_outcome, put_field_outcome, slot_releases, static_outcome, string_constant,
    type_outcome, virtual_target, InitNeed, NodeOutcome,
};
use crate::classfile::Constant;
use crate::ir::Op;
use crate::loader::{ClassRegistry, InitState, Resolved};
use crate::value::{Tag, Val128};
use crate::world::{World, WorldView};

verus! {

/// What running a node came to.
#[derive(Clone, Copy, PartialEq, Eq, Debug)]
pub enum NodeStep {
    Next,
    Fault(ExecError),
    Call { class: ClassId, method: u16 },
    Init(ClassId),
    Float(FloatRequest),
}

/// Whether running a node came to an outcome: only a node that is through changes anything.
pub open spec fn realizes(
    r: NodeStep,
    o: NodeOutcome,
    w0: WorldView,
    e0: EnvView,
    w1: WorldView,
    e1: EnvView,
) -> bool {
    match o {
        NodeOutcome::Next { world, env } => r is Next && w1 == world && e1 == env,
        NodeOutcome::Fault(e) => r == NodeStep::Fault(e) && w1 == w0 && e1 == e0,
        NodeOutcome::Call { class, method } => r == (NodeStep::Call { class, method }) && w1 == w0
            && e1 == e0,
        NodeOutcome::Init(c) => r == NodeStep::Init(c) && w1 == w0 && e1 == e0,
        NodeOutcome::Float(q) => r == NodeStep::Float(q) && w1 == w0 && e1 == e0,
    }
}

/// Land a chain: apply its recorded reference-count deltas to the heap in program order, then
/// commit its slot writes.
pub(crate) fn land_chain(env: &mut Env, heap: &mut Heap)
    requires
        old(env)@.wf(),
        old(heap).wf(),
    ensures
        (final(env)@, final(heap)@) == chain_landed(old(env)@, old(heap)@),
        final(env)@.wf(),
        final(env)@.slots.len() == old(env)@.slots.len(),
        final(heap).wf(),
{
    let mut deltas: Vec<(RefIndex, i32)> = Vec::new();
    env.drain_ref_deltas(&mut deltas);
    heap.apply_rc_deltas(deltas.as_slice());
    proof {
        crate::env::lemma_landing_is_invisible(env@);
    }
    env.land();
}

/// Leave a frame: land whatever is still pending, then release the references its slots held. The
/// returned reference is handed to the caller as an in-transit reference inside the same batch.
pub(crate) fn leave_frame(env: Env, heap: &mut Heap, returned: Option<Val128>)
    requires
        env@.wf(),
        env@.slots.len() <= 0xFFFF,
        old(heap).wf(),
    ensures
        final(heap).wf(),
        final(heap)@ == frame_left(env@, old(heap)@, returned),
{
    let mut env = env;
    land_chain(&mut env, heap);
    let n: usize = env.len();
    let ghost slots = env@.slots;
    let mut batch: Vec<(RefIndex, i32)> = Vec::new();
    if let Some(v) = returned {
        if v.tag().is_ref() {
            batch.push((v.ref_index(), 1));
        }
    }
    assert(batch@ =~= in_transit(returned));
    let ghost transit = batch@;
    let mut i: usize = 0;
    assert(batch@ =~= transit + slot_releases(slots, 0));
    while i < n
        invariant
            i <= n == slots.len() <= 0xFFFF,
            env@.wf(),
            env@.slots == slots,
            env@.pending.len() == 0,
            batch@ == transit + slot_releases(slots, i as int),
        decreases n - i,
    {
        let v = env.read_slot(SlotId(i as u16));
        assert(v == slots[i as int]);
        if v.tag() == Tag::Ptr {
            batch.push((v.ref_index(), -1));
        }
        i += 1;
        assert(batch@ =~= transit + slot_releases(slots, i as int));
    }
    heap.apply_rc_deltas(batch.as_slice());
    let ghost counted = heap@;
    let mut j: usize = 0;
    while j < n
        invariant
            j <= n == slots.len() <= 0xFFFF,
            env@.wf(),
            env@.slots == slots,
            env@.pending.len() == 0,
            heap.wf(),
            heap@ == handles_freed(counted, slots, j as int),
        decreases n - j,
    {
        let v = env.read_slot(SlotId(j as u16));
        assert(v == slots[j as int]);
        if v.tag() == Tag::Handle {
            heap.free(v.ref_index());
        }
        j += 1;
    }
}

/// What using a class calls for.
pub(crate) fn check_init(r: &ClassRegistry, class: ClassId) -> (n: NodeStep)
    ensures
        match init_need(r@, class) {
            InitNeed::Nothing => n is Next && class.0 < r@.len(),
            InitNeed::Begin => n == NodeStep::Init(class) && class.0 < r@.len(),
            InitNeed::Fault(e) => n == NodeStep::Fault(e),
        },
{
    match r.get(class) {
        None => NodeStep::Fault(ExecError::NoMethod),
        Some(k) => match k.init_state() {
            InitState::Initialized => NodeStep::Next,
            InitState::Initializing(_) => NodeStep::Next,
            InitState::Failed => NodeStep::Fault(ExecError::ClassInitFailed),
            InitState::Loaded => NodeStep::Init(class),
        },
    }
}

/// The method in a slot of a class's dispatch table.
fn dispatch(r: &ClassRegistry, class: ClassId, slot: usize) -> (e: Result<(ClassId, u16), ExecError>)
    ensures
        e == dispatched(r@, class, slot),
{
    match r.get(class) {
        None => Err(ExecError::Unresolved),
        Some(k) => {
            if slot < k.vtable.len() {
                let e = k.vtable[slot];
                Ok((e.class, e.method))
            } else {
                Err(ExecError::Unresolved)
            }
        },
    }
}

fn find_virtual(w: &World, owner: ClassId, cp: u16, vals: &[Val128]) -> (r: Result<
    (ClassId, u16),
    ExecError,
>)
    requires
        w.wf(),
    ensures
        r == virtual_target(w@, owner, cp, vals@),
{
    if vals.len() == 0 {
        return Err(ExecError::BadValue);
    }
    let recv = vals[0];
    if recv.tag() == Tag::Null {
        return Err(ExecError::NullPointer);
    }
    let slot: usize = match w.registry.resolve_virtual(owner, cp) {
        Some(Resolved::VirtualSlot { slot }) => slot,
        _ => {
            return Err(ExecError::Unresolved);
        },
    };
    let class = match w.heap.get(recv.ref_index()) {
        Some(o) => o.class,
        None => {
            return Err(ExecError::BadValue);
        },
    };
    dispatch(&w.registry, class, slot)
}

fn run_invoke(w: &World, Ghost(env): Ghost<EnvView>, owner: ClassId, op: Op, vals: &[Val128]) -> (r:
    NodeStep)
    requires
        w.wf(),
    ensures
        realizes(r, invoke_outcome(w@, env, owner, op, vals@), w@, env, w@, env),
{
    match op {
        Op::InvokeVirtual(cp) => match find_virtual(w, owner, cp, vals) {
            Err(e) => NodeStep::Fault(e),
            Ok((class, method)) => NodeStep::Call { class, method },
        },
        Op::InvokeSpecial(cp) => match w.registry.resolve_method(owner, cp) {
            Some(Resolved::Method { class, method }) => NodeStep::Call { class, method },
            Some(Resolved::NoOp) => NodeStep::Next,
            _ => NodeStep::Fault(ExecError::Unresolved),
        },
        Op::InvokeStatic(cp) => match w.registry.resolve_method(owner, cp) {
            Some(Resolved::Method { class, method }) => match check_init(&w.registry, class) {
                NodeStep::Next => NodeStep::Call { class, method },
                other => other,
            },
            Some(Resolved::NoOp) => NodeStep::Next,
            _ => NodeStep::Fault(ExecError::Unresolved),
        },
        _ => NodeStep::Fault(ExecError::UnsupportedOp),
    }
}

fn define(env: &mut Env, id: ValId, v: Val128)
    requires
        old(env)@.wf(),
        id.offset < old(env)@.slots.len(),
    ensures
        final(env)@ == old(env)@.written(SlotId(id.offset), v),
        final(env)@.wf(),
        final(env)@.slots.len() == old(env)@.slots.len(),
{
    env.write_slot(SlotId(id.offset), v);
}

fn run_new(
    w: &mut World,
    env: &mut Env,
    owner: ClassId,
    id: ValId,
    class_cp: u16,
    escape: EscapeState,
) -> (r: NodeStep)
    requires
        old(w).wf(),
        old(env)@.wf(),
        id.offset < old(env)@.slots.len(),
    ensures
        final(w).wf(),
        keeps_shape(old(w)@, old(env)@, final(w)@, final(env)@),
        realizes(
            r,
            new_outcome(old(w)@, old(env)@, owner, id, class_cp, escape),
            old(w)@,
            old(env)@,
            final(w)@,
            final(env)@,
        ),
{
    let class = match w.registry.resolve_class(owner, class_cp) {
        Some(c) => c,
        None => {
            return NodeStep::Fault(ExecError::Unresolved);
        },
    };
    match check_init(&w.registry, class) {
        NodeStep::Next => {},
        other => {
            return other;
        },
    }
    let defaults = match w.registry.get(class) {
        Some(k) => copy_values(&k.field_defaults),
        None => {
            return NodeStep::Fault(ExecError::Unresolved);
        },
    };
    match w.heap.allocate(class, escape, defaults) {
        None => NodeStep::Fault(ExecError::OutOfMemory),
        Some(r) => {
            let v = if escape == EscapeState::S1 {
                Val128::handle(r)
            } else {
                Val128::ptr(r)
            };
            define(env, id, v);
            NodeStep::Next
        },
    }
}

fn find_instance_slot(w: &World, owner: ClassId, cp: u16) -> (s: Option<u16>)
    requires
        w.wf(),
    ensures
        s == instance_slot(w@, owner, cp),
{
    match w.registry.resolve_field(owner, cp) {
        Some(Resolved::InstanceField { class, slot }) => Some(slot),
        _ => None,
    }
}

fn run_get_field(w: &World, env: &mut Env, owner: ClassId, id: ValId, cp: u16, vals: &[Val128]) ->
    (r: NodeStep)
    requires
        w.wf(),
        old(env)@.wf(),
        id.offset < old(env)@.slots.len(),
    ensures
        keeps_shape(w@, old(env)@, w@, final(env)@),
        realizes(
            r,
            get_field_outcome(w@, old(env)@, owner, id, cp, vals@),
            w@,
            old(env)@,
            w@,
            final(env)@,
        ),
{
    if vals.len() == 0 {
        return NodeStep::Fault(ExecError::BadValue);
    }
    let obj = vals[0];
    if obj.tag() == Tag::Null {
        return NodeStep::Fault(ExecError::NullPointer);
    }
    match find_instance_slot(w, owner, cp) {
        None => NodeStep::Fault(ExecError::Unresolved),
        Some(slot) => match w.heap.get_field(obj.ref_index(), slot as usize) {
            None => NodeStep::Fault(ExecError::BadValue),
            Some(v) => {
                define(env, id, v);
                NodeStep::Next
            },
        },
    }
}

/// A field's new referent gains a reference, its old one loses one.
fn note_field(env: &mut Env, new: Val128, old_value: Val128)
    ensures
        final(env)@ == field_deltas(old(env)@, new, old_value),
        old(env)@.wf() ==> final(env)@.wf(),
        final(env)@.slots.len() == old(env)@.slots.len(),
{
    if new.tag().is_ref() {
        env.record_ref_delta(new.ref_index(), 1);
    }
    if old_value.tag().is_ref() {
        env.record_ref_delta(old_value.ref_index(), -1);
    }
}

fn run_put_field(w: &mut World, env: &mut Env, owner: ClassId, cp: u16, vals: &[Val128]) -> (r:
    NodeStep)
    requires
        old(w).wf(),
        old(env)@.wf(),
    ensures
        final(w).wf(),
        keeps_shape(old(w)@, old(env)@, final(w)@, final(env)@),
        realizes(
            r,
            put_field_outcome(old(w)@, old(env)@, owner, cp, vals@),
            old(w)@,
            old(env)@,
            final(w)@,
            final(env)@,
        ),
{
    if vals.len() < 2 {
        return NodeStep::Fault(ExecError::BadValue);
    }
    let obj = vals[0];
    let val = vals[1];
    if obj.tag() == Tag::Null {
        return NodeStep::Fault(ExecError::NullPointer);
    }
    match find_instance_slot(w, owner, cp) {
        None => NodeStep::Fault(ExecError::Unresolved),
        Some(slot) => match w.heap.get_field(obj.ref_index(), slot as usize) {
            None => NodeStep::Fault(ExecError::BadValue),
            Some(old_value) => {
                if !w.heap.set_field(obj.ref_index(), slot as usize, val) {
                    return NodeStep::Fault(ExecError::BadValue);
                }
                note_field(env, val, old_value);
                NodeStep::Next
            },
        },
    }
}

/// The text that a string constant names.
fn constant_text(w: &World, owner: ClassId, cp: u16) -> (t: Option<String>)
    ensures
        match string_constant(w@, owner, cp) {
            Some(s) => t is Some && t->0@ == s,
            None => t is None,
        },
{
    match w.registry.get(owner) {
        None => None,
        Some(k) => match k.constant_pool() {
            None => None,
            Some(pool) => match pool.get(cp) {
                Some(Constant::String { string_index }) => match pool.utf8(*string_index) {
                    Some(s) => Some(s.to_string()),
                    None => None,
                },
                _ => None,
            },
        },
    }
}

fn run_load_string(w: &mut World, env: &mut Env, owner: ClassId, id: ValId, cp: u16) -> (r:
    NodeStep)
    requires
        old(w).wf(),
        old(env)@.wf(),
        id.offset < old(env)@.slots.len(),
    ensures
        final(w).wf(),
        keeps_shape(old(w)@, old(env)@, final(w)@, final(env)@),
        realizes(
            r,
            load_string_outcome(old(w)@, old(env)@, owner, id, cp),
            old(w)@,
            old(env)@,
            final(w)@,
            final(env)@,
        ),
{
    match constant_text(w, owner, cp) {
        None => NodeStep::Fault(ExecError::Unresolved),
        Some(text) => match w.intern(text.as_str()) {
            Err(e) => NodeStep::Fault(e),
            Ok(v) => {
                define(env, id, v);
                NodeStep::Next
            },
        },
    }
}

fn run_static(
    w: &mut World,
    env: &mut Env,
    owner: ClassId,
    id: ValId,
    cp: u16,
    is_write: bool,
    vals: &[Val128],
) -> (r: NodeStep)
    requires
        old(w).wf(),
        old(env)@.wf(),
        id.offset < old(env)@.slots.len(),
    ensures
        final(w).wf(),
        keeps_shape(old(w)@, old(env)@, final(w)@, final(env)@),
        realizes(
            r,
            static_outcome(old(w)@, old(env)@, owner, id, cp, is_write, vals@),
            old(w)@,
            old(env)@,
            final(w)@,
            final(env)@,
        ),
{
    let (class, slot): (ClassId, usize) = match w.registry.resolve_field(owner, cp) {
        Some(Resolved::StaticField { class, slot }) => (class, slot),
        _ => {
            return NodeStep::Fault(ExecError::Unresolved);
        },
    };
    match check_init(&w.registry, class) {
        NodeStep::Next => {},
        other => {
            return other;
        },
    }
    if is_write && vals.len() == 0 {
        return NodeStep::Fault(ExecError::BadValue);
    }
    let cur = match w.registry.get(class) {
        Some(k) => {
            if slot >= k.statics.len() {
                return NodeStep::Fault(ExecError::BadValue);
            }
            k.statics[slot]
        },
        None => {
            return NodeStep::Fault(ExecError::Unresolved);
        },
    };
    if is_write {
        w.registry.set_static(class, slot, vals[0]);
        note_field(env, vals[0], cur);
    } else {
        define(env, id, cur);
    }
    NodeStep::Next
}

fn check_instance(w: &World, owner: ClassId, cp: u16, obj: Val128) -> (r: Result<bool, ExecError>)
    requires
        w.wf(),
    ensures
        r == instance_of(w@, owner, cp, obj),
{
    if obj.tag() == Tag::Null {
        return Ok(false);
    }
    match w.registry.resolve_class(owner, cp) {
        None => Err(ExecError::Unresolved),
        Some(class) => match w.heap.get(obj.ref_index()) {
            None => Err(ExecError::BadValue),
            Some(o) => Ok(w.registry.is_subclass_of(o.class, class)),
        },
    }
}

fn run_type(
    w: &World,
    env: &mut Env,
    owner: ClassId,
    id: ValId,
    cp: u16,
    is_cast: bool,
    vals: &[Val128],
) -> (r: NodeStep)
    requires
        w.wf(),
        old(env)@.wf(),
        id.offset < old(env)@.slots.len(),
    ensures
        keeps_shape(w@, old(env)@, w@, final(env)@),
        realizes(
            r,
            type_outcome(w@, old(env)@, owner, id, cp, is_cast, vals@),
            w@,
            old(env)@,
            w@,
            final(env)@,
        ),
{
    if vals.len() == 0 {
        return NodeStep::Fault(ExecError::BadValue);
    }
    let obj = vals[0];
    match check_instance(w, owner, cp, obj) {
        Err(e) => NodeStep::Fault(e),
        Ok(yes) => {
            if !is_cast {
                define(
                    env,
                    id,
                    if yes {
                        Val128::from_i32(1)
                    } else {
                        Val128::from_i32(0)
                    },
                );
            } else {
                if !yes && obj.tag() != Tag::Null {
                    return NodeStep::Fault(ExecError::ClassCast);
                }
                define(env, id, obj);
            }
            NodeStep::Next
        },
    }
}

/// Run a node over the values of its operands.
pub(crate) fn run_node(
    w: &mut World,
    env: &mut Env,
    owner: ClassId,
    id: ValId,
    op: Op,
    ty: Tag,
    vals: &[Val128],
) -> (r: NodeStep)
    requires
        old(w).wf(),
        old(env)@.wf(),
        id.offset < old(env)@.slots.len(),
    ensures
        final(w).wf(),
        keeps_shape(old(w)@, old(env)@, final(w)@, final(env)@),
        realizes(
            r,
            node_outcome(old(w)@, old(env)@, owner, id, op, ty, vals@),
            old(w)@,
            old(env)@,
            final(w)@,
            final(env)@,
        ),
{
    match op {
        Op::InvokeStatic(_) | Op::InvokeSpecial(_) | Op::InvokeVirtual(_) => run_invoke(
            w,
            Ghost(env@),
            owner,
            op,
            vals,
        ),
        Op::New { class_cp, escape } => run_new(w, env, owner, id, class_cp, escape),
        Op::GetField(cp) => run_get_field(w, env, owner, id, cp, vals),
        Op::PutField(cp) => run_put_field(w, env, owner, cp, vals),
        Op::LoadString(cp) => run_load_string(w, env, owner, id, cp),
        Op::GetStatic(cp) => run_static(w, env, owner, id, cp, false, vals),
        Op::PutStatic(cp) => run_static(w, env, owner, id, cp, true, vals),
        Op::InstanceOf(cp) => run_type(w, env, owner, id, cp, false, vals),
        Op::CheckCast(cp) => run_type(w, env, owner, id, cp, true, vals),
        _ => match eval(op, ty, vals) {
            Outcome::Value(v) => {
                define(env, id, v);
                NodeStep::Next
            },
            Outcome::Float(q) => NodeStep::Float(q),
            Outcome::Fault(e) => NodeStep::Fault(e),
        },
    }
}

} // verus!
