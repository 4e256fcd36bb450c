//! What running promises: objects, fields, statics, type tests, calls and class initialisation, stated
//! on what a program can observe of them.

use vstd::prelude::*;
use crate::classfile::constant_pool::{Constant, ConstantView, PoolView};
use crate::diff::EscapeState;
use crate::env::{lemma_landed_len, lemma_landing_is_invisible, EnvView, LogicalFrame};
use crate::heap::{lemma_free_is_idempotent, lemma_reclaiming_keeps_survivors, HeapView, ObjectView};
use crate::ids::{BlockId, ClassId, RefIndex, RegistryKey, SlotId, ValId};
use crate::interp::error::ExecError;
use crate::interp::machine::{
    args_written, body_at, chain_landed, frame_body, frame_left, frame_of, frame_slots,
    handles_freed, in_transit, node_outcome, slot_releases, string_constant, CallResult, Control,
    FrameView, InitStage, InitView, MachineView, NodeOutcome, TaskView,
};
use crate::ir::{BuiltView, Op, Terminator};
use crate::loader::laws::{is_text_at, lemma_first_signature};
use crate::loader::{
    class_from_builtin, class_named, descends_from, lemma_class_named, lemma_slot_of_below, registry_wf, resolved_class,
    resolved_field, resolved_method, resolved_virtual, BodyView, RegistryView, Resolved,
};
use crate::interp::program::builtins_registered;
use crate::native::{BuiltinView, NativeError};
use crate::value::{group_values, Tag, Val128};
use crate::world::WorldView;

verus! {

/// Whether an outcome lets the next node run in a world, with a value in the node's slot and all other
/// slots as they were.
pub open spec fn leaves(o: NodeOutcome, w: WorldView, env: EnvView, id: ValId, v: Val128) -> bool {
    o matches NodeOutcome::Next { world, env: after } && world == w && after.visible()
        == env.visible().update(id.offset as int, v)
}

proof fn lemma_written(env: EnvView, id: ValId, v: Val128)
    requires
        env.wf(),
        id.offset < env.slots.len(),
    ensures
        env.written(SlotId(id.offset), v).visible() == env.visible().update(id.offset as int, v),
{
    let after = env.written(SlotId(id.offset), v);
    lemma_landed_len(env.slots, env.pending);
    assert(after.pending.drop_last() =~= env.pending);
}

/// An instance test is 1 if the object's class is the one asked for or descends from it, and 0 if not;
/// and it is 1 exactly if a cast to that class succeeds, which leaves the reference as it is. A cast
/// that fails is a fault of its own.
pub proof fn lemma_type_tests_go_by_the_class(
    w: WorldView,
    env: EnvView,
    owner: ClassId,
    id: ValId,
    ty: Tag,
    cp: u16,
    v: Val128,
    of: ClassId,
    to: ClassId,
)
    requires
        env.wf(),
        id.offset < env.slots.len(),
        !(v.tag() is Null),
        w.heap.object(v.ref_index()) is Some,
        w.heap.object(v.ref_index())->0.class == of,
        resolved_class(w.classes, owner, cp) == Some(to),
    ensures
        ({
            let test = node_outcome(w, env, owner, id, Op::InstanceOf(cp), ty, seq![v]);
            let cast = node_outcome(w, env, owner, id, Op::CheckCast(cp), ty, seq![v]);
            if descends_from(w.classes, of, to) {
                &&& leaves(test, w, env, id, Val128::from_i32(1))
                &&& leaves(cast, w, env, id, v)
            } else {
                &&& leaves(test, w, env, id, Val128::from_i32(0))
                &&& cast == NodeOutcome::Fault(ExecError::ClassCast)
            }
        }),
{
    lemma_written(env, id, Val128::from_i32(1));
    lemma_written(env, id, Val128::from_i32(0));
    lemma_written(env, id, v);
}

/// `null` is an instance of nothing, and can be cast to anything. A class that cannot be found is a
/// fault, for anything else.
pub proof fn lemma_type_tests_of_null(
    w: WorldView,
    env: EnvView,
    owner: ClassId,
    id: ValId,
    ty: Tag,
    cp: u16,
    v: Val128,
)
    requires
        env.wf(),
        id.offset < env.slots.len(),
    ensures
        ({
            let test = node_outcome(w, env, owner, id, Op::InstanceOf(cp), ty, seq![v]);
            let cast = node_outcome(w, env, owner, id, Op::CheckCast(cp), ty, seq![v]);
            &&& v.tag() is Null ==> leaves(test, w, env, id, Val128::from_i32(0)) && leaves(
                cast,
                w,
                env,
                id,
                v,
            )
            &&& !(v.tag() is Null) && resolved_class(w.classes, owner, cp) is None ==> test
                == NodeOutcome::Fault(ExecError::Unresolved) && cast == NodeOutcome::Fault(
                ExecError::Unresolved,
            )
        }),
{
    lemma_written(env, id, Val128::from_i32(0));
    lemma_written(env, id, v);
}

/// An allocation of a class that is ready makes an object where there was none: of that class, with the
/// defaults of its fields, referenced by nobody but the slot that gets it, by a handle if the object
/// is exclusive. No other object changes. Without room it is a fault.
pub proof fn lemma_allocations_make_objects(
    w: WorldView,
    env: EnvView,
    owner: ClassId,
    id: ValId,
    ty: Tag,
    cp: u16,
    escape: EscapeState,
    class: ClassId,
)
    requires
        env.wf(),
        id.offset < env.slots.len(),
        w.heap.wf(),
        registry_wf(w.classes),
        resolved_class(w.classes, owner, cp) == Some(class),
        class.0 < w.classes.len(),
        w.classes[class.0 as int].init is Initialized || w.classes[class.0 as int].init is Initializing,
    ensures
        ({
            let o = node_outcome(w, env, owner, id, Op::New { class_cp: cp, escape }, ty, seq![]);
            &&& w.heap.live() >= w.heap.limit ==> o == NodeOutcome::Fault(ExecError::OutOfMemory)
            &&& w.heap.live() < w.heap.limit ==> (o matches NodeOutcome::Next { world, env: after }
                && {
                let v = after.visible()[id.offset as int];
                let r = v.ref_index();
                &&& after.visible() == env.visible().update(id.offset as int, v)
                &&& if escape is S1 {
                    v.tag() is Handle
                } else {
                    v.tag() is Ptr
                }
                &&& w.heap.object(r) is None
                &&& world.heap.object(r) == Some(
                    ObjectView {
                        class,
                        escape,
                        fields: w.classes[class.0 as int].field_defaults,
                        rc: 0,
                        text: None,
                    },
                )
                &&& forall|q: RefIndex|
                    q.position() != r.position() ==> #[trigger] world.heap.object(q)
                        == w.heap.object(q)
                &&& world.classes == w.classes
                &&& world.interned == w.interned
                &&& world.captured == w.captured
                &&& world.outgoing == w.outgoing
            })
        }),
{
    broadcast use group_values;

    let r = w.heap.next_ref();
    lemma_written(env, id, Val128::handle(r));
    lemma_written(env, id, Val128::ptr(r));
    lemma_landed_len(env.slots, env.pending);
    if w.heap.free.len() > 0 {
        assert(w.heap.free[w.heap.free.len() - 1] == w.heap.free.last());
    }
}

/// Fields hold what was written: after a write the field reads as the value written, every other field
/// of the object and every other object is as it was, and the slots are untouched.
pub proof fn lemma_fields_hold_what_was_written(
    w: WorldView,
    env: EnvView,
    owner: ClassId,
    id: ValId,
    ty: Tag,
    cp: u16,
    obj: Val128,
    v: Val128,
    slot: u16,
    class: ClassId,
)
    requires
        env.wf(),
        id.offset < env.slots.len(),
        !(obj.tag() is Null),
        resolved_field(w.classes, owner, cp) == Some(Resolved::InstanceField { class, slot }),
        w.heap.object(obj.ref_index()) is Some,
        slot < w.heap.object(obj.ref_index())->0.fields.len(),
    ensures
        ({
            let put = node_outcome(w, env, owner, id, Op::PutField(cp), ty, seq![obj, v]);
            let o = w.heap.object(obj.ref_index())->0;
            put matches NodeOutcome::Next { world, env: after } && {
                &&& after.visible() == env.visible()
                &&& leaves(
                    node_outcome(world, after, owner, id, Op::GetField(cp), ty, seq![obj]),
                    world,
                    after,
                    id,
                    v,
                )
                &&& world.heap.object(obj.ref_index()) == Some(
                    ObjectView { fields: o.fields.update(slot as int, v), ..o },
                )
                &&& forall|q: RefIndex|
                    q.position() != obj.ref_index().position() ==> #[trigger] world.heap.object(q)
                        == w.heap.object(q)
                &&& world.classes == w.classes
                &&& world.interned == w.interned
            }
        }),
{
    let put = node_outcome(w, env, owner, id, Op::PutField(cp), ty, seq![obj, v]);
    if let NodeOutcome::Next { world, env: after } = put {
        lemma_written(after, id, v);
    }
}

/// A field reads as what the object holds in the slot that its class has for it, and reading changes
/// nothing. Without an object, reading and writing are faults.
pub proof fn lemma_fields_are_read(
    w: WorldView,
    env: EnvView,
    owner: ClassId,
    id: ValId,
    ty: Tag,
    cp: u16,
    obj: Val128,
    v: Val128,
    slot: u16,
    class: ClassId,
)
    requires
        env.wf(),
        id.offset < env.slots.len(),
        resolved_field(w.classes, owner, cp) == Some(Resolved::InstanceField { class, slot }),
    ensures
        ({
            let get = node_outcome(w, env, owner, id, Op::GetField(cp), ty, seq![obj]);
            let put = node_outcome(w, env, owner, id, Op::PutField(cp), ty, seq![obj, v]);
            &&& obj.tag() is Null ==> get == NodeOutcome::Fault(ExecError::NullPointer) && put
                == NodeOutcome::Fault(ExecError::NullPointer)
            &&& !(obj.tag() is Null) ==> match w.heap.object(obj.ref_index()) {
                Some(o) => slot < o.fields.len() ==> leaves(
                    get,
                    w,
                    env,
                    id,
                    o.fields[slot as int],
                ),
                None => get == NodeOutcome::Fault(ExecError::BadValue),
            }
        }),
{
    if w.heap.object(obj.ref_index()) is Some {
        lemma_written(env, id, w.heap.object(obj.ref_index())->0.fields[slot as int]);
    }
}

/// Static fields hold what was written: after a write the field reads as the value written, no other
/// static field changes, nor any object, and the slots are untouched.
pub proof fn lemma_statics_hold_what_was_written(
    w: WorldView,
    env: EnvView,
    owner: ClassId,
    id: ValId,
    ty: Tag,
    cp: u16,
    v: Val128,
    slot: usize,
    class: ClassId,
)
    requires
        env.wf(),
        id.offset < env.slots.len(),
        registry_wf(w.classes),
        resolved_field(w.classes, owner, cp) == Some(Resolved::StaticField { class, slot }),
        class.0 < w.classes.len(),
        slot < w.classes[class.0 as int].statics.len(),
        w.classes[class.0 as int].init is Initialized || w.classes[class.0 as int].init is Initializing,
    ensures
        ({
            let get = node_outcome(w, env, owner, id, Op::GetStatic(cp), ty, seq![]);
            let put = node_outcome(w, env, owner, id, Op::PutStatic(cp), ty, seq![v]);
            &&& leaves(get, w, env, id, w.classes[class.0 as int].statics[slot as int])
            &&& put matches NodeOutcome::Next { world, env: after } && {
                &&& after.visible() == env.visible()
                &&& world.heap == w.heap
                &&& world.interned == w.interned
                &&& world.classes.len() == w.classes.len()
                &&& world.classes[class.0 as int].statics == w.classes[class.0 as int].statics.update(
                    slot as int,
                    v,
                )
                &&& forall|i: int|
                    0 <= i < w.classes.len() && i != class.0 ==> world.classes[i]
                        == #[trigger] w.classes[i]
            }
        }),
{
    lemma_written(env, id, w.classes[class.0 as int].statics[slot as int]);
}

/// A class is initialised before an object of it is made, a static field of it is used, or a static
/// method of it is called; one that has failed stays failed. Once it is initialised, or being
/// initialised, nothing stands in the way.
pub proof fn lemma_use_initialises(
    w: WorldView,
    env: EnvView,
    owner: ClassId,
    id: ValId,
    ty: Tag,
    cp: u16,
    escape: EscapeState,
    vals: Seq<Val128>,
    class: ClassId,
)
    requires
        class.0 < w.classes.len(),
        vals.len() > 0,
    ensures
        ({
            let made = node_outcome(w, env, owner, id, Op::New { class_cp: cp, escape }, ty, vals);
            let get = node_outcome(w, env, owner, id, Op::GetStatic(cp), ty, vals);
            let put = node_outcome(w, env, owner, id, Op::PutStatic(cp), ty, vals);
            let call = node_outcome(w, env, owner, id, Op::InvokeStatic(cp), ty, vals);
            let of_class = resolved_class(w.classes, owner, cp) == Some(class);
            let of_field = resolved_field(w.classes, owner, cp) matches Some(
                Resolved::StaticField { class: c, .. },
            ) && c == class;
            let of_method = resolved_method(w.classes, owner, cp) matches Some(
                Resolved::Method { class: c, .. },
            ) && c == class;
            let first = NodeOutcome::Init(class);
            let failed = NodeOutcome::Fault(ExecError::ClassInitFailed);
            &&& w.classes[class.0 as int].init is Loaded ==> {
                &&& of_class ==> made == first
                &&& of_field ==> get == first && put == first
                &&& of_method ==> call == first
            }
            &&& w.classes[class.0 as int].init is Failed ==> {
                &&& of_class ==> made == failed
                &&& of_field ==> get == failed && put == failed
                &&& of_method ==> call == failed
            }
        }),
{
}

/// Calls go where they should. A virtual call runs what the class of the receiver itself has in the slot
/// that the reference names, whatever the class named; a special call runs the method that the
/// reference names, and so does a static call of a class that is ready. A virtual call without a
/// receiver is a fault.
pub proof fn lemma_calls_go_to_their_methods(
    w: WorldView,
    env: EnvView,
    owner: ClassId,
    id: ValId,
    ty: Tag,
    cp: u16,
    vals: Seq<Val128>,
)
    requires
        vals.len() > 0,
        registry_wf(w.classes),
    ensures
        ({
            let o = w.heap.object(vals[0].ref_index());
            let call = node_outcome(w, env, owner, id, Op::InvokeVirtual(cp), ty, vals);
            &&& vals[0].tag() is Null ==> call == NodeOutcome::Fault(ExecError::NullPointer)
            &&& !(vals[0].tag() is Null) && o is Some && o->0.class.0 < w.classes.len() ==> (
            resolved_virtual(w.classes, owner, cp) matches Some(Resolved::VirtualSlot { slot }) ==> {
                let k = w.classes[o->0.class.0 as int];
                slot < k.vtable.len() ==> call == (NodeOutcome::Call {
                    class: k.vtable[slot as int].class,
                    method: k.vtable[slot as int].method,
                })
            })
        }),
        resolved_method(w.classes, owner, cp) matches Some(Resolved::Method { class, method }) ==> {
            let there = NodeOutcome::Call { class, method };
            &&& node_outcome(w, env, owner, id, Op::InvokeSpecial(cp), ty, vals) == there
            &&& class.0 < w.classes.len() && (w.classes[class.0 as int].init is Initialized
                || w.classes[class.0 as int].init is Initializing) ==> node_outcome(
                w,
                env,
                owner,
                id,
                Op::InvokeStatic(cp),
                ty,
                vals,
            ) == there
        },
        resolved_method(w.classes, owner, cp) == Some(Resolved::NoOp) ==> node_outcome(
            w,
            env,
            owner,
            id,
            Op::InvokeSpecial(cp),
            ty,
            vals,
        ) == (NodeOutcome::Next { world: w, env }),
{
}

/// A string constant has the text that the pool of the class spells out for it.
pub proof fn lemma_string_constants_have_their_texts(
    w: WorldView,
    owner: ClassId,
    cp: u16,
    pool: PoolView,
    at: u16,
    text: Seq<char>,
)
    requires
        owner.0 < w.classes.len(),
        w.classes[owner.0 as int].cf is Some,
        w.classes[owner.0 as int].cf->0.constant_pool == pool,
        cp < pool.len(),
        pool[cp as int] == ConstantView::Plain(Constant::String { string_index: at }),
        is_text_at(pool, at, text),
    ensures
        string_constant(w, owner, cp) == Some(text),
{
}

/// Superclasses are initialised first: an initialisation turns to the superclass while that is not
/// initialised, and fails with it; only then does it run the class's own `<clinit>`, if there is one,
/// without arguments; else the class is initialised at once.
pub proof fn lemma_superclasses_are_initialised_first(m: MachineView)
    requires
        m.wf(),
        m.control is Run,
        m.tasks.last() is Init,
        registry_wf(m.world.classes),
    ensures
        ({
            let t = m.tasks.last()->Init_0;
            let k = m.world.classes[t.class.0 as int];
            let below = MachineView { tasks: m.tasks.drop_last(), ..m };
            let next = TaskView::Init(InitView { stage: InitStage::Clinit, ..t });
            let after = m.stepped();
            let sup = k.super_id;
            if t.stage is Super && sup is Some && m.world.classes[(sup->0).0 as int].init is Loaded {
                // The superclass's turn.
                &&& after.tasks == below.tasks.push(next).push(
                    TaskView::Init(
                        InitView { class: sup->0, depth: t.depth, stage: InitStage::Super },
                    ),
                )
                &&& after.control is Run
                &&& after.world.classes[(sup->0).0 as int].init is Initializing
            } else if t.stage is Super && sup is Some
                && m.world.classes[(sup->0).0 as int].init is Failed {
                &&& after.tasks == below.tasks
                &&& after.control == Control::Ready(Err(ExecError::ClassInitFailed))
                &&& after.world.classes[t.class.0 as int].init is Failed
            } else if t.stage is Super {
                // Its own turn.
                &&& after.tasks == below.tasks.push(next)
                &&& after.control is Run
                &&& after.world == m.world
            } else {
                match k.method_index("<clinit>"@, "()V"@) {
                    None => {
                        &&& after.tasks == below.tasks
                        &&& after.control == Control::Ready(Ok(()))
                        &&& after.world.classes[t.class.0 as int].init is Initialized
                    },
                    Some(method) => after == below.with_task(
                        TaskView::Init(InitView { stage: InitStage::Running, ..t }),
                    ).called(t.class, method, Seq::empty(), t.depth + 1),
                }
            }
        }),
{
    let t = m.tasks.last()->Init_0;
    assert(t.class.0 < m.world.classes.len());
    let k = m.world.classes[t.class.0 as int];
    assert(k.wf(t.class.0 as int));
}

proof fn lemma_handles_freed_are_gone(h: HeapView, slots: Seq<Val128>, n: int, i: int)
    requires
        0 <= i < n <= slots.len(),
        slots[i].tag() is Handle,
    ensures
        handles_freed(h, slots, n).object(slots[i].ref_index()) matches Some(o) ==> !(o.escape is S1),
    decreases n,
{
    let h1 = handles_freed(h, slots, n - 1);
    let q = slots[n - 1].ref_index();
    let r = slots[i].ref_index();
    if i < n - 1 {
        lemma_handles_freed_are_gone(h, slots, n - 1, i);
        lemma_reclaiming_keeps_survivors(h1, seq![q], r);
    } else {
        lemma_free_is_idempotent(h1, q);
    }
}

/// When a frame is left, the exclusive objects that its slots have handles of are gone.
pub proof fn lemma_leaving_frees_exclusive_objects(
    env: EnvView,
    heap: HeapView,
    returned: Option<Val128>,
    i: int,
)
    requires
        env.wf(),
        0 <= i < env.slots.len(),
        env.visible()[i].tag() is Handle,
    ensures
        frame_left(env, heap, returned).object(env.visible()[i].ref_index()) matches Some(o) ==> !(
        o.escape is S1),
{
    let (env1, heap1) = chain_landed(env, heap);
    lemma_landed_len(env.slots, env.pending);
    let n = env1.slots.len() as int;
    let batch = in_transit(returned) + slot_releases(env1.slots, n);
    lemma_handles_freed_are_gone(heap1.batch_applied(batch), env1.slots, n, i);
}

/// What a stream is: a reference in a static field to a live object of the class of streams.
pub open spec fn is_stream(w: WorldView, sys: ClassId, ps: ClassId, field: Seq<char>) -> bool {
    w.classes[sys.0 as int].static_slot(field, "Ljava/io/PrintStream;"@) matches Some(slot) && {
        let v = w.classes[sys.0 as int].statics[slot as int];
        &&& v.tag() is Ptr
        &&& w.heap.object(v.ref_index()) matches Some(o) && o.class == ps && o.rc >= 1 && !(
        o.escape is S1)
    }
}

/// Installing a stream where there is none puts a new object there, which the field keeps; where there
/// is one nothing changes.
pub proof fn lemma_streams_are_installed(w: WorldView, sys: ClassId, ps: ClassId, field: Seq<char>)
    requires
        w.heap.wf(),
        sys.0 < w.classes.len(),
        ps.0 < w.classes.len(),
        registry_wf(w.classes),
        w.classes[sys.0 as int].static_slot(field, "Ljava/io/PrintStream;"@) is Some,
    ensures
        ({
            let slot = w.classes[sys.0 as int].static_slot(field, "Ljava/io/PrintStream;"@)->0;
            let there = w.classes[sys.0 as int].statics[slot as int].tag().is_ref();
            let (w1, r) = w.stream_installed(sys, ps, field);
            &&& there ==> w1 == w && r is Ok
            &&& !there && w.heap.live() < w.heap.limit ==> {
                &&& r is Ok
                &&& is_stream(w1, sys, ps, field)
                &&& w1.stream_installed(sys, ps, field) == (w1, Ok::<(), ExecError>(()))
            }
            &&& !there && w.heap.live() >= w.heap.limit ==> w1 == w && r == Err::<(), ExecError>(
                ExecError::OutOfMemory,
            )
        }),
{
    broadcast use group_values;

    let k = w.classes[sys.0 as int];
    assert(k.wf(sys.0 as int));
    lemma_slot_of_below(
        k.static_index,
        k.statics.len() as int,
        field,
        "Ljava/io/PrintStream;"@,
    );
    if w.heap.free.len() > 0 {
        assert(w.heap.free[w.heap.free.len() - 1] == w.heap.free.last());
    }
}

/// A call by name finds the first method of the class that has the name and the descriptor; there is
/// none exactly if no method of the class has them. Then nothing happens.
pub proof fn lemma_calls_by_name(
    m: MachineView,
    class: ClassId,
    name: Seq<char>,
    desc: Seq<char>,
    args: Seq<Val128>,
)
    requires
        class.0 < m.world.classes.len(),
        m.world.classes[class.0 as int].signatures.len() <= 0x1_0000,
    ensures
        ({
            let sigs = m.world.classes[class.0 as int].signatures;
            match m.method_named(class, name, desc) {
                Some(i) => {
                    &&& i < sigs.len()
                    &&& sigs[i as int] == Some((name, desc))
                    &&& forall|j: int| 0 <= j < i ==> (#[trigger] sigs[j]) != Some((name, desc))
                },
                None => {
                    &&& forall|j: int|
                        0 <= j < sigs.len() ==> (#[trigger] sigs[j]) != Some((name, desc))
                    &&& m.named_call(class, name, desc, args) == (m, Some(ExecError::NoMethod))
                },
            }
        }),
{
    lemma_first_signature(m.world.classes[class.0 as int].signatures, 0, name, desc);
}

/// A program starts with an empty heap of room for 2^24 objects, nothing interned and nothing printed,
/// and calls may be nested 256 deep.
pub proof fn lemma_programs_start_empty(classes: RegistryView)
    ensures
        ({
            let m = MachineView::at_rest(classes);
            &&& m.world.classes == classes
            &&& m.world.heap.live() == 0
            &&& m.world.heap.limit == 0x100_0000
            &&& m.world.interned.len() == 0
            &&& m.world.captured is None
            &&& m.world.outgoing.len() == 0
            &&& m.tasks.len() == 0
            &&& m.control == Control::Done(Ok(None))
            &&& m.max_depth == 256
        }),
{
}

/// A call that may begin does: a frame of the method is on top, at the method's entry, with each
/// argument in the slot for it, and it runs next. A call with another number of arguments than the
/// method takes, or of a method without a body, fails.
pub proof fn lemma_calls_begin(
    m: MachineView,
    class: ClassId,
    method: u16,
    b: BuiltView,
    args: Seq<Val128>,
    depth: nat,
    i: int,
)
    requires
        body_at(m.world.classes, class, method) == Some(BodyView::Bytecode(b)),
        b.wf(),
        depth <= m.max_depth,
        forall|j: int, k: int|
            0 <= j < k < b.arg_vals.len() ==> (#[trigger] b.arg_vals[j]).offset != (
            #[trigger] b.arg_vals[k]).offset,
    ensures
        ({
            let after = m.called(class, method, args, depth);
            &&& args.len() != b.arg_vals.len() ==> after == m.then_do(
                Control::Returned(Err(ExecError::BadArgs)),
            )
            &&& args.len() == b.arg_vals.len() ==> {
                &&& after.world == m.world
                &&& after.control is Run
                &&& after.tasks.len() == m.tasks.len() + 1
                &&& after.tasks.drop_last() == m.tasks
                &&& after.tasks.last() matches TaskView::Frame(f) && {
                    &&& f.owner == class && f.method == method && f.depth == depth
                    &&& f.block == b.method.entry && f.at is None && f.prev is None && f.steps == 0
                    &&& 0 <= i < args.len() ==> f.env.visible()[b.arg_vals[i].offset as int]
                        == args[i]
                }
            }
        }),
{
    if args.len() == b.arg_vals.len() {
        let f = frame_of(class, method, b, args, depth);
        assert(m.tasks.push(TaskView::Frame(f)).drop_last() =~= m.tasks);
        let env = EnvView::fresh(frame_slots(b), LogicalFrame(method as u32));
        assert forall|j: int| 0 <= j < b.arg_vals.len() implies (
        #[trigger] b.arg_vals[j]).offset < env.slots.len() by {
            assert(b.arg_vals[j].fits(b.n_slots as int));
        }
        if 0 <= i < args.len() {
            lemma_args_lie_in_slots(env, b.arg_vals, args, 0, i);
        }
    }
}

proof fn lemma_args_lie_in_slots(
    env: EnvView,
    slots: Seq<ValId>,
    args: Seq<Val128>,
    k: int,
    i: int,
)
    requires
        env.wf(),
        0 <= k <= slots.len(),
        0 <= i < slots.len(),
        args.len() == slots.len(),
        forall|j: int| 0 <= j < slots.len() ==> (#[trigger] slots[j]).offset < env.slots.len(),
        forall|j: int, l: int|
            0 <= j < l < slots.len() ==> (#[trigger] slots[j]).offset != (#[trigger] slots[l]).offset,
        i < k ==> env.visible()[slots[i].offset as int] == args[i],
    ensures
        args_written(env, slots, args, k).visible()[slots[i].offset as int] == args[i],
    decreases slots.len() - k,
{
    lemma_landed_len(env.slots, env.pending);
    if k < slots.len() {
        let after = env.written(SlotId(slots[k].offset), args[k]);
        lemma_written(env, slots[k], args[k]);
        if i < k {
            assert(slots[i].offset != slots[k].offset);
        }
        lemma_args_lie_in_slots(after, slots, args, k + 1, i);
    }
}

/// A frame that waits for a call goes on behind it with the value returned in the node's slot, if there
/// is one, and all other slots as they were. If the call has failed, the frame fails in the same way.
pub proof fn lemma_results_come_back(m: MachineView, f: FrameView, result: CallResult)
    requires
        m.control == Control::Returned(result),
        m.tasks.len() > 0,
        m.tasks.last() == TaskView::Frame(f),
        f.env.wf(),
        f.at is Some,
        ({
            let n = frame_body(m, f).method.blocks[f.block.0 as int].nodes[f.at->0 as int];
            n.id.offset < f.env.slots.len()
        }),
    ensures
        ({
            let n = frame_body(m, f).method.blocks[f.block.0 as int].nodes[f.at->0 as int];
            let after = m.stepped();
            match result {
                Ok(v) => {
                    &&& after.control is Run
                    &&& after.world == m.world
                    &&& after.tasks.len() == m.tasks.len()
                    &&& after.tasks.drop_last() == m.tasks.drop_last()
                    &&& after.tasks.last() matches TaskView::Frame(g) && {
                        &&& g.at == Some((f.at->0 + 1) as nat)
                        &&& g.block == f.block && g.owner == f.owner && g.method == f.method
                        &&& g.env.visible() == (match v {
                            Some(x) => f.env.visible().update(n.id.offset as int, x),
                            None => f.env.visible(),
                        })
                    }
                },
                Err(e) => after.control == Control::Returned(Err(e)) && after.tasks
                    == m.tasks.drop_last(),
            }
        }),
{
    let below = MachineView { tasks: m.tasks.drop_last(), ..m };
    let n = frame_body(m, f).method.blocks[f.block.0 as int].nodes[f.at->0 as int];
    assert(frame_body(below, f) == frame_body(m, f));
    if let Ok(v) = result {
        if let Some(x) = v {
            lemma_written(f.env, n.id, x);
        }
        let g = m.stepped().tasks.last();
        assert(below.tasks.push(g).drop_last() =~= below.tasks);
    }
}

/// A result without anyone waiting is the result of the call.
pub proof fn lemma_calls_end_with_their_results(m: MachineView, result: CallResult)
    requires
        m.control == Control::Returned(result),
        m.tasks.len() == 0,
    ensures
        m.stepped() == (MachineView { control: Control::Done(result), ..m }),
{
}

/// What native methods see of fields and classes: a field written reads as written, `null` has none,
/// and a live object has the name of its class.
pub proof fn lemma_natives_see_fields(w: WorldView, obj: Val128, slot: u16, v: Val128)
    ensures
        obj.tag() is Null ==> w.native_field(obj, slot) == Err::<Val128, NativeError>(
            NativeError::NullPointer,
        ) && w.native_field_set(obj, slot, v) == (w, Err::<(), NativeError>(NativeError::NullPointer)),
        !(obj.tag() is Null) ==> match w.heap.object(obj.ref_index()) {
            None => w.native_field(obj, slot) == Err::<Val128, NativeError>(NativeError::BadValue)
                && w.class_name_of_value(obj) is None,
            Some(o) => {
                let (w1, r) = w.native_field_set(obj, slot, v);
                &&& slot < o.fields.len() ==> {
                    &&& w.native_field(obj, slot) == Ok::<Val128, NativeError>(
                        o.fields[slot as int],
                    )
                    &&& r is Ok
                    &&& w1.native_field(obj, slot) == Ok::<Val128, NativeError>(v)
                    &&& w1.classes == w.classes
                    &&& w1.interned == w.interned
                }
                &&& slot >= o.fields.len() ==> w1 == w && r is Err && w.native_field(obj, slot) is Err
                &&& o.class.0 < w.classes.len() ==> w.class_name_of_value(obj) == Some(
                    w.classes[o.class.0 as int].name,
                )
            },
        },
{
}

/// Both streams are there when they have been installed.
pub proof fn lemma_both_streams_are_installed(w: WorldView, sys: ClassId, ps: ClassId)
    requires
        w.heap.wf(),
        registry_wf(w.classes),
        class_named(w.classes, "java/lang/System"@) == Some(sys),
        class_named(w.classes, "java/io/PrintStream"@) == Some(ps),
    ensures
        w.streams_installed().1 is Ok ==> {
            let after = w.streams_installed().0.classes[sys.0 as int];
            let (out, err) = (
                after.static_slot("out"@, "Ljava/io/PrintStream;"@),
                after.static_slot("err"@, "Ljava/io/PrintStream;"@),
            );
            &&& out is Some ==> after.statics[out->0 as int].tag().is_ref()
            &&& err is Some ==> after.statics[err->0 as int].tag().is_ref()
        },
{
    broadcast use group_values;

    lemma_class_named(w.classes, "java/lang/System"@);
    let k = w.classes[sys.0 as int];
    assert(k.wf(sys.0 as int));
    let t = "Ljava/io/PrintStream;"@;
    lemma_slot_of_below(k.static_index, k.statics.len() as int, "out"@, t);
    lemma_slot_of_below(k.static_index, k.statics.len() as int, "err"@, t);
}

/// A method may run a hundred million blocks before it is stopped.
pub proof fn lemma_runs_have_room(m: MachineView, f: FrameView)
    requires
        f.steps < 100_000_000,
        f.block.0 < frame_body(m, f).method.blocks.len(),
        f.prev is None,
    ensures
        m.entered(f).control == m.control,
        m.entered(f).tasks.len() == m.tasks.len() + 1,
        m.entered(f).tasks.last() matches TaskView::Frame(g) && g.at == Some(0nat) && g.steps
            == f.steps + 1 && g.env == f.env,
{
}

/// Blocks end as they say: a return leaves the frame with the value of its slot, or none; a jump goes
/// on in its block; a branch in the one if its condition is not 0, and in the other if it is. The chain
/// has landed when another block begins.
pub proof fn lemma_blocks_end_as_they_say(m: MachineView, f: FrameView)
    requires
        m.control is Run,
        f.env.wf(),
    ensures
        ({
            let after = m.terminated(f);
            let goes = |to: BlockId|
                {
                    &&& after.control is Run
                    &&& after.tasks.len() == m.tasks.len() + 1
                    &&& after.tasks.last() matches TaskView::Frame(g) && {
                        &&& g.block == to && g.prev == Some(f.block) && g.at is None
                        &&& g.env.visible() == f.env.visible()
                        &&& g.env.pending.len() == 0 && g.env.deltas.len() == 0
                        &&& g.owner == f.owner && g.method == f.method && g.depth == f.depth
                    }
                };
            match frame_body(m, f).method.blocks[f.block.0 as int].term {
                Terminator::Return(Some(v)) => after.control == Control::Returned(
                    Ok(Some(f.env.visible()[v.offset as int])),
                ) && after.tasks == m.tasks,
                Terminator::Return(None) => after.control == Control::Returned(Ok(None))
                    && after.tasks == m.tasks,
                Terminator::Throw(_) => after.control == Control::Returned(Err(ExecError::Thrown))
                    && after.tasks == m.tasks,
                Terminator::Goto(to) => goes(to),
                Terminator::CondBranch { cond, taken, not_taken } => if f.env.visible()[
                    cond.offset as int
                ].as_i32() == 0 {
                    goes(not_taken)
                } else {
                    goes(taken)
                },
            }
        }),
{
    lemma_landing_is_invisible(EnvView { deltas: Seq::empty(), ..f.env });
}

/// A node that has run makes way for the next in its block; a fault leaves the frame with it; and while
/// a class is initialised the node waits to run again.
pub proof fn lemma_nodes_make_way(m: MachineView, f: FrameView, i: nat, vals: Seq<Val128>)
    requires
        m.control is Run,
    ensures
        forall|world: WorldView, env: EnvView| #[trigger]
            m.node_done(f, i, vals, NodeOutcome::Next { world, env }) == (MachineView {
                world,
                tasks: m.tasks.push(TaskView::Frame(FrameView { env, at: Some(i + 1), ..f })),
                ..m
            }),
        forall|e: ExecError|
            {
                let after = #[trigger] m.node_done(f, i, vals, NodeOutcome::Fault(e));
                after.control == Control::Returned(Err(e)) && after.tasks == m.tasks
            },
        forall|c: ClassId|
            {
                let after = #[trigger] m.node_done(f, i, vals, NodeOutcome::Init(c));
                &&& after.control is Run
                &&& after.tasks == m.tasks.push(TaskView::Frame(f)).push(
                    TaskView::Init(InitView { class: c, depth: f.depth, stage: InitStage::Super }),
                )
            },
{
}

/// The builtin classes are registered in their order, behind what was there.
pub proof fn lemma_builtins_come_in_order(r: RegistryView, bs: Seq<BuiltinView>, k: int, i: int)
    requires
        0 <= k <= bs.len(),
        0 <= i < bs.len() - k,
    ensures
        ({
            let r1 = builtins_registered(r, bs, k);
            &&& r1.len() == r.len() + bs.len() - k
            &&& r.is_prefix_of(r1)
            &&& r1[r.len() + i].name == bs[k + i].name
            &&& r1[r.len() + i].cf is None
        }),
    decreases bs.len() - k,
{
    let next = r.push(class_from_builtin(r, bs[k]));
    if k + 1 < bs.len() {
        lemma_builtins_come_in_order(
            next,
            bs,
            k + 1,
            if i > 0 {
                i - 1
            } else {
                0
            },
        );
        let r1 = builtins_registered(r, bs, k);
        assert(r1[r.len() as int] == next[r.len() as int]);
        assert forall|j: int| 0 <= j < r.len() implies r[j] == r1[j] by {
            assert(next[j] == r1[j]);
        }
    } else {
        assert(builtins_registered(next, bs, k + 1) == next);
    }
}

} // verus!
