//! What instructions on objects and calls become: one node each, over the operands that the
//! instruction takes, and what kinds of effects nodes have.

use vstd::prelude::*;
use vstd::utf8::encode_utf8;
use crate::classfile::constant_pool::PoolView;
use crate::diff::EscapeState;
use crate::loader::laws::{lemma_references_name, refers_to};
use crate::ir::{Effect, Op};
use crate::ssa::lower::{
    callee_types, descriptor_tag, field_tag, lowered, result_tag, ContextView, LowerView,
};
use crate::value::Tag;
use crate::verify::insn::Insn;
use crate::verify::laws::Described;
use crate::verify::vtype::{method_types, VType};

verus! {

/// The tag of values of a type, in a node.
pub open spec fn tag_for(t: VType) -> Tag {
    match t {
        VType::Long => Tag::I64,
        VType::Float => Tag::F32,
        VType::Double => Tag::F64,
        VType::Int => Tag::I32,
        _ => Tag::Ptr,
    }
}

/// Field descriptors have the tag of the type that they denote.
pub proof fn lemma_descriptors_have_tags(b: Seq<u8>, d: Described)
    requires
        d.stands_at(b, 0),
    ensures
        descriptor_tag(b) == Some(tag_for(d.denotes())),
{
    if d.dims > 0 {
        assert(b[0] == 0x5B);
    }
}

/// Results have the tag of their type.
pub proof fn lemma_results_have_tags(t: VType)
    requires
        t is Int || t is Long || t is Float || t is Double || t is Reference,
    ensures
        result_tag(Some(t)) == Some(tag_for(t)),
        result_tag(None) is Some,
{
}

/// What an instruction on objects becomes: the operation, how many operands it takes from the stack,
/// the tag of its value, if it leaves one, and its effect.
pub struct ObjectNode {
    pub op: Op,
    pub takes: int,
    pub gives: Option<Tag>,
    pub effect: Effect,
}

/// What an instruction becomes, where the pool has what it names.
pub open spec fn object_node(ins: Insn, ctx: ContextView) -> Option<ObjectNode> {
    let cp = ins.arg as u16;
    if ins.op == 0xb2 && field_tag(ctx.pool, cp) is Some {
        // getstatic
        Some(
            ObjectNode {
                op: Op::GetStatic(cp),
                takes: 0,
                gives: field_tag(ctx.pool, cp),
                effect: Effect::Extern,
            },
        )
    } else if ins.op == 0xb3 {
        // putstatic
        Some(ObjectNode { op: Op::PutStatic(cp), takes: 1, gives: None, effect: Effect::Extern })
    } else if ins.op == 0xb4 && field_tag(ctx.pool, cp) is Some {
        // getfield
        Some(
            ObjectNode {
                op: Op::GetField(cp),
                takes: 1,
                gives: field_tag(ctx.pool, cp),
                effect: Effect::ReadHeap,
            },
        )
    } else if ins.op == 0xb5 {
        // putfield
        Some(ObjectNode { op: Op::PutField(cp), takes: 2, gives: None, effect: Effect::WriteHeap })
    } else if 0xb6 <= ins.op <= 0xb8 {
        // invokevirtual, invokespecial, invokestatic: the arguments, behind the receiver if any
        match callee_types(ctx.pool, cp) {
            None => None,
            Some((args, ret)) => match result_tag(ret) {
                None => None,
                Some(tag) => Some(
                    ObjectNode {
                        op: if ins.op == 0xb6 {
                            Op::InvokeVirtual(cp)
                        } else if ins.op == 0xb7 {
                            Op::InvokeSpecial(cp)
                        } else {
                            Op::InvokeStatic(cp)
                        },
                        takes: if ins.op == 0xb8 {
                            args.len() as int
                        } else {
                            args.len() as int + 1
                        },
                        gives: match ret {
                            Some(_) => Some(tag),
                            None => None,
                        },
                        effect: Effect::Extern,
                    },
                ),
            },
        }
    } else if ins.op == 0xbb {
        // new
        Some(
            ObjectNode {
                op: Op::New { class_cp: cp, escape: EscapeState::S1 },
                takes: 0,
                gives: Some(Tag::Handle),
                effect: Effect::WriteHeap,
            },
        )
    } else if ins.op == 0xc0 {
        // checkcast
        Some(
            ObjectNode {
                op: Op::CheckCast(cp),
                takes: 1,
                gives: Some(Tag::Ptr),
                effect: Effect::MayThrow { caught: false },
            },
        )
    } else if ins.op == 0xc1 {
        // instanceof
        Some(
            ObjectNode {
                op: Op::InstanceOf(cp),
                takes: 1,
                gives: Some(Tag::I32),
                effect: Effect::ReadHeap,
            },
        )
    } else {
        None
    }
}

/// Instructions on objects become one node each: it takes its operands from the stack, in their order,
/// and leaves its value there, if it has one.
pub proof fn lemma_object_instructions_become_nodes(st: LowerView, ctx: ContextView, ins: Insn)
    requires
        object_node(ins, ctx) is Some,
        st.ssa.fresh() is Ok,
    ensures
        ({
            let want = object_node(ins, ctx)->0;
            let id = (st.ssa.fresh()->Ok_0).0;
            let below = st.stack.take(st.stack.len() - want.takes);
            let r = lowered(st, ctx, ins);
            &&& r is Ok <==> want.takes <= st.stack.len()
            &&& r matches Ok(l) ==> {
                &&& l.nodes.len() == st.nodes.len() + 1
                &&& l.nodes.drop_last() == st.nodes
                &&& l.nodes.last().id == id
                &&& l.nodes.last().op == want.op
                &&& l.nodes.last().ins == st.stack.skip(st.stack.len() - want.takes)
                &&& l.nodes.last().effect == want.effect
                &&& want.gives matches Some(tag) ==> l.nodes.last().ty == tag
                &&& l.stack == (if want.gives is Some {
                    below.push(id)
                } else {
                    below
                })
                &&& l.term == st.term
            }
        }),
{
    let want = object_node(ins, ctx)->0;
    if let Ok(l) = lowered(st, ctx, ins) {
        assert(l.nodes.drop_last() =~= st.nodes);
    }
}

/// Instructions on values become nodes without effects, except that division may fail. So the chain of
/// a frame lands only before a call or an access to a static field.
pub proof fn lemma_value_instructions_have_no_effects(st: LowerView, ctx: ContextView, ins: Insn, i: int)
    requires
        ins.op < 0xb2 || ins.op > 0xc1,
        !(0x12 <= ins.op <= 0x14),
        lowered(st, ctx, ins) is Ok,
        st.nodes.len() <= i < lowered(st, ctx, ins)->Ok_0.nodes.len(),
    ensures
        lowered(st, ctx, ins)->Ok_0.nodes[i].effect == (if ins.op == 0x6c || ins.op == 0x70 {
            Effect::MayThrow { caught: false }
        } else {
            Effect::Pure
        }),
{
}

/// The descriptor of a member is the one that the reference to it names.
pub proof fn lemma_references_have_descriptors(
    pool: PoolView,
    index: u16,
    class: Seq<char>,
    name: Seq<char>,
    desc: Seq<char>,
)
    requires
        refers_to(pool, index, class, name, desc),
    ensures
        field_tag(pool, index) == descriptor_tag(encode_utf8(desc)),
        callee_types(pool, index) == method_types(desc),
{
    lemma_references_name(pool, index, class, name, desc);
}

} // verus!
