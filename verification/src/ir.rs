//! Intermediate-representation datatypes: the SSA data-flow form that the builder produces and the
//! interpreter executes. `Node::ins` is the dependency set that drives issue order.

use vstd::prelude::*;
use portable_atomic::AtomicU32;
use crate::diff::EscapeState;
use crate::ids::{BlockId, ClassId, SlotId, ValId};
use crate::inline::{Operands, PhiSources};
use crate::value::{Tag, Val128};

verus! {

/// Side-effect classification driving speculation eligibility.
#[derive(Clone, Copy, PartialEq, Eq, Debug, Structural)]
pub enum Effect {
    /// Free to reorder / hoist / speculate.
    Pure,
    /// Constrained by store dependencies.
    ReadHeap,
    /// A barrier point.
    WriteHeap,
    /// Fenced: lands in program order.
    Extern,
    /// Can throw. `caught` installs an implicit control edge to a local handler.
    MayThrow { caught: bool },
}

/// Integer comparison: the condition of a branch.
#[derive(Clone, Copy, PartialEq, Eq, Debug, Structural)]
pub enum IntCond {
    Eq,
    Ne,
    Lt,
    Ge,
    Gt,
    Le,
}

impl IntCond {
    /// Whether the condition holds between two numbers.
    pub open spec fn holds(self, a: int, b: int) -> bool {
        match self {
            IntCond::Eq => a == b,
            IntCond::Ne => a != b,
            IntCond::Lt => a < b,
            IntCond::Ge => a >= b,
            IntCond::Gt => a > b,
            IntCond::Le => a <= b,
        }
    }

    /// Whether the condition holds between two ints.
    pub fn test(self, a: i32, b: i32) -> (r: bool)
        ensures
            r == self.holds(a as int, b as int),
    {
        match self {
            IntCond::Eq => a == b,
            IntCond::Ne => a != b,
            IntCond::Lt => a < b,
            IntCond::Ge => a >= b,
            IntCond::Gt => a > b,
            IntCond::Le => a <= b,
        }
    }
}

/// SSA operation kind, typed by [`Node::ty`].
#[derive(Clone, Copy, PartialEq, Eq, Debug, Structural)]
pub enum Op {
    /// Materialise a constant.
    Const(Val128),
    Add,
    Sub,
    Mul,
    /// Integer div/rem trap on a zero divisor; float div/rem never trap.
    Div,
    Rem,
    Neg,
    /// Numeric conversion from the input's type to the node's.
    Convert,
    /// Three-way compare producing int -1/0/1. `nan_greater` selects the result on NaN.
    Cmp { nan_greater: bool },
    /// `(input <cond> 0) ? 1 : 0`, as int.
    TestZero(IntCond),
    /// `(reference is null) == expect_null ? 1 : 0`, as int.
    TestNull { expect_null: bool },
    /// `(a is the same object as b) == expect_same ? 1 : 0`, as int: reference identity.
    RefEq { expect_same: bool },
    /// `(a <cond> b) ? 1 : 0`, as int.
    ICmp(IntCond),
    /// Bitwise AND (int or long).
    And,
    /// Static call; the operands are the arguments in order.
    InvokeStatic(u16),
    /// Constructor or other non-virtual instance call; the operands are `[this, args...]`.
    InvokeSpecial(u16),
    /// Call dispatched on the runtime class of the first operand.
    InvokeVirtual(u16),
    /// Allocate an instance of the class named by the constant-pool entry.
    New { class_cp: u16, escape: EscapeState },
    /// Read an instance field of the first operand.
    GetField(u16),
    /// Write the second operand into an instance field of the first.
    PutField(u16),
    /// Materialise the interned string for a `String` constant.
    LoadString(u16),
    /// Read a static field.
    GetStatic(u16),
    /// Write the first operand to a static field.
    PutStatic(u16),
    /// 1 if the first operand is a non-null instance of the named class, else 0.
    InstanceOf(u16),
    /// Passes the first operand through if it is null or an instance of the named class.
    CheckCast(u16),
}

/// An SSA node: a single value definition.
pub struct Node {
    /// The SSA value this node defines.
    pub id: ValId,
    pub op: Op,
    /// Def-use edges = dependencies.
    pub ins: Operands,
    /// Static type fixed by verification.
    pub ty: Tag,
    pub effect: Effect,
}

/// What a node holds.
#[verifier::ext_equal]
pub struct NodeView {
    pub id: ValId,
    pub op: Op,
    pub ins: Seq<ValId>,
    pub ty: Tag,
    pub effect: Effect,
}

impl View for Node {
    type V = NodeView;

    open spec fn view(&self) -> NodeView {
        NodeView { id: self.id, op: self.op, ins: self.ins@, ty: self.ty, effect: self.effect }
    }
}

/// What a list of nodes holds.
pub open spec fn node_views(s: Seq<Node>) -> Seq<NodeView> {
    Seq::new(s.len(), |i: int| s[i]@)
}

/// A control-flow merge slot.
pub struct Phi {
    pub slot: ValId,
    pub sources: PhiSources,
}

/// What a φ holds.
#[verifier::ext_equal]
pub struct PhiView {
    pub slot: ValId,
    pub sources: Seq<(BlockId, ValId)>,
}

impl View for Phi {
    type V = PhiView;

    open spec fn view(&self) -> PhiView {
        PhiView { slot: self.slot, sources: self.sources@ }
    }
}

/// What a list of φ holds.
pub open spec fn phi_views(s: Seq<Phi>) -> Seq<PhiView> {
    Seq::new(s.len(), |i: int| s[i]@)
}

/// Basic-block terminator.
#[derive(Clone, Copy, PartialEq, Eq, Debug, Structural)]
pub enum Terminator {
    /// Return, optionally with a value.
    Return(Option<ValId>),
    /// Unconditional branch.
    Goto(BlockId),
    /// Branch on an int condition value being non-zero.
    CondBranch { cond: ValId, taken: BlockId, not_taken: BlockId },
    /// Throw an exception object.
    Throw(ValId),
}

/// A basic block.
pub struct Block {
    pub id: BlockId,
    pub phis: Vec<Phi>,
    pub nodes: Vec<Node>,
    pub term: Terminator,
}

/// What a block holds.
#[verifier::ext_equal]
pub struct BlockView {
    pub id: BlockId,
    pub phis: Seq<PhiView>,
    pub nodes: Seq<NodeView>,
    pub term: Terminator,
}

impl View for Block {
    type V = BlockView;

    open spec fn view(&self) -> BlockView {
        BlockView {
            id: self.id,
            phis: phi_views(self.phis@),
            nodes: node_views(self.nodes@),
            term: self.term,
        }
    }
}

/// What a list of blocks holds.
pub open spec fn block_views(s: Seq<Block>) -> Seq<BlockView> {
    Seq::new(s.len(), |i: int| s[i]@)
}

/// Exception-handler coverage over a range of blocks.
#[derive(Clone, Copy, PartialEq, Eq, Debug, Structural)]
pub struct ExcRegion {
    pub start: BlockId,
    pub end: BlockId,
    pub handler: BlockId,
    /// `None` = catch-all.
    pub catch_type: Option<ClassId>,
}

/// A method body in SSA form.
pub struct Method {
    pub blocks: Vec<Block>,
    pub entry: BlockId,
    pub max_locals: u16,
    pub exc_table: Vec<ExcRegion>,
}

/// What a method holds.
#[verifier::ext_equal]
pub struct MethodView {
    pub blocks: Seq<BlockView>,
    pub entry: BlockId,
    pub max_locals: u16,
    pub exc_table: Seq<ExcRegion>,
}

impl View for Method {
    type V = MethodView;

    open spec fn view(&self) -> MethodView {
        MethodView {
            blocks: block_views(self.blocks@),
            entry: self.entry,
            max_locals: self.max_locals,
            exc_table: self.exc_table@,
        }
    }
}

/// An SSA method plus what the interpreter needs to run it.
pub struct BuiltMethod {
    pub method: Method,
    /// SSA values bound to the incoming arguments, in order (`this` first for instance methods).
    pub arg_vals: Vec<ValId>,
    /// Number of environment slots required.
    pub n_slots: usize,
}

/// What a built method holds.
#[verifier::ext_equal]
pub struct BuiltView {
    pub method: MethodView,
    pub arg_vals: Seq<ValId>,
    pub n_slots: nat,
}

impl View for BuiltMethod {
    type V = BuiltView;

    open spec fn view(&self) -> BuiltView {
        BuiltView {
            method: self.method@,
            arg_vals: self.arg_vals@,
            n_slots: self.n_slots as nat,
        }
    }
}

impl ValId {
    /// Whether the value has one of `n` slots of the outermost scope.
    pub open spec fn fits(self, n: int) -> bool {
        self.offset < n && self.scope_level == 0
    }
}

impl NodeView {
    /// Every value of the node has one of `n` slots.
    pub open spec fn fits(self, n: int) -> bool {
        &&& self.id.fits(n)
        &&& forall|i: int| 0 <= i < self.ins.len() ==> (#[trigger] self.ins[i]).fits(n)
    }
}

impl PhiView {
    /// Every value of the φ has one of `n` slots.
    pub open spec fn fits(self, n: int) -> bool {
        &&& self.slot.fits(n)
        &&& forall|i: int| 0 <= i < self.sources.len() ==> (#[trigger] self.sources[i]).1.fits(n)
    }
}

impl Terminator {
    /// Every value of the terminator has one of `n` slots, and every target is one of `blocks`
    /// blocks.
    pub open spec fn fits(self, n: int, blocks: int) -> bool {
        match self {
            Terminator::Return(Some(v)) => v.fits(n),
            Terminator::Return(None) => true,
            Terminator::Goto(b) => b.0 < blocks,
            Terminator::CondBranch { cond, taken, not_taken } => cond.fits(n) && taken.0 < blocks
                && not_taken.0 < blocks,
            Terminator::Throw(v) => v.fits(n),
        }
    }
}

impl BlockView {
    /// Every value of the block has one of `n` slots, and every target is one of `blocks` blocks.
    pub open spec fn fits(self, n: int, blocks: int) -> bool {
        &&& forall|i: int| 0 <= i < self.phis.len() ==> (#[trigger] self.phis[i]).fits(n)
        &&& forall|i: int| 0 <= i < self.nodes.len() ==> (#[trigger] self.nodes[i]).fits(n)
        &&& self.term.fits(n, blocks)
    }
}

impl BuiltView {
    /// Every value has a slot, every control transfer a block, and slots are numbered in 16 bits.
    pub open spec fn wf(self) -> bool {
        &&& self.n_slots <= 0xFFFF
        &&& self.method.entry.0 < self.method.blocks.len()
        &&& forall|i: int|
            0 <= i < self.arg_vals.len() ==> (#[trigger] self.arg_vals[i]).fits(
                self.n_slots as int,
            )
        &&& forall|i: int|
            0 <= i < self.method.blocks.len() ==> (#[trigger] self.method.blocks[i]).fits(
                self.n_slots as int,
                self.method.blocks.len() as int,
            )
    }
}

/// Interpret this op (no acceleration installed).
pub const ACCEL_INTERPRET: u32 = 0;

/// Compilation is in progress for this op's fragment.
pub const ACCEL_JIT_PENDING: u32 = 1;

/// First value denoting a compiled-blob id.
pub const ACCEL_BLOB_BASE: u32 = 2;

/// `portable_atomic::AtomicU32`: a shared 32-bit cell, opaque here.
#[verifier::external_type_specification]
#[verifier::external_body]
pub struct ExAtomicU32(AtomicU32);

/// The value a 32-bit cell was created with.
pub uninterp spec fn cell32_start(a: AtomicU32) -> u32;

/// `AtomicU32::new`: a cell that starts with `v`.
#[verifier::external_body]
pub(crate) fn new_cell32(v: u32) -> (a: AtomicU32)
    ensures
        cell32_start(a) == v,
{
    AtomicU32::new(v)
}

/// A linear op-stream instruction. `accel` is the single-word fragment-replacement seam.
pub struct L2Op {
    pub opid: u16,
    pub dst: SlotId,
    pub src: [SlotId; 2],
    pub accel: AtomicU32,
}

impl L2Op {
    /// A fresh interpreted op (no acceleration).
    pub fn new(opid: u16, dst: SlotId, src: [SlotId; 2]) -> (op: L2Op)
        ensures
            op.opid == opid,
            op.dst == dst,
            op.src == src,
            cell32_start(op.accel) == ACCEL_INTERPRET,
    {
        L2Op { opid, dst, src, accel: new_cell32(ACCEL_INTERPRET) }
    }
}

/// The runtime linear instruction stream.
pub struct OpStream {
    pub ops: Vec<L2Op>,
}

} // verus!
