//! The class registry, field/method layout, symbolic resolution, and the initialisation state.
//!
//! A class's runtime identity is its index in this registry. Resolution is symbolic and lazy: the
//! IR keeps constant-pool indices, and the interpreter resolves them here at first use. Virtual
//! dispatch goes through a per-class table that a subclass extends and overrides in place.

use vstd::prelude::*;

pub mod laws;

use vstd::utf8::encode_utf8;
use crate::classfile::constant_pool::{
    pool_class_name, pool_utf8, Constant, ConstantPool, ConstantView, PoolView,
};
use crate::classfile::{class_of, parse, ClassFile, ClassFileView, MemberView};
use crate::env::copy_values;
use crate::ids::ClassId;
use crate::ir::{BuiltMethod, BuiltView};
use crate::native::{BuiltinClass, BuiltinView, NativeFn};
use crate::ssa::{build, built};
use crate::text::same_text;
use crate::value::{group_values, no_refs, Val128};
use crate::verify::{static_flag, verified, verify_method};

verus! {

/// Failures while loading or linking a class.
#[derive(Debug, Clone, PartialEq, Eq)]
pub enum LoaderError {
    /// A class file could not be read.
    Io(String),
    /// A class file is malformed.
    Malformed(String),
    /// A class was not found on the classpath.
    NotFound(String),
    /// A superclass is missing or part of a cycle.
    CircularHierarchy(String),
}

/// What a loader error says.
pub enum LoaderErrorView {
    Io(Seq<char>),
    Malformed(Seq<char>),
    NotFound(Seq<char>),
    CircularHierarchy(Seq<char>),
}

impl View for LoaderError {
    type V = LoaderErrorView;

    open spec fn view(&self) -> LoaderErrorView {
        match *self {
            LoaderError::Io(s) => LoaderErrorView::Io(s@),
            LoaderError::Malformed(s) => LoaderErrorView::Malformed(s@),
            LoaderError::NotFound(s) => LoaderErrorView::NotFound(s@),
            LoaderError::CircularHierarchy(s) => LoaderErrorView::CircularHierarchy(s@),
        }
    }
}

/// Class initialisation state.
#[derive(Debug, Clone, Copy, PartialEq, Eq, Structural)]
pub enum InitState {
    /// Verified and linked, `<clinit>` not run.
    Loaded,
    /// A virtual thread is running `<clinit>`.
    Initializing(u32),
    Initialized,
    /// `<clinit>` failed.
    Failed,
}

/// One virtual-dispatch table entry: the class that defines the most-derived override, and the
/// index of the method within it.
#[derive(Debug, Clone, Copy, PartialEq, Eq, Structural)]
pub struct VEntry {
    pub class: ClassId,
    pub method: u16,
}

/// How a method runs.
pub enum MethodBody {
    /// Verified and built bytecode.
    Bytecode(BuiltMethod),
    /// A builtin method.
    Native(NativeFn),
    /// No body, or one that could not be verified or built.
    Absent,
}

/// How a method runs.
pub enum BodyView {
    Bytecode(BuiltView),
    Native(NativeFn),
    Absent,
}

impl View for MethodBody {
    type V = BodyView;

    open spec fn view(&self) -> BodyView {
        match *self {
            MethodBody::Bytecode(b) => BodyView::Bytecode(b@),
            MethodBody::Native(f) => BodyView::Native(f),
            MethodBody::Absent => BodyView::Absent,
        }
    }
}

/// What a list of bodies holds.
pub open spec fn body_views(s: Seq<MethodBody>) -> Seq<BodyView> {
    Seq::new(s.len(), |i: int| s[i]@)
}

/// What a symbolic reference resolves to.
#[derive(Debug, Clone, Copy, PartialEq, Eq, Structural)]
pub enum Resolved {
    /// A slot of the receiver's dispatch table.
    VirtualSlot { slot: usize },
    /// A method of a class.
    Method { class: ClassId, method: u16 },
    /// The constructor of a root class that is not registered: nothing to run.
    NoOp,
    /// A slot of an instance of the class.
    InstanceField { class: ClassId, slot: u16 },
    /// A slot of a class's statics.
    StaticField { class: ClassId, slot: usize },
}

/// A member's name and descriptor, and its slot.
pub type MemberEntry = (Seq<char>, Seq<char>, usize);

/// A table from `(name, descriptor)` to slots. The last entry for a key counts.
pub struct MemberTable {
    entries: Vec<(String, String, usize)>,
}

impl View for MemberTable {
    type V = Seq<MemberEntry>;

    closed spec fn view(&self) -> Seq<MemberEntry> {
        Seq::new(
            self.entries@.len(),
            |i: int| (self.entries@[i].0@, self.entries@[i].1@, self.entries@[i].2),
        )
    }
}

/// The slot of a member: that of its last entry.
pub open spec fn slot_of(table: Seq<MemberEntry>, name: Seq<char>, desc: Seq<char>) -> Option<
    usize,
>
    decreases table.len(),
{
    if table.len() == 0 {
        None
    } else if table.last().0 == name && table.last().1 == desc {
        Some(table.last().2)
    } else {
        slot_of(table.drop_last(), name, desc)
    }
}

impl MemberTable {
    fn new() -> (t: MemberTable)
        ensures
            t@ == Seq::<MemberEntry>::empty(),
    {
        let t = MemberTable { entries: Vec::new() };
        assert(t@ =~= Seq::<MemberEntry>::empty());
        t
    }

    /// The slot of a member.
    fn get(&self, name: &str, desc: &str) -> (r: Option<usize>)
        ensures
            r == slot_of(self@, name@, desc@),
    {
        let mut i: usize = self.entries.len();
        assert(self@.take(i as int) =~= self@);
        while i > 0
            invariant
                i <= self.entries@.len(),
                slot_of(self@, name@, desc@) == slot_of(self@.take(i as int), name@, desc@),
            decreases i,
        {
            i -= 1;
            proof {
                assert(self@.take(i + 1).drop_last() =~= self@.take(i as int));
                assert(self@.take(i + 1).last() == self@[i as int]);
            }
            let e = &self.entries[i];
            if same_text(e.0.as_str(), name) && same_text(e.1.as_str(), desc) {
                return Some(e.2);
            }
        }
        None
    }

    fn put(&mut self, name: &str, desc: &str, slot: usize)
        ensures
            final(self)@ == old(self)@.push((name@, desc@, slot)),
    {
        self.entries.push((name.to_string(), desc.to_string(), slot));
        assert(self@ =~= old(self)@.push((name@, desc@, slot)));
    }

    /// The same entries again.
    fn copy(&self) -> (t: MemberTable)
        ensures
            t@ == self@,
    {
        let mut t = MemberTable::new();
        let mut i: usize = 0;
        assert(self@.take(0) =~= Seq::<MemberEntry>::empty());
        while i < self.entries.len()
            invariant
                i <= self.entries@.len(),
                t@ == self@.take(i as int),
            decreases self.entries@.len() - i,
        {
            let e = &self.entries[i];
            t.put(e.0.as_str(), e.1.as_str(), e.2);
            i += 1;
            assert(self@.take(i as int) =~= self@.take(i - 1).push(self@[i - 1]));
        }
        assert(self@.take(self@.len() as int) =~= self@);
        t
    }
}

/// A method's name and descriptor, where they resolve.
pub type Signature = Option<(Seq<char>, Seq<char>)>;

/// What a list of signatures holds.
pub open spec fn signature_views(s: Seq<Option<(String, String)>>) -> Seq<Signature> {
    Seq::new(
        s.len(),
        |i: int|
            match s[i] {
                Some(k) => Some((k.0@, k.1@)),
                None => None,
            },
    )
}

/// A loaded, linked class.
pub struct LoadedClass {
    pub name: String,
    /// The class file, unless the class is builtin.
    pub cf: Option<ClassFile>,
    pub super_id: Option<ClassId>,
    /// Methods, indexed as declared.
    pub methods: Vec<MethodBody>,
    /// Where this class's own instance fields begin; everything below is inherited.
    pub field_base: u16,
    /// Type-appropriate zero values for a whole instance, inherited fields first.
    pub field_defaults: Vec<Val128>,
    /// Static field storage.
    pub statics: Vec<Val128>,
    /// Virtual dispatch table: inherited entries first, overrides replaced in place.
    pub vtable: Vec<VEntry>,
    pub signatures: Vec<Option<(String, String)>>,
    pub field_index: MemberTable,
    pub static_index: MemberTable,
    pub vindex: MemberTable,
    pub init: InitState,
}

/// What a class holds.
#[verifier::ext_equal]
pub struct ClassView {
    pub name: Seq<char>,
    /// The class file, unless the class is builtin.
    pub cf: Option<ClassFileView>,
    pub super_id: Option<ClassId>,
    pub methods: Seq<BodyView>,
    pub field_base: u16,
    pub field_defaults: Seq<Val128>,
    pub statics: Seq<Val128>,
    pub vtable: Seq<VEntry>,
    pub signatures: Seq<Signature>,
    pub field_index: Seq<MemberEntry>,
    pub static_index: Seq<MemberEntry>,
    pub vindex: Seq<MemberEntry>,
    pub init: InitState,
}

impl View for LoadedClass {
    type V = ClassView;

    open spec fn view(&self) -> ClassView {
        ClassView {
            name: self.name@,
            cf: match self.cf {
                Some(cf) => Some(cf@),
                None => None,
            },
            super_id: self.super_id,
            methods: body_views(self.methods@),
            field_base: self.field_base,
            field_defaults: self.field_defaults@,
            statics: self.statics@,
            vtable: self.vtable@,
            signatures: signature_views(self.signatures@),
            field_index: self.field_index@,
            static_index: self.static_index@,
            vindex: self.vindex@,
            init: self.init,
        }
    }
}

/// Every slot of a table is below `n`.
pub open spec fn slots_below(table: Seq<MemberEntry>, n: int) -> bool {
    forall|i: int| 0 <= i < table.len() ==> (#[trigger] table[i]).2 < n
}

/// No two entries of a table share a slot.
pub open spec fn slots_distinct(table: Seq<MemberEntry>) -> bool {
    forall|i: int, j: int|
        0 <= i < j < table.len() ==> (#[trigger] table[i]).2 != (#[trigger] table[j]).2
}

/// Whether method `i` has that name and descriptor.
pub open spec fn signature_is(
    sigs: Seq<Signature>,
    i: int,
    name: Seq<char>,
    desc: Seq<char>,
) -> bool {
    sigs[i] == Some((name, desc))
}

/// The first method, from `i` on, of that name and descriptor.
pub open spec fn method_from(
    sigs: Seq<Signature>,
    i: int,
    name: Seq<char>,
    desc: Seq<char>,
) -> Option<u16>
    decreases sigs.len() - i,
{
    if i >= sigs.len() {
        None
    } else if signature_is(sigs, i, name, desc) {
        Some(i as u16)
    } else {
        method_from(sigs, i + 1, name, desc)
    }
}

impl ClassView {
    /// Class number `id` of a registry: its superclass comes before it, its dispatch slots lie in
    /// the table and each belongs to one signature, its statics lie in their storage, and its built
    /// methods are well-formed.
    pub open spec fn wf(self, id: int) -> bool {
        &&& self.super_id matches Some(s) ==> s.0 < id
        &&& slots_below(self.vindex, self.vtable.len() as int)
        &&& slots_distinct(self.vindex)
        &&& slots_below(self.static_index, self.statics.len() as int)
        &&& self.methods.len() == self.signatures.len()
        &&& no_refs(self.field_defaults)
        &&& forall|i: int|
            0 <= i < self.methods.len() ==> ((#[trigger] self.methods[i]) matches BodyView::Bytecode(
                b,
            ) ==> b.wf())
    }

    /// The constant pool, unless the class is builtin.
    pub open spec fn pool(self) -> Option<PoolView> {
        match self.cf {
            Some(cf) => Some(cf.constant_pool),
            None => None,
        }
    }

    /// The absolute instance slot of an instance field declared by this class or inherited.
    pub open spec fn field_slot(self, name: Seq<char>, desc: Seq<char>) -> Option<u16> {
        match slot_of(self.field_index, name, desc) {
            Some(s) => Some(s as u16),
            None => None,
        }
    }

    /// The index of a static field in the class's storage.
    pub open spec fn static_slot(self, name: Seq<char>, desc: Seq<char>) -> Option<usize> {
        slot_of(self.static_index, name, desc)
    }

    /// The virtual-dispatch slot of a signature.
    pub open spec fn vslot(self, name: Seq<char>, desc: Seq<char>) -> Option<usize> {
        slot_of(self.vindex, name, desc)
    }

    /// The index of a method declared directly by this class.
    pub open spec fn method_index(self, name: Seq<char>, desc: Seq<char>) -> Option<u16> {
        method_from(self.signatures, 0, name, desc)
    }
}

impl LoadedClass {
    /// The absolute instance slot of an instance field declared by this class or inherited.
    pub fn field_slot(&self, name: &str, desc: &str) -> (r: Option<u16>)
        ensures
            r == self@.field_slot(name@, desc@),
    {
        match self.field_index.get(name, desc) {
            Some(s) => Some(s as u16),
            None => None,
        }
    }

    /// The index of a static field in [`LoadedClass::statics`].
    pub fn static_slot(&self, name: &str, desc: &str) -> (r: Option<usize>)
        ensures
            r == self@.static_slot(name@, desc@),
    {
        self.static_index.get(name, desc)
    }

    /// The virtual-dispatch slot for a method signature, if it is virtual.
    pub fn vslot(&self, name: &str, desc: &str) -> (r: Option<usize>)
        ensures
            r == self@.vslot(name@, desc@),
    {
        self.vindex.get(name, desc)
    }

    /// The index of a method declared directly by this class.
    pub fn method_index(&self, name: &str, desc: &str) -> (r: Option<u16>)
        ensures
            r == self@.method_index(name@, desc@),
    {
        let mut i: usize = 0;
        while i < self.signatures.len()
            invariant
                i <= self.signatures@.len(),
                method_from(self@.signatures, 0, name@, desc@) == method_from(
                    self@.signatures,
                    i as int,
                    name@,
                    desc@,
                ),
            decreases self.signatures@.len() - i,
        {
            assert(self@.signatures[i as int] == signature_views(self.signatures@)[i as int]);
            if let Some(k) = &self.signatures[i] {
                if same_text(k.0.as_str(), name) && same_text(k.1.as_str(), desc) {
                    return Some(i as u16);
                }
            }
            i += 1;
        }
        None
    }

    /// The constant pool, unless the class is builtin.
    pub fn constant_pool(&self) -> (p: Option<&ConstantPool>)
        ensures
            match self@.pool() {
                Some(v) => p is Some && p->0@ == v,
                None => p is None,
            },
    {
        match &self.cf {
            Some(cf) => Some(&cf.constant_pool),
            None => None,
        }
    }

    /// Where the class stands in its initialisation.
    pub fn init_state(&self) -> (s: InitState)
        ensures
            s == self@.init,
    {
        self.init
    }

    /// Note where the class stands in its initialisation.
    pub fn set_init_state(&mut self, s: InitState)
        ensures
            final(self)@ == (ClassView { init: s, ..old(self)@ }),
    {
        self.init = s;
    }
}

/// The classes of a registry, by number.
pub type RegistryView = Seq<ClassView>;

/// The class registry: the mapping from a class name to its loaded form.
pub struct ClassRegistry {
    classes: Vec<LoadedClass>,
}

impl View for ClassRegistry {
    type V = RegistryView;

    closed spec fn view(&self) -> RegistryView {
        Seq::new(self.classes@.len(), |i: int| self.classes@[i]@)
    }
}

/// Whether a class keeps what it inherits: the fields of its superclass come first in an instance,
/// and every dispatch slot of the superclass means the same signature in the class.
pub open spec fn extends(sup: ClassView, sub: ClassView) -> bool {
    &&& sup.field_defaults.is_prefix_of(sub.field_defaults)
    &&& keeps_slots(sup.vindex, sub.vindex)
    &&& sup.vtable.len() <= sub.vtable.len()
}

/// Whether every key of one table has the same slot in another.
pub open spec fn keeps_slots(a: Seq<MemberEntry>, b: Seq<MemberEntry>) -> bool {
    forall|name: Seq<char>, desc: Seq<char>|
        (#[trigger] slot_of(a, name, desc)) is Some ==> slot_of(b, name, desc) == slot_of(
            a,
            name,
            desc,
        )
}

/// Every class is well-formed and extends its superclass, and numbers fit 32 bits.
pub open spec fn registry_wf(r: RegistryView) -> bool {
    &&& r.len() <= u32::MAX
    &&& forall|i: int| 0 <= i < r.len() ==> (#[trigger] r[i]).wf(i)
    &&& forall|i: int|
        0 <= i < r.len() ==> ((#[trigger] r[i]).super_id matches Some(s) ==> extends(
            r[s.0 as int],
            r[i],
        ))
}

/// The class of a name: the one linked last.
pub open spec fn class_named(r: RegistryView, name: Seq<char>) -> Option<ClassId>
    decreases r.len(),
{
    if r.len() == 0 {
        None
    } else if r.last().name == name {
        Some(ClassId((r.len() - 1) as u32))
    } else {
        class_named(r.drop_last(), name)
    }
}

/// The class of a number.
pub open spec fn class_at(r: RegistryView, id: ClassId) -> Option<ClassView> {
    if id.0 < r.len() {
        Some(r[id.0 as int])
    } else {
        None
    }
}

/// Whether `sub` is `sup` or descends from it.
pub open spec fn descends_from(r: RegistryView, sub: ClassId, sup: ClassId) -> bool
    decreases sub.0,
{
    if sub == sup {
        true
    } else {
        match class_at(r, sub) {
            Some(k) => match k.super_id {
                Some(s) => s.0 < sub.0 && descends_from(r, s, sup),
                None => false,
            },
            None => false,
        }
    }
}

/// The JVMS default value for a field of the given descriptor.
pub open spec fn default_of(b: Seq<u8>) -> Val128 {
    if b.len() == 0 {
        Val128::from_i32(0)
    } else {
        match b[0] {
            0x4Au8 => Val128::from_i64(0),
            0x46u8 => Val128::from_f32(0),
            0x44u8 => Val128::from_f64(0),
            0x4Cu8 | 0x5Bu8 => Val128::null(),
            _ => Val128::from_i32(0),
        }
    }
}

/// The default value for a field of the given descriptor.
pub fn field_default(desc: &str) -> (v: Val128)
    ensures
        v == default_of(encode_utf8(desc@)),
{
    let b = desc.as_bytes();
    if b.len() == 0 {
        return Val128::from_i32(0);
    }
    match b[0] {
        0x4A => Val128::from_i64(0),
        0x46 => Val128::from_f32(0),
        0x44 => Val128::from_f64(0),
        0x4C | 0x5B => Val128::null(),
        _ => Val128::from_i32(0),
    }
}

pub fn is_static(flags: u16) -> (b: bool)
    ensures
        b == static_flag(flags),
{
    flags & 0x0008 != 0
}

/// Where fields lie: instance slots with their defaults, static slots with theirs.
#[verifier::ext_equal]
pub struct LayoutView {
    pub defaults: Seq<Val128>,
    pub fields: Seq<MemberEntry>,
    pub statics: Seq<Val128>,
    pub static_index: Seq<MemberEntry>,
}

impl LayoutView {
    /// With one more field.
    pub open spec fn with(self, name: Seq<char>, desc: Seq<char>, is_static: bool) -> LayoutView {
        let v = default_of(encode_utf8(desc));
        if is_static {
            LayoutView {
                statics: self.statics.push(v),
                static_index: self.static_index.push((name, desc, self.statics.len() as usize)),
                ..self
            }
        } else {
            LayoutView {
                defaults: self.defaults.push(v),
                fields: self.fields.push((name, desc, (self.defaults.len() as u16) as usize)),
                ..self
            }
        }
    }
}

/// A layout extended by the first `k` fields of a class file; a field whose name or descriptor does
/// not resolve is skipped.
pub open spec fn fields_upto(base: LayoutView, cf: ClassFileView, k: int) -> LayoutView
    decreases k,
{
    if k <= 0 {
        base
    } else {
        let l = fields_upto(base, cf, k - 1);
        let f = cf.fields[k - 1];
        match (pool_utf8(cf.constant_pool, f.name_index), pool_utf8(
            cf.constant_pool,
            f.descriptor_index,
        )) {
            (Some(name), Some(desc)) => l.with(name, desc, static_flag(f.access_flags)),
            _ => l,
        }
    }
}

/// A dispatch table and its index.
#[verifier::ext_equal]
pub struct DispatchView {
    pub vtable: Seq<VEntry>,
    pub vindex: Seq<MemberEntry>,
}

impl DispatchView {
    /// With one more virtual method: it overrides an inherited slot in place, or gets a new one.
    pub open spec fn with(self, name: Seq<char>, desc: Seq<char>, entry: VEntry) -> DispatchView {
        match slot_of(self.vindex, name, desc) {
            Some(slot) => DispatchView { vtable: self.vtable.update(slot as int, entry), ..self },
            None => DispatchView {
                vtable: self.vtable.push(entry),
                vindex: self.vindex.push((name, desc, self.vtable.len() as usize)),
            },
        }
    }
}

/// Whether a method is virtually dispatched: it is neither static nor an initialiser.
pub open spec fn is_virtual(name: Seq<char>, is_static: bool) -> bool {
    !is_static && name != "<init>"@ && name != "<clinit>"@
}

/// A dispatch table extended by the first `k` methods of a class file, of class `id`.
pub open spec fn dispatch_upto(
    base: DispatchView,
    cf: ClassFileView,
    id: ClassId,
    k: int,
) -> DispatchView
    decreases k,
{
    if k <= 0 {
        base
    } else {
        let d = dispatch_upto(base, cf, id, k - 1);
        let m = cf.methods[k - 1];
        match (pool_utf8(cf.constant_pool, m.name_index), pool_utf8(
            cf.constant_pool,
            m.descriptor_index,
        )) {
            (Some(name), Some(desc)) => if is_virtual(name, static_flag(m.access_flags)) {
                d.with(name, desc, VEntry { class: id, method: (k - 1) as u16 })
            } else {
                d
            },
            _ => d,
        }
    }
}

/// The signatures of a class file's methods.
pub open spec fn signatures_of(cf: ClassFileView) -> Seq<Signature> {
    Seq::new(
        cf.methods.len(),
        |i: int|
            match (pool_utf8(cf.constant_pool, cf.methods[i].name_index), pool_utf8(
                cf.constant_pool,
                cf.methods[i].descriptor_index,
            )) {
                (Some(name), Some(desc)) => Some((name, desc)),
                _ => None,
            },
    )
}

/// The body of a method: it must verify and build.
pub open spec fn body_of(cf: ClassFileView, m: MemberView) -> BodyView {
    match verified(cf, m) {
        Ok(v) => match built(v, cf.constant_pool) {
            Ok(b) => BodyView::Bytecode(b),
            Err(_) => BodyView::Absent,
        },
        Err(_) => BodyView::Absent,
    }
}

/// The bodies of a class file's methods.
pub open spec fn bodies_of(cf: ClassFileView) -> Seq<BodyView> {
    Seq::new(cf.methods.len(), |i: int| body_of(cf, cf.methods[i]))
}

/// What a class inherits.
pub open spec fn inherited(r: RegistryView, super_id: Option<ClassId>) -> (
    LayoutView,
    DispatchView,
) {
    match super_id {
        Some(s) => {
            let k = r[s.0 as int];
            (
                LayoutView {
                    defaults: k.field_defaults,
                    fields: k.field_index,
                    statics: Seq::empty(),
                    static_index: Seq::empty(),
                },
                DispatchView { vtable: k.vtable, vindex: k.vindex },
            )
        },
        None => (
            LayoutView {
                defaults: Seq::empty(),
                fields: Seq::empty(),
                statics: Seq::empty(),
                static_index: Seq::empty(),
            },
            DispatchView { vtable: Seq::empty(), vindex: Seq::empty() },
        ),
    }
}

/// A layout extended by the first `k` of the given fields.
pub open spec fn pairs_upto(
    base: LayoutView,
    pairs: Seq<(Seq<char>, Seq<char>)>,
    is_static: bool,
    k: int,
) -> LayoutView
    decreases k,
{
    if k <= 0 {
        base
    } else {
        pairs_upto(base, pairs, is_static, k - 1).with(pairs[k - 1].0, pairs[k - 1].1, is_static)
    }
}

/// A dispatch table extended by the first `k` methods of a builtin class, of class `id`.
pub open spec fn builtin_dispatch_upto(
    base: DispatchView,
    b: BuiltinView,
    id: ClassId,
    k: int,
) -> DispatchView
    decreases k,
{
    if k <= 0 {
        base
    } else {
        let d = builtin_dispatch_upto(base, b, id, k - 1);
        let m = b.methods[k - 1];
        if is_virtual(m.name, m.is_static) {
            d.with(m.name, m.descriptor, VEntry { class: id, method: (k - 1) as u16 })
        } else {
            d
        }
    }
}

/// The class that a builtin becomes when registered next.
pub open spec fn class_from_builtin(r: RegistryView, b: BuiltinView) -> ClassView {
    let id = ClassId(r.len() as u32);
    let super_id = match b.super_name {
        Some(s) => class_named(r, s),
        None => None,
    };
    let (layout, dispatch) = inherited(r, super_id);
    let l = pairs_upto(
        pairs_upto(layout, b.fields, false, b.fields.len() as int),
        b.statics,
        true,
        b.statics.len() as int,
    );
    let d = builtin_dispatch_upto(dispatch, b, id, b.methods.len() as int);
    ClassView {
        name: b.name,
        cf: None,
        super_id,
        methods: Seq::new(b.methods.len(), |i: int| BodyView::Native(b.methods[i].body)),
        field_base: layout.defaults.len() as u16,
        field_defaults: l.defaults,
        statics: l.statics,
        vtable: d.vtable,
        signatures: Seq::new(
            b.methods.len(),
            |i: int| Some((b.methods[i].name, b.methods[i].descriptor)),
        ),
        field_index: l.fields,
        static_index: l.static_index,
        vindex: d.vindex,
        init: InitState::Loaded,
    }
}

/// The name of a class file's class; `?` where it does not resolve.
pub open spec fn name_or_unknown(cf: ClassFileView) -> Seq<char> {
    match cf.this_name() {
        Some(n) => n,
        None => "?"@,
    }
}

/// The class that a class file becomes when linked next, with the given method bodies.
pub open spec fn class_from_file(
    r: RegistryView,
    cf: ClassFileView,
    methods: Seq<BodyView>,
) -> ClassView {
    let id = ClassId(r.len() as u32);
    let super_id = match cf.super_name() {
        Some(s) => class_named(r, s),
        None => None,
    };
    let (layout, dispatch) = inherited(r, super_id);
    let l = fields_upto(layout, cf, cf.fields.len() as int);
    let d = dispatch_upto(dispatch, cf, id, cf.methods.len() as int);
    ClassView {
        name: name_or_unknown(cf),
        cf: Some(cf),
        super_id,
        methods,
        field_base: layout.defaults.len() as u16,
        field_defaults: l.defaults,
        statics: l.statics,
        vtable: d.vtable,
        signatures: signatures_of(cf),
        field_index: l.fields,
        static_index: l.static_index,
        vindex: d.vindex,
        init: InitState::Loaded,
    }
}

pub proof fn lemma_class_named(r: RegistryView, name: Seq<char>)
    requires
        r.len() <= u32::MAX,
    ensures
        class_named(r, name) matches Some(id) ==> id.0 < r.len() && r[id.0 as int].name == name,
    decreases r.len(),
{
    if r.len() > 0 && r.last().name != name {
        lemma_class_named(r.drop_last(), name);
    }
}

pub proof fn lemma_slot_of_below(table: Seq<MemberEntry>, n: int, name: Seq<char>, desc: Seq<char>)
    requires
        slots_below(table, n),
    ensures
        slot_of(table, name, desc) matches Some(s) ==> s < n,
    decreases table.len(),
{
    if table.len() > 0 {
        assert(table[table.len() - 1].2 < n);
        assert(slots_below(table.drop_last(), n)) by {
            assert forall|i: int| 0 <= i < table.len() - 1 implies (
            #[trigger] table.drop_last()[i]).2 < n by {
                assert(table[i].2 < n);
            }
        }
        lemma_slot_of_below(table.drop_last(), n, name, desc);
    }
}

proof fn lemma_fields_extend(base: LayoutView, cf: ClassFileView, k: int)
    ensures
        base.defaults.is_prefix_of(fields_upto(base, cf, k).defaults),
    decreases k,
{
    if k > 0 {
        lemma_fields_extend(base, cf, k - 1);
    }
}

proof fn lemma_pairs_extend(
    base: LayoutView,
    pairs: Seq<(Seq<char>, Seq<char>)>,
    is_static: bool,
    k: int,
)
    ensures
        base.defaults.is_prefix_of(pairs_upto(base, pairs, is_static, k).defaults),
    decreases k,
{
    if k > 0 {
        lemma_pairs_extend(base, pairs, is_static, k - 1);
    }
}

/// The default of a field is no reference.
proof fn lemma_default_is_plain(l: LayoutView, name: Seq<char>, desc: Seq<char>, is_static: bool)
    requires
        no_refs(l.defaults),
    ensures
        no_refs(l.with(name, desc, is_static).defaults),
{
    broadcast use group_values;

    let after = l.with(name, desc, is_static).defaults;
    assert forall|i: int| 0 <= i < after.len() implies !(#[trigger] after[i]).tag().is_ref() by {
        if i < l.defaults.len() {
            assert(after[i] == l.defaults[i]);
        }
    }
}

proof fn lemma_fields_are_plain(base: LayoutView, cf: ClassFileView, k: int)
    requires
        no_refs(base.defaults),
    ensures
        no_refs(fields_upto(base, cf, k).defaults),
    decreases k,
{
    if k > 0 {
        lemma_fields_are_plain(base, cf, k - 1);
        let f = cf.fields[k - 1];
        let l = fields_upto(base, cf, k - 1);
        if let (Some(name), Some(desc)) = (
            pool_utf8(cf.constant_pool, f.name_index),
            pool_utf8(cf.constant_pool, f.descriptor_index),
        ) {
            lemma_default_is_plain(l, name, desc, static_flag(f.access_flags));
        }
    }
}

proof fn lemma_pairs_are_plain(
    base: LayoutView,
    pairs: Seq<(Seq<char>, Seq<char>)>,
    is_static: bool,
    k: int,
)
    requires
        no_refs(base.defaults),
    ensures
        no_refs(pairs_upto(base, pairs, is_static, k).defaults),
    decreases k,
{
    if k > 0 {
        lemma_pairs_are_plain(base, pairs, is_static, k - 1);
        let l = pairs_upto(base, pairs, is_static, k - 1);
        lemma_default_is_plain(l, pairs[k - 1].0, pairs[k - 1].1, is_static);
    }
}

/// What a class inherits holds no reference.
proof fn lemma_inherited_is_plain(r: RegistryView, super_id: Option<ClassId>)
    requires
        registry_wf(r),
        super_id matches Some(s) ==> s.0 < r.len(),
    ensures
        no_refs(inherited(r, super_id).0.defaults),
{
    if let Some(s) = super_id {
        assert(r[s.0 as int].wf(s.0 as int));
    }
}

/// One more virtual method leaves every slot in place.
pub proof fn lemma_dispatch_keeps_slots(
    d: DispatchView,
    name: Seq<char>,
    desc: Seq<char>,
    entry: VEntry,
)
    requires
        slots_below(d.vindex, d.vtable.len() as int),
    ensures
        keeps_slots(d.vindex, d.with(name, desc, entry).vindex),
        d.vtable.len() <= d.with(name, desc, entry).vtable.len(),
        slot_of(d.with(name, desc, entry).vindex, name, desc) is Some,
{
    let e = d.with(name, desc, entry);
    lemma_slot_of_below(d.vindex, d.vtable.len() as int, name, desc);
    if slot_of(d.vindex, name, desc) is None {
        assert(e.vindex.drop_last() =~= d.vindex);
    }
}

/// A registry stays well-formed with one more class that is, and that extends its superclass.
proof fn lemma_pushed_wf(r: RegistryView, k: ClassView)
    requires
        registry_wf(r),
        r.len() < u32::MAX,
        k.wf(r.len() as int),
        k.super_id matches Some(s) ==> extends(r[s.0 as int], k),
    ensures
        registry_wf(r.push(k)),
{
    let q = r.push(k);
    assert forall|i: int| 0 <= i < q.len() implies (#[trigger] q[i]).wf(i) by {
        if i < r.len() {
            assert(r[i].wf(i));
        }
    }
    assert forall|i: int| 0 <= i < q.len() implies ((#[trigger] q[i]).super_id matches Some(s)
        ==> extends(q[s.0 as int], q[i])) by {
        if i < r.len() {
            assert(r[i].wf(i));
            assert(r[i].super_id matches Some(s) ==> extends(r[s.0 as int], r[i]));
        }
    }
}

/// Fields being laid out.
struct Layout {
    defaults: Vec<Val128>,
    fields: MemberTable,
    statics: Vec<Val128>,
    static_index: MemberTable,
}

impl View for Layout {
    type V = LayoutView;

    closed spec fn view(&self) -> LayoutView {
        LayoutView {
            defaults: self.defaults@,
            fields: self.fields@,
            statics: self.statics@,
            static_index: self.static_index@,
        }
    }
}

impl Layout {
    fn place(&mut self, name: &str, desc: &str, is_static: bool)
        requires
            slots_below(old(self)@.static_index, old(self)@.statics.len() as int),
        ensures
            final(self)@ == old(self)@.with(name@, desc@, is_static),
            slots_below(final(self)@.static_index, final(self)@.statics.len() as int),
    {
        if is_static {
            let slot: usize = self.statics.len();
            self.static_index.put(name, desc, slot);
            self.statics.push(field_default(desc));
        } else {
            let slot: u16 = self.defaults.len() as u16;
            self.fields.put(name, desc, slot as usize);
            self.defaults.push(field_default(desc));
        }
    }
}

/// A dispatch table being laid out.
struct Dispatch {
    vtable: Vec<VEntry>,
    vindex: MemberTable,
}

impl View for Dispatch {
    type V = DispatchView;

    closed spec fn view(&self) -> DispatchView {
        DispatchView { vtable: self.vtable@, vindex: self.vindex@ }
    }
}

impl Dispatch {
    fn place(&mut self, name: &str, desc: &str, entry: VEntry)
        requires
            slots_below(old(self)@.vindex, old(self)@.vtable.len() as int),
            slots_distinct(old(self)@.vindex),
        ensures
            final(self)@ == old(self)@.with(name@, desc@, entry),
            slots_below(final(self)@.vindex, final(self)@.vtable.len() as int),
            slots_distinct(final(self)@.vindex),
            keeps_slots(old(self)@.vindex, final(self)@.vindex),
            old(self)@.vtable.len() <= final(self)@.vtable.len(),
    {
        proof {
            lemma_slot_of_below(self@.vindex, self@.vtable.len() as int, name@, desc@);
            lemma_dispatch_keeps_slots(self@, name@, desc@, entry);
        }
        match self.vindex.get(name, desc) {
            Some(slot) => {
                self.vtable.set(slot, entry);
            },
            None => {
                let slot: usize = self.vtable.len();
                self.vindex.put(name, desc, slot);
                self.vtable.push(entry);
            },
        }
    }
}

fn virtual_name(name: &str, is_static: bool) -> (b: bool)
    ensures
        b == is_virtual(name@, is_static),
{
    !is_static && !same_text(name, "<init>") && !same_text(name, "<clinit>")
}

/// The same entries again.
fn copy_entries(v: &Vec<VEntry>) -> (r: Vec<VEntry>)
    ensures
        r@ == v@,
{
    let mut r: Vec<VEntry> = Vec::new();
    r.extend_from_slice(v.as_slice());
    assert(r@ =~= v@);
    r
}

/// Verify and build the methods of a class file.
pub fn build_methods(cf: &ClassFile) -> (r: Vec<MethodBody>)
    ensures
        body_views(r@) == bodies_of(cf@),
        forall|i: int|
            0 <= i < r@.len() ==> ((#[trigger] r@[i])@ matches BodyView::Bytecode(b) ==> b.wf()),
{
    let mut out: Vec<MethodBody> = Vec::new();
    let mut i: usize = 0;
    while i < cf.methods.len()
        invariant
            i <= cf.methods@.len(),
            out@.len() == i,
            forall|k: int| 0 <= k < i ==> (#[trigger] out@[k])@ == bodies_of(cf@)[k],
            forall|k: int|
                0 <= k < i ==> ((#[trigger] out@[k])@ matches BodyView::Bytecode(b) ==> b.wf()),
        decreases cf.methods@.len() - i,
    {
        assert(cf@.methods[i as int] == cf.methods@[i as int]@);
        let body = match verify_method(cf, &cf.methods[i]) {
            Ok(vm) => match build(&vm, cf) {
                Ok(b) => MethodBody::Bytecode(b),
                Err(_) => MethodBody::Absent,
            },
            Err(_) => MethodBody::Absent,
        };
        out.push(body);
        i += 1;
    }
    assert(body_views(out@) =~= bodies_of(cf@));
    out
}

impl ClassRegistry {
    /// No classes.
    pub fn new() -> (r: ClassRegistry)
        ensures
            r@ == Seq::<ClassView>::empty(),
            registry_wf(r@),
    {
        let r = ClassRegistry { classes: Vec::new() };
        assert(r@ =~= Seq::<ClassView>::empty());
        r
    }

    /// The class of a number.
    pub fn get(&self, id: ClassId) -> (k: Option<&LoadedClass>)
        ensures
            match class_at(self@, id) {
                Some(v) => k is Some && k->0@ == v,
                None => k is None,
            },
    {
        if (id.0 as usize) < self.classes.len() {
            Some(&self.classes[id.0 as usize])
        } else {
            None
        }
    }

    /// The class of a name: the one linked last.
    pub fn by_name(&self, name: &str) -> (id: Option<ClassId>)
        requires
            self@.len() <= u32::MAX,
        ensures
            id == class_named(self@, name@),
            id matches Some(c) ==> c.0 < self@.len(),
    {
        let mut i: usize = self.classes.len();
        assert(self@.take(i as int) =~= self@);
        while i > 0
            invariant
                self@.len() <= u32::MAX,
                i <= self.classes@.len() == self@.len(),
                class_named(self@, name@) == class_named(self@.take(i as int), name@),
            decreases i,
        {
            i -= 1;
            proof {
                assert(self@.take(i + 1).drop_last() =~= self@.take(i as int));
                assert(self@.take(i + 1).last() == self.classes@[i as int]@);
            }
            if same_text(self.classes[i].name.as_str(), name) {
                return Some(ClassId(i as u32));
            }
        }
        None
    }

    /// Number of classes.
    pub fn len(&self) -> (n: usize)
        ensures
            n == self@.len(),
    {
        self.classes.len()
    }

    /// Whether there are no classes.
    pub fn is_empty(&self) -> (b: bool)
        ensures
            b == (self@.len() == 0),
    {
        self.classes.len() == 0
    }

    /// Whether `sub` is `sup` or descends from it.
    pub fn is_subclass_of(&self, sub: ClassId, sup: ClassId) -> (r: bool)
        requires
            registry_wf(self@),
        ensures
            r == descends_from(self@, sub, sup),
    {
        let mut cur = sub;
        loop
            invariant
                registry_wf(self@),
                descends_from(self@, sub, sup) == descends_from(self@, cur, sup),
            decreases cur.0,
        {
            if cur == sup {
                return true;
            }
            match self.get(cur) {
                Some(k) => {
                    assert(self@[cur.0 as int].wf(cur.0 as int));
                    match k.super_id {
                        Some(s) => {
                            cur = s;
                        },
                        None => {
                            return false;
                        },
                    }
                },
                None => {
                    return false;
                },
            }
        }
    }

    /// The layout and dispatch table that a class inherits.
    fn inherit(&self, super_id: Option<ClassId>) -> (r: (Layout, Dispatch))
        requires
            registry_wf(self@),
            super_id matches Some(s) ==> s.0 < self@.len(),
        ensures
            (r.0@, r.1@) == inherited(self@, super_id),
            slots_below(r.0@.static_index, r.0@.statics.len() as int),
            slots_below(r.1@.vindex, r.1@.vtable.len() as int),
            slots_distinct(r.1@.vindex),
    {
        match super_id {
            Some(s) => {
                let k = &self.classes[s.0 as usize];
                assert(self@[s.0 as int].wf(s.0 as int));
                assert(self@[s.0 as int] == k@);
                (
                    Layout {
                        defaults: copy_values(&k.field_defaults),
                        fields: k.field_index.copy(),
                        statics: Vec::new(),
                        static_index: MemberTable::new(),
                    },
                    Dispatch { vtable: copy_entries(&k.vtable), vindex: k.vindex.copy() },
                )
            },
            None => (
                Layout {
                    defaults: Vec::new(),
                    fields: MemberTable::new(),
                    statics: Vec::new(),
                    static_index: MemberTable::new(),
                },
                Dispatch { vtable: Vec::new(), vindex: MemberTable::new() },
            ),
        }
    }

    /// Link one parsed class: verify and build its methods, lay out its fields, and extend its
    /// superclass's dispatch table with its own virtual methods.
    pub fn link_class(&mut self, cf: ClassFile) -> (id: ClassId)
        requires
            registry_wf(old(self)@),
            old(self)@.len() < u32::MAX,
        ensures
            registry_wf(final(self)@),
            id.0 == old(self)@.len(),
            final(self)@ == old(self)@.push(class_from_file(old(self)@, cf@, bodies_of(cf@))),
    {
        let methods = build_methods(&cf);
        proof {
            assert(body_views(methods@).len() == methods@.len());
        }
        self.link_with(cf, methods)
    }

    /// Link one parsed class with the given method bodies.
    pub fn link_with(&mut self, cf: ClassFile, methods: Vec<MethodBody>) -> (id: ClassId)
        requires
            registry_wf(old(self)@),
            old(self)@.len() < u32::MAX,
            methods@.len() == cf@.methods.len(),
            forall|i: int|
                0 <= i < methods@.len() ==> ((#[trigger] methods@[i])@ matches BodyView::Bytecode(
                    b,
                ) ==> b.wf()),
        ensures
            registry_wf(final(self)@),
            id.0 == old(self)@.len(),
            final(self)@ == old(self)@.push(
                class_from_file(old(self)@, cf@, body_views(methods@)),
            ),
    {
        let id = ClassId(self.classes.len() as u32);
        let name = match cf.this_class_name() {
            Some(n) => n.to_string(),
            None => "?".to_string(),
        };
        let super_id = match cf.super_class_name() {
            Some(s) => self.by_name(s),
            None => None,
        };
        let ghost inh = inherited(self@, super_id);
        let (mut layout, mut dispatch) = self.inherit(super_id);
        let field_base: u16 = layout.defaults.len() as u16;

        // Instance fields extend the superclass's layout; statics get their own storage.
        let mut i: usize = 0;
        while i < cf.fields.len()
            invariant
                i <= cf.fields@.len(),
                layout@ == fields_upto(inh.0, cf@, i as int),
                slots_below(layout@.static_index, layout@.statics.len() as int),
            decreases cf.fields@.len() - i,
        {
            let f = &cf.fields[i];
            assert(cf@.fields[i as int] == f@);
            if let Some(fname) = f.name(&cf.constant_pool) {
                if let Some(fdesc) = f.descriptor(&cf.constant_pool) {
                    layout.place(fname, fdesc, is_static(f.access_flags));
                }
            }
            i += 1;
        }

        // An identical (name, descriptor) overrides the inherited slot in place.
        let mut signatures: Vec<Option<(String, String)>> = Vec::new();
        let mut j: usize = 0;
        while j < cf.methods.len()
            invariant
                j <= cf.methods@.len(),
                dispatch@ == dispatch_upto(inh.1, cf@, id, j as int),
                slots_below(dispatch@.vindex, dispatch@.vtable.len() as int),
                slots_distinct(dispatch@.vindex),
                keeps_slots(inh.1.vindex, dispatch@.vindex),
                inh.1.vtable.len() <= dispatch@.vtable.len(),
                signatures@.len() == j,
                forall|k: int|
                    0 <= k < j ==> signature_views(signatures@)[k] == #[trigger] signatures_of(
                        cf@,
                    )[k],
            decreases cf.methods@.len() - j,
        {
            let ghost before = signatures@;
            let m = &cf.methods[j];
            assert(cf@.methods[j as int] == m@);
            let mut sig: Option<(String, String)> = None;
            if let Some(mname) = m.name(&cf.constant_pool) {
                if let Some(mdesc) = m.descriptor(&cf.constant_pool) {
                    sig = Some((mname.to_string(), mdesc.to_string()));
                    if virtual_name(mname, is_static(m.access_flags)) {
                        dispatch.place(mname, mdesc, VEntry { class: id, method: j as u16 });
                    }
                }
            }
            signatures.push(sig);
            proof {
                assert forall|k: int| 0 <= k < j + 1 implies signature_views(signatures@)[k]
                    == #[trigger] signatures_of(cf@)[k] by {
                    if k < j {
                        assert(signature_views(before)[k] == signatures_of(cf@)[k]);
                        assert(signatures@[k] == before[k]);
                    }
                }
            }
            j += 1;
        }
        let ghost cfv = cf@;
        let ghost mv = body_views(methods@);
        proof {
            assert(signature_views(signatures@) =~= signatures_of(cf@));
        }
        let k = LoadedClass {
            name,
            cf: Some(cf),
            super_id,
            methods,
            field_base,
            field_defaults: layout.defaults,
            statics: layout.statics,
            vtable: dispatch.vtable,
            signatures,
            field_index: layout.fields,
            static_index: layout.static_index,
            vindex: dispatch.vindex,
            init: InitState::Loaded,
        };
        let ghost kv = k@;
        proof {
            assert(kv =~= class_from_file(old(self)@, cfv, mv));
            lemma_inherited_is_plain(old(self)@, super_id);
            lemma_fields_are_plain(inh.0, cfv, cfv.fields.len() as int);
            assert(kv.wf(old(self)@.len() as int)) by {
                assert forall|m: int| 0 <= m < kv.methods.len() implies ((
                #[trigger] kv.methods[m]) matches BodyView::Bytecode(b) ==> b.wf()) by {
                    assert(methods@[m]@ == mv[m]);
                }
            }
        }
        self.classes.push(k);
        proof {
            assert(self@ =~= old(self)@.push(kv));
            lemma_fields_extend(inh.0, cfv, cfv.fields.len() as int);
            lemma_pushed_wf(old(self)@, kv);
        }
        id
    }
}

/// The three names of a field or method reference: class, member and descriptor.
pub open spec fn reference_names(pool: PoolView, index: u16) -> Option<
    (Seq<char>, Seq<char>, Seq<char>),
> {
    if index < pool.len() {
        match pool[index as int] {
            ConstantView::Plain(Constant::MethodRef { class_index, name_and_type_index }) =>
                names_at(pool, class_index, name_and_type_index),
            ConstantView::Plain(
                Constant::InterfaceMethodRef { class_index, name_and_type_index },
            ) => names_at(pool, class_index, name_and_type_index),
            ConstantView::Plain(Constant::FieldRef { class_index, name_and_type_index }) =>
                names_at(pool, class_index, name_and_type_index),
            _ => None,
        }
    } else {
        None
    }
}

/// The class name at one index, and the name and descriptor at another.
pub open spec fn names_at(pool: PoolView, class_index: u16, member_index: u16) -> Option<
    (Seq<char>, Seq<char>, Seq<char>),
> {
    if member_index < pool.len() {
        match pool[member_index as int] {
            ConstantView::Plain(Constant::NameAndType { name_index, descriptor_index }) => match (
                pool_class_name(pool, class_index),
                pool_utf8(pool, name_index),
                pool_utf8(pool, descriptor_index),
            ) {
                (Some(c), Some(n), Some(d)) => Some((c, n, d)),
                _ => None,
            },
            _ => None,
        }
    } else {
        None
    }
}

/// What the reference at an index of a class's pool names.
pub open spec fn names_in(r: RegistryView, owner: ClassId, index: u16) -> Option<
    (Seq<char>, Seq<char>, Seq<char>),
> {
    match class_at(r, owner) {
        Some(k) => match k.pool() {
            Some(pool) => reference_names(pool, index),
            None => None,
        },
        None => None,
    }
}

/// The method of that name and descriptor that a class declares or inherits: its own first, then
/// that of the nearest ancestor.
pub open spec fn method_in(
    r: RegistryView,
    class: ClassId,
    name: Seq<char>,
    desc: Seq<char>,
) -> Option<(ClassId, u16)>
    decreases class.0,
{
    match class_at(r, class) {
        None => None,
        Some(k) => match k.method_index(name, desc) {
            Some(m) => Some((class, m)),
            None => match k.super_id {
                Some(s) => if s.0 < class.0 {
                    method_in(r, s, name, desc)
                } else {
                    None
                },
                None => None,
            },
        },
    }
}

/// The static field of that name and descriptor that a class declares or inherits.
pub open spec fn static_in(
    r: RegistryView,
    class: ClassId,
    name: Seq<char>,
    desc: Seq<char>,
) -> Option<(ClassId, usize)>
    decreases class.0,
{
    match class_at(r, class) {
        None => None,
        Some(k) => match k.static_slot(name, desc) {
            Some(s) => Some((class, s)),
            None => match k.super_id {
                Some(s) => if s.0 < class.0 {
                    static_in(r, s, name, desc)
                } else {
                    None
                },
                None => None,
            },
        },
    }
}

/// What a class reference names.
pub open spec fn resolved_class(r: RegistryView, owner: ClassId, index: u16) -> Option<ClassId> {
    match class_at(r, owner) {
        Some(k) => match k.pool() {
            Some(pool) => match pool_class_name(pool, index) {
                Some(name) => class_named(r, name),
                None => None,
            },
            None => None,
        },
        None => None,
    }
}

/// What a method reference of a non-virtual call names. The constructor of a root class that is
/// not registered has nothing to run.
pub open spec fn resolved_method(r: RegistryView, owner: ClassId, index: u16) -> Option<Resolved> {
    match names_in(r, owner, index) {
        None => None,
        Some((class, name, desc)) => match class_named(r, class) {
            Some(id) => match method_in(r, id, name, desc) {
                Some((c, m)) => Some(Resolved::Method { class: c, method: m }),
                None => None,
            },
            None => if class == "java/lang/Object"@ && name == "<init>"@ {
                Some(Resolved::NoOp)
            } else {
                None
            },
        },
    }
}

/// What a method reference of a virtual call names: a slot, the same in every subclass.
pub open spec fn resolved_virtual(r: RegistryView, owner: ClassId, index: u16) -> Option<
    Resolved,
> {
    match names_in(r, owner, index) {
        None => None,
        Some((class, name, desc)) => match class_named(r, class) {
            Some(id) => match r[id.0 as int].vslot(name, desc) {
                Some(slot) => Some(Resolved::VirtualSlot { slot }),
                None => None,
            },
            None => None,
        },
    }
}

/// What a field reference names: an instance field, or else a static one.
pub open spec fn resolved_field(r: RegistryView, owner: ClassId, index: u16) -> Option<Resolved> {
    match names_in(r, owner, index) {
        None => None,
        Some((class, name, desc)) => match class_named(r, class) {
            Some(id) => match r[id.0 as int].field_slot(name, desc) {
                Some(slot) => Some(Resolved::InstanceField { class: id, slot }),
                None => match static_in(r, id, name, desc) {
                    Some((c, slot)) => Some(Resolved::StaticField { class: c, slot }),
                    None => None,
                },
            },
            None => None,
        },
    }
}

/// The three names of a reference.
fn ref_names<'a>(pool: &'a ConstantPool, index: u16) -> (r: Option<(&'a str, &'a str, &'a str)>)
    ensures
        match reference_names(pool@, index) {
            Some((c, n, d)) => r is Some && (r->0).0@ == c && (r->0).1@ == n && (r->0).2@ == d,
            None => r is None,
        },
{
    let (class_index, member_index): (u16, u16) = match pool.get(index) {
        Some(Constant::MethodRef { class_index, name_and_type_index }) => (
            *class_index,
            *name_and_type_index,
        ),
        Some(Constant::InterfaceMethodRef { class_index, name_and_type_index }) => (
            *class_index,
            *name_and_type_index,
        ),
        Some(Constant::FieldRef { class_index, name_and_type_index }) => (
            *class_index,
            *name_and_type_index,
        ),
        _ => {
            return None;
        },
    };
    let (name_index, descriptor_index): (u16, u16) = match pool.get(member_index) {
        Some(Constant::NameAndType { name_index, descriptor_index }) => (
            *name_index,
            *descriptor_index,
        ),
        _ => {
            return None;
        },
    };
    match (pool.class_name(class_index), pool.utf8(name_index), pool.utf8(descriptor_index)) {
        (Some(c), Some(n), Some(d)) => Some((c, n, d)),
        _ => None,
    }
}

impl ClassRegistry {
    /// Register a builtin class.
    pub fn register_builtin(&mut self, b: &BuiltinClass) -> (id: ClassId)
        requires
            registry_wf(old(self)@),
            old(self)@.len() < u32::MAX,
        ensures
            registry_wf(final(self)@),
            id.0 == old(self)@.len(),
            final(self)@ == old(self)@.push(class_from_builtin(old(self)@, b@)),
    {
        let id = ClassId(self.classes.len() as u32);
        let super_id = match b.super_name {
            Some(s) => self.by_name(s),
            None => None,
        };
        let ghost inh = inherited(self@, super_id);
        let (mut layout, mut dispatch) = self.inherit(super_id);
        let field_base: u16 = layout.defaults.len() as u16;
        let mut i: usize = 0;
        while i < b.fields.len()
            invariant
                i <= b.fields@.len(),
                layout@ == pairs_upto(inh.0, b@.fields, false, i as int),
                slots_below(layout@.static_index, layout@.statics.len() as int),
            decreases b.fields@.len() - i,
        {
            let (name, desc) = b.fields[i];
            assert(b@.fields[i as int] == (name@, desc@));
            layout.place(name, desc, false);
            i += 1;
        }
        let ghost with_fields = layout@;
        let mut j: usize = 0;
        while j < b.statics.len()
            invariant
                j <= b.statics@.len(),
                layout@ == pairs_upto(with_fields, b@.statics, true, j as int),
                slots_below(layout@.static_index, layout@.statics.len() as int),
            decreases b.statics@.len() - j,
        {
            let (name, desc) = b.statics[j];
            assert(b@.statics[j as int] == (name@, desc@));
            layout.place(name, desc, true);
            j += 1;
        }
        let mut methods: Vec<MethodBody> = Vec::new();
        let mut signatures: Vec<Option<(String, String)>> = Vec::new();
        let mut k: usize = 0;
        while k < b.methods.len()
            invariant
                k <= b.methods@.len(),
                dispatch@ == builtin_dispatch_upto(inh.1, b@, id, k as int),
                slots_below(dispatch@.vindex, dispatch@.vtable.len() as int),
                slots_distinct(dispatch@.vindex),
                keeps_slots(inh.1.vindex, dispatch@.vindex),
                inh.1.vtable.len() <= dispatch@.vtable.len(),
                methods@.len() == k,
                signatures@.len() == k,
                forall|m: int|
                    0 <= m < k ==> (#[trigger] methods@[m])@ == BodyView::Native(
                        b@.methods[m].body,
                    ),
                forall|m: int|
                    0 <= m < k ==> ((#[trigger] signatures@[m]) matches Some(s) && s.0@
                        == b@.methods[m].name && s.1@ == b@.methods[m].descriptor),
            decreases b.methods@.len() - k,
        {
            let m = b.methods[k];
            assert(b@.methods[k as int] == m@);
            if virtual_name(m.name, m.is_static) {
                dispatch.place(m.name, m.descriptor, VEntry { class: id, method: k as u16 });
            }
            methods.push(MethodBody::Native(m.body));
            signatures.push(Some((m.name.to_string(), m.descriptor.to_string())));
            k += 1;
        }
        let class = LoadedClass {
            name: b.name.to_string(),
            cf: None,
            super_id,
            methods,
            field_base,
            field_defaults: layout.defaults,
            statics: layout.statics,
            vtable: dispatch.vtable,
            signatures,
            field_index: layout.fields,
            static_index: layout.static_index,
            vindex: dispatch.vindex,
            init: InitState::Loaded,
        };
        let ghost kv = class@;
        proof {
            let want = class_from_builtin(old(self)@, b@);
            assert(kv.methods =~= want.methods);
            assert(kv.signatures =~= want.signatures) by {
                assert forall|m: int| 0 <= m < kv.signatures.len() implies (
                #[trigger] kv.signatures[m]) == want.signatures[m] by {
                    assert(signatures@[m] matches Some(s) && s.0@ == b@.methods[m].name);
                }
            }
            assert(kv =~= want);
            lemma_inherited_is_plain(old(self)@, super_id);
            lemma_pairs_are_plain(inh.0, b@.fields, false, b@.fields.len() as int);
            lemma_pairs_are_plain(with_fields, b@.statics, true, b@.statics.len() as int);
            assert(kv.wf(old(self)@.len() as int)) by {
                assert forall|m: int| 0 <= m < kv.methods.len() implies ((
                #[trigger] kv.methods[m]) matches BodyView::Bytecode(x) ==> x.wf()) by {
                    assert(methods@[m]@ == kv.methods[m]);
                }
            }
        }
        self.classes.push(class);
        proof {
            assert(self@ =~= old(self)@.push(kv));
            lemma_pairs_extend(inh.0, b@.fields, false, b@.fields.len() as int);
            lemma_pairs_extend(with_fields, b@.statics, true, b@.statics.len() as int);
            lemma_pushed_wf(old(self)@, kv);
        }
        id
    }

    /// The names that the reference at an index of a class's pool holds.
    fn names<'a>(&'a self, owner: ClassId, index: u16) -> (r: Option<
        (&'a str, &'a str, &'a str),
    >)
        ensures
            match names_in(self@, owner, index) {
                Some((c, n, d)) => r is Some && (r->0).0@ == c && (r->0).1@ == n && (r->0).2@ == d,
                None => r is None,
            },
    {
        match self.get(owner) {
            Some(k) => match k.constant_pool() {
                Some(pool) => ref_names(pool, index),
                None => None,
            },
            None => None,
        }
    }

    /// The class that a class reference names.
    pub fn resolve_class(&self, owner: ClassId, index: u16) -> (r: Option<ClassId>)
        requires
            registry_wf(self@),
        ensures
            r == resolved_class(self@, owner, index),
            r matches Some(c) ==> c.0 < self@.len(),
    {
        match self.get(owner) {
            Some(k) => match k.constant_pool() {
                Some(pool) => match pool.class_name(index) {
                    Some(name) => self.by_name(name),
                    None => None,
                },
                None => None,
            },
            None => None,
        }
    }

    /// The method that a class declares or inherits.
    fn find_method(&self, class: ClassId, name: &str, desc: &str) -> (r: Option<(ClassId, u16)>)
        requires
            registry_wf(self@),
        ensures
            r == method_in(self@, class, name@, desc@),
    {
        let mut cur = class;
        loop
            invariant
                registry_wf(self@),
                method_in(self@, class, name@, desc@) == method_in(self@, cur, name@, desc@),
            decreases cur.0,
        {
            match self.get(cur) {
                None => {
                    return None;
                },
                Some(k) => {
                    assert(self@[cur.0 as int].wf(cur.0 as int));
                    if let Some(m) = k.method_index(name, desc) {
                        return Some((cur, m));
                    }
                    match k.super_id {
                        Some(s) => {
                            cur = s;
                        },
                        None => {
                            return None;
                        },
                    }
                },
            }
        }
    }

    /// The static field that a class declares or inherits.
    fn find_static(&self, class: ClassId, name: &str, desc: &str) -> (r: Option<(ClassId, usize)>)
        requires
            registry_wf(self@),
        ensures
            r == static_in(self@, class, name@, desc@),
    {
        let mut cur = class;
        loop
            invariant
                registry_wf(self@),
                static_in(self@, class, name@, desc@) == static_in(self@, cur, name@, desc@),
            decreases cur.0,
        {
            match self.get(cur) {
                None => {
                    return None;
                },
                Some(k) => {
                    assert(self@[cur.0 as int].wf(cur.0 as int));
                    if let Some(s) = k.static_slot(name, desc) {
                        return Some((cur, s));
                    }
                    match k.super_id {
                        Some(s) => {
                            cur = s;
                        },
                        None => {
                            return None;
                        },
                    }
                },
            }
        }
    }

    /// The method that a reference of a static or special call names.
    pub fn resolve_method(&self, owner: ClassId, index: u16) -> (r: Option<Resolved>)
        requires
            registry_wf(self@),
        ensures
            r == resolved_method(self@, owner, index),
    {
        match self.names(owner, index) {
            None => None,
            Some((class, name, desc)) => match self.by_name(class) {
                Some(id) => match self.find_method(id, name, desc) {
                    Some((c, m)) => Some(Resolved::Method { class: c, method: m }),
                    None => None,
                },
                None => {
                    if same_text(class, "java/lang/Object") && same_text(name, "<init>") {
                        Some(Resolved::NoOp)
                    } else {
                        None
                    }
                },
            },
        }
    }

    /// The dispatch slot that a reference of a virtual call names.
    pub fn resolve_virtual(&self, owner: ClassId, index: u16) -> (r: Option<Resolved>)
        requires
            registry_wf(self@),
        ensures
            r == resolved_virtual(self@, owner, index),
    {
        match self.names(owner, index) {
            None => None,
            Some((class, name, desc)) => match self.by_name(class) {
                Some(id) => match self.classes[id.0 as usize].vslot(name, desc) {
                    Some(slot) => Some(Resolved::VirtualSlot { slot }),
                    None => None,
                },
                None => None,
            },
        }
    }

    /// The field that a reference names.
    pub fn resolve_field(&self, owner: ClassId, index: u16) -> (r: Option<Resolved>)
        requires
            registry_wf(self@),
        ensures
            r == resolved_field(self@, owner, index),
    {
        match self.names(owner, index) {
            None => None,
            Some((class, name, desc)) => match self.by_name(class) {
                Some(id) => match self.classes[id.0 as usize].field_slot(name, desc) {
                    Some(slot) => Some(Resolved::InstanceField { class: id, slot }),
                    None => match self.find_static(id, name, desc) {
                        Some((c, slot)) => Some(Resolved::StaticField { class: c, slot }),
                        None => None,
                    },
                },
                None => None,
            },
        }
    }

    /// Note where a class stands in its initialisation.
    pub fn set_init_state(&mut self, id: ClassId, s: InitState)
        requires
            registry_wf(old(self)@),
            id.0 < old(self)@.len(),
        ensures
            registry_wf(final(self)@),
            final(self)@ == with_init(old(self)@, id, s),
    {
        self.classes[id.0 as usize].set_init_state(s);
        proof {
            assert(self@ =~= with_init(old(self)@, id, s));
            lemma_touched_wf(old(self)@, self@, id.0 as int);
        }
    }

    /// Write a static field.
    pub fn set_static(&mut self, id: ClassId, slot: usize, v: Val128)
        requires
            registry_wf(old(self)@),
            id.0 < old(self)@.len(),
            slot < old(self)@[id.0 as int].statics.len(),
        ensures
            registry_wf(final(self)@),
            final(self)@ == with_static(old(self)@, id, slot as int, v),
    {
        self.classes[id.0 as usize].statics.set(slot, v);
        proof {
            assert(self@ =~= with_static(old(self)@, id, slot as int, v));
            lemma_touched_wf(old(self)@, self@, id.0 as int);
        }
    }
}

/// A registry stays well-formed when a class changes its state or what its statics hold.
pub proof fn lemma_touched_wf(a: RegistryView, b: RegistryView, k: int)
    requires
        registry_wf(a),
        a.len() == b.len(),
        0 <= k < a.len(),
        forall|i: int| 0 <= i < a.len() && i != k ==> (#[trigger] b[i]) == a[i],
        b[k] == (ClassView { init: b[k].init, statics: b[k].statics, ..a[k] }),
        b[k].statics.len() == a[k].statics.len(),
    ensures
        registry_wf(b),
{
    assert forall|i: int| 0 <= i < b.len() implies (#[trigger] b[i]).wf(i) by {
        assert(a[i].wf(i));
    }
    assert forall|i: int| 0 <= i < b.len() implies ((#[trigger] b[i]).super_id matches Some(s)
        ==> extends(b[s.0 as int], b[i])) by {
        assert(a[i].wf(i));
        assert(a[i].super_id matches Some(s) ==> extends(a[s.0 as int], a[i]));
    }
}

/// A registry with a class's initialisation state changed.
pub open spec fn with_init(r: RegistryView, id: ClassId, s: InitState) -> RegistryView {
    r.update(id.0 as int, ClassView { init: s, ..r[id.0 as int] })
}

/// A registry with a static field changed.
pub open spec fn with_static(r: RegistryView, id: ClassId, slot: int, v: Val128) -> RegistryView {
    let k = r[id.0 as int];
    r.update(id.0 as int, ClassView { statics: k.statics.update(slot, v), ..k })
}

impl Default for ClassRegistry {
    fn default() -> (r: ClassRegistry)
        ensures
            r@ == Seq::<ClassView>::empty(),
            registry_wf(r@),
    {
        ClassRegistry::new()
    }
}

/// The slot of a static field lies in the class's storage.
pub proof fn lemma_static_slot_below(
    r: RegistryView,
    class: ClassId,
    name: Seq<char>,
    desc: Seq<char>,
)
    requires
        registry_wf(r),
        class.0 < r.len(),
    ensures
        r[class.0 as int].static_slot(name, desc) matches Some(s) ==> s
            < r[class.0 as int].statics.len(),
{
    let k = r[class.0 as int];
    assert(k.wf(class.0 as int));
    lemma_slot_of_below(k.static_index, k.statics.len() as int, name, desc);
}

/// Whether the superclass of a class file is known: it has none, it is the root, or it is linked.
pub open spec fn super_ready(r: RegistryView, cf: ClassFileView) -> bool {
    match cf.super_name() {
        None => true,
        Some(s) => s == "java/lang/Object"@ || class_named(r, s) is Some,
    }
}

/// A registry with one more class file linked.
pub open spec fn with_file(r: RegistryView, cf: ClassFileView) -> RegistryView {
    r.push(class_from_file(r, cf, bodies_of(cf)))
}

/// One pass over the class files from `k` on: those whose superclass is known are linked, the
/// others are added to `still`.
pub open spec fn linked_pass(
    r: RegistryView,
    files: Seq<ClassFileView>,
    k: int,
    still: Seq<ClassFileView>,
) -> (RegistryView, Seq<ClassFileView>)
    decreases files.len() - k,
{
    if k >= files.len() {
        (r, still)
    } else if super_ready(r, files[k]) {
        linked_pass(with_file(r, files[k]), files, k + 1, still)
    } else {
        linked_pass(r, files, k + 1, still.push(files[k]))
    }
}

/// Passes over the class files until nothing is left or nothing more can be linked: the registry,
/// and what is left.
pub open spec fn linked_all(r: RegistryView, files: Seq<ClassFileView>) -> (
    RegistryView,
    Seq<ClassFileView>,
)
    decreases files.len(),
{
    if files.len() == 0 {
        (r, files)
    } else {
        let (r1, still) = linked_pass(r, files, 0, Seq::empty());
        if still.len() >= files.len() {
            (r1, still)
        } else {
            linked_all(r1, still)
        }
    }
}

/// A registry after linking class files, and whether all could be linked.
pub open spec fn link_result(r: RegistryView, files: Seq<ClassFileView>) -> (
    RegistryView,
    Result<(), LoaderErrorView>,
) {
    let (r1, left) = linked_all(r, files);
    (
        r1,
        if left.len() == 0 {
            Ok(())
        } else {
            Err(LoaderErrorView::CircularHierarchy(name_or_unknown(left[0])))
        },
    )
}

/// Class files as found: the path of each, with what reading it gave.
pub type FoundFiles = Seq<(Seq<char>, Option<Seq<u8>>)>;

/// A class file, parsed.
pub open spec fn parsed_file(file: (Seq<char>, Option<Seq<u8>>)) -> Result<
    ClassFileView,
    LoaderErrorView,
> {
    match file.1 {
        None => Err(LoaderErrorView::Io(file.0)),
        Some(bytes) => match class_of(bytes) {
            Err(_) => Err(LoaderErrorView::Malformed(file.0)),
            Ok(cf) => Ok(cf),
        },
    }
}

/// The class files from `k` on, parsed: the first that cannot be read or is malformed is reported.
pub open spec fn parsed_from(files: FoundFiles, k: int) -> Result<
    Seq<ClassFileView>,
    LoaderErrorView,
>
    decreases files.len() - k,
{
    if k >= files.len() {
        Ok(Seq::empty())
    } else {
        match parsed_file(files[k]) {
            Err(e) => Err(e),
            Ok(cf) => match parsed_from(files, k + 1) {
                Err(e) => Err(e),
                Ok(rest) => Ok(seq![cf] + rest),
            },
        }
    }
}

/// A registry after loading class files: nothing is linked unless all are read and well-formed.
pub open spec fn load_result(r: RegistryView, files: FoundFiles) -> (
    RegistryView,
    Result<(), LoaderErrorView>,
) {
    match parsed_from(files, 0) {
        Err(e) => (r, Err(e)),
        Ok(parsed) => link_result(r, parsed),
    }
}

/// What a list of found files holds.
pub open spec fn found_views(s: Seq<(String, Option<Vec<u8>>)>) -> FoundFiles {
    Seq::new(s.len(), |i: int| found_view(s[i]))
}

/// What a found file holds.
pub open spec fn found_view(f: (String, Option<Vec<u8>>)) -> (Seq<char>, Option<Seq<u8>>) {
    (
        f.0@,
        match f.1 {
            Some(b) => Some(b@),
            None => None,
        },
    )
}

/// Whether a result is the one that a specification gives.
pub open spec fn load_result_is(r: Result<(), LoaderError>, s: Result<(), LoaderErrorView>) -> bool {
    match s {
        Ok(_) => r is Ok,
        Err(e) => r is Err && r->Err_0@ == e,
    }
}

/// Parse a class file.
fn parse_file(file: &(String, Option<Vec<u8>>)) -> (r: Result<ClassFile, LoaderError>)
    ensures
        match parsed_file(found_view(*file)) {
            Ok(cf) => r is Ok && r->Ok_0@ == cf,
            Err(e) => r is Err && r->Err_0@ == e,
        },
{
    match &file.1 {
        None => Err(LoaderError::Io(file.0.as_str().to_string())),
        Some(bytes) => match parse(bytes.as_slice()) {
            Err(_) => Err(LoaderError::Malformed(file.0.as_str().to_string())),
            Ok(cf) => Ok(cf),
        },
    }
}

/// Parse every class file.
fn parse_all(files: &Vec<(String, Option<Vec<u8>>)>) -> (r: Result<Vec<ClassFile>, LoaderError>)
    ensures
        match parsed_from(found_views(files@), 0) {
            Ok(v) => r is Ok && file_views(r->Ok_0@) == v,
            Err(e) => r is Err && r->Err_0@ == e,
        },
        r is Ok ==> r->Ok_0@.len() == files@.len(),
{
    let ghost found = found_views(files@);
    let mut parsed: Vec<ClassFile> = Vec::new();
    let mut k: usize = 0;
    assert(file_views(parsed@) =~= Seq::empty());
    proof {
        if let Ok(rest) = parsed_from(found, 0) {
            assert(Seq::<ClassFileView>::empty() + rest =~= rest);
        }
    }
    while k < files.len()
        invariant
            k <= files@.len() == found.len(),
            found == found_views(files@),
            parsed@.len() == k,
            parsed_from(found, 0) == (match parsed_from(found, k as int) {
                Ok(rest) => Ok::<Seq<ClassFileView>, LoaderErrorView>(
                    file_views(parsed@) + rest,
                ),
                Err(e) => Err(e),
            }),
        decreases files@.len() - k,
    {
        let ghost before = file_views(parsed@);
        match parse_file(&files[k]) {
            Err(e) => {
                return Err(e);
            },
            Ok(cf) => {
                parsed.push(cf);
                proof {
                    assert(file_views(parsed@) =~= before.push(cf@));
                    if let Ok(rest) = parsed_from(found, k + 1) {
                        assert(before + (seq![cf@] + rest) =~= before.push(cf@) + rest);
                    }
                }
            },
        }
        k += 1;
    }
    assert(file_views(parsed@) + Seq::<ClassFileView>::empty() =~= file_views(parsed@));
    Ok(parsed)
}

impl ClassRegistry {
    /// Load and link the class files of a directory: the path of each, with what reading it gave.
    pub fn load_dir(&mut self, files: Vec<(String, Option<Vec<u8>>)>) -> (r: Result<
        (),
        LoaderError,
    >)
        requires
            registry_wf(old(self)@),
            old(self)@.len() + files@.len() <= u32::MAX,
        ensures
            registry_wf(final(self)@),
            final(self)@ == load_result(old(self)@, found_views(files@)).0,
            load_result_is(r, load_result(old(self)@, found_views(files@)).1),
    {
        match parse_all(&files) {
            Err(e) => Err(e),
            Ok(parsed) => self.link_all(parsed),
        }
    }
}

/// What a list of class files holds.
pub open spec fn file_views(s: Seq<ClassFile>) -> Seq<ClassFileView> {
    Seq::new(s.len(), |i: int| s[i]@)
}

impl ClassRegistry {
    /// Link every class file, superclasses before subclasses, so that field layout and the dispatch
    /// table can extend the superclass's. A superclass that never becomes ready is either missing
    /// or part of a cycle.
    pub fn link_all(&mut self, files: Vec<ClassFile>) -> (r: Result<(), LoaderError>)
        requires
            registry_wf(old(self)@),
            old(self)@.len() + files@.len() <= u32::MAX,
        ensures
            registry_wf(final(self)@),
            final(self)@ == link_result(old(self)@, file_views(files@)).0,
            load_result_is(r, link_result(old(self)@, file_views(files@)).1),
    {
        let ghost all = file_views(files@);
        let mut pending: Vec<ClassFile> = files;
        let mut progress = true;
        while progress && pending.len() > 0
            invariant
                registry_wf(self@),
                self@.len() + pending@.len() <= u32::MAX,
                all == file_views(files@),
                progress ==> linked_all(old(self)@, all) == linked_all(self@, file_views(pending@)),
                !progress ==> linked_all(old(self)@, all) == (self@, file_views(pending@))
                    && pending@.len() > 0,
            decreases
                pending@.len(),
                if progress {
                    1int
                } else {
                    0int
                },
        {
            let ghost files0 = file_views(pending@);
            let ghost reg0 = self@;
            let mut still: Vec<ClassFile> = Vec::new();
            let mut rest: Vec<ClassFile> = pending;
            let ghost mut k: int = 0;
            proof {
                assert(file_views(rest@) =~= files0.skip(0));
                assert(file_views(still@) =~= Seq::empty());
            }
            progress = false;
            while rest.len() > 0
                invariant
                    registry_wf(self@),
                    0 <= k <= files0.len(),
                    rest@.len() == files0.len() - k,
                    file_views(rest@) == files0.skip(k),
                    self@.len() + still@.len() + rest@.len() <= u32::MAX,
                    self@.len() + still@.len() == reg0.len() + k,
                    still@.len() <= k,
                    progress <==> still@.len() < k,
                    linked_pass(reg0, files0, 0, Seq::empty()) == linked_pass(
                        self@,
                        files0,
                        k,
                        file_views(still@),
                    ),
                decreases rest@.len(),
            {
                let ghost still0 = file_views(still@);
                let ghost rest0 = rest@;
                assert(file_views(rest@)[0] == files0[k]);
                let cf = rest.remove(0);
                assert(cf@ == files0[k]);
                proof {
                    assert forall|i: int| 0 <= i < rest@.len() implies (
                    #[trigger] file_views(rest@)[i]) == files0.skip(k + 1)[i] by {
                        assert(rest@[i] == rest0[i + 1]);
                        assert(file_views(rest0)[i + 1] == files0.skip(k)[i + 1]);
                    }
                    assert(file_views(rest@) =~= files0.skip(k + 1));
                }
                let ready = match cf.super_class_name() {
                    None => true,
                    Some(s) => same_text(s, "java/lang/Object") || self.by_name(s).is_some(),
                };
                if ready {
                    self.link_class(cf);
                    progress = true;
                } else {
                    still.push(cf);
                    assert(file_views(still@) =~= still0.push(files0[k]));
                }
                proof {
                    k = k + 1;
                }
            }
            pending = still;
        }
        if pending.len() > 0 {
            let name = match pending[0].this_class_name() {
                Some(n) => n.to_string(),
                None => "?".to_string(),
            };
            assert(file_views(pending@)[0] == pending@[0]@);
            return Err(LoaderError::CircularHierarchy(name));
        }
        proof {
            assert(file_views(pending@) =~= Seq::empty());
        }
        Ok(())
    }
}

/// Every class is a subclass of itself.
pub proof fn lemma_subclass_reflexive(r: RegistryView, a: ClassId)
    ensures
        descends_from(r, a, a),
{
}

/// A subclass of a subclass is a subclass.
pub proof fn lemma_subclass_transitive(r: RegistryView, a: ClassId, b: ClassId, c: ClassId)
    requires
        descends_from(r, a, b),
        descends_from(r, b, c),
    ensures
        descends_from(r, a, c),
    decreases a.0,
{
    if a != b {
        let s = class_at(r, a)->0.super_id->0;
        lemma_subclass_transitive(r, s, b, c);
    }
}

/// Ancestors come first: two classes that descend from each other are the same.
pub proof fn lemma_subclass_antisymmetric(r: RegistryView, a: ClassId, b: ClassId)
    requires
        descends_from(r, a, b),
        descends_from(r, b, a),
    ensures
        a == b,
{
    lemma_ancestors_come_first(r, a, b);
    lemma_ancestors_come_first(r, b, a);
}

/// An ancestor's number is not higher than its descendant's.
pub proof fn lemma_ancestors_come_first(r: RegistryView, sub: ClassId, sup: ClassId)
    requires
        descends_from(r, sub, sup),
    ensures
        sup.0 <= sub.0,
    decreases sub.0,
{
    if sub != sup {
        lemma_ancestors_come_first(r, class_at(r, sub)->0.super_id->0, sup);
    }
}

/// Dispatch slots are stable: whatever slot a signature has in a class, it has in every subclass,
/// where the table has an entry for it. Virtual calls can thus be resolved against the class named
/// at the call site and dispatched through the receiver's table.
pub proof fn lemma_dispatch_slots_are_stable(
    r: RegistryView,
    sub: ClassId,
    sup: ClassId,
    name: Seq<char>,
    desc: Seq<char>,
)
    requires
        registry_wf(r),
        sub.0 < r.len(),
        descends_from(r, sub, sup),
        r[sup.0 as int].vslot(name, desc) is Some,
    ensures
        r[sub.0 as int].vslot(name, desc) == r[sup.0 as int].vslot(name, desc),
        r[sub.0 as int].vslot(name, desc)->0 < r[sub.0 as int].vtable.len(),
    decreases sub.0,
{
    let k = r[sub.0 as int];
    assert(k.wf(sub.0 as int));
    if sub != sup {
        let s = k.super_id->0;
        lemma_dispatch_slots_are_stable(r, s, sup, name, desc);
        assert(extends(r[s.0 as int], k));
        assert(slot_of(r[s.0 as int].vindex, name, desc) is Some);
    }
    lemma_slot_of_below(k.vindex, k.vtable.len() as int, name, desc);
}

/// Inherited fields come first: an instance of a subclass starts with the fields of the superclass.
pub proof fn lemma_inherited_fields_come_first(r: RegistryView, sub: ClassId, sup: ClassId)
    requires
        registry_wf(r),
        sub.0 < r.len(),
        descends_from(r, sub, sup),
    ensures
        r[sup.0 as int].field_defaults.is_prefix_of(r[sub.0 as int].field_defaults),
    decreases sub.0,
{
    let k = r[sub.0 as int];
    assert(k.wf(sub.0 as int));
    if sub != sup {
        let s = k.super_id->0;
        lemma_inherited_fields_come_first(r, s, sup);
        assert(extends(r[s.0 as int], k));
    }
}

/// An override takes the inherited slot; any other slot keeps its entry.
pub proof fn lemma_override_is_in_place(
    d: DispatchView,
    name: Seq<char>,
    desc: Seq<char>,
    entry: VEntry,
)
    requires
        slot_of(d.vindex, name, desc) is Some,
        slots_below(d.vindex, d.vtable.len() as int),
    ensures
        ({
            let slot = slot_of(d.vindex, name, desc)->0 as int;
            let e = d.with(name, desc, entry);
            &&& e.vtable[slot] == entry
            &&& e.vtable.len() == d.vtable.len()
            &&& e.vindex == d.vindex
            &&& forall|i: int| 0 <= i < d.vtable.len() && i != slot ==> e.vtable[i] == d.vtable[i]
        }),
{
    lemma_slot_of_below(d.vindex, d.vtable.len() as int, name, desc);
}

/// Two signatures never share a dispatch slot.
pub proof fn lemma_dispatch_slots_are_distinct(
    k: ClassView,
    id: int,
    name: Seq<char>,
    desc: Seq<char>,
    other: Seq<char>,
    other_desc: Seq<char>,
)
    requires
        k.wf(id),
        k.vslot(name, desc) is Some,
        k.vslot(name, desc) == k.vslot(other, other_desc),
    ensures
        name == other,
        desc == other_desc,
{
    lemma_slot_has_entry(k.vindex, name, desc);
    lemma_slot_has_entry(k.vindex, other, other_desc);
}

pub proof fn lemma_slot_has_entry(table: Seq<MemberEntry>, name: Seq<char>, desc: Seq<char>)
    ensures
        slot_of(table, name, desc) matches Some(s) ==> exists|i: int|
            0 <= i < table.len() && #[trigger] table[i] == (name, desc, s),
    decreases table.len(),
{
    if table.len() > 0 {
        if table.last().0 == name && table.last().1 == desc {
            assert(table[table.len() - 1] == (name, desc, table.last().2));
        } else {
            lemma_slot_has_entry(table.drop_last(), name, desc);
            if let Some(s) = slot_of(table, name, desc) {
                let i = choose|i: int|
                    0 <= i < table.drop_last().len() && #[trigger] table.drop_last()[i] == (
                        name,
                        desc,
                        s,
                    );
                assert(table[i] == (name, desc, s));
            }
        }
    }
}

/// The signatures of a class file's virtual methods, by method.
pub open spec fn virtuals_of(cf: ClassFileView) -> Seq<Signature> {
    Seq::new(
        cf.methods.len(),
        |i: int|
            match signatures_of(cf)[i] {
                Some((name, desc)) => if is_virtual(
                    name,
                    static_flag(cf.methods[i].access_flags),
                ) {
                    Some((name, desc))
                } else {
                    None
                },
                None => None,
            },
    )
}

/// The signatures of a builtin class's virtual methods, by method.
pub open spec fn builtin_virtuals(b: BuiltinView) -> Seq<Signature> {
    Seq::new(
        b.methods.len(),
        |i: int|
            if is_virtual(b.methods[i].name, b.methods[i].is_static) {
                Some((b.methods[i].name, b.methods[i].descriptor))
            } else {
                None
            },
    )
}

/// The last of the first `k` virtual methods that has that signature.
pub open spec fn declared_last(
    virtuals: Seq<Signature>,
    k: int,
    name: Seq<char>,
    desc: Seq<char>,
) -> Option<int>
    decreases k,
{
    if k <= 0 {
        None
    } else if signature_is(virtuals, k - 1, name, desc) {
        Some(k - 1)
    } else {
        declared_last(virtuals, k - 1, name, desc)
    }
}

/// The entry of a signature that a superclass has an entry for: the superclass's, unless the class
/// declares a virtual method of the signature itself.
pub open spec fn entry_for(
    inherited: VEntry,
    virtuals: Seq<Signature>,
    id: ClassId,
    name: Seq<char>,
    desc: Seq<char>,
) -> VEntry {
    match declared_last(virtuals, virtuals.len() as int, name, desc) {
        Some(j) => VEntry { class: id, method: j as u16 },
        None => inherited,
    }
}

/// A dispatch table extended by the first `k` of the given virtual methods, of class `id`.
spec fn placed_upto(
    base: DispatchView,
    virtuals: Seq<Signature>,
    id: ClassId,
    k: int,
) -> DispatchView
    decreases k,
{
    if k <= 0 {
        base
    } else {
        let d = placed_upto(base, virtuals, id, k - 1);
        match virtuals[k - 1] {
            Some((name, desc)) => d.with(name, desc, VEntry { class: id, method: (k - 1) as u16 }),
            None => d,
        }
    }
}

proof fn lemma_placed_file(base: DispatchView, cf: ClassFileView, id: ClassId, k: int)
    requires
        k <= cf.methods.len(),
    ensures
        dispatch_upto(base, cf, id, k) == placed_upto(base, virtuals_of(cf), id, k),
    decreases k,
{
    if k > 0 {
        lemma_placed_file(base, cf, id, k - 1);
        assert(virtuals_of(cf)[k - 1] == match signatures_of(cf)[k - 1] {
            Some((name, desc)) => if is_virtual(
                name,
                static_flag(cf.methods[k - 1].access_flags),
            ) {
                Some((name, desc))
            } else {
                None
            },
            None => None,
        });
    }
}

proof fn lemma_placed_builtin(base: DispatchView, b: BuiltinView, id: ClassId, k: int)
    requires
        k <= b.methods.len(),
    ensures
        builtin_dispatch_upto(base, b, id, k) == placed_upto(base, builtin_virtuals(b), id, k),
    decreases k,
{
    if k > 0 {
        lemma_placed_builtin(base, b, id, k - 1);
    }
}

proof fn lemma_placed_entries(
    base: DispatchView,
    virtuals: Seq<Signature>,
    id: ClassId,
    k: int,
    name: Seq<char>,
    desc: Seq<char>,
)
    requires
        0 <= k <= virtuals.len(),
        slots_below(base.vindex, base.vtable.len() as int),
        slots_distinct(base.vindex),
        base.vtable.len() + k <= usize::MAX,
        slot_of(base.vindex, name, desc) is Some,
    ensures
        ({
            let d = placed_upto(base, virtuals, id, k);
            let slot = slot_of(base.vindex, name, desc)->0 as int;
            &&& slots_below(d.vindex, d.vtable.len() as int)
            &&& slots_distinct(d.vindex)
            &&& base.vtable.len() <= d.vtable.len() <= base.vtable.len() + k
            &&& slot_of(d.vindex, name, desc) == slot_of(base.vindex, name, desc)
            &&& 0 <= slot < base.vtable.len()
            &&& d.vtable[slot] == match declared_last(virtuals, k, name, desc) {
                Some(j) => VEntry { class: id, method: j as u16 },
                None => base.vtable[slot],
            }
        }),
    decreases k,
{
    lemma_slot_of_below(base.vindex, base.vtable.len() as int, name, desc);
    if k > 0 {
        lemma_placed_entries(base, virtuals, id, k - 1, name, desc);
        let d = placed_upto(base, virtuals, id, k - 1);
        if let Some((n, t)) = virtuals[k - 1] {
            let entry = VEntry { class: id, method: (k - 1) as u16 };
            let e = d.with(n, t, entry);
            lemma_slot_of_below(d.vindex, d.vtable.len() as int, n, t);
            lemma_dispatch_keeps_slots(d, n, t, entry);
            assert(slot_of(d.vindex, name, desc) is Some);
            if slot_of(d.vindex, n, t) is Some && (n, t) != (name, desc) {
                lemma_slot_has_entry(d.vindex, n, t);
                lemma_slot_has_entry(d.vindex, name, desc);
            }
        }
    }
}

/// Overriding, in a class file: where the superclass has a dispatch slot for a signature, the class
/// has the same slot for it. It holds the superclass's entry, unless the class declares a virtual
/// method of that signature; then it names the class, and the last such method.
pub proof fn lemma_linked_overrides_are_in_place(
    r: RegistryView,
    cf: ClassFileView,
    methods: Seq<BodyView>,
    name: Seq<char>,
    desc: Seq<char>,
)
    requires
        registry_wf(r),
        class_from_file(r, cf, methods).super_id matches Some(s) && {
            &&& r[s.0 as int].vslot(name, desc) is Some
            &&& r[s.0 as int].vtable.len() + cf.methods.len() <= usize::MAX
        },
    ensures
        ({
            let k = class_from_file(r, cf, methods);
            let s = k.super_id->0;
            let sup = r[s.0 as int];
            let slot = sup.vslot(name, desc)->0 as int;
            &&& k.vslot(name, desc) == sup.vslot(name, desc)
            &&& 0 <= slot < sup.vtable.len() <= k.vtable.len()
            &&& k.vtable[slot] == entry_for(
                sup.vtable[slot],
                virtuals_of(cf),
                ClassId(r.len() as u32),
                name,
                desc,
            )
        }),
{
    let k = class_from_file(r, cf, methods);
    let s = k.super_id->0;
    lemma_class_named(r, cf.super_name()->0);
    let sup = r[s.0 as int];
    assert(sup.wf(s.0 as int));
    let base = DispatchView { vtable: sup.vtable, vindex: sup.vindex };
    let id = ClassId(r.len() as u32);
    lemma_placed_file(base, cf, id, cf.methods.len() as int);
    lemma_placed_entries(base, virtuals_of(cf), id, cf.methods.len() as int, name, desc);
}

/// Overriding, in a builtin class, as in a class file.
pub proof fn lemma_builtin_overrides_are_in_place(
    r: RegistryView,
    b: BuiltinView,
    name: Seq<char>,
    desc: Seq<char>,
)
    requires
        registry_wf(r),
        class_from_builtin(r, b).super_id matches Some(s) && {
            &&& r[s.0 as int].vslot(name, desc) is Some
            &&& r[s.0 as int].vtable.len() + b.methods.len() <= usize::MAX
        },
    ensures
        ({
            let k = class_from_builtin(r, b);
            let s = k.super_id->0;
            let sup = r[s.0 as int];
            let slot = sup.vslot(name, desc)->0 as int;
            &&& k.vslot(name, desc) == sup.vslot(name, desc)
            &&& 0 <= slot < sup.vtable.len() <= k.vtable.len()
            &&& k.vtable[slot] == entry_for(
                sup.vtable[slot],
                builtin_virtuals(b),
                ClassId(r.len() as u32),
                name,
                desc,
            )
        }),
{
    let k = class_from_builtin(r, b);
    let s = k.super_id->0;
    lemma_class_named(r, b.super_name->0);
    let sup = r[s.0 as int];
    assert(sup.wf(s.0 as int));
    let base = DispatchView { vtable: sup.vtable, vindex: sup.vindex };
    let id = ClassId(r.len() as u32);
    lemma_placed_builtin(base, b, id, b.methods.len() as int);
    lemma_placed_entries(base, builtin_virtuals(b), id, b.methods.len() as int, name, desc);
}

/// The class linked last under a name is the one found.
pub proof fn lemma_linked_class_is_found(r: RegistryView, k: ClassView)
    ensures
        class_named(r.push(k), k.name) == Some(ClassId(r.len() as u32)),
{
}

} // verus!
