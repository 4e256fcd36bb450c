//! What linking promises, stated apart from how it is written: what fields start with and where they
//! lie, which methods are dispatched, what references resolve to, and what loading links.

use vstd::prelude::*;
use vstd::utf8::encode_utf8;
use crate::classfile::constant_pool::{pool_class_name, pool_utf8, Constant, ConstantView, PoolView};
use crate::classfile::error::ClassFileError;
use crate::classfile::{class_of, first_code, ClassFileView};
use crate::ids::ClassId;
use crate::ir::BuiltView;
use crate::native::BuiltinView;
use crate::loader::{
    bodies_of, class_from_builtin, class_from_file, class_named, default_of, descends_from,
    dispatch_upto, fields_upto, inherited, is_virtual, lemma_class_named,
    lemma_linked_overrides_are_in_place, lemma_slot_has_entry, lemma_slot_of_below,
    lemma_subclass_antisymmetric, link_result, linked_all, linked_pass, load_result, method_from,
    method_in, pairs_upto, parsed_file, parsed_from, reference_names, registry_wf, resolved_class,
    resolved_field, resolved_method, resolved_virtual, signature_is, slot_of, slots_below,
    slots_distinct, static_in, super_ready, with_file, BodyView, DispatchView, FoundFiles,
    LayoutView, LoaderErrorView, MemberEntry, RegistryView, Resolved, Signature, VEntry,
};
use crate::ssa::accepted::lemma_verified_methods_build;
use crate::ssa::built;
use crate::ssa::error::IrError;
use crate::ssa::meaning::has_type;
use crate::value::{group_values, lemma_packed_parts, Tag};
use crate::verify::laws::{lemma_static_is_a_bit, Described};
use crate::verify::{static_flag, verified};

verus! {

/// A field that nothing has written reads as the zero of its type: `null` for objects and arrays, and
/// else a number of its type without any bit set.
pub proof fn lemma_fields_start_at_zero(b: Seq<u8>, d: Described)
    requires
        d.stands_at(b, 0),
    ensures
        default_of(b).payload() == 0,
        has_type(default_of(b), d.denotes()),
        default_of(b).tag() == (if d.dims > 0 || d.held is Object {
            Tag::Null
        } else if d.held is Long {
            Tag::I64
        } else if d.held is Float {
            Tag::F32
        } else if d.held is Double {
            Tag::F64
        } else {
            Tag::I32
        }),
{
    broadcast use group_values;

    if d.dims > 0 {
        assert(b[0] == 0x5B);
    }
    lemma_packed_parts(0, Tag::Null);
    lemma_packed_parts(0, Tag::I32);
    lemma_packed_parts(0, Tag::I64);
    lemma_packed_parts(0, Tag::F32);
    lemma_packed_parts(0, Tag::F64);
}

/// Whether field `j` of a class file has that name and descriptor, and is static or not.
pub open spec fn declares_field(
    cf: ClassFileView,
    j: int,
    name: Seq<char>,
    desc: Seq<char>,
    of_class: bool,
) -> bool {
    &&& 0 <= j < cf.fields.len()
    &&& pool_utf8(cf.constant_pool, cf.fields[j].name_index) == Some(name)
    &&& pool_utf8(cf.constant_pool, cf.fields[j].descriptor_index) == Some(desc)
    &&& (cf.fields[j].access_flags / 8) % 2 == (if of_class {
        1int
    } else {
        0
    })
}

/// What a layout promises of a declared field.
spec fn laid_out(l: LayoutView, base: LayoutView, name: Seq<char>, desc: Seq<char>) -> bool {
    &&& slot_of(l.fields, name, desc) matches Some(s) && {
        &&& base.defaults.len() <= s < l.defaults.len()
        &&& l.defaults[s as int] == default_of(encode_utf8(desc))
    }
}

/// What a layout promises of a declared static field.
spec fn laid_out_static(l: LayoutView, name: Seq<char>, desc: Seq<char>) -> bool {
    &&& slot_of(l.static_index, name, desc) matches Some(s) && {
        &&& s < l.statics.len()
        &&& l.statics[s as int] == default_of(encode_utf8(desc))
    }
}

proof fn lemma_laid_out(
    base: LayoutView,
    cf: ClassFileView,
    k: int,
    j: int,
    name: Seq<char>,
    desc: Seq<char>,
    of_class: bool,
)
    requires
        0 <= k <= cf.fields.len(),
        base.defaults.len() + k <= 0x1_0000,
        base.statics.len() + k <= usize::MAX,
        declares_field(cf, j, name, desc, of_class),
        j < k,
    ensures
        ({
            let l = fields_upto(base, cf, k);
            if of_class {
                laid_out_static(l, name, desc)
            } else {
                laid_out(l, base, name, desc)
            }
        }),
        base.defaults.len() <= fields_upto(base, cf, k).defaults.len() <= base.defaults.len() + k,
        fields_upto(base, cf, k).statics.len() <= base.statics.len() + k,
    decreases k,
{
    let before = fields_upto(base, cf, k - 1);
    lemma_sizes_grow(base, cf, k - 1);
    lemma_sizes_grow(base, cf, k);
    let f = cf.fields[k - 1];
    lemma_static_is_a_bit(f.access_flags);
    if j < k - 1 {
        lemma_laid_out(base, cf, k - 1, j, name, desc, of_class);
    }
    let l = fields_upto(base, cf, k);
    if let (Some(n), Some(t)) = (
        pool_utf8(cf.constant_pool, f.name_index),
        pool_utf8(cf.constant_pool, f.descriptor_index),
    ) {
        if static_flag(f.access_flags) {
            assert(l.static_index.drop_last() =~= before.static_index);
        } else {
            assert(l.fields.drop_last() =~= before.fields);
        }
    }
}

proof fn lemma_sizes_grow(base: LayoutView, cf: ClassFileView, k: int)
    requires
        k <= cf.fields.len(),
    ensures
        base.defaults.len() <= fields_upto(base, cf, k).defaults.len(),
        base.statics.len() <= fields_upto(base, cf, k).statics.len(),
        0 <= k ==> {
            &&& fields_upto(base, cf, k).defaults.len() <= base.defaults.len() + k
            &&& fields_upto(base, cf, k).statics.len() <= base.statics.len() + k
        },
    decreases k,
{
    if k > 0 {
        lemma_sizes_grow(base, cf, k - 1);
    }
}

/// Every field that a class file declares has a place that starts with the default of its type: an
/// instance field behind everything that is inherited, a static field in the class's own storage.
pub proof fn lemma_declared_fields_have_places(
    r: RegistryView,
    cf: ClassFileView,
    methods: Seq<BodyView>,
    j: int,
    name: Seq<char>,
    desc: Seq<char>,
    of_class: bool,
)
    requires
        registry_wf(r),
        declares_field(cf, j, name, desc, of_class),
        cf.fields.len() <= 0xFFFF,
        class_from_file(r, cf, methods).super_id matches Some(s) ==> r[s.0 as int].field_defaults.len()
            + cf.fields.len() <= 0xFFFF,
    ensures
        ({
            let k = class_from_file(r, cf, methods);
            let start = default_of(encode_utf8(desc));
            if of_class {
                k.static_slot(name, desc) matches Some(s) && s < k.statics.len() && k.statics[s as int]
                    == start
            } else {
                k.field_slot(name, desc) matches Some(s) && k.field_base <= s
                    < k.field_defaults.len() && k.field_defaults[s as int] == start
            }
        }),
{
    let k = class_from_file(r, cf, methods);
    if let Some(s) = cf.super_name() {
        lemma_class_named(r, s);
    }
    let base = inherited(r, k.super_id).0;
    lemma_laid_out(base, cf, cf.fields.len() as int, j, name, desc, of_class);
}

proof fn lemma_undeclared(
    base: LayoutView,
    cf: ClassFileView,
    k: int,
    name: Seq<char>,
    desc: Seq<char>,
)
    requires
        k <= cf.fields.len(),
        forall|j: int| !declares_field(cf, j, name, desc, false),
    ensures
        slot_of(fields_upto(base, cf, k).fields, name, desc) == slot_of(base.fields, name, desc),
    decreases k,
{
    if k > 0 {
        lemma_undeclared(base, cf, k - 1, name, desc);
        let before = fields_upto(base, cf, k - 1);
        let f = cf.fields[k - 1];
        lemma_static_is_a_bit(f.access_flags);
        assert(!declares_field(cf, k - 1, name, desc, false));
        if let (Some(n), Some(t)) = (
            pool_utf8(cf.constant_pool, f.name_index),
            pool_utf8(cf.constant_pool, f.descriptor_index),
        ) {
            if !static_flag(f.access_flags) {
                assert(fields_upto(base, cf, k).fields.drop_last() =~= before.fields);
            }
        }
    }
}

/// A field that a class file does not declare is where the superclass has it, or nowhere.
pub proof fn lemma_inherited_fields_keep_their_places(
    r: RegistryView,
    cf: ClassFileView,
    methods: Seq<BodyView>,
    name: Seq<char>,
    desc: Seq<char>,
)
    requires
        registry_wf(r),
        forall|j: int| !declares_field(cf, j, name, desc, false),
    ensures
        ({
            let k = class_from_file(r, cf, methods);
            k.field_slot(name, desc) == (match k.super_id {
                Some(s) => r[s.0 as int].field_slot(name, desc),
                None => None,
            })
        }),
{
    let k = class_from_file(r, cf, methods);
    lemma_undeclared(inherited(r, k.super_id).0, cf, cf.fields.len() as int, name, desc);
}

proof fn lemma_apart(
    base: LayoutView,
    cf: ClassFileView,
    k: int,
    i: int,
    name: Seq<char>,
    desc: Seq<char>,
    j: int,
    other: Seq<char>,
    other_desc: Seq<char>,
)
    requires
        0 <= k <= cf.fields.len(),
        base.defaults.len() + k <= 0x1_0000,
        base.statics.len() + k <= usize::MAX,
        declares_field(cf, i, name, desc, false),
        declares_field(cf, j, other, other_desc, false),
        i < k,
        j < k,
        (name, desc) != (other, other_desc),
    ensures
        slot_of(fields_upto(base, cf, k).fields, name, desc) != slot_of(
            fields_upto(base, cf, k).fields,
            other,
            other_desc,
        ),
    decreases k,
{
    let before = fields_upto(base, cf, k - 1);
    lemma_sizes_grow(base, cf, k - 1);
    lemma_static_is_a_bit(cf.fields[k - 1].access_flags);
    lemma_static_is_a_bit(cf.fields[i].access_flags);
    lemma_static_is_a_bit(cf.fields[j].access_flags);
    let l = fields_upto(base, cf, k);
    if l.fields.len() > before.fields.len() {
        assert(l.fields.drop_last() =~= before.fields);
    }
    if i < k - 1 {
        lemma_laid_out(base, cf, k - 1, i, name, desc, false);
    }
    if j < k - 1 {
        lemma_laid_out(base, cf, k - 1, j, other, other_desc, false);
    }
    if i < k - 1 && j < k - 1 {
        lemma_apart(base, cf, k - 1, i, name, desc, j, other, other_desc);
    }
}

/// Two fields that a class file declares never share a place.
pub proof fn lemma_declared_fields_lie_apart(
    r: RegistryView,
    cf: ClassFileView,
    methods: Seq<BodyView>,
    i: int,
    name: Seq<char>,
    desc: Seq<char>,
    j: int,
    other: Seq<char>,
    other_desc: Seq<char>,
)
    requires
        registry_wf(r),
        declares_field(cf, i, name, desc, false),
        declares_field(cf, j, other, other_desc, false),
        (name, desc) != (other, other_desc),
        cf.fields.len() <= 0xFFFF,
        class_from_file(r, cf, methods).super_id matches Some(s) ==> r[s.0 as int].field_defaults.len()
            + cf.fields.len() <= 0xFFFF,
    ensures
        ({
            let k = class_from_file(r, cf, methods);
            k.field_slot(name, desc) != k.field_slot(other, other_desc)
        }),
{
    let k = class_from_file(r, cf, methods);
    let base = inherited(r, k.super_id).0;
    let n = cf.fields.len() as int;
    lemma_apart(base, cf, n, i, name, desc, j, other, other_desc);
    lemma_laid_out(base, cf, n, i, name, desc, false);
    lemma_laid_out(base, cf, n, j, other, other_desc, false);
}

/// The class of a name is the last one that has it.
pub proof fn lemma_named_class(r: RegistryView, name: Seq<char>)
    requires
        r.len() <= u32::MAX,
    ensures
        match class_named(r, name) {
            Some(id) => {
                &&& id.0 < r.len()
                &&& r[id.0 as int].name == name
                &&& forall|i: int| id.0 < i < r.len() ==> (#[trigger] r[i]).name != name
            },
            None => forall|i: int| 0 <= i < r.len() ==> (#[trigger] r[i]).name != name,
        },
    decreases r.len(),
{
    if r.len() > 0 {
        lemma_named_class(r.drop_last(), name);
        assert forall|i: int| 0 <= i < r.len() - 1 implies (#[trigger] r[i]) == r.drop_last()[i] by {}
        assert(r[r.len() - 1] == r.last());
    }
}

/// A class descends from itself, from its superclass, and from whatever its superclass descends from;
/// and from nothing else.
pub proof fn lemma_subclasses(r: RegistryView, sub: ClassId, sup: ClassId)
    requires
        registry_wf(r),
        sub.0 < r.len(),
    ensures
        descends_from(r, sub, sub),
        sub != sup ==> (descends_from(r, sub, sup) <==> (r[sub.0 as int].super_id matches Some(s)
            && descends_from(r, s, sup))),
{
    assert(r[sub.0 as int].wf(sub.0 as int));
}

/// The first of some signatures is the one that is found.
pub proof fn lemma_first_signature(sigs: Seq<Signature>, i: int, name: Seq<char>, desc: Seq<char>)
    requires
        0 <= i,
        sigs.len() <= 0x1_0000,
    ensures
        match method_from(sigs, i, name, desc) {
            Some(m) => {
                &&& i <= m < sigs.len()
                &&& sigs[m as int] == Some((name, desc))
                &&& forall|j: int| i <= j < m ==> (#[trigger] sigs[j]) != Some((name, desc))
            },
            None => forall|j: int|
                i <= j < sigs.len() ==> (#[trigger] sigs[j]) != Some((name, desc)),
        },
    decreases sigs.len() - i,
{
    if i < sigs.len() && !signature_is(sigs, i, name, desc) {
        lemma_first_signature(sigs, i + 1, name, desc);
    }
}

/// Whether a class declares a method itself.
pub open spec fn has_method(r: RegistryView, c: ClassId, name: Seq<char>, desc: Seq<char>) -> bool {
    exists|j: int|
        0 <= j < r[c.0 as int].signatures.len() && (#[trigger] r[c.0 as int].signatures[j]) == Some(
            (name, desc),
        )
}

/// A method is found in the nearest class, from the one asked for upwards, that declares it: the first
/// of that name and descriptor there. If none is found, none of them declares it.
pub proof fn lemma_methods_are_found(
    r: RegistryView,
    class: ClassId,
    name: Seq<char>,
    desc: Seq<char>,
)
    requires
        registry_wf(r),
        class.0 < r.len(),
        forall|i: int| 0 <= i < r.len() ==> (#[trigger] r[i]).signatures.len() <= 0x1_0000,
    ensures
        match method_in(r, class, name, desc) {
            Some((c, m)) => {
                &&& descends_from(r, class, c)
                &&& c.0 < r.len()
                &&& m < r[c.0 as int].signatures.len()
                &&& r[c.0 as int].signatures[m as int] == Some((name, desc))
                &&& forall|j: int|
                    0 <= j < m ==> (#[trigger] r[c.0 as int].signatures[j]) != Some((name, desc))
                &&& forall|d: ClassId|
                    d != c && #[trigger] descends_from(r, class, d) && descends_from(r, d, c)
                        ==> !has_method(r, d, name, desc)
            },
            None => forall|d: ClassId|
                d.0 < r.len() && #[trigger] descends_from(r, class, d) ==> !has_method(
                    r,
                    d,
                    name,
                    desc,
                ),
        },
    decreases class.0,
{
    let k = r[class.0 as int];
    assert(k.wf(class.0 as int));
    lemma_first_signature(k.signatures, 0, name, desc);
    if k.method_index(name, desc) is None {
        if let Some(s) = k.super_id {
            lemma_methods_are_found(r, s, name, desc);
            assert forall|d: ClassId|
                d != class && #[trigger] descends_from(r, class, d) implies descends_from(r, s, d) by {}
        }
    } else {
        let c = class;
        assert forall|d: ClassId|
            d != c && #[trigger] descends_from(r, class, d) && descends_from(
                r,
                d,
                c,
            ) implies !has_method(r, d, name, desc) by {
            lemma_subclass_antisymmetric(r, class, d);
        }
    }
}

/// A static field is found in the nearest class, from the one asked for upwards, that declares it.
pub proof fn lemma_statics_are_found(
    r: RegistryView,
    class: ClassId,
    name: Seq<char>,
    desc: Seq<char>,
)
    requires
        registry_wf(r),
        class.0 < r.len(),
    ensures
        match static_in(r, class, name, desc) {
            Some((c, s)) => {
                &&& descends_from(r, class, c)
                &&& c.0 < r.len()
                &&& r[c.0 as int].static_slot(name, desc) == Some(s)
                &&& forall|d: ClassId|
                    d != c && #[trigger] descends_from(r, class, d) && descends_from(r, d, c)
                        ==> r[d.0 as int].static_slot(name, desc) is None
            },
            None => forall|d: ClassId|
                d.0 < r.len() && #[trigger] descends_from(r, class, d) ==> r[d.0 as int].static_slot(
                    name,
                    desc,
                ) is None,
        },
    decreases class.0,
{
    let k = r[class.0 as int];
    assert(k.wf(class.0 as int));
    if k.static_slot(name, desc) is None {
        if let Some(s) = k.super_id {
            lemma_statics_are_found(r, s, name, desc);
            assert forall|d: ClassId|
                d != class && #[trigger] descends_from(r, class, d) implies descends_from(r, s, d) by {}
        }
    } else {
        let c = class;
        assert forall|d: ClassId|
            d != c && #[trigger] descends_from(r, class, d) && descends_from(
                r,
                d,
                c,
            ) implies r[d.0 as int].static_slot(name, desc) is None by {
            lemma_subclass_antisymmetric(r, class, d);
        }
    }
}

/// Whether method `j` of a class file is dispatched under that signature: it belongs to objects, and is
/// no initialiser.
pub open spec fn dispatches(cf: ClassFileView, j: int, name: Seq<char>, desc: Seq<char>) -> bool {
    &&& 0 <= j < cf.methods.len()
    &&& pool_utf8(cf.constant_pool, cf.methods[j].name_index) == Some(name)
    &&& pool_utf8(cf.constant_pool, cf.methods[j].descriptor_index) == Some(desc)
    &&& (cf.methods[j].access_flags / 8) % 2 == 0
    &&& name != "<init>"@
    &&& name != "<clinit>"@
}

proof fn lemma_dispatched(
    base: DispatchView,
    cf: ClassFileView,
    id: ClassId,
    k: int,
    name: Seq<char>,
    desc: Seq<char>,
)
    requires
        0 <= k <= cf.methods.len(),
        slots_below(base.vindex, base.vtable.len() as int),
        slots_distinct(base.vindex),
        base.vtable.len() + k <= usize::MAX,
        k <= 0x1_0000,
    ensures
        ({
            let d = dispatch_upto(base, cf, id, k);
            &&& slots_below(d.vindex, d.vtable.len() as int)
            &&& slots_distinct(d.vindex)
            &&& d.vtable.len() <= base.vtable.len() + k
            &&& (exists|j: int| j < k && dispatches(cf, j, name, desc)) ==> (slot_of(
                d.vindex,
                name,
                desc,
            ) matches Some(s) && s < d.vtable.len() && d.vtable[s as int].class == id
                && dispatches(cf, d.vtable[s as int].method as int, name, desc))
            &&& slot_of(d.vindex, name, desc) is Some ==> slot_of(base.vindex, name, desc) is Some
                || exists|j: int| j < k && dispatches(cf, j, name, desc)
        }),
    decreases k,
{
    if k > 0 {
        lemma_dispatched(base, cf, id, k - 1, name, desc);
        let m = cf.methods[k - 1];
        lemma_static_is_a_bit(m.access_flags);
        let d = dispatch_upto(base, cf, id, k - 1);
        let e = dispatch_upto(base, cf, id, k);
        if let (Some(n), Some(t)) = (
            pool_utf8(cf.constant_pool, m.name_index),
            pool_utf8(cf.constant_pool, m.descriptor_index),
        ) {
            if is_virtual(n, static_flag(m.access_flags)) {
                assert(dispatches(cf, k - 1, n, t));
                lemma_slot_of_below(d.vindex, d.vtable.len() as int, n, t);
                lemma_slot_of_below(d.vindex, d.vtable.len() as int, name, desc);
                if slot_of(d.vindex, n, t) is None {
                    assert(e.vindex.drop_last() =~= d.vindex);
                } else if (n, t) != (name, desc) {
                    lemma_slot_has_entry(d.vindex, n, t);
                    lemma_slot_has_entry(d.vindex, name, desc);
                }
                if (n, t) == (name, desc) {
                    assert(((k - 1) as u16) as int == k - 1);
                    let s = slot_of(e.vindex, name, desc)->0;
                    assert(e.vtable[s as int] == VEntry { class: id, method: (k - 1) as u16 });
                }
            }
        }
        if exists|j: int| j < k && dispatches(cf, j, name, desc) {
            let j = choose|j: int| j < k && dispatches(cf, j, name, desc);
            if j == k - 1 {
                assert(is_virtual(name, static_flag(m.access_flags)));
            }
        }
    }
}

/// Methods of objects are dispatched: a class has a slot for each that it declares, which leads to a
/// method of that signature of its own, and beyond what it inherits it has no others. Static methods
/// and initialisers have none.
pub proof fn lemma_declared_methods_are_dispatched(
    r: RegistryView,
    cf: ClassFileView,
    methods: Seq<BodyView>,
    name: Seq<char>,
    desc: Seq<char>,
)
    requires
        registry_wf(r),
        cf.methods.len() <= 0xFFFF,
        class_from_file(r, cf, methods).super_id matches Some(s) ==> r[s.0 as int].vtable.len()
            + cf.methods.len() <= usize::MAX,
    ensures
        ({
            let k = class_from_file(r, cf, methods);
            let declared = exists|j: int| dispatches(cf, j, name, desc);
            let above = k.super_id matches Some(s) && r[s.0 as int].vslot(name, desc) is Some;
            &&& k.vslot(name, desc) is Some <==> declared || above
            &&& declared ==> (k.vslot(name, desc) matches Some(s) && s < k.vtable.len()
                && k.vtable[s as int].class.0 == r.len() && dispatches(
                cf,
                k.vtable[s as int].method as int,
                name,
                desc,
            ))
        }),
{
    let k = class_from_file(r, cf, methods);
    if let Some(s) = cf.super_name() {
        lemma_class_named(r, s);
    }
    let base = inherited(r, k.super_id).1;
    if let Some(s) = k.super_id {
        assert(r[s.0 as int].wf(s.0 as int));
        lemma_slot_of_below(base.vindex, base.vtable.len() as int, name, desc);
        if r[s.0 as int].vslot(name, desc) is Some {
            lemma_linked_overrides_are_in_place(r, cf, methods, name, desc);
        }
    }
    let id = ClassId(r.len() as u32);
    lemma_dispatched(base, cf, id, cf.methods.len() as int, name, desc);
    if exists|j: int| dispatches(cf, j, name, desc) {
        let j = choose|j: int| dispatches(cf, j, name, desc);
        assert(j < cf.methods.len() && dispatches(cf, j, name, desc));
    }
}

/// Whether a class file is linked.
pub open spec fn is_linked(r: RegistryView, cf: ClassFileView) -> bool {
    exists|i: int| 0 <= i < r.len() && (#[trigger] r[i]).cf == Some(cf)
}

/// Whether the superclass of a class file is missing: it names one other than the root, and no class
/// of that name is linked.
pub open spec fn lacks_superclass(r: RegistryView, cf: ClassFileView) -> bool {
    cf.super_name() matches Some(s) && s != "java/lang/Object"@ && forall|i: int|
        0 <= i < r.len() ==> (#[trigger] r[i]).name != s
}

proof fn lemma_still_linked(a: RegistryView, b: RegistryView, cf: ClassFileView)
    requires
        a.is_prefix_of(b),
        is_linked(a, cf),
    ensures
        is_linked(b, cf),
{
    let i = choose|i: int| 0 <= i < a.len() && (#[trigger] a[i]).cf == Some(cf);
    assert(b[i] == a[i]);
}

proof fn lemma_pass_links(
    r: RegistryView,
    files: Seq<ClassFileView>,
    k: int,
    still: Seq<ClassFileView>,
)
    requires
        0 <= k <= files.len(),
    ensures
        ({
            let (r1, left) = linked_pass(r, files, k, still);
            &&& r.is_prefix_of(r1)
            &&& r1.len() + left.len() == r.len() + still.len() + files.len() - k
            &&& still.is_prefix_of(left)
            &&& forall|j: int|
                still.len() <= j < left.len() ==> exists|i: int|
                    k <= i < files.len() && files[i] == #[trigger] left[j]
            &&& forall|i: int|
                k <= i < files.len() ==> is_linked(r1, #[trigger] files[i]) || left.contains(
                    files[i],
                )
            &&& r1 == r ==> forall|i: int|
                k <= i < files.len() ==> !super_ready(r, #[trigger] files[i])
        }),
    decreases files.len() - k,
{
    if k < files.len() {
        let f = files[k];
        let (r1, left) = linked_pass(r, files, k, still);
        if super_ready(r, f) {
            let r0 = with_file(r, f);
            lemma_pass_links(r0, files, k + 1, still);
            assert(r0[r.len() as int].cf == Some(f));
            lemma_still_linked(r0, r1, f);
            assert(r.is_prefix_of(r1)) by {
                assert forall|i: int| 0 <= i < r.len() implies r[i] == r1[i] by {
                    assert(r0[i] == r1[i]);
                }
            }
        } else {
            lemma_pass_links(r, files, k + 1, still.push(f));
            assert(still.is_prefix_of(left)) by {
                assert forall|i: int| 0 <= i < still.len() implies still[i] == left[i] by {
                    assert(still.push(f)[i] == left[i]);
                }
            }
            assert(left[still.len() as int] == still.push(f)[still.len() as int]);
            assert(left.contains(f));
            assert forall|j: int| still.len() <= j < left.len() implies exists|i: int|
                k <= i < files.len() && files[i] == #[trigger] left[j] by {
                if j == still.len() {
                    assert(files[k] == left[j]);
                } else {
                    let i = choose|i: int| k + 1 <= i < files.len() && files[i] == left[j];
                    assert(files[i] == left[j]);
                }
            }
        }
    }
}

proof fn lemma_all_link(r: RegistryView, files: Seq<ClassFileView>)
    ensures
        ({
            let (r1, left) = linked_all(r, files);
            &&& r.is_prefix_of(r1)
            &&& r1.len() + left.len() == r.len() + files.len()
            &&& forall|j: int| 0 <= j < left.len() ==> files.contains(#[trigger] left[j])
            &&& forall|j: int| 0 <= j < left.len() ==> !super_ready(r1, #[trigger] left[j])
            &&& forall|i: int|
                0 <= i < files.len() ==> is_linked(r1, #[trigger] files[i]) || left.contains(
                    files[i],
                )
        }),
    decreases files.len(),
{
    if files.len() > 0 {
        let (r0, still) = linked_pass(r, files, 0, Seq::empty());
        lemma_pass_links(r, files, 0, Seq::empty());
        let (r1, left) = linked_all(r, files);
        if still.len() < files.len() {
            lemma_all_link(r0, still);
            assert forall|i: int| 0 <= i < files.len() implies is_linked(
                r1,
                #[trigger] files[i],
            ) || left.contains(files[i]) by {
                if is_linked(r0, files[i]) {
                    lemma_still_linked(r0, r1, files[i]);
                } else {
                    let j = still.index_of(files[i]);
                    assert(still[j] == files[i]);
                }
            }
            assert forall|j: int| 0 <= j < left.len() implies files.contains(#[trigger] left[j]) by {
                assert(still.contains(left[j]));
                let a = still.index_of(left[j]);
                assert(still[a] == left[j]);
                let b = choose|i: int| 0 <= i < files.len() && files[i] == still[a];
                assert(files[b] == left[j]);
            }
            assert(r.is_prefix_of(r1)) by {
                assert forall|i: int| 0 <= i < r.len() implies r[i] == r1[i] by {
                    assert(r0[i] == r1[i]);
                }
            }
        } else {
            assert(r1 =~= r);
            assert forall|j: int| 0 <= j < left.len() implies files.contains(#[trigger] left[j]) by {
                let b = choose|i: int| 0 <= i < files.len() && files[i] == left[j];
                assert(files[b] == left[j]);
            }
            assert forall|j: int| 0 <= j < left.len() implies !super_ready(r1, #[trigger] left[j]) by {
                let b = choose|i: int| 0 <= i < files.len() && files[i] == left[j];
                assert(!super_ready(r, files[b]));
            }
        }
    }
}

/// Linking class files links them all, behind what was there, or names one whose superclass cannot be
/// had: one that is among them, and lacks its superclass even when all that can be linked is.
pub proof fn lemma_linking_links_everything(r: RegistryView, files: Seq<ClassFileView>)
    requires
        r.len() + files.len() <= u32::MAX,
    ensures
        ({
            let (r1, result) = link_result(r, files);
            &&& r.is_prefix_of(r1)
            &&& result is Ok ==> r1.len() == r.len() + files.len()
            &&& result is Ok ==> forall|i: int|
                0 <= i < files.len() ==> is_linked(r1, #[trigger] files[i])
            &&& result matches Err(e) ==> exists|i: int|
                0 <= i < files.len() && lacks_superclass(r1, #[trigger] files[i]) && e
                    == LoaderErrorView::CircularHierarchy(
                    match files[i].this_name() {
                        Some(n) => n,
                        None => "?"@,
                    },
                )
        }),
{
    lemma_all_link(r, files);
    let (r1, left) = linked_all(r, files);
    if left.len() > 0 {
        assert(files.contains(left[0]));
        let i = files.index_of(left[0]);
        assert(!super_ready(r1, left[0]));
        lemma_named_class(r1, left[0].super_name()->0);
        assert(files[i] == left[0]);
        assert(lacks_superclass(r1, files[i]));
    } else {
        assert forall|i: int| 0 <= i < files.len() implies is_linked(r1, #[trigger] files[i]) by {}
    }
}

/// Whether a found file could be read and parsed, as what.
pub open spec fn is_good(file: (Seq<char>, Option<Seq<u8>>), cf: ClassFileView) -> bool {
    file.1 matches Some(b) && class_of(b) == Ok::<ClassFileView, ClassFileError>(cf)
}

/// Whether a found file could not be read or parsed, and that is what is wrong with it.
pub open spec fn is_bad(file: (Seq<char>, Option<Seq<u8>>), e: LoaderErrorView) -> bool {
    match file.1 {
        None => e == LoaderErrorView::Io(file.0),
        Some(b) => class_of(b) is Err && e == LoaderErrorView::Malformed(file.0),
    }
}

proof fn lemma_file_parsed(file: (Seq<char>, Option<Seq<u8>>))
    ensures
        match parsed_file(file) {
            Ok(cf) => is_good(file, cf) && forall|e: LoaderErrorView| !is_bad(file, e),
            Err(e) => is_bad(file, e) && forall|cf: ClassFileView| !is_good(file, cf),
        },
{
}

spec fn all_good(files: FoundFiles, k: int, parsed: Seq<ClassFileView>) -> bool {
    &&& parsed.len() == files.len() - k
    &&& forall|i: int| k <= i < files.len() ==> parsed_file(#[trigger] files[i]) == Ok::<
        ClassFileView,
        LoaderErrorView,
    >(parsed[i - k])
}

spec fn one_bad(files: FoundFiles, k: int, e: LoaderErrorView) -> bool {
    exists|i: int| k <= i < files.len() && parsed_file(#[trigger] files[i]) == Err::<
        ClassFileView,
        LoaderErrorView,
    >(e)
}

#[verifier::rlimit(50)]
proof fn lemma_parsed_from(files: FoundFiles, k: int)
    requires
        0 <= k <= files.len(),
    ensures
        match parsed_from(files, k) {
            Ok(parsed) => all_good(files, k, parsed),
            Err(e) => one_bad(files, k, e),
        },
    decreases files.len() - k,
{
    if k < files.len() {
        lemma_parsed_from(files, k + 1);
        let first = parsed_file(files[k]);
        if let (Ok(cf), Ok(rest)) = (first, parsed_from(files, k + 1)) {
            let parsed = seq![cf] + rest;
            assert forall|i: int| k <= i < files.len() implies parsed_file(#[trigger] files[i])
                == Ok::<ClassFileView, LoaderErrorView>(parsed[i - k]) by {
                if i > k {
                    assert(parsed[i - k] == rest[i - k - 1]);
                }
            }
        }
    }
}

/// Loading is all or nothing: if a class file cannot be read or is malformed nothing is linked, and
/// the error names such a file; else every one of them is parsed and linked, or the error is one of
/// linking.
pub proof fn lemma_loading_is_all_or_nothing(
    r: RegistryView,
    files: FoundFiles,
    parsed: Seq<ClassFileView>,
)
    requires
        parsed.len() == files.len(),
    ensures
        ({
            let (r1, result) = load_result(r, files);
            let all = forall|i: int| 0 <= i < files.len() ==> is_good(#[trigger] files[i], parsed[i]);
            &&& all ==> (r1, result) == link_result(r, parsed)
            &&& (exists|i: int, e: LoaderErrorView|
                0 <= i < files.len() && #[trigger] is_bad(files[i], e)) ==> r1 == r && (
            result matches Err(e) && exists|i: int|
                0 <= i < files.len() && is_bad(#[trigger] files[i], e))
        }),
{
    lemma_parsed_from(files, 0);
    assert forall|i: int| 0 <= i < files.len() implies match parsed_file(#[trigger] files[i]) {
        Ok(cf) => is_good(files[i], cf) && forall|e: LoaderErrorView| !is_bad(files[i], e),
        Err(e) => is_bad(files[i], e) && forall|cf: ClassFileView| !is_good(files[i], cf),
    } by {
        lemma_file_parsed(files[i]);
    }
    match parsed_from(files, 0) {
        Ok(p) => {
            if forall|i: int| 0 <= i < files.len() ==> is_good(#[trigger] files[i], parsed[i]) {
                assert forall|i: int| 0 <= i < files.len() implies p[i] == parsed[i] by {
                    assert(is_good(files[i], parsed[i]));
                }
                assert(p =~= parsed);
            }
        },
        Err(e) => {
            let i = choose|i: int| 0 <= i < files.len() && parsed_file(#[trigger] files[i]) == Err::<
                ClassFileView,
                LoaderErrorView,
            >(e);
            assert(is_bad(files[i], e));
            assert(!is_good(files[i], parsed[i]));
        },
    }
}

/// Methods that verify and can be built run as bytecode; all others have no body.
pub proof fn lemma_verified_methods_have_bodies(cf: ClassFileView, i: int)
    requires
        0 <= i < cf.methods.len(),
    ensures
        ({
            let body = bodies_of(cf)[i];
            let v = verified(cf, cf.methods[i]);
            &&& v is Err ==> body is Absent
            &&& v is Ok && first_code(cf.methods[i].attributes)->0.code.len() <= u32::MAX && (
            forall|e: IrError| !v->Ok_0.excuses(cf.constant_pool, e)) ==> body is Bytecode
            &&& body matches BodyView::Bytecode(b) ==> v is Ok && built(v->Ok_0, cf.constant_pool)
                == Ok::<BuiltView, IrError>(b)
        }),
{
    let v = verified(cf, cf.methods[i]);
    if v is Ok && first_code(cf.methods[i].attributes)->0.code.len() <= u32::MAX {
        lemma_verified_methods_build(cf, cf.methods[i]);
    }
}

/// Whether an index of a pool holds a text.
pub open spec fn is_text_at(pool: PoolView, index: u16, text: Seq<char>) -> bool {
    index < pool.len() && pool[index as int] == ConstantView::Utf8(text)
}

/// Whether an index of a pool names a class.
pub open spec fn is_class_at(pool: PoolView, index: u16, name: Seq<char>) -> bool {
    &&& index < pool.len()
    &&& pool[index as int] matches ConstantView::Plain(Constant::Class { name_index })
        && is_text_at(pool, name_index, name)
}

/// Whether an index of a pool refers to a member of a class.
pub open spec fn refers_to(
    pool: PoolView,
    index: u16,
    class: Seq<char>,
    name: Seq<char>,
    desc: Seq<char>,
) -> bool {
    exists|c: u16, nt: u16|
        #![trigger is_class_at(pool, c, class), pool[nt as int]]
        {
            &&& index < pool.len()
            &&& {
                ||| pool[index as int] == ConstantView::Plain(
                    Constant::FieldRef { class_index: c, name_and_type_index: nt },
                )
                ||| pool[index as int] == ConstantView::Plain(
                    Constant::MethodRef { class_index: c, name_and_type_index: nt },
                )
                ||| pool[index as int] == ConstantView::Plain(
                    Constant::InterfaceMethodRef { class_index: c, name_and_type_index: nt },
                )
            }
            &&& is_class_at(pool, c, class)
            &&& nt < pool.len()
            &&& pool[nt as int] matches ConstantView::Plain(
                Constant::NameAndType { name_index, descriptor_index },
            ) && is_text_at(pool, name_index, name) && is_text_at(pool, descriptor_index, desc)
        }
}

/// Names of references are those that the pool spells out.
pub proof fn lemma_references_name(
    pool: PoolView,
    index: u16,
    class: Seq<char>,
    name: Seq<char>,
    desc: Seq<char>,
)
    ensures
        refers_to(pool, index, class, name, desc) <==> reference_names(pool, index) == Some(
            (class, name, desc),
        ),
        is_class_at(pool, index, class) <==> pool_class_name(pool, index) == Some(class),
        is_text_at(pool, index, name) <==> pool_utf8(pool, index) == Some(name),
{
    if refers_to(pool, index, class, name, desc) {
        let (c, nt) = choose|c: u16, nt: u16|
            #![trigger is_class_at(pool, c, class), pool[nt as int]]
            {
                &&& index < pool.len()
                &&& {
                    ||| pool[index as int] == ConstantView::Plain(
                        Constant::FieldRef { class_index: c, name_and_type_index: nt },
                    )
                    ||| pool[index as int] == ConstantView::Plain(
                        Constant::MethodRef { class_index: c, name_and_type_index: nt },
                    )
                    ||| pool[index as int] == ConstantView::Plain(
                        Constant::InterfaceMethodRef { class_index: c, name_and_type_index: nt },
                    )
                }
                &&& is_class_at(pool, c, class)
                &&& nt < pool.len()
                &&& pool[nt as int] matches ConstantView::Plain(
                    Constant::NameAndType { name_index, descriptor_index },
                ) && is_text_at(pool, name_index, name) && is_text_at(pool, descriptor_index, desc)
            };
        assert(reference_names(pool, index) == Some((class, name, desc)));
    }
    if reference_names(pool, index) == Some((class, name, desc)) {
        let (c, nt) = match pool[index as int] {
            ConstantView::Plain(Constant::MethodRef { class_index, name_and_type_index }) => (
                class_index,
                name_and_type_index,
            ),
            ConstantView::Plain(
                Constant::InterfaceMethodRef { class_index, name_and_type_index },
            ) => (class_index, name_and_type_index),
            ConstantView::Plain(Constant::FieldRef { class_index, name_and_type_index }) => (
                class_index,
                name_and_type_index,
            ),
            _ => (0, 0),
        };
        assert(is_class_at(pool, c, class));
        assert(nt < pool.len() && pool[nt as int] is Plain);
        assert(refers_to(pool, index, class, name, desc));
    }
}

/// References resolve against the class that they name, the last one linked under that name. A field is
/// an instance's if instances of the class have it, and else the static one that the class declares or
/// inherits; a call by receiver goes through the slot that the class has for the signature; any other
/// call goes to the method that the class declares or inherits. Only the constructor of a root that is
/// not there resolves to nothing to run.
pub proof fn lemma_references_resolve(
    r: RegistryView,
    owner: ClassId,
    index: u16,
    pool: PoolView,
    class: Seq<char>,
    name: Seq<char>,
    desc: Seq<char>,
)
    requires
        registry_wf(r),
        owner.0 < r.len(),
        r[owner.0 as int].cf is Some,
        r[owner.0 as int].cf->0.constant_pool == pool,
        refers_to(pool, index, class, name, desc),
    ensures
        forall|id: ClassId|
            id.0 < r.len() && (#[trigger] r[id.0 as int]).name == class && (forall|i: int|
                id.0 < i < r.len() ==> (#[trigger] r[i]).name != class) ==> {
                let k = r[id.0 as int];
                &&& resolved_field(r, owner, index) == (match k.field_slot(name, desc) {
                    Some(slot) => Some(Resolved::InstanceField { class: id, slot }),
                    None => match static_in(r, id, name, desc) {
                        Some((class, slot)) => Some(Resolved::StaticField { class, slot }),
                        None => None,
                    },
                })
                &&& resolved_virtual(r, owner, index) == (match k.vslot(name, desc) {
                    Some(slot) => Some(Resolved::VirtualSlot { slot }),
                    None => None,
                })
                &&& resolved_method(r, owner, index) == (match method_in(r, id, name, desc) {
                    Some((class, method)) => Some(Resolved::Method { class, method }),
                    None => None,
                })
            },
        (forall|i: int| 0 <= i < r.len() ==> (#[trigger] r[i]).name != class) ==> {
            &&& resolved_field(r, owner, index) is None
            &&& resolved_virtual(r, owner, index) is None
            &&& resolved_method(r, owner, index) == (if class == "java/lang/Object"@ && name
                == "<init>"@ {
                Some(Resolved::NoOp)
            } else {
                None
            })
        },
{
    lemma_references_name(pool, index, class, name, desc);
    lemma_named_class(r, class);
    assert forall|id: ClassId|
        id.0 < r.len() && (#[trigger] r[id.0 as int]).name == class && (forall|i: int|
            id.0 < i < r.len() ==> (#[trigger] r[i]).name != class) implies class_named(r, class)
        == Some(id) by {
        if let Some(c) = class_named(r, class) {
            assert(r[c.0 as int].name == class);
        }
    }
}

/// A class reference resolves to the last class linked under the name that it spells out.
pub proof fn lemma_class_references_resolve(
    r: RegistryView,
    owner: ClassId,
    index: u16,
    pool: PoolView,
    name: Seq<char>,
)
    requires
        registry_wf(r),
        owner.0 < r.len(),
        r[owner.0 as int].cf is Some,
        r[owner.0 as int].cf->0.constant_pool == pool,
        is_class_at(pool, index, name),
    ensures
        match resolved_class(r, owner, index) {
            Some(id) => {
                &&& id.0 < r.len()
                &&& r[id.0 as int].name == name
                &&& forall|i: int| id.0 < i < r.len() ==> (#[trigger] r[i]).name != name
            },
            None => forall|i: int| 0 <= i < r.len() ==> (#[trigger] r[i]).name != name,
        },
{
    lemma_references_name(pool, index, name, name, name);
    lemma_named_class(r, name);
}

/// A linked class is what its file says: of its name, behind its superclass, with its methods by their
/// signatures and bodies, and not initialised yet. Its own fields start behind what it inherits.
pub proof fn lemma_linked_classes_are_their_files(
    r: RegistryView,
    cf: ClassFileView,
    methods: Seq<BodyView>,
    j: int,
)
    requires
        registry_wf(r),
    ensures
        ({
            let k = class_from_file(r, cf, methods);
            &&& k.name == (match cf.this_name() {
                Some(n) => n,
                None => "?"@,
            })
            &&& k.cf == Some(cf)
            &&& k.methods == methods
            &&& k.init is Loaded
            &&& k.signatures.len() == cf.methods.len()
            &&& 0 <= j < cf.methods.len() ==> (k.signatures[j] matches Some((name, desc)) ==> {
                &&& is_text_at(cf.constant_pool, cf.methods[j].name_index, name)
                &&& is_text_at(cf.constant_pool, cf.methods[j].descriptor_index, desc)
            })
            &&& k.super_id matches Some(s) ==> {
                &&& s.0 < r.len()
                &&& cf.super_name() == Some(r[s.0 as int].name)
                &&& forall|i: int|
                    s.0 < i < r.len() ==> (#[trigger] r[i]).name != r[s.0 as int].name
                &&& r[s.0 as int].field_defaults.len() <= 0xFFFF ==> k.field_base
                    == r[s.0 as int].field_defaults.len()
            }
            &&& k.super_id is None ==> k.field_base == 0
            &&& k.super_id is None ==> (cf.super_name() matches Some(n) ==> forall|i: int|
                0 <= i < r.len() ==> (#[trigger] r[i]).name != n)
        }),
{
    if let Some(s) = cf.super_name() {
        lemma_named_class(r, s);
    }
}

/// The name of a class file's class, and of its superclass, are those that its pool spells out; index 0
/// means that there is no superclass.
pub proof fn lemma_class_files_name_classes(cf: ClassFileView, name: Seq<char>)
    ensures
        cf.this_name() == Some(name) <==> is_class_at(cf.constant_pool, cf.this_class, name),
        cf.super_name() == Some(name) <==> cf.super_class != 0 && is_class_at(
            cf.constant_pool,
            cf.super_class,
            name,
        ),
{
    lemma_references_name(cf.constant_pool, cf.this_class, name, name, name);
    lemma_references_name(cf.constant_pool, cf.super_class, name, name, name);
}

/// A builtin class is what it is described as: of its name, behind its superclass, with native methods
/// by their signatures, and not initialised yet.
pub proof fn lemma_registered_classes_are_their_descriptions(r: RegistryView, b: BuiltinView, j: int)
    requires
        registry_wf(r),
    ensures
        ({
            let k = class_from_builtin(r, b);
            &&& k.name == b.name
            &&& k.cf is None
            &&& k.init is Loaded
            &&& k.methods.len() == b.methods.len()
            &&& k.signatures.len() == b.methods.len()
            &&& 0 <= j < b.methods.len() ==> {
                &&& k.methods[j] == BodyView::Native(b.methods[j].body)
                &&& k.signatures[j] == Some((b.methods[j].name, b.methods[j].descriptor))
            }
            &&& k.super_id matches Some(s) ==> s.0 < r.len() && b.super_name == Some(
                r[s.0 as int].name,
            )
            &&& k.super_id is None ==> (b.super_name matches Some(n) ==> forall|i: int|
                0 <= i < r.len() ==> (#[trigger] r[i]).name != n)
        }),
{
    if let Some(s) = b.super_name {
        lemma_named_class(r, s);
    }
}

proof fn lemma_pairs_laid_out(
    base: LayoutView,
    pairs: Seq<(Seq<char>, Seq<char>)>,
    k: int,
    j: int,
)
    requires
        0 <= k <= pairs.len(),
        0 <= j < k,
        base.statics.len() + k <= usize::MAX,
    ensures
        ({
            let l = pairs_upto(base, pairs, true, k);
            &&& l.statics.len() == base.statics.len() + k
            &&& l.defaults == base.defaults
            &&& l.fields == base.fields
            &&& slot_of(l.static_index, pairs[j].0, pairs[j].1) matches Some(s) && {
                &&& s < l.statics.len()
                &&& l.statics[s as int] == default_of(encode_utf8(pairs[j].1))
            }
        }),
    decreases k,
{
    let before = pairs_upto(base, pairs, true, k - 1);
    let l = pairs_upto(base, pairs, true, k);
    if j < k - 1 {
        lemma_pairs_laid_out(base, pairs, k - 1, j);
    } else if k > 1 {
        lemma_pairs_laid_out(base, pairs, k - 1, 0);
    }
    assert(l.static_index.drop_last() =~= before.static_index);
}

/// Every static field of a builtin class has a place that starts with the default of its type.
pub proof fn lemma_builtin_statics_have_places(r: RegistryView, b: BuiltinView, j: int)
    requires
        registry_wf(r),
        0 <= j < b.statics.len() <= usize::MAX,
        b.fields.len() == 0,
    ensures
        ({
            let k = class_from_builtin(r, b);
            &&& k.statics.len() == b.statics.len()
            &&& k.static_slot(b.statics[j].0, b.statics[j].1) matches Some(s) && s < k.statics.len()
                && k.statics[s as int] == default_of(encode_utf8(b.statics[j].1))
        }),
{
    let k = class_from_builtin(r, b);
    if let Some(s) = b.super_name {
        lemma_named_class(r, s);
    }
    let base = pairs_upto(inherited(r, k.super_id).0, b.fields, false, 0);
    lemma_pairs_laid_out(base, b.statics, b.statics.len() as int, j);
}

/// Of members of one name and descriptor the last one counts, and one member more changes no other.
pub proof fn lemma_the_last_member_counts(
    table: Seq<MemberEntry>,
    name: Seq<char>,
    desc: Seq<char>,
    slot: usize,
    other: Seq<char>,
    other_desc: Seq<char>,
)
    ensures
        slot_of(Seq::empty(), name, desc) is None,
        slot_of(table.push((name, desc, slot)), name, desc) == Some(slot),
        (other, other_desc) != (name, desc) ==> slot_of(
            table.push((name, desc, slot)),
            other,
            other_desc,
        ) == slot_of(table, other, other_desc),
{
    assert(table.push((name, desc, slot)).drop_last() =~= table);
}

/// Whether the classes from a number on have their superclasses, unless they name none or the root.
pub open spec fn have_superclasses(r: RegistryView, from: int) -> bool {
    forall|i: int|
        from <= i < r.len() ==> ((#[trigger] r[i]).cf matches Some(f) && (f.super_name() matches Some(s)
            ==> s == "java/lang/Object"@ || r[i].super_id is Some))
}

proof fn lemma_pass_has_superclasses(
    r: RegistryView,
    files: Seq<ClassFileView>,
    k: int,
    still: Seq<ClassFileView>,
    from: int,
)
    requires
        0 <= k <= files.len(),
        0 <= from <= r.len(),
        have_superclasses(r, from),
    ensures
        have_superclasses(linked_pass(r, files, k, still).0, from),
        r.len() <= linked_pass(r, files, k, still).0.len(),
    decreases files.len() - k,
{
    if k < files.len() {
        if super_ready(r, files[k]) {
            let r0 = with_file(r, files[k]);
            assert forall|i: int| from <= i < r0.len() implies ((#[trigger] r0[i]).cf matches Some(f)
                && (f.super_name() matches Some(s) ==> s == "java/lang/Object"@
                || r0[i].super_id is Some)) by {
                if i < r.len() {
                    assert(r0[i] == r[i]);
                }
            }
            lemma_pass_has_superclasses(r0, files, k + 1, still, from);
        } else {
            lemma_pass_has_superclasses(r, files, k + 1, still.push(files[k]), from);
        }
    }
}

proof fn lemma_all_have_superclasses(r: RegistryView, files: Seq<ClassFileView>, from: int)
    requires
        0 <= from <= r.len(),
        have_superclasses(r, from),
    ensures
        have_superclasses(linked_all(r, files).0, from),
    decreases files.len(),
{
    if files.len() > 0 {
        let (r0, still) = linked_pass(r, files, 0, Seq::empty());
        lemma_pass_has_superclasses(r, files, 0, Seq::empty(), from);
        if still.len() < files.len() {
            lemma_all_have_superclasses(r0, still, from);
        }
    }
}

/// Superclasses are linked before their subclasses: whatever linking class files adds has its
/// superclass, unless it names none or the root. So if a superclass is neither linked nor among the
/// files, linking fails.
pub proof fn lemma_superclasses_are_linked_first(r: RegistryView, files: Seq<ClassFileView>, k: int)
    requires
        r.len() + files.len() <= u32::MAX,
    ensures
        ({
            let (r1, result) = link_result(r, files);
            &&& have_superclasses(r1, r.len() as int)
            &&& result is Ok && 0 <= k < files.len() ==> (files[k].super_name() matches Some(s)
                ==> s == "java/lang/Object"@ || exists|i: int|
                0 <= i < r1.len() && (#[trigger] r1[i]).name == s)
        }),
{
    lemma_all_have_superclasses(r, files, r.len() as int);
    lemma_linking_links_everything(r, files);
    lemma_all_link(r, files);
    let (r1, result) = link_result(r, files);
    if result is Ok && 0 <= k < files.len() {
        if let Some(s) = files[k].super_name() {
            lemma_ready_when_linked(r, files, k);
        }
    }
}

proof fn lemma_pass_was_ready(
    r: RegistryView,
    files: Seq<ClassFileView>,
    k: int,
    still: Seq<ClassFileView>,
    j: int,
)
    requires
        0 <= k <= j < files.len(),
    ensures
        ({
            let (r1, left) = linked_pass(r, files, k, still);
            left.contains(files[j]) || (files[j].super_name() matches Some(s) ==> s
                == "java/lang/Object"@ || class_named(r1, s) is Some)
        }),
    decreases files.len() - k,
{
    let (r1, left) = linked_pass(r, files, k, still);
    lemma_pass_links(r, files, k, still);
    if k < j {
        if super_ready(r, files[k]) {
            lemma_pass_was_ready(with_file(r, files[k]), files, k + 1, still, j);
        } else {
            lemma_pass_was_ready(r, files, k + 1, still.push(files[k]), j);
        }
    } else if super_ready(r, files[k]) {
        if let Some(s) = files[k].super_name() {
            if class_named(r, s) is Some {
                lemma_still_named(r, r1, s);
            }
        }
    } else {
        let more = still.push(files[k]);
        lemma_pass_links(r, files, k + 1, more);
        assert(more[still.len() as int] == files[k]);
        assert(left[still.len() as int] == files[k]);
    }
}

proof fn lemma_still_named(a: RegistryView, b: RegistryView, name: Seq<char>)
    requires
        a.is_prefix_of(b),
        class_named(a, name) is Some,
    ensures
        class_named(b, name) is Some,
    decreases b.len(),
{
    if b.len() > a.len() {
        if b.last().name != name {
            assert(a.is_prefix_of(b.drop_last())) by {
                assert forall|i: int| 0 <= i < a.len() implies a[i] == b.drop_last()[i] by {
                    assert(a[i] == b[i]);
                }
            }
            lemma_still_named(a, b.drop_last(), name);
        }
    } else {
        assert(a =~= b);
    }
}

proof fn lemma_ready_when_linked(r: RegistryView, files: Seq<ClassFileView>, j: int)
    requires
        r.len() + files.len() <= u32::MAX,
        0 <= j < files.len(),
        linked_all(r, files).1.len() == 0,
        files[j].super_name() is Some,
    ensures
        ({
            let r1 = linked_all(r, files).0;
            let s = files[j].super_name()->0;
            s == "java/lang/Object"@ || exists|i: int| 0 <= i < r1.len() && (#[trigger] r1[i]).name == s
        }),
    decreases files.len(),
{
    let s = files[j].super_name()->0;
    let (r0, still) = linked_pass(r, files, 0, Seq::empty());
    let r1 = linked_all(r, files).0;
    lemma_pass_links(r, files, 0, Seq::empty());
    lemma_pass_was_ready(r, files, 0, Seq::empty(), j);
    lemma_all_link(r, files);
    if still.len() < files.len() {
        lemma_all_link(r0, still);
        if still.contains(files[j]) {
            let i = still.index_of(files[j]);
            assert(still[i] == files[j]);
            lemma_ready_when_linked(r0, still, i);
        } else if s != "java/lang/Object"@ {
            lemma_still_named(r0, r1, s);
            lemma_named_class(r1, s);
            let id = class_named(r1, s)->0;
            assert(r1[id.0 as int].name == s);
        }
    }
}

} // verus!
