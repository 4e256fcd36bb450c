//! What parsing promises, stated on the bytes: what each part of a class file is read as, and where
//! the next part begins.

use vstd::prelude::*;
use crate::classfile::attribute::{
    attribute_at, attributes_at, attributes_from, code_at, handler_at, handlers_from, raw_bytes,
    AttributeView, ExceptionTableEntry,
};
use crate::classfile::constant_pool::{
    constant_at, mutf8, pool_at, pool_from, Constant, ConstantView, PoolView,
};
use crate::classfile::error::ClassFileError;
use crate::classfile::reader::{be16, be32, be64};
use crate::classfile::{
    class_of, first_code, member_at, members_at, members_from, ClassFileView, MemberView,
};
use crate::verify::first_raw;

verus! {

/// The number that two bytes spell, the higher one first.
pub open spec fn number16(d: Seq<u8>, p: int) -> int {
    d[p] * 0x100 + d[p + 1]
}

/// The number that four bytes spell, the highest one first.
pub open spec fn number32(d: Seq<u8>, p: int) -> int {
    d[p] * 0x100_0000 + d[p + 1] * 0x1_0000 + d[p + 2] * 0x100 + d[p + 3]
}

/// The number that eight bytes spell, the highest one first.
pub open spec fn number64(d: Seq<u8>, p: int) -> int {
    number32(d, p) * 0x1_0000_0000 + number32(d, p + 4)
}

/// Numbers are read with their highest byte first.
pub proof fn lemma_numbers_are_read(d: Seq<u8>, p: int)
    ensures
        be16(d, p) == number16(d, p),
        be32(d, p) == number32(d, p),
        be64(d, p) == number64(d, p),
{
}

/// How many bytes a constant takes behind its tag, unless it is a text.
pub open spec fn constant_size(tag: u8) -> Option<int> {
    match tag {
        3u8 | 4u8 => Some(4),
        5u8 | 6u8 => Some(8),
        7u8 | 8u8 | 16u8 | 19u8 | 20u8 => Some(2),
        9u8 | 10u8 | 11u8 | 12u8 | 17u8 | 18u8 => Some(4),
        15u8 => Some(3),
        _ => None,
    }
}

/// A number below `2 * half` that stands for a signed one.
pub open spec fn stands_for(raw: int, v: int, half: int) -> bool {
    v == (if raw >= half {
        raw - 2 * half
    } else {
        raw
    })
}

/// Whether a plain constant is what its tag and the bytes behind it say.
pub open spec fn spells_constant(d: Seq<u8>, p: int, k: Constant) -> bool {
    let (a, b) = (number16(d, p + 1), number16(d, p + 3));
    match k {
        Constant::Integer(v) => d[p] == 3 && stands_for(number32(d, p + 1), v as int, 0x8000_0000),
        Constant::Float(raw) => d[p] == 4 && raw == number32(d, p + 1),
        Constant::Long(v) => d[p] == 5 && stands_for(
            number64(d, p + 1),
            v as int,
            0x8000_0000_0000_0000,
        ),
        Constant::Double(raw) => d[p] == 6 && raw == number64(d, p + 1),
        Constant::Class { name_index } => d[p] == 7 && name_index == a,
        Constant::String { string_index } => d[p] == 8 && string_index == a,
        Constant::FieldRef { class_index, name_and_type_index } => d[p] == 9 && class_index == a
            && name_and_type_index == b,
        Constant::MethodRef { class_index, name_and_type_index } => d[p] == 10 && class_index == a
            && name_and_type_index == b,
        Constant::InterfaceMethodRef { class_index, name_and_type_index } => d[p] == 11
            && class_index == a && name_and_type_index == b,
        Constant::NameAndType { name_index, descriptor_index } => d[p] == 12 && name_index == a
            && descriptor_index == b,
        Constant::MethodHandle { reference_kind, reference_index } => d[p] == 15 && reference_kind
            == d[p + 1] && reference_index == number16(d, p + 2),
        Constant::MethodType { descriptor_index } => d[p] == 16 && descriptor_index == a,
        Constant::Dynamic { bootstrap_method_attr_index, name_and_type_index } => d[p] == 17
            && bootstrap_method_attr_index == a && name_and_type_index == b,
        Constant::InvokeDynamic { bootstrap_method_attr_index, name_and_type_index } => d[p] == 18
            && bootstrap_method_attr_index == a && name_and_type_index == b,
        Constant::Module { name_index } => d[p] == 19 && name_index == a,
        Constant::Package { name_index } => d[p] == 20 && name_index == a,
        Constant::Utf8(_) | Constant::Unusable => false,
    }
}

proof fn lemma_signed(a: u32, b: u64)
    ensures
        stands_for(a as int, (a as i32) as int, 0x8000_0000),
        stands_for(b as int, (b as i64) as int, 0x8000_0000_0000_0000),
{
    assert(a as i32 == (if a >= 0x8000_0000 {
        a - 0x1_0000_0000
    } else {
        a as int
    })) by (bit_vector);
    assert(b as i64 == (if b >= 0x8000_0000_0000_0000 {
        b - 0x1_0000_0000_0000_0000
    } else {
        b as int
    })) by (bit_vector);
}

/// A constant is what its tag says, spelled by the bytes behind it, and ends behind them. It is refused
/// if there are too few of them, and if there is no such tag.
pub proof fn lemma_constants_are_read(d: Seq<u8>, p: int, index: u16)
    requires
        0 <= p < d.len() <= usize::MAX,
        d[p] != 1,
    ensures
        match constant_size(d[p]) {
            None => constant_at(d, p, index) == Err::<(ConstantView, int), ClassFileError>(
                ClassFileError::UnknownTag { tag: d[p], index },
            ),
            Some(n) => {
                &&& p + 1 + n > d.len() ==> constant_at(d, p, index) == Err::<
                    (ConstantView, int),
                    ClassFileError,
                >(ClassFileError::Eof(d.len() as usize))
                &&& p + 1 + n <= d.len() ==> (constant_at(d, p, index) matches Ok((c, q)) && q == p
                    + 1 + n && (c matches ConstantView::Plain(k) && spells_constant(d, p, k)))
            },
        },
{
    lemma_numbers_are_read(d, p + 1);
    lemma_numbers_are_read(d, p + 2);
    lemma_numbers_are_read(d, p + 3);
    lemma_signed(be32(d, p + 1), be64(d, p + 1));
}

/// A text constant has its length in two bytes, and as many bytes that spell it.
pub proof fn lemma_texts_are_read(d: Seq<u8>, p: int, index: u16)
    requires
        0 <= p < d.len() <= usize::MAX,
        d[p] == 1,
    ensures
        ({
            let n = number16(d, p + 1);
            let r = constant_at(d, p, index);
            &&& p + 3 + n > d.len() || p + 3 > d.len() ==> (r matches Err(ClassFileError::Eof(_)))
            &&& p + 3 <= d.len() && p + 3 + n <= d.len() ==> match mutf8(
                d.subrange(p + 3, p + 3 + n),
            ) {
                Some(s) => r == Ok::<(ConstantView, int), ClassFileError>(
                    (ConstantView::Utf8(s), p + 3 + n),
                ),
                None => r == Err::<(ConstantView, int), ClassFileError>(ClassFileError::BadUtf8),
            }
        }),
{
    lemma_numbers_are_read(d, p + 1);
}

/// A pool starts with its count and an entry that cannot be used. From then on it has one entry for each
/// constant, and one more that cannot be used behind each long and double; it ends where the count is
/// reached.
pub proof fn lemma_pools_are_read(d: Seq<u8>, p: int, before: PoolView, count: int)
    requires
        0 <= p,
        p + 2 <= d.len() <= usize::MAX,
    ensures
        number16(d, p) == 0 ==> pool_at(d, p) == Err::<(PoolView, int), ClassFileError>(
            ClassFileError::BadCpIndex(0),
        ),
        number16(d, p) != 0 ==> pool_at(d, p) == pool_from(
            d,
            p + 2,
            seq![ConstantView::Plain(Constant::Unusable)],
            number16(d, p),
        ),
        count <= before.len() ==> pool_from(d, p, before, count) == Ok::<
            (PoolView, int),
            ClassFileError,
        >((before, p)),
        before.len() < count ==> (constant_at(d, p, before.len() as u16) matches Ok((c, q)) ==> {
            let two = c matches ConstantView::Plain(k) && (k is Long || k is Double);
            let more = pool_from(d, p, before, count);
            &&& !two ==> more == pool_from(d, q, before.push(c), count)
            &&& two && before.len() + 2 <= count ==> more == pool_from(
                d,
                q,
                before.push(c).push(ConstantView::Plain(Constant::Unusable)),
                count,
            )
            &&& two && before.len() + 2 > count ==> more == Err::<(PoolView, int), ClassFileError>(
                ClassFileError::BadCpIndex((before.len() + 1) as u16),
            )
        }),
{
    lemma_numbers_are_read(d, p);
}

/// An attribute is named by an index, and has the bytes that its length says, which it ends behind. If
/// its name is `Code` they are read as code, and else kept.
pub proof fn lemma_attributes_are_read(d: Seq<u8>, p: int, pool: PoolView)
    requires
        0 <= p,
        p + 6 <= d.len() <= usize::MAX,
    ensures
        ({
            let name = number16(d, p) as u16;
            let end = p + 6 + number32(d, p + 2);
            let r = attribute_at(d, p, pool);
            let is_code = name < pool.len() && pool[name as int] == ConstantView::Utf8("Code"@);
            &&& end > d.len() ==> r is Err
            &&& end <= d.len() && !is_code ==> r == Ok::<(AttributeView, int), ClassFileError>(
                (
                    AttributeView::Raw { name_index: name, bytes: d.subrange(p + 6, end) },
                    end,
                ),
            )
            &&& end <= d.len() && is_code ==> match code_at(d.subrange(p + 6, end), 0, pool) {
                Ok((c, _)) => r == Ok::<(AttributeView, int), ClassFileError>(
                    (AttributeView::Code(c), end),
                ),
                Err(e) => r == Err::<(AttributeView, int), ClassFileError>(e),
            }
        }),
{
    lemma_numbers_are_read(d, p);
    lemma_numbers_are_read(d, p + 2);
}

proof fn lemma_handlers_at(d: Seq<u8>, p: int, n: nat, before: Seq<ExceptionTableEntry>)
    requires
        0 <= p,
        d.len() <= usize::MAX,
    ensures
        handlers_from(d, p, n, before) is Ok <==> p + 8 * n <= d.len() || n == 0,
        handlers_from(d, p, n, before) matches Ok((rows, q)) ==> {
            &&& q == p + 8 * n
            &&& rows.len() == before.len() + n
            &&& before.is_prefix_of(rows)
            &&& forall|i: int|
                0 <= i < n ==> {
                    let at = p + 8 * i;
                    let row = #[trigger] rows[before.len() + i];
                    &&& row.start_pc == number16(d, at)
                    &&& row.end_pc == number16(d, at + 2)
                    &&& row.handler_pc == number16(d, at + 4)
                    &&& row.catch_type == number16(d, at + 6)
                }
        },
    decreases n,
{
    if n > 0 && p + 8 <= d.len() {
        lemma_numbers_are_read(d, p);
        lemma_numbers_are_read(d, p + 2);
        lemma_numbers_are_read(d, p + 4);
        lemma_numbers_are_read(d, p + 6);
        let row = (handler_at(d, p)->Ok_0).0;
        lemma_handlers_at(d, p + 8, (n - 1) as nat, before.push(row));
        if let Ok((rows, q)) = handlers_from(d, p, n, before) {
            assert(rows[before.len() as int] == before.push(row)[before.len() as int]);
            assert forall|i: int| 0 <= i < before.len() implies before[i] == rows[i] by {
                assert(before.push(row)[i] == rows[i]);
            }
            assert forall|i: int| 0 <= i < n implies {
                let at = p + 8 * i;
                let row = #[trigger] rows[before.len() + i];
                &&& row.start_pc == number16(d, at)
                &&& row.end_pc == number16(d, at + 2)
                &&& row.handler_pc == number16(d, at + 4)
                &&& row.catch_type == number16(d, at + 6)
            } by {
                if i > 0 {
                    assert(rows[before.push(row).len() + (i - 1)] == rows[before.len() + i]);
                }
            }
        }
    }
}

/// Code has its stack and its locals in two bytes each, its length in four, its bytes, and the number
/// of handlers with eight bytes each; attributes follow.
pub proof fn lemma_code_is_read(d: Seq<u8>, pool: PoolView)
    requires
        d.len() <= usize::MAX,
        code_at(d, 0, pool) is Ok,
    ensures
        ({
            let (c, q) = code_at(d, 0, pool)->Ok_0;
            let n = number32(d, 4);
            let rows = number16(d, 8 + n);
            &&& 8 + n + 2 + 8 * rows <= d.len()
            &&& c.max_stack == number16(d, 0)
            &&& c.max_locals == number16(d, 2)
            &&& c.code == d.subrange(8, 8 + n)
            &&& c.exception_table.len() == rows
            &&& forall|i: int|
                0 <= i < rows ==> {
                    let at = 8 + n + 2 + 8 * i;
                    let row = #[trigger] c.exception_table[i];
                    &&& row.start_pc == number16(d, at)
                    &&& row.end_pc == number16(d, at + 2)
                    &&& row.handler_pc == number16(d, at + 4)
                    &&& row.catch_type == number16(d, at + 6)
                }
            &&& attributes_at(d, 8 + n + 2 + 8 * rows, pool) == Ok::<
                (Seq<AttributeView>, int),
                ClassFileError,
            >((c.attributes, q))
        }),
{
    lemma_numbers_are_read(d, 0);
    lemma_numbers_are_read(d, 2);
    lemma_numbers_are_read(d, 4);
    let n = be32(d, 4) as int;
    lemma_numbers_are_read(d, 8 + n);
    lemma_handlers_at(d, 8 + n + 2, be16(d, 8 + n) as nat, Seq::empty());
    let (c, q) = code_at(d, 0, pool)->Ok_0;
    assert forall|i: int| 0 <= i < be16(d, 8 + n) implies {
        let at = 8 + n + 2 + 8 * i;
        let row = #[trigger] c.exception_table[i];
        &&& row.start_pc == number16(d, at)
        &&& row.end_pc == number16(d, at + 2)
        &&& row.handler_pc == number16(d, at + 4)
        &&& row.catch_type == number16(d, at + 6)
    } by {
        assert(c.exception_table[Seq::<ExceptionTableEntry>::empty().len() + i]
            == c.exception_table[i]);
    }
}

/// A list of attributes starts with their number, and goes on behind each.
pub proof fn lemma_attribute_lists_are_read(
    d: Seq<u8>,
    p: int,
    pool: PoolView,
    n: nat,
    before: Seq<AttributeView>,
)
    requires
        0 <= p,
        p + 2 <= d.len() <= usize::MAX,
    ensures
        attributes_at(d, p, pool) == attributes_from(
            d,
            p + 2,
            pool,
            number16(d, p) as nat,
            Seq::empty(),
        ),
        n == 0 ==> attributes_from(d, p, pool, n, before) == Ok::<
            (Seq<AttributeView>, int),
            ClassFileError,
        >((before, p)),
        n > 0 ==> (attribute_at(d, p, pool) matches Ok((a, q)) ==> attributes_from(
            d,
            p,
            pool,
            n,
            before,
        ) == attributes_from(d, q, pool, (n - 1) as nat, before.push(a))),
{
    lemma_numbers_are_read(d, p);
}

/// A member has its flags, its name and its descriptor in two bytes each; attributes follow. A list of
/// members starts with their number, and goes on behind each.
pub proof fn lemma_members_are_read(
    d: Seq<u8>,
    p: int,
    pool: PoolView,
    n: nat,
    before: Seq<MemberView>,
)
    requires
        0 <= p,
        p + 6 <= d.len() <= usize::MAX,
    ensures
        match attributes_at(d, p + 6, pool) {
            Ok((attributes, q)) => member_at(d, p, pool) matches Ok((m, end)) && {
                &&& end == q
                &&& m.access_flags == number16(d, p)
                &&& m.name_index == number16(d, p + 2)
                &&& m.descriptor_index == number16(d, p + 4)
                &&& m.attributes == attributes
            },
            Err(e) => member_at(d, p, pool) == Err::<(MemberView, int), ClassFileError>(e),
        },
        members_at(d, p, pool) == members_from(
            d,
            p + 2,
            pool,
            number16(d, p) as nat,
            Seq::empty(),
        ),
        n == 0 ==> members_from(d, p, pool, n, before) == Ok::<
            (Seq<MemberView>, int),
            ClassFileError,
        >((before, p)),
        n > 0 ==> (member_at(d, p, pool) matches Ok((m, q)) ==> members_from(d, p, pool, n, before)
            == members_from(d, q, pool, (n - 1) as nat, before.push(m))),
{
    lemma_numbers_are_read(d, p);
    lemma_numbers_are_read(d, p + 2);
    lemma_numbers_are_read(d, p + 4);
}

/// A class file starts with its magic number and the two parts of its version; the constant pool
/// follows, then its flags, its own name and that of its superclass, its interfaces, its fields, its
/// methods and its attributes, in this order.
pub proof fn lemma_class_files_are_read(d: Seq<u8>)
    requires
        d.len() <= usize::MAX,
    ensures
        d.len() >= 4 && number32(d, 0) != 0xCAFE_BABE ==> class_of(d) == Err::<
            ClassFileView,
            ClassFileError,
        >(ClassFileError::BadMagic(number32(d, 0) as u32)),
        class_of(d) matches Ok(cf) ==> {
            &&& d.len() >= 8
            &&& number32(d, 0) == 0xCAFE_BABE
            &&& cf.minor == number16(d, 4)
            &&& cf.major == number16(d, 6)
            &&& pool_at(d, 8) matches Ok((pool, p)) && {
                &&& cf.constant_pool == pool
                &&& cf.access_flags == number16(d, p)
                &&& cf.this_class == number16(d, p + 2)
                &&& cf.super_class == number16(d, p + 4)
                &&& cf.interfaces.len() == number16(d, p + 6)
                &&& forall|i: int|
                    0 <= i < cf.interfaces.len() ==> (#[trigger] cf.interfaces[i]) == number16(
                        d,
                        p + 8 + 2 * i,
                    )
                &&& members_at(d, p + 8 + 2 * cf.interfaces.len(), pool) matches Ok((fields, q))
                    && cf.fields == fields && (members_at(d, q, pool) matches Ok((methods, s))
                    && cf.methods == methods && (attributes_at(d, s, pool) matches Ok(
                    (attributes, _),
                ) && cf.attributes == attributes))
            }
        },
{
    lemma_numbers_are_read(d, 0);
    lemma_numbers_are_read(d, 4);
    lemma_numbers_are_read(d, 6);
    if let Ok(cf) = class_of(d) {
        let (pool, p) = pool_at(d, 8)->Ok_0;
        lemma_numbers_are_read(d, p);
        lemma_numbers_are_read(d, p + 2);
        lemma_numbers_are_read(d, p + 4);
        lemma_numbers_are_read(d, p + 6);
        assert forall|i: int| 0 <= i < cf.interfaces.len() implies (#[trigger] cf.interfaces[i])
            == number16(d, p + 8 + 2 * i) by {
            lemma_numbers_are_read(d, p + 8 + 2 * i);
        }
    }
}

/// The code of a member is its first attribute that is code.
pub proof fn lemma_the_first_code_counts(attributes: Seq<AttributeView>)
    ensures
        match first_code(attributes) {
            Some(c) => exists|i: int|
                0 <= i < attributes.len() && (#[trigger] attributes[i]) == AttributeView::Code(c)
                    && forall|j: int| 0 <= j < i ==> !((#[trigger] attributes[j]) is Code),
            None => forall|j: int|
                0 <= j < attributes.len() ==> !((#[trigger] attributes[j]) is Code),
        },
    decreases attributes.len(),
{
    if attributes.len() > 0 {
        let rest = attributes.drop_first();
        lemma_the_first_code_counts(rest);
        if attributes.first() is Code {
            assert(attributes[0] == attributes.first());
        } else if let Some(c) = first_code(rest) {
            let i = choose|i: int|
                0 <= i < rest.len() && (#[trigger] rest[i]) == AttributeView::Code(c)
                    && forall|j: int| 0 <= j < i ==> !((#[trigger] rest[j]) is Code);
            assert(attributes[i + 1] == AttributeView::Code(c));
            assert forall|j: int| 0 <= j < i + 1 implies !((#[trigger] attributes[j]) is Code) by {
                if j > 0 {
                    assert(rest[j - 1] == attributes[j]);
                }
            }
        } else {
            assert forall|j: int| 0 <= j < attributes.len() implies !((
            #[trigger] attributes[j]) is Code) by {
                if j > 0 {
                    assert(rest[j - 1] == attributes[j]);
                }
            }
        }
    }
}

/// Whether an attribute is a kept one of that name, with those bytes.
pub open spec fn is_raw(a: AttributeView, pool: PoolView, name: Seq<char>, bytes: Seq<u8>) -> bool {
    a matches AttributeView::Raw { name_index, bytes: b } && b == bytes && name_index < pool.len()
        && pool[name_index as int] == ConstantView::Utf8(name)
}

/// The bytes of a kept attribute are found by its name: those of the first that has it.
pub proof fn lemma_the_first_of_a_name_counts(
    attributes: Seq<AttributeView>,
    pool: PoolView,
    name: Seq<char>,
)
    ensures
        match first_raw(attributes, pool, name) {
            Some(b) => exists|i: int|
                0 <= i < attributes.len() && is_raw(#[trigger] attributes[i], pool, name, b)
                    && forall|j: int, c: Seq<u8>|
                    0 <= j < i ==> !#[trigger] is_raw(attributes[j], pool, name, c),
            None => forall|j: int, c: Seq<u8>|
                0 <= j < attributes.len() ==> !#[trigger] is_raw(attributes[j], pool, name, c),
        },
    decreases attributes.len(),
{
    if attributes.len() > 0 {
        let rest = attributes.drop_first();
        let first = attributes[0];
        lemma_the_first_of_a_name_counts(rest, pool, name);
        if let Some(b) = raw_bytes(first, pool, name) {
            assert(is_raw(attributes[0], pool, name, b));
        } else if let Some(b) = first_raw(rest, pool, name) {
            let i = choose|i: int|
                0 <= i < rest.len() && is_raw(#[trigger] rest[i], pool, name, b) && forall|
                    j: int,
                    c: Seq<u8>,
                |
                    0 <= j < i ==> !#[trigger] is_raw(rest[j], pool, name, c);
            assert(attributes[i + 1] == rest[i]);
            assert forall|j: int, c: Seq<u8>| 0 <= j < i + 1 implies !#[trigger] is_raw(
                attributes[j],
                pool,
                name,
                c,
            ) by {
                if j > 0 {
                    assert(rest[j - 1] == attributes[j]);
                    assert(!is_raw(rest[j - 1], pool, name, c));
                }
            }
        } else {
            assert forall|j: int, c: Seq<u8>| 0 <= j < attributes.len() implies !#[trigger] is_raw(
                attributes[j],
                pool,
                name,
                c,
            ) by {
                if j > 0 {
                    assert(rest[j - 1] == attributes[j]);
                    assert(!is_raw(rest[j - 1], pool, name, c));
                }
            }
        }
    }
}

} // verus!
