//! The constant pool. One-indexed: index 0 and the slot following each `Long`/`Double` hold an
//! [`Constant::Unusable`] sentinel. `Utf8` constants are decoded from modified UTF-8, which differs
//! from standard UTF-8 for embedded NULs and supplementary characters.

use vstd::prelude::*;
use crate::classfile::error::ClassFileError;
use crate::classfile::reader::{be16, be32, be64, block, fixed, Parsed, Reader};
use crate::text::text_of;

verus! {

/// A single constant-pool entry. Floating-point constants are kept as their raw bits.
#[derive(Debug, PartialEq, Eq)]
pub enum Constant {
    Utf8(String),
    Integer(i32),
    Float(u32),
    Long(i64),
    Double(u64),
    Class { name_index: u16 },
    String { string_index: u16 },
    FieldRef { class_index: u16, name_and_type_index: u16 },
    MethodRef { class_index: u16, name_and_type_index: u16 },
    InterfaceMethodRef { class_index: u16, name_and_type_index: u16 },
    NameAndType { name_index: u16, descriptor_index: u16 },
    MethodHandle { reference_kind: u8, reference_index: u16 },
    MethodType { descriptor_index: u16 },
    Dynamic { bootstrap_method_attr_index: u16, name_and_type_index: u16 },
    InvokeDynamic { bootstrap_method_attr_index: u16, name_and_type_index: u16 },
    Module { name_index: u16 },
    Package { name_index: u16 },
    /// Index 0, and the second slot of a `Long`/`Double`.
    Unusable,
}

/// What a constant holds: a text, or one of the plain constants.
pub enum ConstantView {
    Utf8(Seq<char>),
    Plain(Constant),
}

impl View for Constant {
    type V = ConstantView;

    open spec fn view(&self) -> ConstantView {
        match *self {
            Constant::Utf8(s) => ConstantView::Utf8(s@),
            c => ConstantView::Plain(c),
        }
    }
}

impl Clone for Constant {
    fn clone(&self) -> (c: Constant)
        ensures
            c == *self,
    {
        match self {
            Constant::Utf8(s) => Constant::Utf8(s.clone()),
            Constant::Integer(v) => Constant::Integer(*v),
            Constant::Float(v) => Constant::Float(*v),
            Constant::Long(v) => Constant::Long(*v),
            Constant::Double(v) => Constant::Double(*v),
            Constant::Class { name_index } => Constant::Class { name_index: *name_index },
            Constant::String { string_index } => Constant::String { string_index: *string_index },
            Constant::FieldRef { class_index, name_and_type_index } => Constant::FieldRef {
                class_index: *class_index,
                name_and_type_index: *name_and_type_index,
            },
            Constant::MethodRef { class_index, name_and_type_index } => Constant::MethodRef {
                class_index: *class_index,
                name_and_type_index: *name_and_type_index,
            },
            Constant::InterfaceMethodRef { class_index, name_and_type_index } => Constant::InterfaceMethodRef {
                class_index: *class_index,
                name_and_type_index: *name_and_type_index,
            },
            Constant::NameAndType { name_index, descriptor_index } => Constant::NameAndType {
                name_index: *name_index,
                descriptor_index: *descriptor_index,
            },
            Constant::MethodHandle { reference_kind, reference_index } => Constant::MethodHandle {
                reference_kind: *reference_kind,
                reference_index: *reference_index,
            },
            Constant::MethodType { descriptor_index } => Constant::MethodType {
                descriptor_index: *descriptor_index,
            },
            Constant::Dynamic { bootstrap_method_attr_index, name_and_type_index } => Constant::Dynamic {
                bootstrap_method_attr_index: *bootstrap_method_attr_index,
                name_and_type_index: *name_and_type_index,
            },
            Constant::InvokeDynamic { bootstrap_method_attr_index, name_and_type_index } => Constant::InvokeDynamic {
                bootstrap_method_attr_index: *bootstrap_method_attr_index,
                name_and_type_index: *name_and_type_index,
            },
            Constant::Module { name_index } => Constant::Module { name_index: *name_index },
            Constant::Package { name_index } => Constant::Package { name_index: *name_index },
            Constant::Unusable => Constant::Unusable,
        }
    }
}

/// A pool's contents, by index.
pub type PoolView = Seq<ConstantView>;

/// The parsed constant pool.
#[derive(Debug)]
pub struct ConstantPool {
    entries: Vec<Constant>,
}

impl View for ConstantPool {
    type V = PoolView;

    closed spec fn view(&self) -> PoolView {
        Seq::new(self.entries@.len(), |i: int| self.entries@[i]@)
    }
}

impl Clone for ConstantPool {
    fn clone(&self) -> (p: ConstantPool)
        ensures
            p@ == self@,
    {
        let entries = self.entries.clone();
        assert forall|i: int| 0 <= i < entries@.len() implies (#[trigger] entries@[i])
            == self.entries@[i] by {
            assert(cloned::<Constant>(self.entries@[i], entries@[i]));
        }
        let p = ConstantPool { entries };
        assert(p@ =~= self@);
        p
    }
}

/// The text of a `Utf8` constant.
pub open spec fn pool_utf8(p: PoolView, index: u16) -> Option<Seq<char>> {
    if index < p.len() {
        match p[index as int] {
            ConstantView::Utf8(s) => Some(s),
            _ => None,
        }
    } else {
        None
    }
}

/// The internal name of a `Class` constant.
pub open spec fn pool_class_name(p: PoolView, index: u16) -> Option<Seq<char>> {
    if index < p.len() {
        match p[index as int] {
            ConstantView::Plain(Constant::Class { name_index }) => pool_utf8(p, name_index),
            _ => None,
        }
    } else {
        None
    }
}

/// Whether a constant takes two slots.
pub open spec fn is_wide(c: ConstantView) -> bool {
    c matches ConstantView::Plain(k) && (k is Long || k is Double)
}

/// The entry at position `p`: a tag byte and what the tag calls for.
pub open spec fn constant_at(d: Seq<u8>, p: int, index: u16) -> Parsed<ConstantView> {
    if p >= d.len() {
        Err(ClassFileError::Eof(d.len() as usize))
    } else {
        let a = be16(d, p + 1);
        let b = be16(d, p + 3);
        match d[p] {
            1u8 => if p + 3 > d.len() {
                Err(ClassFileError::Eof(d.len() as usize))
            } else {
                match block(d, p + 3, a as int) {
                    Err(e) => Err(e),
                    Ok((text, q)) => match mutf8(text) {
                        Some(s) => Ok((ConstantView::Utf8(s), q)),
                        None => Err(ClassFileError::BadUtf8),
                    },
                }
            },
            3u8 => fixed(d, p, 5, ConstantView::Plain(Constant::Integer(be32(d, p + 1) as i32))),
            4u8 => fixed(d, p, 5, ConstantView::Plain(Constant::Float(be32(d, p + 1)))),
            5u8 => fixed(d, p, 9, ConstantView::Plain(Constant::Long(be64(d, p + 1) as i64))),
            6u8 => fixed(d, p, 9, ConstantView::Plain(Constant::Double(be64(d, p + 1)))),
            7u8 => fixed(d, p, 3, ConstantView::Plain(Constant::Class { name_index: a })),
            8u8 => fixed(d, p, 3, ConstantView::Plain(Constant::String { string_index: a })),
            9u8 => fixed(
                d,
                p,
                5,
                ConstantView::Plain(
                    Constant::FieldRef { class_index: a, name_and_type_index: b },
                ),
            ),
            10u8 => fixed(
                d,
                p,
                5,
                ConstantView::Plain(
                    Constant::MethodRef { class_index: a, name_and_type_index: b },
                ),
            ),
            11u8 => fixed(
                d,
                p,
                5,
                ConstantView::Plain(
                    Constant::InterfaceMethodRef { class_index: a, name_and_type_index: b },
                ),
            ),
            12u8 => fixed(
                d,
                p,
                5,
                ConstantView::Plain(Constant::NameAndType { name_index: a, descriptor_index: b }),
            ),
            15u8 => fixed(
                d,
                p,
                4,
                ConstantView::Plain(
                    Constant::MethodHandle {
                        reference_kind: d[p + 1],
                        reference_index: be16(d, p + 2),
                    },
                ),
            ),
            16u8 => fixed(d, p, 3, ConstantView::Plain(Constant::MethodType { descriptor_index: a })),
            17u8 => fixed(
                d,
                p,
                5,
                ConstantView::Plain(
                    Constant::Dynamic { bootstrap_method_attr_index: a, name_and_type_index: b },
                ),
            ),
            18u8 => fixed(
                d,
                p,
                5,
                ConstantView::Plain(
                    Constant::InvokeDynamic {
                        bootstrap_method_attr_index: a,
                        name_and_type_index: b,
                    },
                ),
            ),
            19u8 => fixed(d, p, 3, ConstantView::Plain(Constant::Module { name_index: a })),
            20u8 => fixed(d, p, 3, ConstantView::Plain(Constant::Package { name_index: a })),
            tag => Err(ClassFileError::UnknownTag { tag, index }),
        }
    }
}

/// The pool that results when `entries` have been read and the reading goes on at `p` until there
/// are `count` entries. A wide constant is followed by a sentinel; one in the final slot would run
/// past the count and makes the pool malformed.
pub open spec fn pool_from(d: Seq<u8>, p: int, entries: PoolView, count: int) -> Parsed<PoolView>
    decreases count - entries.len(),
{
    if entries.len() >= count {
        Ok((entries, p))
    } else {
        match constant_at(d, p, entries.len() as u16) {
            Err(e) => Err(e),
            Ok((c, q)) => if is_wide(c) {
                if entries.len() + 1 >= count {
                    Err(ClassFileError::BadCpIndex((entries.len() + 1) as u16))
                } else {
                    pool_from(
                        d,
                        q,
                        entries.push(c).push(ConstantView::Plain(Constant::Unusable)),
                        count,
                    )
                }
            } else {
                pool_from(d, q, entries.push(c), count)
            },
        }
    }
}

/// The pool at position `p`: its count, which includes the sentinel at index 0 and so is never 0, and
/// the entries that follow.
pub open spec fn pool_at(d: Seq<u8>, p: int) -> Parsed<PoolView> {
    if p + 2 > d.len() {
        Err(ClassFileError::Eof(d.len() as usize))
    } else if be16(d, p) == 0 {
        Err(ClassFileError::BadCpIndex(0))
    } else {
        pool_from(d, p + 2, seq![ConstantView::Plain(Constant::Unusable)], be16(d, p) as int)
    }
}

/// A continuation byte is `10xxxxxx`.
pub open spec fn is_cont(b: u8) -> bool {
    0x80 <= b < 0xC0
}

/// The 16 bits of the three-byte form at `i`, if there is one.
pub open spec fn three_byte_unit(b: Seq<u8>, i: int) -> Option<int> {
    if i + 2 < b.len() && 0xE0 <= b[i] < 0xF0 && is_cont(b[i + 1]) && is_cont(b[i + 2]) {
        Some((b[i] - 0xE0) * 0x1000 + (b[i + 1] - 0x80) * 0x40 + (b[i + 2] - 0x80))
    } else {
        None
    }
}

/// The character whose encoding starts at `i`, and the length of the encoding.
///
/// One byte encodes 1 to 7F. Two bytes encode 80 to 7FF, and, as `C0 80`, NUL. Three bytes encode
/// 800 to FFFF except surrogates; two of them, a high and a low surrogate, a supplementary
/// character. There is no other encoding.
pub open spec fn mutf8_char(b: Seq<u8>, i: int) -> Option<(char, int)> {
    if b[i] == 0 {
        None
    } else if b[i] < 0x80 {
        Some((b[i] as char, 1))
    } else if 0xC0 <= b[i] < 0xE0 {
        if i + 1 < b.len() && is_cont(b[i + 1]) {
            let c = (b[i] - 0xC0) * 0x40 + (b[i + 1] - 0x80);
            if c >= 0x80 || c == 0 {
                Some((c as char, 2))
            } else {
                None
            }
        } else {
            None
        }
    } else {
        match three_byte_unit(b, i) {
            None => None,
            Some(c) => if c < 0x800 {
                None
            } else if 0xD800 <= c < 0xDC00 {
                match three_byte_unit(b, i + 3) {
                    Some(lo) if 0xDC00 <= lo < 0xE000 => Some(
                        ((0x1_0000 + (c - 0xD800) * 0x400 + (lo - 0xDC00)) as char, 6),
                    ),
                    _ => None,
                }
            } else if 0xDC00 <= c < 0xE000 {
                None
            } else {
                Some((c as char, 3))
            },
        }
    }
}

/// The characters encoded from position `i` on, if all of the rest is well-formed.
pub open spec fn mutf8_from(b: Seq<u8>, i: int) -> Option<Seq<char>>
    decreases b.len() - i,
{
    if i >= b.len() {
        Some(Seq::empty())
    } else {
        match mutf8_char(b, i) {
            None => None,
            Some((c, n)) => match mutf8_from(b, i + n) {
                None => None,
                Some(rest) => Some(seq![c] + rest),
            },
        }
    }
}

/// The text that modified UTF-8 encodes.
pub open spec fn mutf8(b: Seq<u8>) -> Option<Seq<char>> {
    mutf8_from(b, 0)
}

/// A continuation byte must be `10xxxxxx`: its six payload bits.
fn cont(bytes: &[u8], i: usize) -> (r: Result<u32, ClassFileError>)
    ensures
        match r {
            Ok(v) => i < bytes@.len() && is_cont(bytes@[i as int]) && v == bytes@[i as int] - 0x80,
            Err(e) => e == ClassFileError::BadUtf8 && !(i < bytes@.len() && is_cont(
                bytes@[i as int],
            )),
        },
{
    if i >= bytes.len() {
        return Err(ClassFileError::BadUtf8);
    }
    let b: u8 = bytes[i];
    if b < 0x80 || b >= 0xC0 {
        return Err(ClassFileError::BadUtf8);
    }
    Ok((b - 0x80) as u32)
}

/// The 16 bits of the three-byte form that starts with a byte `1110xxxx` at `i`.
fn three_bytes(bytes: &[u8], i: usize) -> (r: Result<u32, ClassFileError>)
    requires
        i < bytes@.len(),
    ensures
        match r {
            Ok(v) => three_byte_unit(bytes@, i as int) == Some(v as int) && v <= 0xFFFF,
            Err(e) => e == ClassFileError::BadUtf8 && three_byte_unit(bytes@, i as int) is None,
        },
{
    let b: u8 = bytes[i];
    if b < 0xE0 || b >= 0xF0 {
        return Err(ClassFileError::BadUtf8);
    }
    if bytes.len() - i < 3 {
        return Err(ClassFileError::BadUtf8);
    }
    let mid: u32 = cont(bytes, i + 1)?;
    let low: u32 = cont(bytes, i + 2)?;
    Ok((b - 0xE0) as u32 * 0x1000 + mid * 0x40 + low)
}

/// The character whose encoding starts at `i`, and the length of the encoding.
fn decode_char(bytes: &[u8], i: usize) -> (r: Result<(char, usize), ClassFileError>)
    requires
        i < bytes@.len(),
    ensures
        match r {
            Ok((c, n)) => mutf8_char(bytes@, i as int) == Some((c, n as int)) && 0 < n && i + n
                <= bytes@.len(),
            Err(e) => e == ClassFileError::BadUtf8 && mutf8_char(bytes@, i as int) is None,
        },
{
    let b: u8 = bytes[i];
    if b == 0 {
        return Err(ClassFileError::BadUtf8);
    }
    if b < 0x80 {
        Ok((b as char, 1))
    } else if b >= 0xC0 && b < 0xE0 {
        if bytes.len() - i < 2 {
            return Err(ClassFileError::BadUtf8);
        }
        let low: u32 = cont(bytes, i + 1)?;
        let cp: u32 = (b - 0xC0) as u32 * 0x40 + low;
        if cp < 0x80 && cp != 0 {
            return Err(ClassFileError::BadUtf8);
        }
        match char::from_u32(cp) {
            Some(c) => Ok((c, 2)),
            None => Err(ClassFileError::BadUtf8),
        }
    } else {
        let cp: u32 = three_bytes(bytes, i)?;
        if cp < 0x800 {
            return Err(ClassFileError::BadUtf8);
        }
        if cp >= 0xD800 && cp < 0xDC00 {
            if bytes.len() - i < 6 {
                return Err(ClassFileError::BadUtf8);
            }
            let lo: u32 = three_bytes(bytes, i + 3)?;
            if lo < 0xDC00 || lo >= 0xE000 {
                return Err(ClassFileError::BadUtf8);
            }
            match char::from_u32(0x1_0000 + (cp - 0xD800) * 0x400 + (lo - 0xDC00)) {
                Some(c) => Ok((c, 6)),
                None => Err(ClassFileError::BadUtf8),
            }
        } else {
            match char::from_u32(cp) {
                Some(c) => Ok((c, 3)),
                None => Err(ClassFileError::BadUtf8),
            }
        }
    }
}

/// Decode modified UTF-8 into a `String`. Validation is strict: continuation bytes must be
/// `10xxxxxx`, overlong encodings are refused (except `C0 80`, which encodes NUL), and so is an
/// unpaired surrogate, which a `String` cannot hold.
pub fn decode_mutf8(bytes: &[u8]) -> (r: Result<String, ClassFileError>)
    ensures
        match r {
            Ok(s) => mutf8(bytes@) == Some(s@),
            Err(e) => e == ClassFileError::BadUtf8 && mutf8(bytes@) is None,
        },
{
    let mut out = String::new();
    let mut i: usize = 0;
    while i < bytes.len()
        invariant
            i <= bytes@.len(),
            match mutf8_from(bytes@, i as int) {
                None => mutf8(bytes@) is None,
                Some(rest) => mutf8(bytes@) == Some(out@ + rest),
            },
        decreases bytes@.len() - i,
    {
        let ghost before = out@;
        let (c, n) = decode_char(bytes, i)?;
        out.push(c);
        i += n;
        proof {
            if mutf8_from(bytes@, i as int) is Some {
                let rest = mutf8_from(bytes@, i as int)->0;
                assert(before + (seq![c] + rest) =~= before.push(c) + rest);
            }
        }
    }
    assert(out@ + Seq::<char>::empty() =~= out@);
    Ok(out)
}

impl ConstantPool {
    /// The text in its pool form.
    fn parse_utf8(r: &mut Reader) -> (c: Result<Constant, ClassFileError>)
        ensures
            final(r)@.data == old(r)@.data,
            old(r)@.pos <= final(r)@.pos <= old(r)@.data.len(),
            0 <= old(r)@.pos <= old(r)@.data.len(),
            ({
                let d = old(r)@.data;
                let p = old(r)@.pos;
                match (if p + 2 > d.len() {
                    Err(ClassFileError::Eof(d.len() as usize))
                } else {
                    match block(d, p + 2, be16(d, p) as int) {
                        Err(e) => Err(e),
                        Ok((text, q)) => match mutf8(text) {
                            Some(s) => Ok((ConstantView::Utf8(s), q)),
                            None => Err(ClassFileError::BadUtf8),
                        },
                    }
                }) {
                    Ok((v, q)) => c is Ok && c->Ok_0@ == v && final(r)@.pos == q,
                    Err(e) => c is Err && c->Err_0 == e,
                }
            }),
    {
        let len: usize = r.u2()? as usize;
        let text = decode_mutf8(r.bytes(len)?)?;
        Ok(Constant::Utf8(text))
    }

    /// Parse one entry.
    fn parse_entry(r: &mut Reader, index: u16) -> (c: Result<Constant, ClassFileError>)
        ensures
            final(r)@.data == old(r)@.data,
            old(r)@.pos <= final(r)@.pos <= old(r)@.data.len(),
            match constant_at(old(r)@.data, old(r)@.pos, index) {
                Ok((v, q)) => c is Ok && c->Ok_0@ == v && final(r)@.pos == q,
                Err(e) => c is Err && c->Err_0 == e,
            },
    {
        let tag: u8 = r.u1()?;
        Ok(
            match tag {
                1 => {
                    return ConstantPool::parse_utf8(r);
                },
                3 => Constant::Integer(r.u4()? as i32),
                4 => Constant::Float(r.u4()?),
                5 => Constant::Long(r.u8()? as i64),
                6 => Constant::Double(r.u8()?),
                7 => Constant::Class { name_index: r.u2()? },
                8 => Constant::String { string_index: r.u2()? },
                9 => Constant::FieldRef { class_index: r.u2()?, name_and_type_index: r.u2()? },
                10 => Constant::MethodRef { class_index: r.u2()?, name_and_type_index: r.u2()? },
                11 => Constant::InterfaceMethodRef {
                    class_index: r.u2()?,
                    name_and_type_index: r.u2()?,
                },
                12 => Constant::NameAndType { name_index: r.u2()?, descriptor_index: r.u2()? },
                15 => Constant::MethodHandle { reference_kind: r.u1()?, reference_index: r.u2()? },
                16 => Constant::MethodType { descriptor_index: r.u2()? },
                17 => Constant::Dynamic {
                    bootstrap_method_attr_index: r.u2()?,
                    name_and_type_index: r.u2()?,
                },
                18 => Constant::InvokeDynamic {
                    bootstrap_method_attr_index: r.u2()?,
                    name_and_type_index: r.u2()?,
                },
                19 => Constant::Module { name_index: r.u2()? },
                20 => Constant::Package { name_index: r.u2()? },
                _ => {
                    return Err(ClassFileError::UnknownTag { tag, index });
                },
            },
        )
    }

    /// Parse `constant_pool_count` and the entries that follow.
    pub fn parse(r: &mut Reader) -> (c: Result<ConstantPool, ClassFileError>)
        ensures
            final(r)@.data == old(r)@.data,
            old(r)@.pos <= final(r)@.pos <= old(r)@.data.len(),
            match pool_at(old(r)@.data, old(r)@.pos) {
                Ok((v, q)) => c is Ok && c->Ok_0@ == v && final(r)@.pos == q,
                Err(e) => c is Err && c->Err_0 == e,
            },
    {
        let count: u16 = r.u2()?;
        if count == 0 {
            return Err(ClassFileError::BadCpIndex(0));
        }
        let mut pool = ConstantPool { entries: Vec::new() };
        pool.entries.push(Constant::Unusable);
        assert(pool@ =~= seq![ConstantView::Plain(Constant::Unusable)]);
        let mut i: u16 = 1;
        while i < count
            invariant
                1 <= i,
                i == pool.entries@.len(),
                r@.data == old(r)@.data,
                old(r)@.pos <= r@.pos <= old(r)@.data.len(),
                pool_at(old(r)@.data, old(r)@.pos) == pool_from(
                    r@.data,
                    r@.pos,
                    pool@,
                    count as int,
                ),
            decreases count - i,
        {
            let ghost before = pool@;
            let c = ConstantPool::parse_entry(r, i)?;
            let wide = match &c {
                Constant::Long(_) => true,
                Constant::Double(_) => true,
                _ => false,
            };
            let ghost cv = c@;
            pool.entries.push(c);
            assert(pool@ =~= before.push(cv));
            i += 1;
            if wide {
                if i >= count {
                    return Err(ClassFileError::BadCpIndex(i));
                }
                pool.entries.push(Constant::Unusable);
                assert(pool@ =~= before.push(cv).push(ConstantView::Plain(Constant::Unusable)));
                i += 1;
            }
        }
        Ok(pool)
    }

    /// Number of entries (including sentinels).
    pub fn len(&self) -> (n: usize)
        ensures
            n == self@.len(),
    {
        self.entries.len()
    }

    /// Whether there is nothing but the sentinel.
    pub fn is_empty(&self) -> (b: bool)
        ensures
            b == (self@.len() <= 1),
    {
        self.entries.len() <= 1
    }

    /// The constant at `index`, if in range.
    pub fn get(&self, index: u16) -> (c: Option<&Constant>)
        ensures
            c is Some <==> index < self@.len(),
            c matches Some(k) ==> k@ == self@[index as int],
    {
        if (index as usize) < self.entries.len() {
            Some(&self.entries[index as usize])
        } else {
            None
        }
    }

    /// A `Utf8` constant's text.
    pub fn utf8(&self, index: u16) -> (t: Option<&str>)
        ensures
            text_of(t) == pool_utf8(self@, index),
    {
        match self.get(index) {
            Some(Constant::Utf8(s)) => Some(s.as_str()),
            _ => None,
        }
    }

    /// A `Class` constant's internal name (e.g. `java/lang/Object`).
    pub fn class_name(&self, index: u16) -> (t: Option<&str>)
        ensures
            text_of(t) == pool_class_name(self@, index),
    {
        match self.get(index) {
            Some(Constant::Class { name_index }) => self.utf8(*name_index),
            _ => None,
        }
    }
}

/// A parsed pool has exactly as many entries as its count says.
pub proof fn lemma_pool_len(d: Seq<u8>, p: int)
    requires
        pool_at(d, p) is Ok,
    ensures
        pool_at(d, p)->Ok_0.0.len() == be16(d, p),
{
    lemma_pool_from_len(
        d,
        p + 2,
        seq![ConstantView::Plain(Constant::Unusable)],
        be16(d, p) as int,
    );
}

/// Whether a sentinel stands behind every wide constant, and nowhere else above index 0.
pub open spec fn sentinels_follow(entries: PoolView) -> bool {
    &&& entries.len() > 0
    &&& !is_wide(entries.last())
    &&& forall|i: int|
        1 <= i < entries.len() ==> ((#[trigger] entries[i]) == ConstantView::Plain(
            Constant::Unusable,
        ) <==> is_wide(entries[i - 1]))
}

proof fn lemma_sentinels_from(d: Seq<u8>, p: int, entries: PoolView, count: int)
    requires
        pool_from(d, p, entries, count) is Ok,
        sentinels_follow(entries),
    ensures
        sentinels_follow(pool_from(d, p, entries, count)->Ok_0.0),
    decreases count - entries.len(),
{
    if entries.len() < count {
        let (c, q) = constant_at(d, p, entries.len() as u16)->Ok_0;
        assert(c != ConstantView::Plain(Constant::Unusable));
        if is_wide(c) {
            let more = entries.push(c).push(ConstantView::Plain(Constant::Unusable));
            lemma_sentinels_from(d, q, more, count);
        } else {
            lemma_sentinels_from(d, q, entries.push(c), count);
        }
    }
}

/// In a parsed pool every wide constant is followed by a sentinel, which has an index of its own, and
/// no other entry above index 0 is one.
pub proof fn lemma_pool_sentinels(d: Seq<u8>, p: int)
    requires
        pool_at(d, p) is Ok,
    ensures
        sentinels_follow(pool_at(d, p)->Ok_0.0),
{
    let first = seq![ConstantView::Plain(Constant::Unusable)];
    lemma_sentinels_from(d, p + 2, first, be16(d, p) as int);
}

proof fn lemma_pool_from_len(d: Seq<u8>, p: int, entries: PoolView, count: int)
    requires
        pool_from(d, p, entries, count) is Ok,
    ensures
        pool_from(d, p, entries, count)->Ok_0.0.len() == (if entries.len() >= count {
            entries.len() as int
        } else {
            count
        }),
        entries.is_prefix_of(pool_from(d, p, entries, count)->Ok_0.0),
    decreases count - entries.len(),
{
    if entries.len() < count {
        let (c, q) = constant_at(d, p, entries.len() as u16)->Ok_0;
        if is_wide(c) {
            let more = entries.push(c).push(ConstantView::Plain(Constant::Unusable));
            lemma_pool_from_len(d, q, more, count);
        } else {
            lemma_pool_from_len(d, q, entries.push(c), count);
        }
    }
}

/// Index 0 of a parsed pool is a sentinel.
pub proof fn lemma_pool_starts_with_sentinel(d: Seq<u8>, p: int)
    requires
        pool_at(d, p) is Ok,
    ensures
        pool_at(d, p)->Ok_0.0.len() > 0,
        pool_at(d, p)->Ok_0.0[0] == ConstantView::Plain(Constant::Unusable),
{
    let first = seq![ConstantView::Plain(Constant::Unusable)];
    lemma_pool_from_len(d, p + 2, first, be16(d, p) as int);
    assert(pool_at(d, p)->Ok_0.0[0] == first[0]);
}

/// Plain characters pass through the decoding unchanged: bytes 1 to 7F encode themselves.
pub proof fn lemma_mutf8_ascii(b: Seq<u8>)
    requires
        forall|i: int| 0 <= i < b.len() ==> 0 < #[trigger] b[i] < 0x80,
    ensures
        mutf8(b) == Some(Seq::new(b.len(), |i: int| b[i] as char)),
{
    lemma_mutf8_ascii_from(b, 0);
    assert(Seq::new(b.len(), |i: int| b[0 + i] as char) =~= Seq::new(
        b.len(),
        |i: int| b[i] as char,
    ));
}

proof fn lemma_mutf8_ascii_from(b: Seq<u8>, i: int)
    requires
        0 <= i <= b.len(),
        forall|j: int| 0 <= j < b.len() ==> 0 < #[trigger] b[j] < 0x80,
    ensures
        mutf8_from(b, i) == Some(Seq::new((b.len() - i) as nat, |j: int| b[i + j] as char)),
    decreases b.len() - i,
{
    if i < b.len() {
        lemma_mutf8_ascii_from(b, i + 1);
        let rest = Seq::new((b.len() - i - 1) as nat, |j: int| b[i + 1 + j] as char);
        let all = Seq::new((b.len() - i) as nat, |j: int| b[i + j] as char);
        assert(seq![b[i] as char] + rest =~= all);
    } else {
        assert(Seq::<char>::empty() =~= Seq::new(0, |j: int| b[i + j] as char));
    }
}

/// The three-byte form of 16 bits.
pub open spec fn encoded_unit(u: int) -> Seq<u8> {
    seq![
        (0xE0 + u / 0x1000) as u8,
        (0x80 + (u / 0x40) % 0x40) as u8,
        (0x80 + u % 0x40) as u8,
    ]
}

/// The modified UTF-8 of a character.
pub open spec fn encoded_char(c: char) -> Seq<u8> {
    let n = c as int;
    if n == 0 {
        seq![0xC0u8, 0x80u8]
    } else if n < 0x80 {
        seq![n as u8]
    } else if n < 0x800 {
        seq![(0xC0 + n / 0x40) as u8, (0x80 + n % 0x40) as u8]
    } else if n < 0x1_0000 {
        encoded_unit(n)
    } else {
        encoded_unit(0xD800 + (n - 0x1_0000) / 0x400) + encoded_unit(
            0xDC00 + (n - 0x1_0000) % 0x400,
        )
    }
}

/// The modified UTF-8 of a text.
pub open spec fn encoded(s: Seq<char>) -> Seq<u8>
    decreases s.len(),
{
    if s.len() == 0 {
        Seq::empty()
    } else {
        encoded_char(s[0]) + encoded(s.skip(1))
    }
}

proof fn lemma_unit_decodes(b: Seq<u8>, i: int, u: int)
    requires
        0 <= u <= 0xFFFF,
        0 <= i,
        i + 3 <= b.len(),
        b.subrange(i, i + 3) == encoded_unit(u),
    ensures
        three_byte_unit(b, i) == Some(u),
{
    let e = encoded_unit(u);
    assert(b[i] == b.subrange(i, i + 3)[0]);
    assert(b[i + 1] == b.subrange(i, i + 3)[1]);
    assert(b[i + 2] == b.subrange(i, i + 3)[2]);
    assert(e[0] == (0xE0 + u / 0x1000) as u8 && 0 <= u / 0x1000 <= 0xF);
    assert(u == (u / 0x1000) * 0x1000 + ((u / 0x40) % 0x40) * 0x40 + u % 0x40);
}

proof fn lemma_unit_encodes(b: Seq<u8>, i: int)
    requires
        0 <= i,
        three_byte_unit(b, i) is Some,
    ensures
        i + 3 <= b.len(),
        0 <= three_byte_unit(b, i)->0 <= 0xFFFF,
        b.subrange(i, i + 3) == encoded_unit(three_byte_unit(b, i)->0),
{
    let u = three_byte_unit(b, i)->0;
    let (x, y, z) = (b[i] - 0xE0, b[i + 1] - 0x80, b[i + 2] - 0x80);
    assert(u == x * 0x1000 + y * 0x40 + z);
    assert(u / 0x1000 == x && (u / 0x40) % 0x40 == y && u % 0x40 == z);
    assert(b.subrange(i, i + 3) =~= encoded_unit(u));
}

proof fn lemma_char_decodes(b: Seq<u8>, i: int, c: char)
    requires
        0 <= i,
        i + encoded_char(c).len() <= b.len(),
        b.subrange(i, i + encoded_char(c).len()) == encoded_char(c),
    ensures
        mutf8_char(b, i) == Some((c, encoded_char(c).len() as int)),
{
    let n = c as int;
    let e = encoded_char(c);
    let part = b.subrange(i, i + e.len());
    assert(b[i] == part[0]);
    if n == 0 || (0x80 <= n < 0x800) {
        assert(b[i + 1] == part[1]);
        assert(n == (n / 0x40) * 0x40 + n % 0x40);
    } else if n < 0x80 {
    } else if n < 0x1_0000 {
        lemma_unit_decodes(b, i, n);
    } else {
        let (hi, lo) = (0xD800 + (n - 0x1_0000) / 0x400, 0xDC00 + (n - 0x1_0000) % 0x400);
        assert(b.subrange(i, i + 3) =~= part.subrange(0, 3));
        assert(part.subrange(0, 3) =~= encoded_unit(hi));
        assert(b.subrange(i + 3, i + 6) =~= part.subrange(3, 6));
        assert(part.subrange(3, 6) =~= encoded_unit(lo));
        lemma_unit_decodes(b, i, hi);
        lemma_unit_decodes(b, i + 3, lo);
        assert(n == 0x1_0000 + (hi - 0xD800) * 0x400 + (lo - 0xDC00));
    }
}

proof fn lemma_char_encodes(b: Seq<u8>, i: int)
    requires
        0 <= i < b.len(),
        mutf8_char(b, i) is Some,
    ensures
        ({
            let (c, n) = mutf8_char(b, i)->0;
            i + n <= b.len() && n == encoded_char(c).len() && n > 0 && b.subrange(i, i + n)
                == encoded_char(c)
        }),
{
    let (c, n) = mutf8_char(b, i)->0;
    if b[i] < 0x80 {
        assert(b.subrange(i, i + 1) =~= encoded_char(c));
    } else if b[i] < 0xE0 {
        let v = (b[i] - 0xC0) * 0x40 + (b[i + 1] - 0x80);
        assert(c as int == v);
        assert(v / 0x40 == b[i] - 0xC0 && v % 0x40 == b[i + 1] - 0x80);
        assert(b.subrange(i, i + 2) =~= encoded_char(c));
    } else {
        lemma_unit_encodes(b, i);
        let u = three_byte_unit(b, i)->0;
        if 0xD800 <= u < 0xDC00 {
            lemma_unit_encodes(b, i + 3);
            let lo = three_byte_unit(b, i + 3)->0;
            let v = 0x1_0000 + (u - 0xD800) * 0x400 + (lo - 0xDC00);
            assert(c as int == v);
            assert((v - 0x1_0000) / 0x400 == u - 0xD800 && (v - 0x1_0000) % 0x400 == lo - 0xDC00);
            assert(b.subrange(i, i + 6) =~= b.subrange(i, i + 3) + b.subrange(i + 3, i + 6));
        } else {
            assert(c as int == u);
        }
    }
}

proof fn lemma_encoded_decodes(p: Seq<u8>, s: Seq<char>)
    ensures
        mutf8_from(p + encoded(s), p.len() as int) == Some(s),
    decreases s.len(),
{
    let b = p + encoded(s);
    if s.len() == 0 {
        assert(s =~= Seq::empty());
    } else {
        let e = encoded_char(s[0]);
        let q = p + e;
        assert(b =~= q + encoded(s.skip(1)));
        assert(b.subrange(p.len() as int, (p.len() + e.len()) as int) =~= e);
        lemma_char_decodes(b, p.len() as int, s[0]);
        lemma_encoded_decodes(q, s.skip(1));
        assert(seq![s[0]] + s.skip(1) =~= s);
    }
}

proof fn lemma_decoded_encodes(b: Seq<u8>, i: int)
    requires
        0 <= i <= b.len(),
        mutf8_from(b, i) is Some,
    ensures
        b.skip(i) == encoded(mutf8_from(b, i)->0),
    decreases b.len() - i,
{
    if i < b.len() {
        lemma_char_encodes(b, i);
        let (c, n) = mutf8_char(b, i)->0;
        lemma_decoded_encodes(b, i + n);
        let rest = mutf8_from(b, i + n)->0;
        let all = seq![c] + rest;
        assert(all.skip(1) =~= rest);
        assert(b.skip(i) =~= b.subrange(i, i + n) + b.skip(i + n));
    } else {
        assert(b.skip(i) =~= Seq::empty());
    }
}

/// Modified UTF-8 round-trips: every text is decoded from its encoding.
pub proof fn lemma_mutf8_round_trips(s: Seq<char>)
    ensures
        mutf8(encoded(s)) == Some(s),
{
    lemma_encoded_decodes(Seq::empty(), s);
    assert(Seq::<u8>::empty() + encoded(s) =~= encoded(s));
}

/// Decoding is strict: a text is decoded from its own encoding and from no other bytes, overlong or
/// otherwise malformed.
pub proof fn lemma_mutf8_is_strict(b: Seq<u8>)
    ensures
        mutf8(b) matches Some(s) ==> b == encoded(s),
{
    if mutf8(b) is Some {
        lemma_decoded_encodes(b, 0);
        assert(b.skip(0) =~= b);
    }
}

} // verus!
