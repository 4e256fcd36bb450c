//! Class-file parsing: magic/version, constant pool, fields, methods, and attributes (fully
//! decoding the `Code` attribute). This is the well-formedness front end; bytecode verification is
//! a separate concern. Parsing never panics on malformed input.

use vstd::prelude::*;

pub mod attribute;
pub mod constant_pool;
pub mod error;
pub mod laws;
pub mod reader;

use attribute::{attribute_views, attributes_at, copy_attributes};
use constant_pool::{pool_at, pool_class_name, pool_utf8, PoolView};
use reader::{be16, be32, Parsed};
use crate::text::{is_text, text_of};

pub use attribute::{
    parse_attributes, Attribute, AttributeView, CodeAttr, CodeView, ExceptionTableEntry,
};
pub use constant_pool::{decode_mutf8, Constant, ConstantPool, ConstantView};
pub use error::ClassFileError;
pub use reader::Reader;

verus! {

/// A parsed `field_info` or `method_info`.
#[derive(Debug)]
pub struct MemberInfo {
    pub access_flags: u16,
    pub name_index: u16,
    pub descriptor_index: u16,
    pub attributes: Vec<Attribute>,
}

/// What a member holds.
#[verifier::ext_equal]
pub struct MemberView {
    pub access_flags: u16,
    pub name_index: u16,
    pub descriptor_index: u16,
    pub attributes: Seq<AttributeView>,
}

impl View for MemberInfo {
    type V = MemberView;

    open spec fn view(&self) -> MemberView {
        MemberView {
            access_flags: self.access_flags,
            name_index: self.name_index,
            descriptor_index: self.descriptor_index,
            attributes: attribute_views(self.attributes@),
        }
    }
}

/// What a list of members holds.
pub open spec fn member_views(s: Seq<MemberInfo>) -> Seq<MemberView> {
    Seq::new(s.len(), |i: int| s[i]@)
}

impl Clone for MemberInfo {
    fn clone(&self) -> (m: MemberInfo)
        ensures
            m@ == self@,
    {
        MemberInfo {
            access_flags: self.access_flags,
            name_index: self.name_index,
            descriptor_index: self.descriptor_index,
            attributes: copy_attributes(&self.attributes),
        }
    }
}

/// A copy of a list of members.
fn copy_members(list: &Vec<MemberInfo>) -> (out: Vec<MemberInfo>)
    ensures
        member_views(out@) == member_views(list@),
{
    let mut out: Vec<MemberInfo> = Vec::new();
    let mut i: usize = 0;
    while i < list.len()
        invariant
            i <= list@.len(),
            out@.len() == i,
            forall|j: int| 0 <= j < i ==> (#[trigger] out@[j])@ == list@[j]@,
        decreases list@.len() - i,
    {
        out.push(list[i].clone());
        i += 1;
    }
    assert(member_views(out@) =~= member_views(list@));
    out
}

/// The first `Code` attribute of a list.
pub open spec fn first_code(attributes: Seq<AttributeView>) -> Option<CodeView>
    decreases attributes.len(),
{
    if attributes.len() == 0 {
        None
    } else {
        match attributes.first() {
            AttributeView::Code(c) => Some(c),
            _ => first_code(attributes.drop_first()),
        }
    }
}

/// The member at `p`.
pub open spec fn member_at(d: Seq<u8>, p: int, pool: PoolView) -> Parsed<MemberView> {
    if p + 6 > d.len() {
        Err(ClassFileError::Eof(d.len() as usize))
    } else {
        match attributes_at(d, p + 6, pool) {
            Err(e) => Err(e),
            Ok((attributes, q)) => Ok(
                (
                    MemberView {
                        access_flags: be16(d, p),
                        name_index: be16(d, p + 2),
                        descriptor_index: be16(d, p + 4),
                        attributes,
                    },
                    q,
                ),
            ),
        }
    }
}

/// `list`, and `n` more members from `p` on.
pub open spec fn members_from(
    d: Seq<u8>,
    p: int,
    pool: PoolView,
    n: nat,
    list: Seq<MemberView>,
) -> Parsed<Seq<MemberView>>
    decreases n,
{
    if n == 0 {
        Ok((list, p))
    } else {
        match member_at(d, p, pool) {
            Err(e) => Err(e),
            Ok((m, q)) => members_from(d, q, pool, (n - 1) as nat, list.push(m)),
        }
    }
}

/// The members at `p`: a count, and as many members.
pub open spec fn members_at(d: Seq<u8>, p: int, pool: PoolView) -> Parsed<Seq<MemberView>> {
    if p + 2 > d.len() {
        Err(ClassFileError::Eof(d.len() as usize))
    } else {
        members_from(d, p + 2, pool, be16(d, p) as nat, Seq::empty())
    }
}

impl MemberInfo {
    fn parse(r: &mut Reader, cp: &ConstantPool) -> (m: Result<MemberInfo, ClassFileError>)
        ensures
            final(r)@.data == old(r)@.data,
            old(r)@.pos <= final(r)@.pos <= old(r)@.data.len(),
            match member_at(old(r)@.data, old(r)@.pos, cp@) {
                Ok((v, q)) => m is Ok && m->Ok_0@ == v && final(r)@.pos == q,
                Err(e) => m is Err && m->Err_0 == e,
            },
    {
        let access_flags: u16 = r.u2()?;
        let name_index: u16 = r.u2()?;
        let descriptor_index: u16 = r.u2()?;
        let attributes = parse_attributes(r, cp)?;
        Ok(MemberInfo { access_flags, name_index, descriptor_index, attributes })
    }

    /// The member's name, resolved against the constant pool.
    pub fn name<'a>(&self, cp: &'a ConstantPool) -> (t: Option<&'a str>)
        ensures
            text_of(t) == pool_utf8(cp@, self@.name_index),
    {
        cp.utf8(self.name_index)
    }

    /// The member's type descriptor, resolved against the constant pool.
    pub fn descriptor<'a>(&self, cp: &'a ConstantPool) -> (t: Option<&'a str>)
        ensures
            text_of(t) == pool_utf8(cp@, self@.descriptor_index),
    {
        cp.utf8(self.descriptor_index)
    }

    /// The member's `Code` attribute, if any (methods only).
    pub fn code(&self) -> (c: Option<&CodeAttr>)
        ensures
            match first_code(self@.attributes) {
                Some(v) => c is Some && c->0@ == v,
                None => c is None,
            },
    {
        let mut i: usize = 0;
        assert(self@.attributes.skip(0) =~= self@.attributes);
        while i < self.attributes.len()
            invariant
                i <= self.attributes@.len(),
                first_code(self@.attributes) == first_code(self@.attributes.skip(i as int)),
            decreases self.attributes@.len() - i,
        {
            assert(self@.attributes.skip(i as int).first() == self.attributes@[i as int]@);
            assert(self@.attributes.skip(i as int).drop_first() =~= self@.attributes.skip(i + 1));
            if let Attribute::Code(c) = &self.attributes[i] {
                return Some(c);
            }
            i += 1;
        }
        None
    }
}

/// A parsed class file.
#[derive(Debug)]
pub struct ClassFile {
    pub minor: u16,
    pub major: u16,
    pub constant_pool: ConstantPool,
    pub access_flags: u16,
    pub this_class: u16,
    pub super_class: u16,
    pub interfaces: Vec<u16>,
    pub fields: Vec<MemberInfo>,
    pub methods: Vec<MemberInfo>,
    pub attributes: Vec<Attribute>,
}

/// What a class file holds.
#[verifier::ext_equal]
pub struct ClassFileView {
    pub minor: u16,
    pub major: u16,
    pub constant_pool: PoolView,
    pub access_flags: u16,
    pub this_class: u16,
    pub super_class: u16,
    pub interfaces: Seq<u16>,
    pub fields: Seq<MemberView>,
    pub methods: Seq<MemberView>,
    pub attributes: Seq<AttributeView>,
}

impl View for ClassFile {
    type V = ClassFileView;

    open spec fn view(&self) -> ClassFileView {
        ClassFileView {
            minor: self.minor,
            major: self.major,
            constant_pool: self.constant_pool@,
            access_flags: self.access_flags,
            this_class: self.this_class,
            super_class: self.super_class,
            interfaces: self.interfaces@,
            fields: member_views(self.fields@),
            methods: member_views(self.methods@),
            attributes: attribute_views(self.attributes@),
        }
    }
}

impl Clone for ClassFile {
    fn clone(&self) -> (cf: ClassFile)
        ensures
            cf@ == self@,
    {
        let interfaces = self.interfaces.clone();
        assert(interfaces@ =~= self.interfaces@);
        ClassFile {
            minor: self.minor,
            major: self.major,
            constant_pool: self.constant_pool.clone(),
            access_flags: self.access_flags,
            this_class: self.this_class,
            super_class: self.super_class,
            interfaces,
            fields: copy_members(&self.fields),
            methods: copy_members(&self.methods),
            attributes: copy_attributes(&self.attributes),
        }
    }
}

impl ClassFileView {
    /// The class's own internal name.
    pub open spec fn this_name(self) -> Option<Seq<char>> {
        pool_class_name(self.constant_pool, self.this_class)
    }

    /// The superclass's internal name, if the class has a superclass.
    pub open spec fn super_name(self) -> Option<Seq<char>> {
        if self.super_class == 0 {
            None
        } else {
            pool_class_name(self.constant_pool, self.super_class)
        }
    }

    /// Whether method `i` has that name and descriptor.
    pub open spec fn method_is(self, i: int, name: Seq<char>, descriptor: Seq<char>) -> bool {
        &&& pool_utf8(self.constant_pool, self.methods[i].name_index) == Some(name)
        &&& pool_utf8(self.constant_pool, self.methods[i].descriptor_index) == Some(descriptor)
    }
}

impl ClassFile {
    /// This class's internal name (e.g. `Slice`, `java/lang/Object`).
    pub fn this_class_name(&self) -> (t: Option<&str>)
        ensures
            text_of(t) == self@.this_name(),
    {
        self.constant_pool.class_name(self.this_class)
    }

    /// The superclass's internal name, or `None` for `java/lang/Object`.
    pub fn super_class_name(&self) -> (t: Option<&str>)
        ensures
            text_of(t) == self@.super_name(),
    {
        if self.super_class == 0 {
            None
        } else {
            self.constant_pool.class_name(self.super_class)
        }
    }

    /// Find the first method of that name and descriptor.
    pub fn method(&self, name: &str, descriptor: &str) -> (m: Option<&MemberInfo>)
        ensures
            m is None <==> forall|i: int|
                0 <= i < self@.methods.len() ==> !#[trigger] self@.method_is(
                    i,
                    name@,
                    descriptor@,
                ),
            m matches Some(found) ==> exists|i: int|
                0 <= i < self@.methods.len() && #[trigger] self@.method_is(i, name@, descriptor@)
                    && found@ == self@.methods[i] && forall|j: int|
                    0 <= j < i ==> !#[trigger] self@.method_is(j, name@, descriptor@),
    {
        let mut i: usize = 0;
        while i < self.methods.len()
            invariant
                i <= self.methods@.len(),
                forall|j: int| 0 <= j < i ==> !#[trigger] self@.method_is(j, name@, descriptor@),
            decreases self.methods@.len() - i,
        {
            let m = &self.methods[i];
            if is_text(m.name(&self.constant_pool), name) && is_text(
                m.descriptor(&self.constant_pool),
                descriptor,
            ) {
                assert(self@.method_is(i as int, name@, descriptor@));
                return Some(m);
            }
            assert(!self@.method_is(i as int, name@, descriptor@));
            i += 1;
        }
        None
    }
}

fn parse_members(r: &mut Reader, cp: &ConstantPool) -> (list: Result<
    Vec<MemberInfo>,
    ClassFileError,
>)
    ensures
        final(r)@.data == old(r)@.data,
        old(r)@.pos <= final(r)@.pos <= old(r)@.data.len(),
        match members_at(old(r)@.data, old(r)@.pos, cp@) {
            Ok((v, q)) => list is Ok && member_views(list->Ok_0@) == v && final(r)@.pos == q,
            Err(e) => list is Err && list->Err_0 == e,
        },
{
    let count: u16 = r.u2()?;
    let mut out: Vec<MemberInfo> = Vec::new();
    assert(member_views(out@) =~= Seq::empty());
    let mut i: u16 = 0;
    while i < count
        invariant
            i <= count,
            r@.data == old(r)@.data,
            old(r)@.pos <= r@.pos <= old(r)@.data.len(),
            members_at(old(r)@.data, old(r)@.pos, cp@) == members_from(
                r@.data,
                r@.pos,
                cp@,
                (count - i) as nat,
                member_views(out@),
            ),
        decreases count - i,
    {
        let ghost before = out@;
        let m = MemberInfo::parse(r, cp)?;
        out.push(m);
        i += 1;
        assert(member_views(out@) =~= member_views(before).push(m@));
    }
    Ok(out)
}

/// The `n` two-byte numbers at `p`.
pub open spec fn shorts_at(d: Seq<u8>, p: int, n: nat) -> Seq<u16> {
    Seq::new(n, |i: int| be16(d, p + 2 * i))
}

/// What follows the interfaces of a class file.
pub open spec fn class_rest(d: Seq<u8>, p: int, head: ClassFileView) -> Result<
    ClassFileView,
    ClassFileError,
> {
    match members_at(d, p, head.constant_pool) {
        Err(e) => Err(e),
        Ok((fields, q)) => match members_at(d, q, head.constant_pool) {
            Err(e) => Err(e),
            Ok((methods, q2)) => match attributes_at(d, q2, head.constant_pool) {
                Err(e) => Err(e),
                Ok((attributes, _)) => Ok(ClassFileView { fields, methods, attributes, ..head }),
            },
        },
    }
}

/// The class file that `d` holds, or what is wrong with it. Bytes behind the class file are
/// ignored.
pub open spec fn class_of(d: Seq<u8>) -> Result<ClassFileView, ClassFileError> {
    let short = Err(ClassFileError::Eof(d.len() as usize));
    if d.len() < 4 {
        short
    } else if be32(d, 0) != 0xCAFE_BABE {
        Err(ClassFileError::BadMagic(be32(d, 0)))
    } else if d.len() < 8 {
        short
    } else {
        match pool_at(d, 8) {
            Err(e) => Err(e),
            Ok((constant_pool, p)) => if p + 8 > d.len() {
                short
            } else {
                let n = be16(d, p + 6);
                if p + 8 + 2 * n > d.len() {
                    short
                } else {
                    class_rest(
                        d,
                        p + 8 + 2 * n,
                        ClassFileView {
                            minor: be16(d, 4),
                            major: be16(d, 6),
                            constant_pool,
                            access_flags: be16(d, p),
                            this_class: be16(d, p + 2),
                            super_class: be16(d, p + 4),
                            interfaces: shorts_at(d, p + 8, n as nat),
                            fields: Seq::empty(),
                            methods: Seq::empty(),
                            attributes: Seq::empty(),
                        },
                    )
                }
            },
        }
    }
}

/// Parse a class file from its raw bytes.
pub fn parse(data: &[u8]) -> (r: Result<ClassFile, ClassFileError>)
    ensures
        match class_of(data@) {
            Ok(c) => r is Ok && r->Ok_0@ == c,
            Err(e) => r is Err && r->Err_0 == e,
        },
{
    let mut r = Reader::new(data);
    let magic: u32 = r.u4()?;
    if magic != 0xCAFE_BABE {
        return Err(ClassFileError::BadMagic(magic));
    }
    let minor: u16 = r.u2()?;
    let major: u16 = r.u2()?;
    let constant_pool = ConstantPool::parse(&mut r)?;
    let ghost p = r@.pos;
    let access_flags: u16 = r.u2()?;
    let this_class: u16 = r.u2()?;
    let super_class: u16 = r.u2()?;
    let interfaces_count: u16 = r.u2()?;
    let mut interfaces: Vec<u16> = Vec::new();
    let mut i: u16 = 0;
    while i < interfaces_count
        invariant
            i <= interfaces_count,
            r@.data == data@,
            r@.pos == p + 8 + 2 * i,
            r@.pos <= data@.len(),
            interfaces@ == shorts_at(data@, p + 8, i as nat),
            p + 8 + 2 * interfaces_count > data@.len() ==> class_of(data@) == Err::<
                ClassFileView,
                ClassFileError,
            >(ClassFileError::Eof(data@.len() as usize)),
        decreases interfaces_count - i,
    {
        interfaces.push(r.u2()?);
        i += 1;
        assert(interfaces@ =~= shorts_at(data@, p + 8, i as nat));
    }
    let fields = parse_members(&mut r, &constant_pool)?;
    let methods = parse_members(&mut r, &constant_pool)?;
    let attributes = parse_attributes(&mut r, &constant_pool)?;
    Ok(
        ClassFile {
            minor,
            major,
            constant_pool,
            access_flags,
            this_class,
            super_class,
            interfaces,
            fields,
            methods,
            attributes,
        },
    )
}

} // verus!
