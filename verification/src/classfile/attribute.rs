//! Attributes. The `Code` attribute is fully parsed; all others, `StackMapTable` among them, are
//! retained as raw bytes for later stages.

use vstd::prelude::*;
use crate::classfile::constant_pool::{pool_utf8, ConstantPool, PoolView};
use crate::classfile::error::ClassFileError;
use crate::classfile::reader::{be16, be32, block, copy_bytes, fixed, Parsed, Reader};
use crate::text::is_text;

verus! {

/// A class-file attribute.
#[derive(Debug)]
pub enum Attribute {
    /// The `Code` attribute of a method.
    Code(CodeAttr),
    /// Any other attribute, kept verbatim. `name_index` refers to a `Utf8` constant.
    Raw { name_index: u16, bytes: Vec<u8> },
}

/// A method's `Code` attribute.
#[derive(Debug)]
pub struct CodeAttr {
    pub max_stack: u16,
    pub max_locals: u16,
    pub code: Vec<u8>,
    pub exception_table: Vec<ExceptionTableEntry>,
    pub attributes: Vec<Attribute>,
}

/// One row of a `Code` attribute's exception table.
#[derive(Debug, Clone, Copy, PartialEq, Eq, Structural)]
pub struct ExceptionTableEntry {
    pub start_pc: u16,
    pub end_pc: u16,
    pub handler_pc: u16,
    /// A `Class` constant index, or 0 for a catch-all.
    pub catch_type: u16,
}

/// What an attribute holds.
pub enum AttributeView {
    Code(CodeView),
    Raw { name_index: u16, bytes: Seq<u8> },
}

/// What a `Code` attribute holds.
pub struct CodeView {
    pub max_stack: u16,
    pub max_locals: u16,
    pub code: Seq<u8>,
    pub exception_table: Seq<ExceptionTableEntry>,
    pub attributes: Seq<AttributeView>,
}

impl Attribute {
    pub open spec fn as_view(self) -> AttributeView
        decreases self,
    {
        match self {
            Attribute::Code(c) => AttributeView::Code(c.as_view()),
            Attribute::Raw { name_index, bytes } => AttributeView::Raw {
                name_index,
                bytes: bytes@,
            },
        }
    }
}

impl CodeAttr {
    pub open spec fn as_view(self) -> CodeView
        decreases self,
    {
        CodeView {
            max_stack: self.max_stack,
            max_locals: self.max_locals,
            code: self.code@,
            exception_table: self.exception_table@,
            attributes: Seq::new(
                self.attributes@.len(),
                |i: int|
                    if 0 <= i < self.attributes@.len() {
                        self.attributes@[i].as_view()
                    } else {
                        AttributeView::Raw { name_index: 0, bytes: Seq::empty() }
                    },
            ),
        }
    }
}

impl View for Attribute {
    type V = AttributeView;

    open spec fn view(&self) -> AttributeView {
        self.as_view()
    }
}

impl View for CodeAttr {
    type V = CodeView;

    open spec fn view(&self) -> CodeView {
        self.as_view()
    }
}

/// What a list of attributes holds.
pub open spec fn attribute_views(s: Seq<Attribute>) -> Seq<AttributeView> {
    Seq::new(s.len(), |i: int| s[i]@)
}

impl Clone for Attribute {
    fn clone(&self) -> (a: Attribute)
        ensures
            a@ == self@,
        decreases self,
    {
        match self {
            Attribute::Code(c) => Attribute::Code(c.clone()),
            Attribute::Raw { name_index, bytes } => Attribute::Raw {
                name_index: *name_index,
                bytes: copy_bytes(bytes.as_slice()),
            },
        }
    }
}

impl Clone for CodeAttr {
    fn clone(&self) -> (c: CodeAttr)
        ensures
            c@ == self@,
        decreases self,
    {
        let mut attributes: Vec<Attribute> = Vec::new();
        let mut i: usize = 0;
        while i < self.attributes.len()
            invariant
                i <= self.attributes@.len(),
                attributes@.len() == i,
                forall|j: int| 0 <= j < i ==> (#[trigger] attributes@[j])@ == self.attributes@[j]@,
            decreases self.attributes@.len() - i,
        {
            attributes.push(self.attributes[i].clone());
            i += 1;
        }
        let mut exception_table: Vec<ExceptionTableEntry> = Vec::new();
        let mut i: usize = 0;
        while i < self.exception_table.len()
            invariant
                i <= self.exception_table@.len(),
                exception_table@ == self.exception_table@.take(i as int),
            decreases self.exception_table@.len() - i,
        {
            exception_table.push(self.exception_table[i]);
            i += 1;
            assert(self.exception_table@.take(i as int) =~= exception_table@);
        }
        assert(exception_table@ =~= self.exception_table@);
        let c = CodeAttr {
            max_stack: self.max_stack,
            max_locals: self.max_locals,
            code: copy_bytes(self.code.as_slice()),
            exception_table,
            attributes,
        };
        assert(c@.attributes =~= self@.attributes);
        c
    }
}

/// A copy of a list of attributes.
pub(crate) fn copy_attributes(list: &Vec<Attribute>) -> (out: Vec<Attribute>)
    ensures
        attribute_views(out@) == attribute_views(list@),
{
    let mut out: Vec<Attribute> = Vec::new();
    let mut i: usize = 0;
    while i < list.len()
        invariant
            i <= list@.len(),
            out@.len() == i,
            forall|j: int| 0 <= j < i ==> (#[trigger] out@[j])@ == list@[j]@,
        decreases list@.len() - i,
    {
        out.push(list[i].clone());
        i += 1;
    }
    assert(attribute_views(out@) =~= attribute_views(list@));
    out
}

/// The bytes of a raw attribute whose name resolves to `name`.
pub open spec fn raw_bytes(a: AttributeView, pool: PoolView, name: Seq<char>) -> Option<Seq<u8>> {
    match a {
        AttributeView::Raw { name_index, bytes } => if pool_utf8(pool, name_index) == Some(name) {
            Some(bytes)
        } else {
            None
        },
        AttributeView::Code(_) => None,
    }
}

/// The exception-table row at `p`.
pub open spec fn handler_at(d: Seq<u8>, p: int) -> Parsed<ExceptionTableEntry> {
    fixed(
        d,
        p,
        8,
        ExceptionTableEntry {
            start_pc: be16(d, p),
            end_pc: be16(d, p + 2),
            handler_pc: be16(d, p + 4),
            catch_type: be16(d, p + 6),
        },
    )
}

/// `rows`, and `n` more from `p` on.
pub open spec fn handlers_from(
    d: Seq<u8>,
    p: int,
    n: nat,
    rows: Seq<ExceptionTableEntry>,
) -> Parsed<Seq<ExceptionTableEntry>>
    decreases n,
{
    if n == 0 {
        Ok((rows, p))
    } else {
        match handler_at(d, p) {
            Err(e) => Err(e),
            Ok((row, q)) => handlers_from(d, q, (n - 1) as nat, rows.push(row)),
        }
    }
}

/// The body of the `Code` attribute that starts at `p`.
pub open spec fn code_at(d: Seq<u8>, p: int, pool: PoolView) -> Parsed<CodeView>
    decreases d.len(), 3int, 0nat,
{
    if p + 8 > d.len() {
        Err(ClassFileError::Eof(d.len() as usize))
    } else {
        match block(d, p + 8, be32(d, p + 4) as int) {
            Err(e) => Err(e),
            Ok((code, q)) => if q + 2 > d.len() {
                Err(ClassFileError::Eof(d.len() as usize))
            } else {
                match handlers_from(d, q + 2, be16(d, q) as nat, Seq::empty()) {
                    Err(e) => Err(e),
                    Ok((exception_table, q2)) => match attributes_at(d, q2, pool) {
                        Err(e) => Err(e),
                        Ok((attributes, q3)) => Ok(
                            (
                                CodeView {
                                    max_stack: be16(d, p),
                                    max_locals: be16(d, p + 2),
                                    code,
                                    exception_table,
                                    attributes,
                                },
                                q3,
                            ),
                        ),
                    },
                }
            },
        }
    }
}

/// The attribute at `p`: its name, its length, and a body of that length, within which a `Code`
/// attribute is parsed.
pub open spec fn attribute_at(d: Seq<u8>, p: int, pool: PoolView) -> Parsed<AttributeView>
    decreases d.len(), 1int, 0nat,
{
    if p < 0 || p + 6 > d.len() {
        Err(ClassFileError::Eof(d.len() as usize))
    } else {
        let name_index = be16(d, p);
        let size = be32(d, p + 2);
        if p + 6 + size > d.len() {
            Err(ClassFileError::Eof((p + 6) as usize))
        } else {
            let body = d.subrange(p + 6, p + 6 + size);
            if pool_utf8(pool, name_index) == Some("Code"@) {
                match code_at(body, 0, pool) {
                    Err(e) => Err(e),
                    Ok((c, _)) => Ok((AttributeView::Code(c), p + 6 + size)),
                }
            } else {
                Ok((AttributeView::Raw { name_index, bytes: body }, p + 6 + size))
            }
        }
    }
}

/// `list`, and `n` more attributes from `p` on.
pub open spec fn attributes_from(
    d: Seq<u8>,
    p: int,
    pool: PoolView,
    n: nat,
    list: Seq<AttributeView>,
) -> Parsed<Seq<AttributeView>>
    decreases d.len(), 2int, n,
{
    if n == 0 {
        Ok((list, p))
    } else {
        match attribute_at(d, p, pool) {
            Err(e) => Err(e),
            Ok((a, q)) => attributes_from(d, q, pool, (n - 1) as nat, list.push(a)),
        }
    }
}

/// The attributes at `p`: a count, and as many attributes.
pub open spec fn attributes_at(d: Seq<u8>, p: int, pool: PoolView) -> Parsed<Seq<AttributeView>>
    decreases d.len(), 2int, 0x1_0000nat,
{
    if p + 2 > d.len() {
        Err(ClassFileError::Eof(d.len() as usize))
    } else {
        attributes_from(d, p + 2, pool, be16(d, p) as nat, Seq::empty())
    }
}

impl Attribute {
    /// The bytes, if this is a `Raw` attribute whose name resolves to `name`.
    pub fn raw_named<'a>(&'a self, cp: &ConstantPool, name: &str) -> (r: Option<&'a [u8]>)
        ensures
            match raw_bytes(self@, cp@, name@) {
                Some(b) => r is Some && r->0@ == b,
                None => r is None,
            },
    {
        match self {
            Attribute::Raw { name_index, bytes } => {
                if is_text(cp.utf8(*name_index), name) {
                    Some(bytes.as_slice())
                } else {
                    None
                }
            },
            Attribute::Code(_) => None,
        }
    }
}

impl CodeAttr {
    fn parse(r: &mut Reader, cp: &ConstantPool) -> (c: Result<CodeAttr, ClassFileError>)
        ensures
            final(r)@.data == old(r)@.data,
            old(r)@.pos <= final(r)@.pos <= old(r)@.data.len(),
            match code_at(old(r)@.data, old(r)@.pos, cp@) {
                Ok((v, q)) => c is Ok && c->Ok_0@ == v && final(r)@.pos == q,
                Err(e) => c is Err && c->Err_0 == e,
            },
        decreases old(r)@.data.len(), 3int,
    {
        let ghost d = r@.data;
        let max_stack: u16 = r.u2()?;
        let max_locals: u16 = r.u2()?;
        let code_length: usize = r.u4()? as usize;
        let code = copy_bytes(r.bytes(code_length)?);
        let etl: u16 = r.u2()?;
        let ghost start = r@.pos;
        let mut exception_table: Vec<ExceptionTableEntry> = Vec::new();
        let mut i: u16 = 0;
        while i < etl
            invariant
                i <= etl,
                r@.data == d,
                d == old(r)@.data,
                old(r)@.pos <= r@.pos <= old(r)@.data.len(),
                handlers_from(d, start, etl as nat, Seq::empty()) == handlers_from(
                    d,
                    r@.pos,
                    (etl - i) as nat,
                    exception_table@,
                ),
                match handlers_from(d, start, etl as nat, Seq::empty()) {
                    Err(e) => code_at(old(r)@.data, old(r)@.pos, cp@) == Err::<
                        (CodeView, int),
                        ClassFileError,
                    >(e),
                    Ok(_) => true,
                },
            decreases etl - i,
        {
            let row = ExceptionTableEntry {
                start_pc: r.u2()?,
                end_pc: r.u2()?,
                handler_pc: r.u2()?,
                catch_type: r.u2()?,
            };
            exception_table.push(row);
            i += 1;
        }
        let attributes = parse_attributes(r, cp)?;
        let c = CodeAttr { max_stack, max_locals, code, exception_table, attributes };
        assert(c@.attributes =~= attribute_views(c.attributes@));
        Ok(c)
    }
}

/// Parse a single `attribute_info`.
fn parse_attribute(r: &mut Reader, cp: &ConstantPool) -> (a: Result<Attribute, ClassFileError>)
    ensures
        final(r)@.data == old(r)@.data,
        old(r)@.pos <= final(r)@.pos <= old(r)@.data.len(),
        match attribute_at(old(r)@.data, old(r)@.pos, cp@) {
            Ok((v, q)) => a is Ok && a->Ok_0@ == v && final(r)@.pos == q,
            Err(e) => a is Err && a->Err_0 == e,
        },
    decreases old(r)@.data.len(), 1int,
{
    let name_index: u16 = r.u2()?;
    let length: usize = r.u4()? as usize;
    let is_code = is_text(cp.utf8(name_index), "Code");
    // Bound the body to `length` so a nested parse cannot overrun the attribute.
    let body = r.bytes(length)?;
    if is_code {
        let mut cr = Reader::new(body);
        Ok(Attribute::Code(CodeAttr::parse(&mut cr, cp)?))
    } else {
        Ok(Attribute::Raw { name_index, bytes: copy_bytes(body) })
    }
}

/// Parse an `attributes_count` followed by that many `attribute_info`.
pub fn parse_attributes(r: &mut Reader, cp: &ConstantPool) -> (list: Result<
    Vec<Attribute>,
    ClassFileError,
>)
    ensures
        final(r)@.data == old(r)@.data,
        old(r)@.pos <= final(r)@.pos <= old(r)@.data.len(),
        match attributes_at(old(r)@.data, old(r)@.pos, cp@) {
            Ok((v, q)) => list is Ok && attribute_views(list->Ok_0@) == v && final(r)@.pos == q,
            Err(e) => list is Err && list->Err_0 == e,
        },
    decreases old(r)@.data.len(), 2int,
{
    let count: u16 = r.u2()?;
    let mut out: Vec<Attribute> = Vec::new();
    assert(attribute_views(out@) =~= Seq::empty());
    let mut i: u16 = 0;
    while i < count
        invariant
            i <= count,
            r@.data == old(r)@.data,
            old(r)@.pos <= r@.pos <= old(r)@.data.len(),
            attributes_at(old(r)@.data, old(r)@.pos, cp@) == attributes_from(
                r@.data,
                r@.pos,
                cp@,
                (count - i) as nat,
                attribute_views(out@),
            ),
        decreases count - i,
    {
        let ghost before = out@;
        let a = parse_attribute(r, cp)?;
        out.push(a);
        i += 1;
        assert(attribute_views(out@) =~= attribute_views(before).push(a@));
    }
    Ok(out)
}

} // verus!
