//! The 128-bit tagged value: the uniform representation of every guest value on the operand
//! stack, in local slots, and in object fields.
//!
//! ```text
//!  bit 127 .......................... bit 8 | bit 7 .. bit 0
//!  |            payload (120 bits)          |  type tag (8) |
//! ```
//! The tag is maintained exclusively by the engine. Floating-point values are carried as their
//! raw IEEE-754 bits.

use vstd::prelude::*;
use crate::ids::RefIndex;

verus! {

/// 8-bit type tag identifying the schema of a [`Val128`] payload.
#[derive(Clone, Copy, PartialEq, Eq, Debug, Hash, Structural)]
pub enum Tag {
    /// 32-bit int; also carries boolean/byte/char/short values.
    I32,
    /// 64-bit long.
    I64,
    /// 32-bit float, as raw bits.
    F32,
    /// 64-bit double, as raw bits.
    F64,
    /// Shared (non-exclusive) reference: a registry index.
    Ptr,
    /// Move-only (exclusive-ownership) reference: a registry index.
    Handle,
    /// The `null` reference.
    Null,
    /// `returnAddress` (legacy class files only).
    ReturnAddress,
}

/// Number of payload bits.
pub const PAYLOAD_BITS: u32 = 120;

impl Tag {
    /// The byte that encodes this tag.
    pub open spec fn code(self) -> u8 {
        match self {
            Tag::I32 => 0,
            Tag::I64 => 1,
            Tag::F32 => 2,
            Tag::F64 => 3,
            Tag::Ptr => 4,
            Tag::Handle => 5,
            Tag::Null => 6,
            Tag::ReturnAddress => 7,
        }
    }

    pub open spec fn refers(self) -> bool {
        self is Ptr || self is Handle
    }

    /// Decode a tag byte, or `None` if it is not a defined tag.
    pub fn from_u8(b: u8) -> (t: Option<Tag>)
        ensures
            t is Some <==> b < 8,
            t matches Some(tag) ==> tag.code() == b,
    {
        match b {
            0 => Some(Tag::I32),
            1 => Some(Tag::I64),
            2 => Some(Tag::F32),
            3 => Some(Tag::F64),
            4 => Some(Tag::Ptr),
            5 => Some(Tag::Handle),
            6 => Some(Tag::Null),
            7 => Some(Tag::ReturnAddress),
            _ => None,
        }
    }

    /// True for the two reference tags (`ptr`/`handle`).
    #[verifier::when_used_as_spec(refers)]
    pub fn is_ref(self) -> (r: bool)
        ensures
            r == self.refers(),
    {
        match self {
            Tag::Ptr => true,
            Tag::Handle => true,
            _ => false,
        }
    }

    fn byte(self) -> (b: u8)
        ensures
            b == self.code(),
    {
        match self {
            Tag::I32 => 0,
            Tag::I64 => 1,
            Tag::F32 => 2,
            Tag::F64 => 3,
            Tag::Ptr => 4,
            Tag::Handle => 5,
            Tag::Null => 6,
            Tag::ReturnAddress => 7,
        }
    }
}

/// The tag that byte `b` encodes.
pub open spec fn tag_of_byte(b: u8) -> Tag {
    match b {
        0 => Tag::I32,
        1 => Tag::I64,
        2 => Tag::F32,
        3 => Tag::F64,
        4 => Tag::Ptr,
        5 => Tag::Handle,
        6 => Tag::Null,
        _ => Tag::ReturnAddress,
    }
}

/// A fixed 128-bit tagged value. Every value carries a defined tag.
#[derive(Clone, Copy, PartialEq, Eq, Hash, Debug, Structural)]
pub struct Val128(u128);

impl Val128 {
    #[verifier::type_invariant]
    spec fn carries_a_defined_tag(self) -> bool {
        (self.0 & 0xFF) < 8
    }

    /// The raw 128 bits.
    pub closed spec fn bits(self) -> u128 {
        self.0
    }

    /// The value of the given raw bits.
    pub closed spec fn of_bits(bits: u128) -> Val128 {
        Val128(bits)
    }

    /// The value with the given payload (of at most 120 bits) and tag.
    pub open spec fn packed(payload: u128, tag: Tag) -> Val128 {
        Val128::of_bits((payload << 8) | (tag.code() as u128))
    }

    pub open spec fn tag_spec(self) -> Tag {
        tag_of_byte((self.bits() & 0xFF) as u8)
    }

    pub open spec fn payload_spec(self) -> u128 {
        self.bits() >> 8
    }

    pub open spec fn null_spec() -> Val128 {
        Val128::packed(0, Tag::Null)
    }

    pub open spec fn i32_spec(v: i32) -> Val128 {
        Val128::packed(v as u32 as u128, Tag::I32)
    }

    pub open spec fn i64_spec(v: i64) -> Val128 {
        Val128::packed(v as u64 as u128, Tag::I64)
    }

    pub open spec fn f32_spec(raw: u32) -> Val128 {
        Val128::packed(raw as u128, Tag::F32)
    }

    pub open spec fn f64_spec(raw: u64) -> Val128 {
        Val128::packed(raw as u128, Tag::F64)
    }

    pub open spec fn ptr_spec(idx: RefIndex) -> Val128 {
        Val128::packed(idx.0 as u128, Tag::Ptr)
    }

    pub open spec fn handle_spec(idx: RefIndex) -> Val128 {
        Val128::packed(idx.0 as u128, Tag::Handle)
    }

    pub open spec fn as_i32_spec(self) -> i32 {
        self.payload_spec() as u32 as i32
    }

    pub open spec fn as_i64_spec(self) -> i64 {
        self.payload_spec() as u64 as i64
    }

    pub open spec fn as_f32_spec(self) -> u32 {
        self.payload_spec() as u32
    }

    pub open spec fn as_f64_spec(self) -> u64 {
        self.payload_spec() as u64
    }

    pub open spec fn ref_index_spec(self) -> RefIndex {
        RefIndex(self.payload_spec() as u64)
    }

    fn pack(payload: u128, tag: Tag) -> (v: Val128)
        requires
            payload < 0x1_0000_0000_0000_0000,
        ensures
            v == Val128::packed(payload, tag),
    {
        let t: u128 = tag.byte() as u128;
        assert(((payload << 8u128) | t) & 0xFF < 8) by (bit_vector)
            requires
                t < 8,
        ;
        Val128((payload << 8) | t)
    }

    /// The 8-bit tag.
    #[verifier::when_used_as_spec(tag_spec)]
    pub fn tag(self) -> (t: Tag)
        ensures
            t == self.tag_spec(),
    {
        proof {
            use_type_invariant(&self);
        }
        let low: u128 = self.0 & 0xFF;
        match low as u8 {
            0 => Tag::I32,
            1 => Tag::I64,
            2 => Tag::F32,
            3 => Tag::F64,
            4 => Tag::Ptr,
            5 => Tag::Handle,
            6 => Tag::Null,
            _ => Tag::ReturnAddress,
        }
    }

    /// The 120-bit payload (tag stripped).
    #[verifier::when_used_as_spec(payload_spec)]
    pub fn payload(self) -> (p: u128)
        ensures
            p == self.payload_spec(),
    {
        self.0 >> 8
    }

    #[verifier::when_used_as_spec(null_spec)]
    pub fn null() -> (v: Val128)
        ensures
            v == Val128::null_spec(),
    {
        Val128::pack(0, Tag::Null)
    }

    #[verifier::when_used_as_spec(i32_spec)]
    pub fn from_i32(v: i32) -> (r: Val128)
        ensures
            r == Val128::i32_spec(v),
    {
        Val128::pack(v as u32 as u128, Tag::I32)
    }

    #[verifier::when_used_as_spec(i64_spec)]
    pub fn from_i64(v: i64) -> (r: Val128)
        ensures
            r == Val128::i64_spec(v),
    {
        Val128::pack(v as u64 as u128, Tag::I64)
    }

    /// The float with the given IEEE-754 bits.
    #[verifier::when_used_as_spec(f32_spec)]
    pub fn from_f32(raw: u32) -> (r: Val128)
        ensures
            r == Val128::f32_spec(raw),
    {
        Val128::pack(raw as u128, Tag::F32)
    }

    /// The double with the given IEEE-754 bits.
    #[verifier::when_used_as_spec(f64_spec)]
    pub fn from_f64(raw: u64) -> (r: Val128)
        ensures
            r == Val128::f64_spec(raw),
    {
        Val128::pack(raw as u128, Tag::F64)
    }

    /// A shared reference (`ptr`) to registry index `idx`.
    #[verifier::when_used_as_spec(ptr_spec)]
    pub fn ptr(idx: RefIndex) -> (r: Val128)
        ensures
            r == Val128::ptr_spec(idx),
    {
        Val128::pack(idx.0 as u128, Tag::Ptr)
    }

    /// A move-only reference (`handle`) to registry index `idx`.
    #[verifier::when_used_as_spec(handle_spec)]
    pub fn handle(idx: RefIndex) -> (r: Val128)
        ensures
            r == Val128::handle_spec(idx),
    {
        Val128::pack(idx.0 as u128, Tag::Handle)
    }

    /// The low 32 payload bits as an int.
    #[verifier::when_used_as_spec(as_i32_spec)]
    pub fn as_i32(self) -> (v: i32)
        ensures
            v == self.as_i32_spec(),
    {
        self.payload() as u32 as i32
    }

    /// The low 64 payload bits as a long.
    #[verifier::when_used_as_spec(as_i64_spec)]
    pub fn as_i64(self) -> (v: i64)
        ensures
            v == self.as_i64_spec(),
    {
        self.payload() as u64 as i64
    }

    /// The raw bits of a float.
    #[verifier::when_used_as_spec(as_f32_spec)]
    pub fn as_f32(self) -> (raw: u32)
        ensures
            raw == self.as_f32_spec(),
    {
        self.payload() as u32
    }

    /// The raw bits of a double.
    #[verifier::when_used_as_spec(as_f64_spec)]
    pub fn as_f64(self) -> (raw: u64)
        ensures
            raw == self.as_f64_spec(),
    {
        self.payload() as u64
    }

    /// The registry index of a `ptr`/`handle`.
    #[verifier::when_used_as_spec(ref_index_spec)]
    pub fn ref_index(self) -> (r: RefIndex)
        ensures
            r == self.ref_index_spec(),
    {
        RefIndex(self.payload() as u64)
    }

    /// Raw 128-bit bits.
    #[verifier::when_used_as_spec(bits)]
    pub fn to_bits(self) -> (b: u128)
        ensures
            b == self.bits(),
    {
        self.0
    }

    /// Reconstruct a value from raw bits whose low byte is a defined tag.
    #[verifier::when_used_as_spec(of_bits)]
    pub fn from_bits(bits: u128) -> (v: Val128)
        requires
            (bits & 0xFF) < 8,
        ensures
            v == Val128::of_bits(bits),
    {
        Val128(bits)
    }
}

/// Packing keeps both parts: the tag and every payload of at most 120 bits come back.
pub broadcast proof fn lemma_packed_parts(payload: u128, tag: Tag)
    requires
        payload < 0x1_0000_0000_0000_0000_0000_0000_0000_00,
    ensures
        #![trigger Val128::packed(payload, tag)]
        Val128::packed(payload, tag).tag() == tag,
        Val128::packed(payload, tag).payload() == payload,
{
    let t: u128 = tag.code() as u128;
    assert(((payload << 8u128) | t) & 0xFF == t && ((payload << 8u128) | t) >> 8u128 == payload)
        by (bit_vector)
        requires
            t < 8,
            payload < 0x1_0000_0000_0000_0000_0000_0000_0000_00,
    ;
}

/// A value is determined by its raw bits, and raw bits survive the trip through a value.
pub broadcast proof fn lemma_bits_round_trip(bits: u128, v: Val128)
    ensures
        #![trigger Val128::of_bits(bits), v.bits()]
        Val128::of_bits(bits).bits() == bits,
        Val128::of_bits(v.bits()) == v,
{
}

/// Every int comes back from the value that carries it, tagged as an int.
pub broadcast proof fn lemma_i32_round_trip(v: i32)
    ensures
        (#[trigger] Val128::from_i32(v)).as_i32() == v,
        Val128::from_i32(v).tag() is I32,
{
    lemma_packed_parts(v as u32 as u128, Tag::I32);
    assert((((v as u32) as u128) as u32) as i32 == v) by (bit_vector);
}

/// Every long comes back from the value that carries it, tagged as a long.
pub broadcast proof fn lemma_i64_round_trip(v: i64)
    ensures
        (#[trigger] Val128::from_i64(v)).as_i64() == v,
        Val128::from_i64(v).tag() is I64,
{
    lemma_packed_parts(v as u64 as u128, Tag::I64);
    assert((((v as u64) as u128) as u64) as i64 == v) by (bit_vector);
}

/// The raw bits of every float survive, NaN payloads and signed zeros among them.
pub broadcast proof fn lemma_f32_round_trip(raw: u32)
    ensures
        (#[trigger] Val128::from_f32(raw)).as_f32() == raw,
        Val128::from_f32(raw).tag() is F32,
{
    lemma_packed_parts(raw as u128, Tag::F32);
}

/// The raw bits of every double survive, NaN payloads and signed zeros among them.
pub broadcast proof fn lemma_f64_round_trip(raw: u64)
    ensures
        (#[trigger] Val128::from_f64(raw)).as_f64() == raw,
        Val128::from_f64(raw).tag() is F64,
{
    lemma_packed_parts(raw as u128, Tag::F64);
}

/// A reference value names the registry index it was made from, and `null` is no reference.
pub broadcast proof fn lemma_refs_round_trip(idx: RefIndex)
    ensures
        #![trigger Val128::ptr(idx)]
        #![trigger Val128::handle(idx)]
        Val128::ptr(idx).ref_index() == idx,
        Val128::ptr(idx).tag() is Ptr,
        Val128::handle(idx).ref_index() == idx,
        Val128::handle(idx).tag() is Handle,
{
    lemma_packed_parts(idx.0 as u128, Tag::Ptr);
    lemma_packed_parts(idx.0 as u128, Tag::Handle);
}

/// `null` is tagged as null.
pub broadcast proof fn lemma_null_tag()
    ensures
        (#[trigger] Val128::null()).tag() is Null,
{
    lemma_packed_parts(0, Tag::Null);
}

pub broadcast group group_values {
    lemma_i32_round_trip,
    lemma_i64_round_trip,
    lemma_f32_round_trip,
    lemma_f64_round_trip,
    lemma_refs_round_trip,
    lemma_null_tag,
}

/// Whether no value is a reference.
pub open spec fn no_refs(vals: Seq<Val128>) -> bool {
    forall|i: int| 0 <= i < vals.len() ==> !(#[trigger] vals[i]).tag().is_ref()
}

/// The bits of a value: the tag's byte at the bottom, and the payload above it.
pub proof fn lemma_layout(v: Val128)
    ensures
        v.bits() == v.payload() * 0x100 + v.bits() % 0x100,
        v.bits() % 0x100 < 8 ==> v.tag().code() == v.bits() % 0x100,
        Tag::I32.code() == 0 && Tag::I64.code() == 1 && Tag::F32.code() == 2 && Tag::F64.code() == 3,
        Tag::Ptr.code() == 4 && Tag::Handle.code() == 5 && Tag::Null.code() == 6,
        Tag::ReturnAddress.code() == 7,
{
    let b = v.bits();
    assert(b == (b >> 8u128) * 0x100 + b % 0x100 && (b & 0xFF) == b % 0x100) by (bit_vector);
}

/// What values carry: a number in its payload, without a bit beyond its size, or a registry index.
pub proof fn lemma_payloads(i: i32, l: i64, f: u32, d: u64, r: RefIndex)
    ensures
        Val128::from_i32(i).payload() == (if i < 0 {
            i + 0x1_0000_0000
        } else {
            i as int
        }),
        Val128::from_i64(l).payload() == (if l < 0 {
            l + 0x1_0000_0000_0000_0000
        } else {
            l as int
        }),
        Val128::from_f32(f).payload() == f,
        Val128::from_f64(d).payload() == d,
        Val128::ptr(r).payload() == r.0,
        Val128::handle(r).payload() == r.0,
        Val128::null().payload() == 0,
{
    lemma_packed_parts(i as u32 as u128, Tag::I32);
    lemma_packed_parts(l as u64 as u128, Tag::I64);
    lemma_packed_parts(f as u128, Tag::F32);
    lemma_packed_parts(d as u128, Tag::F64);
    lemma_packed_parts(r.0 as u128, Tag::Ptr);
    lemma_packed_parts(r.0 as u128, Tag::Handle);
    lemma_packed_parts(0, Tag::Null);
    assert((i as u32) as int == (if i < 0 {
        i + 0x1_0000_0000
    } else {
        i as int
    })) by (bit_vector);
    assert((l as u64) as int == (if l < 0 {
        l + 0x1_0000_0000_0000_0000
    } else {
        l as int
    })) by (bit_vector);
}

/// References are what names a registry index: shared ones and handles, and nothing else.
pub proof fn lemma_what_refers(t: Tag)
    ensures
        t.is_ref() <==> t == Tag::Ptr || t == Tag::Handle,
{
}

} // verus!
