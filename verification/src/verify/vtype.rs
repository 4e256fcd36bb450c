//! Verification types and descriptor parsing. `long`/`double` are category 2: one operand-stack
//! item, two local slots.

use vstd::prelude::*;
use vstd::utf8::encode_utf8;
use crate::verify::error::VerifyError;

verus! {

/// A verification type.
#[derive(Debug, Clone, Copy, PartialEq, Eq, Structural)]
pub enum VType {
    /// The unusable top of the lattice; also the high half of a category-2 local.
    Top,
    Int,
    Float,
    Long,
    Double,
    /// Any object/array reference.
    Reference,
    Null,
    UninitializedThis,
    /// An object created by `new` at the given bytecode offset, not yet initialised.
    Uninitialized(u32),
}

impl VType {
    pub open spec fn wide(self) -> bool {
        self is Long || self is Double
    }

    /// Number of slots.
    pub open spec fn slots(self) -> int {
        if self.wide() {
            2
        } else {
            1
        }
    }

    /// Number of local/stack slots this type occupies (category-2 types take two).
    pub fn size(self) -> (n: u16)
        ensures
            n == self.slots(),
    {
        if self.is_category2() {
            2
        } else {
            1
        }
    }

    #[verifier::when_used_as_spec(wide)]
    pub fn is_category2(self) -> (b: bool)
        ensures
            b == self.wide(),
    {
        match self {
            VType::Long => true,
            VType::Double => true,
            _ => false,
        }
    }
}

/// Whether a value of type `from` may be used where `to` is expected: anything is a `Top`, every
/// type is itself, and `null` and objects not yet initialised are references.
pub open spec fn assignable(from: VType, to: VType) -> bool {
    ||| to is Top
    ||| from == to
    ||| to is Reference && (from is Null || from is UninitializedThis || from is Uninitialized)
}

/// Whether a value of type `from` may be used where `to` is expected.
pub fn is_assignable(from: VType, to: VType) -> (b: bool)
    ensures
        b == assignable(from, to),
{
    if to == VType::Top || from == to {
        return true;
    }
    match (from, to) {
        (VType::Null, VType::Reference) => true,
        (VType::UninitializedThis, VType::Reference) => true,
        (VType::Uninitialized(_), VType::Reference) => true,
        _ => false,
    }
}

/// Assignability is a partial order with `Top` as its greatest element.
pub proof fn lemma_assignability_is_an_order(a: VType, b: VType, c: VType)
    ensures
        assignable(a, a),
        assignable(a, b) && assignable(b, c) ==> assignable(a, c),
        assignable(a, b) && assignable(b, a) ==> a == b,
        assignable(a, VType::Top),
{
}

/// An item-model list in the slot model: category-2 types expand to `[T, Top]`.
pub open spec fn expanded(items: Seq<VType>) -> Seq<VType>
    decreases items.len(),
{
    if items.len() == 0 {
        Seq::empty()
    } else {
        let t = items.last();
        if t.wide() {
            expanded(items.drop_last()).push(t).push(VType::Top)
        } else {
            expanded(items.drop_last()).push(t)
        }
    }
}

/// Number of slots of all items together.
pub open spec fn total_slots(items: Seq<VType>) -> int
    decreases items.len(),
{
    if items.len() == 0 {
        0
    } else {
        total_slots(items.drop_last()) + items.last().slots()
    }
}

/// Expanding takes exactly the slots that the types occupy.
pub proof fn lemma_expanded_len(items: Seq<VType>)
    ensures
        expanded(items).len() == total_slots(items),
        items.len() <= total_slots(items) <= 2 * items.len(),
    decreases items.len(),
{
    if items.len() > 0 {
        lemma_expanded_len(items.drop_last());
    }
}

/// Expand an item-model list into the slot model.
pub fn expand_to_slots(items: &[VType]) -> (out: Vec<VType>)
    ensures
        out@ == expanded(items@),
{
    let mut out: Vec<VType> = Vec::new();
    let mut i: usize = 0;
    while i < items.len()
        invariant
            i <= items@.len(),
            out@ == expanded(items@.take(i as int)),
        decreases items@.len() - i,
    {
        proof {
            assert(items@.take(i + 1).drop_last() =~= items@.take(i as int));
            assert(items@.take(i + 1).last() == items@[i as int]);
        }
        let t = items[i];
        out.push(t);
        if t.is_category2() {
            out.push(VType::Top);
        }
        i += 1;
    }
    assert(items@.take(items@.len() as int) =~= items@);
    out
}

/// The first position from `i` on that holds `c`; the length, if none does.
pub open spec fn next_byte(b: Seq<u8>, i: int, c: u8) -> int
    decreases b.len() - i,
{
    if i >= b.len() {
        b.len() as int
    } else if b[i] == c {
        i
    } else {
        next_byte(b, i + 1, c)
    }
}

/// The first position from `i` on that does not hold `c`; the length, if all do.
pub open spec fn skip_byte(b: Seq<u8>, i: int, c: u8) -> int
    decreases b.len() - i,
{
    if i >= b.len() {
        b.len() as int
    } else if b[i] != c {
        i
    } else {
        skip_byte(b, i + 1, c)
    }
}

/// Past the `;` that ends the class name starting at `i`, if there is one.
pub open spec fn past_class_name(b: Seq<u8>, i: int) -> Option<(VType, int)> {
    if next_byte(b, i, 0x3B) < b.len() {
        Some((VType::Reference, next_byte(b, i, 0x3B) + 1))
    } else {
        None
    }
}

/// The type that the field descriptor at `i` denotes, and the position just past it: `B C I S Z`
/// are ints, `J` a long, `F` a float, `D` a double, `L...;` an object, and any number of `[` before
/// a component an array.
pub open spec fn field_type_at(b: Seq<u8>, i: int) -> Option<(VType, int)> {
    if i >= b.len() {
        None
    } else {
        match b[i] {
            0x42u8 | 0x43u8 | 0x49u8 | 0x53u8 | 0x5Au8 => Some((VType::Int, i + 1)),
            0x4Au8 => Some((VType::Long, i + 1)),
            0x46u8 => Some((VType::Float, i + 1)),
            0x44u8 => Some((VType::Double, i + 1)),
            0x4Cu8 => past_class_name(b, i),
            0x5Bu8 => {
                let j = skip_byte(b, i, 0x5B);
                if j >= b.len() {
                    None
                } else if b[j] == 0x4C {
                    past_class_name(b, j)
                } else {
                    Some((VType::Reference, j + 1))
                }
            },
            _ => None,
        }
    }
}

/// `args`, and those that follow from `i` up to the closing parenthesis; with the position of the
/// parenthesis.
pub open spec fn args_from(b: Seq<u8>, i: int, args: Seq<VType>) -> Option<(Seq<VType>, int)>
    decreases b.len() - i,
{
    if i >= b.len() {
        None
    } else if b[i] == 0x29 {
        Some((args, i))
    } else {
        match field_type_at(b, i) {
            None => None,
            Some((t, j)) => if j <= i {
                None
            } else {
                args_from(b, j, args.push(t))
            },
        }
    }
}

/// Argument types and return type (`None` for `void`) of a method descriptor.
pub open spec fn descriptor_types(b: Seq<u8>) -> Option<(Seq<VType>, Option<VType>)> {
    if b.len() == 0 || b[0] != 0x28 {
        None
    } else {
        match args_from(b, 1, Seq::empty()) {
            None => None,
            Some((args, i)) => if i + 1 < b.len() && b[i + 1] == 0x56 {
                Some((args, None))
            } else {
                match field_type_at(b, i + 1) {
                    None => None,
                    Some((t, _)) => Some((args, Some(t))),
                }
            },
        }
    }
}

/// The same, of a descriptor's text.
pub open spec fn method_types(desc: Seq<char>) -> Option<(Seq<VType>, Option<VType>)> {
    descriptor_types(encode_utf8(desc))
}

proof fn lemma_byte_scans(b: Seq<u8>, i: int, c: u8)
    requires
        0 <= i <= b.len(),
    ensures
        i <= next_byte(b, i, c) <= b.len(),
        i <= skip_byte(b, i, c) <= b.len(),
    decreases b.len() - i,
{
    if i < b.len() {
        lemma_byte_scans(b, i + 1, c);
    }
}

/// A field type takes at least one byte, and ends inside the descriptor.
pub proof fn lemma_field_type_advances(b: Seq<u8>, i: int)
    requires
        0 <= i,
        field_type_at(b, i) is Some,
    ensures
        i < (field_type_at(b, i)->0).1 <= b.len(),
{
    lemma_byte_scans(b, i, 0x3B);
    lemma_byte_scans(b, i, 0x5B);
    lemma_byte_scans(b, skip_byte(b, i, 0x5B), 0x3B);
}

/// Move past the `;` that ends the class name starting at `i`.
fn skip_class_name(b: &[u8], i: usize) -> (r: Result<(VType, usize), VerifyError>)
    requires
        i <= b@.len(),
    ensures
        match past_class_name(b@, i as int) {
            Some((t, j)) => r == Ok::<(VType, usize), VerifyError>((t, j as usize)) && j
                <= b@.len(),
            None => r == Err::<(VType, usize), VerifyError>(VerifyError::BadDescriptor),
        },
{
    let mut j: usize = i;
    while j < b.len()
        invariant
            i <= j <= b@.len(),
            next_byte(b@, i as int, 0x3B) == next_byte(b@, j as int, 0x3B),
        decreases b@.len() - j,
    {
        if b[j] == 0x3B {
            return Ok((VType::Reference, j + 1));
        }
        j += 1;
    }
    Err(VerifyError::BadDescriptor)
}

/// The verification type a field descriptor denotes, and the index just past it.
pub fn parse_field_type(b: &[u8], i: usize) -> (r: Result<(VType, usize), VerifyError>)
    ensures
        match field_type_at(b@, i as int) {
            Some((t, j)) => r == Ok::<(VType, usize), VerifyError>((t, j as usize)) && i < j
                <= b@.len(),
            None => r == Err::<(VType, usize), VerifyError>(VerifyError::BadDescriptor),
        },
{
    if i >= b.len() {
        return Err(VerifyError::BadDescriptor);
    }
    proof {
        if field_type_at(b@, i as int) is Some {
            lemma_field_type_advances(b@, i as int);
        }
    }
    let t = match b[i] {
        0x42 | 0x43 | 0x49 | 0x53 | 0x5A => VType::Int,
        0x4A => VType::Long,
        0x46 => VType::Float,
        0x44 => VType::Double,
        0x4C => {
            return skip_class_name(b, i);
        },
        0x5B => {
            let mut j: usize = i;
            while j < b.len() && b[j] == 0x5B
                invariant
                    i <= j <= b@.len(),
                    skip_byte(b@, i as int, 0x5B) == skip_byte(b@, j as int, 0x5B),
                decreases b@.len() - j,
            {
                j += 1;
            }
            if j >= b.len() {
                return Err(VerifyError::BadDescriptor);
            }
            if b[j] == 0x4C {
                return skip_class_name(b, j);
            }
            return Ok((VType::Reference, j + 1));
        },
        _ => {
            return Err(VerifyError::BadDescriptor);
        },
    };
    Ok((t, i + 1))
}

/// Parse a method descriptor into its argument types and return type (`None` = `void`).
pub fn parse_method_descriptor(desc: &str) -> (r: Result<
    (Vec<VType>, Option<VType>),
    VerifyError,
>)
    ensures
        match method_types(desc@) {
            Some((args, ret)) => r is Ok && r->Ok_0.0@ == args && r->Ok_0.1 == ret,
            None => r is Err && r->Err_0 == VerifyError::BadDescriptor,
        },
{
    let b = desc.as_bytes();
    if b.len() == 0 || b[0] != 0x28 {
        return Err(VerifyError::BadDescriptor);
    }
    let mut i: usize = 1;
    let mut args: Vec<VType> = Vec::new();
    loop
        invariant_except_break
            b@ == encode_utf8(desc@),
            b@.len() > 0,
            b@[0] == 0x28,
            i <= b@.len(),
            args_from(b@, 1, Seq::empty()) == args_from(b@, i as int, args@),
        ensures
            b@ == encode_utf8(desc@),
            b@.len() > 0,
            b@[0] == 0x28,
            args_from(b@, 1, Seq::empty()) == Some((args@, i as int)),
            i < b@.len(),
        decreases b@.len() - i,
    {
        if i >= b.len() {
            return Err(VerifyError::BadDescriptor);
        }
        if b[i] == 0x29 {
            break;
        }
        let (t, ni) = parse_field_type(b, i)?;
        args.push(t);
        i = ni;
    }
    i += 1;
    if i < b.len() && b[i] == 0x56 {
        return Ok((args, None));
    }
    let (t, _) = parse_field_type(b, i)?;
    Ok((args, Some(t)))
}

} // verus!
