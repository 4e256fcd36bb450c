//! What the builtin classes promise, stated on what their methods are given and return.

use vstd::prelude::*;
use vstd::utf8::encode_utf8;
use crate::loader::laws::lemma_named_class;
use crate::loader::{class_named, lemma_class_named};
use crate::native::{BuiltinMethodView, BuiltinView, NativeError, NativeFn};
use crate::stdlib::{
    builtin_views, char_units, decimal_text, digits, ends_line, hash_of,
    lemma_hash_is_the_polynomial, native_result, object_view, polynomial, print_stream_view,
    print_text, prints, string_view, system_view, utf16,
};
use crate::value::{group_values, Val128};
use crate::world::WorldView;

verus! {

/// What a native call returns: a value, and the world is as it was.
pub open spec fn answers(f: NativeFn, w: WorldView, args: Seq<Val128>, v: Val128) -> bool {
    native_result(f, w, args) == (w, Ok::<Option<Val128>, NativeError>(Some(v)))
}

/// What a native call fails with, and the world is as it was.
pub open spec fn refuses(f: NativeFn, w: WorldView, args: Seq<Val128>, e: NativeError) -> bool {
    native_result(f, w, args) == (w, Err::<Option<Val128>, NativeError>(e))
}

/// Whether a value is a string of that text.
pub open spec fn is_string(w: WorldView, v: Val128, text: Seq<char>) -> bool {
    &&& v.tag().is_ref()
    &&& w.heap.object(v.ref_index()) matches Some(o) && {
        &&& o.class.0 < w.classes.len()
        &&& w.classes[o.class.0 as int].name == "java/lang/String"@
        &&& o.text == Some(text)
    }
}

/// Whether a value is no string.
pub open spec fn no_string(w: WorldView, v: Val128) -> bool {
    forall|text: Seq<char>| !is_string(w, v, text)
}

/// How many characters of a text lie beyond the basic plane.
pub open spec fn supplementary(s: Seq<char>) -> nat
    decreases s.len(),
{
    if s.len() == 0 {
        0
    } else {
        supplementary(s.drop_last()) + (if s.last() as u32 > 0xFFFF {
            1nat
        } else {
            0
        })
    }
}

proof fn lemma_strings(w: WorldView, v: Val128, text: Seq<char>)
    ensures
        is_string(w, v, text) <==> w.text_of_value(v) == Some(text),
        is_string(w, v, text) ==> !(v.tag() is Null),
        no_string(w, v) ==> w.text_of_value(v) is None,
{
    if w.text_of_value(v) is Some {
        assert(is_string(w, v, w.text_of_value(v)->0));
    }
}

/// A character is one unit, or two that spell it out: a high surrogate and a low one.
pub proof fn lemma_units_spell_characters(c: char)
    ensures
        ({
            let (n, u) = (c as u32, char_units(c));
            &&& n <= 0xFFFF ==> u.len() == 1 && u[0] == n
            &&& n > 0xFFFF ==> {
                &&& u.len() == 2
                &&& 0xD800 <= u[0] < 0xDC00
                &&& 0xDC00 <= u[1] < 0xE000
                &&& n == 0x1_0000 + (u[0] - 0xD800) * 0x400 + (u[1] - 0xDC00)
            }
        }),
{
    assert(c as u32 <= 0x10FFFF);
}

/// The units of texts follow each other as the texts do, one for each character and one more for each
/// that lies beyond the basic plane.
pub proof fn lemma_units_of_texts(a: Seq<char>, b: Seq<char>)
    ensures
        utf16(a + b) == utf16(a) + utf16(b),
        utf16(a).len() == a.len() + supplementary(a),
        a.len() == 1 ==> utf16(a) == char_units(a[0]),
    decreases b.len(), a.len(),
{
    if b.len() == 0 {
        assert(a + b =~= a);
        assert(utf16(a) + utf16(b) =~= utf16(a));
        if a.len() > 0 {
            lemma_units_of_texts(a.drop_last(), b);
            lemma_units_spell_characters(a.last());
        }
        if a.len() == 1 {
            assert(a.drop_last() =~= Seq::empty());
            assert(utf16(a.drop_last()) =~= Seq::empty());
            assert(utf16(a) =~= char_units(a[0]));
        }
    } else {
        lemma_units_of_texts(a, b.drop_last());
        assert((a + b).drop_last() =~= a + b.drop_last());
        assert((a + b).last() == b.last());
        assert(utf16(a + b.drop_last()) + char_units(b.last()) =~= utf16(a) + (utf16(b.drop_last())
            + char_units(b.last())));
    }
}

/// `length` counts units, and `isEmpty` is 1 exactly if `length` is 0, and else 0.
pub proof fn lemma_length_and_emptiness(w: WorldView, v: Val128, text: Seq<char>)
    requires
        is_string(w, v, text),
        text.len() + supplementary(text) <= i32::MAX,
    ensures
        answers(
            NativeFn::StringLength,
            w,
            seq![v],
            Val128::from_i32((text.len() + supplementary(text)) as i32),
        ),
        answers(
            NativeFn::StringIsEmpty,
            w,
            seq![v],
            Val128::from_i32(
                if text.len() + supplementary(text) == 0 {
                    1
                } else {
                    0
                },
            ),
        ),
{
    lemma_strings(w, v, text);
    lemma_units_of_texts(text, Seq::empty());
}

/// `charAt` gives the unit at an index, and refuses an index outside.
pub proof fn lemma_units_by_index(w: WorldView, v: Val128, text: Seq<char>, i: i32)
    requires
        is_string(w, v, text),
    ensures
        0 <= i < text.len() + supplementary(text) ==> answers(
            NativeFn::StringCharAt,
            w,
            seq![v, Val128::from_i32(i)],
            Val128::from_i32(utf16(text)[i as int] as i32),
        ),
        i < 0 || text.len() + supplementary(text) <= i ==> refuses(
            NativeFn::StringCharAt,
            w,
            seq![v, Val128::from_i32(i)],
            NativeError::BadValue,
        ),
{
    broadcast use group_values;

    lemma_strings(w, v, text);
    lemma_units_of_texts(text, Seq::empty());
}

/// `hashCode` of a string is an int that differs from the polynomial over its units by a multiple of
/// 2^32. There is only one.
pub proof fn lemma_hash_codes(w: WorldView, v: Val128, text: Seq<char>, h: i32)
    requires
        is_string(w, v, text),
        (polynomial(utf16(text)) - h) % 0x1_0000_0000 == 0,
    ensures
        answers(NativeFn::StringHashCode, w, seq![v], Val128::from_i32(h)),
{
    lemma_strings(w, v, text);
    lemma_hash_is_the_polynomial(utf16(text));
    assert(h == hash_of(utf16(text)));
}

/// The polynomial: nothing counts 0, and one unit more counts itself and 31 times what was before.
pub proof fn lemma_polynomial_grows(units: Seq<u16>, u: u16)
    ensures
        polynomial(Seq::empty()) == 0,
        polynomial(units.push(u)) == 31 * polynomial(units) + u,
{
    assert(units.push(u).drop_last() =~= units);
}

/// `equals` of a string is 1 exactly for a string of the same text, and else 0.
pub proof fn lemma_string_equality(w: WorldView, a: Val128, b: Val128, text: Seq<char>)
    requires
        is_string(w, a, text),
    ensures
        is_string(w, b, text) ==> answers(
            NativeFn::StringEquals,
            w,
            seq![a, b],
            Val128::from_i32(1),
        ),
        !is_string(w, b, text) ==> answers(
            NativeFn::StringEquals,
            w,
            seq![a, b],
            Val128::from_i32(0),
        ),
{
    lemma_strings(w, a, text);
    lemma_strings(w, b, text);
}

/// `equals` of an object is 1 exactly for itself, and else 0; its `hashCode` goes by its identity.
pub proof fn lemma_object_identity(w: WorldView, a: Val128, b: Val128)
    requires
        a.tag().is_ref(),
    ensures
        answers(
            NativeFn::ObjectEquals,
            w,
            seq![a, b],
            Val128::from_i32(
                if b.tag().is_ref() && a.ref_index() == b.ref_index() {
                    1
                } else {
                    0
                },
            ),
        ),
        answers(
            NativeFn::ObjectHashCode,
            w,
            seq![a],
            Val128::from_i32(a.ref_index().0 as i32),
        ),
        native_result(NativeFn::ObjectInit, w, seq![a]) == (w, Ok::<Option<Val128>, NativeError>(None)),
{
}

/// `toString` of a string is the string.
pub proof fn lemma_string_is_its_text(w: WorldView, v: Val128)
    ensures
        answers(NativeFn::StringToString, w, seq![v], v),
{
}

/// `concat` gives a new string of the one text and the other behind it; both strings, and every other
/// object, stay as they are. Without room it fails.
pub proof fn lemma_concatenation(
    w: WorldView,
    a: Val128,
    b: Val128,
    first: Seq<char>,
    second: Seq<char>,
)
    requires
        is_string(w, a, first),
        is_string(w, b, second),
        w.heap.wf(),
        w.classes.len() <= u32::MAX,
    ensures
        ({
            let (w1, r) = native_result(NativeFn::StringConcat, w, seq![a, b]);
            &&& w.heap.live() < w.heap.limit ==> {
                &&& r matches Ok(Some(v)) && is_string(w1, v, first + second)
                &&& is_string(w1, a, first)
                &&& is_string(w1, b, second)
                &&& w1.classes == w.classes
                &&& w1.captured == w.captured
                &&& w1.outgoing == w.outgoing
            }
            &&& w.heap.live() >= w.heap.limit ==> w1 == w && r == Err::<
                Option<Val128>,
                NativeError,
            >(NativeError::OutOfMemory)
        }),
{
    broadcast use group_values;

    lemma_strings(w, a, first);
    lemma_strings(w, b, second);
    let o = w.heap.object(a.ref_index())->0;
    assert(class_named(w.classes, "java/lang/String"@) is Some) by {
        lemma_named_class(w.classes, "java/lang/String"@);
        assert(w.classes[o.class.0 as int].name == "java/lang/String"@);
    }
    lemma_class_named(w.classes, "java/lang/String"@);
    if w.heap.free.len() > 0 {
        assert(w.heap.free[w.heap.free.len() - 1] == w.heap.free.last());
    }
    assert(w.string_made(first + second).1 is Ok || w.heap.live() >= w.heap.limit);
}

/// A method of a string refuses `null`, and refuses a receiver that is no string.
pub proof fn lemma_receivers_are_checked(f: NativeFn, w: WorldView, args: Seq<Val128>)
    requires
        f is StringLength || f is StringCharAt || f is StringIsEmpty || f is StringHashCode
            || f is StringEquals || f is StringConcat,
        args.len() > 0,
    ensures
        args[0].tag() is Null ==> refuses(f, w, args, NativeError::NullPointer),
        !(args[0].tag() is Null) && no_string(w, args[0]) ==> refuses(
            f,
            w,
            args,
            NativeError::BadValue,
        ),
{
    lemma_strings(w, args[0], Seq::empty());
}

/// Everything that a guest has printed: what is captured, or else what goes out.
pub open spec fn output(w: WorldView) -> Seq<u8> {
    match w.captured {
        Some(b) => b,
        None => w.outgoing,
    }
}

/// Whether one world differs from another by exactly a text printed.
pub open spec fn prints_exactly(w: WorldView, w1: WorldView, text: Seq<char>) -> bool {
    &&& output(w1) == output(w) + encode_utf8(text)
    &&& (w1.captured is Some <==> w.captured is Some)
    &&& w.captured is Some ==> w1.outgoing == w.outgoing
    &&& w1.classes == w.classes
    &&& w1.heap == w.heap
    &&& w1.interned == w.interned
}

/// What `print` does with a value, as a text.
pub open spec fn does_print(f: NativeFn, w: WorldView, out: Val128, v: Val128, text: Seq<char>) -> bool {
    let (w1, r) = native_result(f, w, seq![out, v]);
    r == Ok::<Option<Val128>, NativeError>(None) && prints_exactly(w, w1, text)
}

/// What `println` does with a value, as a text.
pub open spec fn does_println(f: NativeFn, w: WorldView, out: Val128, v: Val128, text: Seq<char>) -> bool {
    let (w1, r) = native_result(f, w, seq![out, v]);
    &&& r == Ok::<Option<Val128>, NativeError>(None)
    &&& exists|mid: WorldView|
        #![trigger prints_exactly(w, mid, text)]
        prints_exactly(w, mid, text) && prints_exactly(mid, w1, seq!['\n'])
}

proof fn lemma_prints(f: NativeFn, w: WorldView, out: Val128, v: Val128, text: Seq<char>)
    requires
        prints(f),
        print_text(f, w, v) == text,
    ensures
        ends_line(f) ==> does_println(f, w, out, v, text),
        !ends_line(f) ==> does_print(f, w, out, v, text),
{
    let mid = w.printed(text);
    assert(prints_exactly(w, mid, text));
    reveal_strlit("\n");
    assert("\n"@ =~= seq!['\n']);
    let w1 = mid.printed("\n"@);
    assert(prints_exactly(mid, w1, seq!['\n']));
}

/// Strings are printed as they are, and whatever is no string as `null`; `println` ends the line.
pub proof fn lemma_strings_are_printed(w: WorldView, out: Val128, v: Val128, text: Seq<char>)
    ensures
        is_string(w, v, text) ==> does_print(NativeFn::PrintString, w, out, v, text),
        is_string(w, v, text) ==> does_println(NativeFn::PrintlnString, w, out, v, text),
        no_string(w, v) ==> does_print(NativeFn::PrintString, w, out, v, "null"@),
        no_string(w, v) ==> does_println(NativeFn::PrintlnString, w, out, v, "null"@),
{
    lemma_strings(w, v, text);
    if is_string(w, v, text) {
        lemma_prints(NativeFn::PrintString, w, out, v, text);
        lemma_prints(NativeFn::PrintlnString, w, out, v, text);
    }
    if no_string(w, v) {
        lemma_prints(NativeFn::PrintString, w, out, v, "null"@);
        lemma_prints(NativeFn::PrintlnString, w, out, v, "null"@);
    }
}

/// Numbers are printed in decimal, booleans as words, and a char as its character; only `print` of an
/// int does not end the line.
pub proof fn lemma_numbers_are_printed(w: WorldView, out: Val128, i: i32, l: i64, c: u16)
    ensures
        does_print(NativeFn::PrintInt, w, out, Val128::from_i32(i), decimal_text(i as int)),
        does_println(NativeFn::PrintlnInt, w, out, Val128::from_i32(i), decimal_text(i as int)),
        does_println(NativeFn::PrintlnLong, w, out, Val128::from_i64(l), decimal_text(l as int)),
        does_println(
            NativeFn::PrintlnBoolean,
            w,
            out,
            Val128::from_i32(i),
            if i == 0 {
                "false"@
            } else {
                "true"@
            },
        ),
        !(0xD800 <= c <= 0xDFFF) ==> does_println(
            NativeFn::PrintlnChar,
            w,
            out,
            Val128::from_i32(c as i32),
            seq![c as char],
        ),
        0xD800 <= c <= 0xDFFF ==> does_println(
            NativeFn::PrintlnChar,
            w,
            out,
            Val128::from_i32(c as i32),
            seq!['\u{FFFD}'],
        ),
{
    broadcast use group_values;

    lemma_prints(NativeFn::PrintInt, w, out, Val128::from_i32(i), decimal_text(i as int));
    lemma_prints(NativeFn::PrintlnInt, w, out, Val128::from_i32(i), decimal_text(i as int));
    lemma_prints(NativeFn::PrintlnLong, w, out, Val128::from_i64(l), decimal_text(l as int));
    lemma_prints(
        NativeFn::PrintlnBoolean,
        w,
        out,
        Val128::from_i32(i),
        if i == 0 {
            "false"@
        } else {
            "true"@
        },
    );
    let v = Val128::from_i32(c as i32);
    assert(v.as_i32() as u16 == c);
    lemma_prints(
        NativeFn::PrintlnChar,
        w,
        out,
        v,
        if 0xD800 <= c <= 0xDFFF {
            seq!['\u{FFFD}']
        } else {
            seq![c as char]
        },
    );
}

/// The number that decimal digits spell.
pub open spec fn spelled(s: Seq<char>) -> int
    decreases s.len(),
{
    if s.len() == 0 {
        0
    } else {
        10 * spelled(s.drop_last()) + (s.last() as u32 - 0x30)
    }
}

proof fn lemma_digits_spell(n: nat)
    ensures
        spelled(digits(n)) == n,
        digits(n).len() > 0,
        forall|i: int| 0 <= i < digits(n).len() ==> '0' <= #[trigger] digits(n)[i] <= '9',
        n > 0 ==> digits(n)[0] != '0',
        n == 0 ==> digits(n).len() == 1,
    decreases n,
{
    if n < 10 {
        assert(digits(n).drop_last() =~= Seq::empty());
        assert(spelled(digits(n).drop_last()) == 0);
    } else {
        lemma_digits_spell(n / 10);
        assert(digits(n).drop_last() =~= digits(n / 10));
    }
}

/// Decimal texts spell their numbers, in digits without a leading zero, behind a minus sign if they are
/// negative.
pub proof fn lemma_decimals_spell(v: int)
    ensures
        ({
            let t = decimal_text(v);
            let d = if v < 0 {
                t.skip(1)
            } else {
                t
            };
            &&& v < 0 ==> t.len() > 0 && t[0] == '-'
            &&& spelled(d) == (if v < 0 {
                -v
            } else {
                v
            })
            &&& d.len() > 0
            &&& forall|i: int| 0 <= i < d.len() ==> '0' <= #[trigger] d[i] <= '9'
            &&& v != 0 ==> d[0] != '0'
            &&& v == 0 ==> d.len() == 1
        }),
{
    if v < 0 {
        lemma_digits_spell((-v) as nat);
        assert(decimal_text(v).skip(1) =~= digits((-v) as nat));
    } else {
        lemma_digits_spell(v as nat);
    }
}

/// Whether a builtin class has a method of objects with that body.
pub open spec fn offers_method(
    b: BuiltinView,
    name: Seq<char>,
    descriptor: Seq<char>,
    body: NativeFn,
) -> bool {
    exists|i: int|
        0 <= i < b.methods.len() && (#[trigger] b.methods[i]) == (BuiltinMethodView {
            name,
            descriptor,
            is_static: false,
            body,
        })
}

/// The builtin classes: the root, strings, print streams, and `System` with its two streams, each with
/// its methods and no others; the root comes first.
pub proof fn lemma_builtin_classes()
    ensures
        builtin_views().len() == 4,
        ({
            let b = builtin_views()[0];
            &&& b.name == "java/lang/Object"@
            &&& b.super_name is None
            &&& b.methods.len() == 3
            &&& offers_method(b, "<init>"@, "()V"@, NativeFn::ObjectInit)
            &&& offers_method(b, "hashCode"@, "()I"@, NativeFn::ObjectHashCode)
            &&& offers_method(b, "equals"@, "(Ljava/lang/Object;)Z"@, NativeFn::ObjectEquals)
        }),
        ({
            let b = builtin_views()[1];
            &&& b.name == "java/lang/String"@
            &&& b.super_name == Some("java/lang/Object"@)
            &&& b.methods.len() == 7
            &&& offers_method(b, "length"@, "()I"@, NativeFn::StringLength)
            &&& offers_method(b, "charAt"@, "(I)C"@, NativeFn::StringCharAt)
            &&& offers_method(b, "isEmpty"@, "()Z"@, NativeFn::StringIsEmpty)
            &&& offers_method(b, "hashCode"@, "()I"@, NativeFn::StringHashCode)
            &&& offers_method(b, "equals"@, "(Ljava/lang/Object;)Z"@, NativeFn::StringEquals)
            &&& offers_method(
                b,
                "concat"@,
                "(Ljava/lang/String;)Ljava/lang/String;"@,
                NativeFn::StringConcat,
            )
            &&& offers_method(b, "toString"@, "()Ljava/lang/String;"@, NativeFn::StringToString)
        }),
        ({
            let b = builtin_views()[2];
            &&& b.name == "java/io/PrintStream"@
            &&& b.super_name == Some("java/lang/Object"@)
            &&& b.methods.len() == 7
            &&& offers_method(b, "println"@, "(Ljava/lang/String;)V"@, NativeFn::PrintlnString)
            &&& offers_method(b, "println"@, "(I)V"@, NativeFn::PrintlnInt)
            &&& offers_method(b, "println"@, "(J)V"@, NativeFn::PrintlnLong)
            &&& offers_method(b, "println"@, "(Z)V"@, NativeFn::PrintlnBoolean)
            &&& offers_method(b, "println"@, "(C)V"@, NativeFn::PrintlnChar)
            &&& offers_method(b, "print"@, "(Ljava/lang/String;)V"@, NativeFn::PrintString)
            &&& offers_method(b, "print"@, "(I)V"@, NativeFn::PrintInt)
        }),
        ({
            let b = builtin_views()[3];
            &&& b.name == "java/lang/System"@
            &&& b.super_name == Some("java/lang/Object"@)
            &&& b.methods.len() == 0
            &&& b.statics == seq![
                ("out"@, "Ljava/io/PrintStream;"@),
                ("err"@, "Ljava/io/PrintStream;"@),
            ]
        }),
        forall|i: int| 0 <= i < 4 ==> (#[trigger] builtin_views()[i]).fields.len() == 0,
        forall|i: int| 0 <= i < 3 ==> (#[trigger] builtin_views()[i]).statics.len() == 0,
{
    let (o, s, p) = (object_view().methods, string_view().methods, print_stream_view().methods);
    assert(o[0].body is ObjectInit && o[1].body is ObjectHashCode && o[2].body is ObjectEquals);
    assert(s[0].body is StringLength && s[1].body is StringCharAt && s[2].body is StringIsEmpty);
    assert(s[3].body is StringHashCode && s[4].body is StringEquals && s[5].body is StringConcat);
    assert(s[6].body is StringToString);
    assert(p[0].body is PrintlnString && p[1].body is PrintlnInt && p[2].body is PrintlnLong);
    assert(p[3].body is PrintlnBoolean && p[4].body is PrintlnChar && p[5].body is PrintString);
    assert(p[6].body is PrintInt);
    assert(system_view().statics.len() == 2);
}

} // verus!
