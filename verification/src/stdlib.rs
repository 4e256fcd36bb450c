//! The Java standard library's genesis classes: `java.lang.Object`, `java.lang.String`,
//! `java.lang.System` and `java.io.PrintStream`. Observable behaviour includes the quirks that
//! guests rely on: `String.hashCode` is the specified polynomial, and lengths count UTF-16 units.

use vstd::prelude::*;

pub mod laws;

use crate::native::{
    BuiltinClass, BuiltinMethod, BuiltinMethodView, BuiltinView, NativeEnv, NativeError, NativeFn,
};
use crate::text::same_text;
use crate::value::{Tag, Val128};
use crate::world::WorldView;

verus! {

/// The UTF-16 units of a character.
pub open spec fn char_units(c: char) -> Seq<u16> {
    let n = c as u32;
    if n < 0x1_0000 {
        seq![n as u16]
    } else {
        seq![
            (0xD800 + (n - 0x1_0000) / 0x400) as u16,
            (0xDC00 + (n - 0x1_0000) % 0x400) as u16,
        ]
    }
}

/// The UTF-16 units of a text.
pub open spec fn utf16(s: Seq<char>) -> Seq<u16>
    decreases s.len(),
{
    if s.len() == 0 {
        Seq::empty()
    } else {
        utf16(s.drop_last()) + char_units(s.last())
    }
}

/// `31 * h + c` over all units, with wraparound.
pub open spec fn hash_of(units: Seq<u16>) -> i32
    decreases units.len(),
{
    if units.len() == 0 {
        0
    } else {
        hash_of(units.drop_last()).wrapping_mul(31).wrapping_add(units.last() as i32)
    }
}

/// A decimal digit.
pub open spec fn digit(d: nat) -> char {
    (0x30 + d) as char
}

/// The decimal digits of a number.
pub open spec fn digits(n: nat) -> Seq<char>
    decreases n,
{
    if n < 10 {
        seq![digit(n)]
    } else {
        digits(n / 10).push(digit(n % 10))
    }
}

/// A number in decimal.
pub open spec fn decimal_text(v: int) -> Seq<char> {
    if v < 0 {
        seq!['-'] + digits((-v) as nat)
    } else {
        digits(v as nat)
    }
}

/// The character of a UTF-16 unit; a lone surrogate shows as the replacement character.
pub open spec fn unit_char(u: u16) -> char {
    if 0xD800 <= u < 0xE000 {
        '\u{FFFD}'
    } else {
        u as char
    }
}

/// The receiver's text.
pub open spec fn receiver_text(w: WorldView, args: Seq<Val128>) -> Result<Seq<char>, NativeError> {
    if args.len() == 0 {
        Err(NativeError::BadValue)
    } else if args[0].tag() is Null {
        Err(NativeError::NullPointer)
    } else {
        match w.text_of_value(args[0]) {
            Some(s) => Ok(s),
            None => Err(NativeError::BadValue),
        }
    }
}

/// A text that a value prints as: strings as themselves, anything else as `null`.
pub open spec fn shown(w: WorldView, v: Val128) -> Seq<char> {
    match w.text_of_value(v) {
        Some(s) => s,
        None => "null"@,
    }
}

/// A boolean, as an int.
pub open spec fn int_of(b: bool) -> Val128 {
    if b {
        Val128::from_i32(1)
    } else {
        Val128::from_i32(0)
    }
}

/// What a method of `Object` or `String` that leaves the world alone returns.
pub open spec fn pure_result(f: NativeFn, w: WorldView, args: Seq<Val128>) -> Result<
    Option<Val128>,
    NativeError,
> {
    match f {
        NativeFn::ObjectInit => Ok(None),
        NativeFn::ObjectHashCode => if args.len() == 0 {
            Err(NativeError::BadValue)
        } else if !args[0].tag().is_ref() {
            Err(NativeError::NullPointer)
        } else {
            Ok(Some(Val128::from_i32(args[0].ref_index().0 as i32)))
        },
        NativeFn::ObjectEquals => if args.len() < 2 {
            Err(NativeError::BadValue)
        } else {
            Ok(
                Some(
                    int_of(
                        args[0].tag().is_ref() && args[1].tag().is_ref() && args[0].ref_index()
                            == args[1].ref_index(),
                    ),
                ),
            )
        },
        NativeFn::StringToString => if args.len() == 0 {
            Err(NativeError::BadValue)
        } else {
            Ok(Some(args[0]))
        },
        _ => match receiver_text(w, args) {
            Err(e) => Err(e),
            Ok(s) => match f {
                NativeFn::StringLength => Ok(Some(Val128::from_i32(utf16(s).len() as i32))),
                NativeFn::StringCharAt => if args.len() < 2 {
                    Err(NativeError::BadValue)
                } else {
                    let i = args[1].as_i32();
                    if i < 0 || i >= utf16(s).len() {
                        Err(NativeError::BadValue)
                    } else {
                        Ok(Some(Val128::from_i32(utf16(s)[i as int] as i32)))
                    }
                },
                NativeFn::StringIsEmpty => Ok(Some(int_of(s.len() == 0))),
                NativeFn::StringHashCode => Ok(Some(Val128::from_i32(hash_of(utf16(s))))),
                NativeFn::StringEquals => if args.len() < 2 {
                    Err(NativeError::BadValue)
                } else {
                    Ok(Some(int_of(w.text_of_value(args[1]) == Some(s))))
                },
                _ => Err(NativeError::BadValue),
            },
        },
    }
}

/// What a print method prints, given the value to print.
pub open spec fn print_text(f: NativeFn, w: WorldView, v: Val128) -> Seq<char> {
    match f {
        NativeFn::PrintlnString | NativeFn::PrintString => shown(w, v),
        NativeFn::PrintlnInt | NativeFn::PrintInt => decimal_text(v.as_i32() as int),
        NativeFn::PrintlnLong => decimal_text(v.as_i64() as int),
        NativeFn::PrintlnBoolean => if v.as_i32() != 0 {
            "true"@
        } else {
            "false"@
        },
        _ => seq![unit_char(v.as_i32() as u16)],
    }
}

/// Whether a print method ends the line.
pub open spec fn ends_line(f: NativeFn) -> bool {
    match f {
        NativeFn::PrintlnString
        | NativeFn::PrintlnInt
        | NativeFn::PrintlnLong
        | NativeFn::PrintlnBoolean
        | NativeFn::PrintlnChar => true,
        _ => false,
    }
}

/// Whether a method prints.
pub open spec fn prints(f: NativeFn) -> bool {
    ends_line(f) || f is PrintString || f is PrintInt
}

/// What a native method does and returns.
pub open spec fn native_result(f: NativeFn, w: WorldView, args: Seq<Val128>) -> (
    WorldView,
    Result<Option<Val128>, NativeError>,
) {
    if prints(f) {
        if args.len() < 2 {
            (w, Err(NativeError::BadValue))
        } else {
            let w1 = w.printed(print_text(f, w, args[1]));
            if ends_line(f) {
                (w1.printed("\n"@), Ok(None))
            } else {
                (w1, Ok(None))
            }
        }
    } else if f is StringConcat {
        match receiver_text(w, args) {
            Err(e) => (w, Err(e)),
            Ok(a) => if args.len() < 2 {
                (w, Err(NativeError::BadValue))
            } else {
                match w.text_of_value(args[1]) {
                    None => (w, Err(NativeError::NullPointer)),
                    Some(b) => match w.native_string(a + b) {
                        (w1, Ok(v)) => (w1, Ok(Some(v))),
                        (w1, Err(e)) => (w1, Err(e)),
                    },
                }
            },
        }
    } else {
        (w, pure_result(f, w, args))
    }
}

/// The UTF-16 units of a text.
fn utf16_units(s: &str) -> (r: Vec<u16>)
    ensures
        r@ == utf16(s@),
{
    let mut out: Vec<u16> = Vec::new();
    assert(s@.take(0) =~= Seq::<char>::empty());
    for c in it: s.chars()
        invariant
            it.seq() == s@,
            out@ == utf16(s@.take(it.index() as int)),
    {
        let n: u32 = c as u32;
        let ghost k = it.index() as int;
        proof {
            assert(s@.take(k + 1).drop_last() =~= s@.take(k));
            assert(s@.take(k + 1).last() == c);
        }
        if n < 0x1_0000 {
            out.push(n as u16);
        } else {
            out.push((0xD800 + (n - 0x1_0000) / 0x400) as u16);
            out.push((0xDC00 + (n - 0x1_0000) % 0x400) as u16);
        }
        assert(out@ =~= utf16(s@.take(k)) + char_units(c));
    }
    assert(s@.take(s@.len() as int) =~= s@);
    out
}

fn hash_units(units: &Vec<u16>) -> (h: i32)
    ensures
        h == hash_of(units@),
{
    let mut h: i32 = 0;
    let mut i: usize = 0;
    while i < units.len()
        invariant
            i <= units@.len(),
            h == hash_of(units@.take(i as int)),
        decreases units@.len() - i,
    {
        proof {
            assert(units@.take(i + 1).drop_last() =~= units@.take(i as int));
            assert(units@.take(i + 1).last() == units@[i as int]);
        }
        h = h.wrapping_mul(31).wrapping_add(units[i] as i32);
        i += 1;
    }
    assert(units@.take(units@.len() as int) =~= units@);
    h
}

fn push_digits(out: &mut String, n: u64)
    ensures
        final(out)@ == old(out)@ + digits(n as nat),
    decreases n,
{
    if n >= 10 {
        push_digits(out, n / 10);
    }
    let d: u8 = (n % 10) as u8;
    let ghost before = out@;
    out.push((0x30 + d) as char);
    proof {
        assert(before.push(digit((n % 10) as nat)) =~= old(out)@ + digits(n as nat));
    }
}

/// A number in decimal.
fn decimal(v: i64) -> (s: String)
    ensures
        s@ == decimal_text(v as int),
{
    let mut out = String::new();
    if v < 0 {
        out.push('-');
        let m: u64 = (-(v + 1)) as u64 + 1;
        push_digits(&mut out, m);
        assert(out@ =~= seq!['-'] + digits((-v) as nat));
    } else {
        push_digits(&mut out, v as u64);
        assert(out@ =~= digits(v as nat));
    }
    out
}

/// The receiver's text, or a null-pointer error.
fn this_text<E: NativeEnv>(env: &E, args: &[Val128]) -> (r: Result<String, NativeError>)
    requires
        env.valid(),
    ensures
        match receiver_text(env.world(), args@) {
            Ok(s) => r is Ok && r->Ok_0@ == s,
            Err(e) => r is Err && r->Err_0 == e,
        },
{
    if args.len() == 0 {
        return Err(NativeError::BadValue);
    }
    if args[0].tag() == Tag::Null {
        return Err(NativeError::NullPointer);
    }
    match env.string_text(args[0]) {
        Some(s) => Ok(s),
        None => Err(NativeError::BadValue),
    }
}

fn int_value(b: bool) -> (v: Val128)
    ensures
        v == int_of(b),
{
    if b {
        Val128::from_i32(1)
    } else {
        Val128::from_i32(0)
    }
}

/// Run a method that leaves the world alone.
fn invoke_pure<E: NativeEnv>(f: NativeFn, env: &E, args: &[Val128]) -> (r: Result<
    Option<Val128>,
    NativeError,
>)
    requires
        env.valid(),
    ensures
        r == pure_result(f, env.world(), args@),
{
    match f {
        NativeFn::ObjectInit => {
            return Ok(None);
        },
        NativeFn::ObjectHashCode => {
            if args.len() == 0 {
                return Err(NativeError::BadValue);
            }
            if !args[0].tag().is_ref() {
                return Err(NativeError::NullPointer);
            }
            return Ok(Some(Val128::from_i32(args[0].ref_index().0 as i32)));
        },
        NativeFn::ObjectEquals => {
            if args.len() < 2 {
                return Err(NativeError::BadValue);
            }
            let same = args[0].tag().is_ref() && args[1].tag().is_ref() && args[0].ref_index()
                == args[1].ref_index();
            return Ok(Some(int_value(same)));
        },
        NativeFn::StringToString => {
            if args.len() == 0 {
                return Err(NativeError::BadValue);
            }
            return Ok(Some(args[0]));
        },
        _ => {},
    }
    let s = this_text(env, args)?;
    match f {
        NativeFn::StringLength => {
            let units = utf16_units(s.as_str());
            Ok(Some(Val128::from_i32(units.len() as i32)))
        },
        NativeFn::StringCharAt => {
            if args.len() < 2 {
                return Err(NativeError::BadValue);
            }
            let i: i32 = args[1].as_i32();
            let units = utf16_units(s.as_str());
            if i < 0 || i as usize >= units.len() {
                return Err(NativeError::BadValue);
            }
            Ok(Some(Val128::from_i32(units[i as usize] as i32)))
        },
        NativeFn::StringIsEmpty => Ok(Some(int_value(s.as_str().is_empty()))),
        NativeFn::StringHashCode => Ok(
            Some(Val128::from_i32(hash_units(&utf16_units(s.as_str())))),
        ),
        NativeFn::StringEquals => {
            if args.len() < 2 {
                return Err(NativeError::BadValue);
            }
            let same = match env.string_text(args[1]) {
                Some(b) => same_text(s.as_str(), b.as_str()),
                None => false,
            };
            Ok(Some(int_value(same)))
        },
        _ => Err(NativeError::BadValue),
    }
}

/// The text that a print method prints.
fn text_to_print<E: NativeEnv>(f: NativeFn, env: &E, v: Val128) -> (s: String)
    requires
        env.valid(),
        prints(f),
    ensures
        s@ == print_text(f, env.world(), v),
{
    match f {
        NativeFn::PrintlnString | NativeFn::PrintString => match env.string_text(v) {
            Some(s) => s,
            None => "null".to_string(),
        },
        NativeFn::PrintlnInt | NativeFn::PrintInt => decimal(v.as_i32() as i64),
        NativeFn::PrintlnLong => decimal(v.as_i64()),
        NativeFn::PrintlnBoolean => {
            if v.as_i32() != 0 {
                "true".to_string()
            } else {
                "false".to_string()
            }
        },
        _ => {
            let u: u16 = v.as_i32() as u16;
            let c = match char::from_u32(u as u32) {
                Some(c) => c,
                None => '\u{FFFD}',
            };
            let mut s = String::new();
            s.push(c);
            assert(s@ =~= seq![c]);
            s
        },
    }
}

/// Run a native method.
pub fn invoke<E: NativeEnv>(f: NativeFn, env: &mut E, args: &[Val128]) -> (r: Result<
    Option<Val128>,
    NativeError,
>)
    requires
        old(env).valid(),
    ensures
        final(env).valid(),
        (final(env).world(), r) == native_result(f, old(env).world(), args@),
{
    let (printing, line): (bool, bool) = match f {
        NativeFn::PrintlnString
        | NativeFn::PrintlnInt
        | NativeFn::PrintlnLong
        | NativeFn::PrintlnBoolean
        | NativeFn::PrintlnChar => (true, true),
        NativeFn::PrintString | NativeFn::PrintInt => (true, false),
        _ => (false, false),
    };
    if printing {
        if args.len() < 2 {
            return Err(NativeError::BadValue);
        }
        let text = text_to_print(f, env, args[1]);
        env.print(text.as_str());
        if line {
            env.print("\n");
        }
        return Ok(None);
    }
    if f == NativeFn::StringConcat {
        let a = this_text(env, args)?;
        if args.len() < 2 {
            return Err(NativeError::BadValue);
        }
        return match env.string_text(args[1]) {
            None => Err(NativeError::NullPointer),
            Some(b) => {
                let mut joined = a;
                joined.append(b.as_str());
                match env.new_string(joined.as_str()) {
                    Ok(v) => Ok(Some(v)),
                    Err(e) => Err(e),
                }
            },
        };
    }
    invoke_pure(f, env, args)
}

/// An instance method of a builtin class.
pub open spec fn instance_method(name: Seq<char>, descriptor: Seq<char>, body: NativeFn) ->
    BuiltinMethodView {
    BuiltinMethodView { name, descriptor, is_static: false, body }
}

fn instance(name: &'static str, descriptor: &'static str, body: NativeFn) -> (m: BuiltinMethod)
    ensures
        m@ == instance_method(name@, descriptor@, body),
{
    BuiltinMethod { name, descriptor, is_static: false, body }
}

/// `java.lang.Object`: the root of the hierarchy, without a superclass.
pub open spec fn object_view() -> BuiltinView {
    BuiltinView {
        name: "java/lang/Object"@,
        super_name: None,
        fields: Seq::empty(),
        statics: Seq::empty(),
        methods: seq![
            instance_method("<init>"@, "()V"@, NativeFn::ObjectInit),
            instance_method("hashCode"@, "()I"@, NativeFn::ObjectHashCode),
            instance_method("equals"@, "(Ljava/lang/Object;)Z"@, NativeFn::ObjectEquals),
        ],
    }
}

/// `java.lang.Object`: the root of the hierarchy, without a superclass.
fn object_class() -> (c: BuiltinClass)
    ensures
        c@ == object_view(),
{
    let mut methods: Vec<BuiltinMethod> = Vec::new();
    methods.push(instance("<init>", "()V", NativeFn::ObjectInit));
    methods.push(instance("hashCode", "()I", NativeFn::ObjectHashCode));
    methods.push(instance("equals", "(Ljava/lang/Object;)Z", NativeFn::ObjectEquals));
    let statics: Vec<(&'static str, &'static str)> = Vec::new();
    let c = BuiltinClass {
        name: "java/lang/Object",
        super_name: None,
        fields: Vec::new(),
        statics,
        methods,
    };
    assert(c@.fields =~= object_view().fields);
    assert(c@.statics =~= object_view().statics);
    assert(c@.methods =~= object_view().methods);
    c
}

/// `java.lang.String`. Its characters live in the object's text.
pub open spec fn string_view() -> BuiltinView {
    BuiltinView {
        name: "java/lang/String"@,
        super_name: Some("java/lang/Object"@),
        fields: Seq::empty(),
        statics: Seq::empty(),
        methods: seq![
            instance_method("length"@, "()I"@, NativeFn::StringLength),
            instance_method("charAt"@, "(I)C"@, NativeFn::StringCharAt),
            instance_method("isEmpty"@, "()Z"@, NativeFn::StringIsEmpty),
            instance_method("hashCode"@, "()I"@, NativeFn::StringHashCode),
            instance_method("equals"@, "(Ljava/lang/Object;)Z"@, NativeFn::StringEquals),
            instance_method("concat"@, "(Ljava/lang/String;)Ljava/lang/String;"@, NativeFn::StringConcat),
            instance_method("toString"@, "()Ljava/lang/String;"@, NativeFn::StringToString),
        ],
    }
}

/// `java.lang.String`. Its characters live in the object's text.
fn string_class() -> (c: BuiltinClass)
    ensures
        c@ == string_view(),
{
    let mut methods: Vec<BuiltinMethod> = Vec::new();
    methods.push(instance("length", "()I", NativeFn::StringLength));
    methods.push(instance("charAt", "(I)C", NativeFn::StringCharAt));
    methods.push(instance("isEmpty", "()Z", NativeFn::StringIsEmpty));
    methods.push(instance("hashCode", "()I", NativeFn::StringHashCode));
    methods.push(instance("equals", "(Ljava/lang/Object;)Z", NativeFn::StringEquals));
    methods.push(instance("concat", "(Ljava/lang/String;)Ljava/lang/String;", NativeFn::StringConcat));
    methods.push(instance("toString", "()Ljava/lang/String;", NativeFn::StringToString));
    let statics: Vec<(&'static str, &'static str)> = Vec::new();
    let c = BuiltinClass {
        name: "java/lang/String",
        super_name: Some("java/lang/Object"),
        fields: Vec::new(),
        statics,
        methods,
    };
    assert(c@.fields =~= string_view().fields);
    assert(c@.statics =~= string_view().statics);
    assert(c@.methods =~= string_view().methods);
    c
}

/// `java.io.PrintStream`: enough of it for `System.out`.
pub open spec fn print_stream_view() -> BuiltinView {
    BuiltinView {
        name: "java/io/PrintStream"@,
        super_name: Some("java/lang/Object"@),
        fields: Seq::empty(),
        statics: Seq::empty(),
        methods: seq![
            instance_method("println"@, "(Ljava/lang/String;)V"@, NativeFn::PrintlnString),
            instance_method("println"@, "(I)V"@, NativeFn::PrintlnInt),
            instance_method("println"@, "(J)V"@, NativeFn::PrintlnLong),
            instance_method("println"@, "(Z)V"@, NativeFn::PrintlnBoolean),
            instance_method("println"@, "(C)V"@, NativeFn::PrintlnChar),
            instance_method("print"@, "(Ljava/lang/String;)V"@, NativeFn::PrintString),
            instance_method("print"@, "(I)V"@, NativeFn::PrintInt),
        ],
    }
}

/// `java.io.PrintStream`: enough of it for `System.out`.
fn print_stream_class() -> (c: BuiltinClass)
    ensures
        c@ == print_stream_view(),
{
    let mut methods: Vec<BuiltinMethod> = Vec::new();
    methods.push(instance("println", "(Ljava/lang/String;)V", NativeFn::PrintlnString));
    methods.push(instance("println", "(I)V", NativeFn::PrintlnInt));
    methods.push(instance("println", "(J)V", NativeFn::PrintlnLong));
    methods.push(instance("println", "(Z)V", NativeFn::PrintlnBoolean));
    methods.push(instance("println", "(C)V", NativeFn::PrintlnChar));
    methods.push(instance("print", "(Ljava/lang/String;)V", NativeFn::PrintString));
    methods.push(instance("print", "(I)V", NativeFn::PrintInt));
    let statics: Vec<(&'static str, &'static str)> = Vec::new();
    let c = BuiltinClass {
        name: "java/io/PrintStream",
        super_name: Some("java/lang/Object"),
        fields: Vec::new(),
        statics,
        methods,
    };
    assert(c@.fields =~= print_stream_view().fields);
    assert(c@.statics =~= print_stream_view().statics);
    assert(c@.methods =~= print_stream_view().methods);
    c
}

/// `java.lang.System`. `out` and `err` hold the print streams that the engine installs.
pub open spec fn system_view() -> BuiltinView {
    BuiltinView {
        name: "java/lang/System"@,
        super_name: Some("java/lang/Object"@),
        fields: Seq::empty(),
        statics: seq![("out"@, "Ljava/io/PrintStream;"@), ("err"@, "Ljava/io/PrintStream;"@)],
        methods: Seq::empty(),
    }
}

/// `java.lang.System`. `out` and `err` hold the print streams that the engine installs.
fn system_class() -> (c: BuiltinClass)
    ensures
        c@ == system_view(),
{
    let methods: Vec<BuiltinMethod> = Vec::new();
    let mut statics: Vec<(&'static str, &'static str)> = Vec::new();
    statics.push(("out", "Ljava/io/PrintStream;"));
    statics.push(("err", "Ljava/io/PrintStream;"));
    let c = BuiltinClass {
        name: "java/lang/System",
        super_name: Some("java/lang/Object"),
        fields: Vec::new(),
        statics,
        methods,
    };
    assert(c@.fields =~= system_view().fields);
    assert(c@.statics =~= system_view().statics);
    assert(c@.methods =~= system_view().methods);
    c
}

/// Every builtin class, in dependency order (a superclass precedes its subclasses).
pub open spec fn builtin_views() -> Seq<BuiltinView> {
    seq![object_view(), string_view(), print_stream_view(), system_view()]
}

/// Every builtin class, in dependency order (a superclass precedes its subclasses).
pub fn builtins() -> (r: Vec<BuiltinClass>)
    ensures
        r@.len() == builtin_views().len(),
        forall|i: int| 0 <= i < r@.len() ==> (#[trigger] r@[i])@ == builtin_views()[i],
{
    let mut r: Vec<BuiltinClass> = Vec::new();
    r.push(object_class());
    r.push(string_class());
    r.push(print_stream_class());
    r.push(system_class());
    r
}

/// `s[0]*31^(n-1) + s[1]*31^(n-2) + ... + s[n-1]`, exactly.
pub open spec fn polynomial(units: Seq<u16>) -> int
    decreases units.len(),
{
    if units.len() == 0 {
        0
    } else {
        31 * polynomial(units.drop_last()) + units.last()
    }
}

/// A string's hash code is the polynomial over its UTF-16 units, up to wraparound at 32 bits.
pub proof fn lemma_hash_is_the_polynomial(units: Seq<u16>)
    ensures
        (polynomial(units) - hash_of(units)) % 0x1_0000_0000 == 0,
    decreases units.len(),
{
    if units.len() > 0 {
        let rest = units.drop_last();
        lemma_hash_is_the_polynomial(rest);
        let q = (polynomial(rest) - hash_of(rest)) / 0x1_0000_0000;
        let h = hash_of(rest);
        let m = h.wrapping_mul(31);
        let j = (31 * h - m) / 0x1_0000_0000;
        assert(31 * h - m == j * 0x1_0000_0000);
        let s = m.wrapping_add(units.last() as i32);
        let k = (m + units.last() - s) / 0x1_0000_0000;
        assert(m + units.last() - s == k * 0x1_0000_0000);
        assert(polynomial(units) - hash_of(units) == (31 * q + j + k) * 0x1_0000_0000);
    }
}

/// A text's length in UTF-16 units is its number of characters, supplementary ones counted twice.
pub proof fn lemma_length_counts_units(s: Seq<char>)
    ensures
        s.len() <= utf16(s).len() <= 2 * s.len(),
        (forall|i: int| 0 <= i < s.len() ==> (#[trigger] s[i]) as u32 <= 0xFFFF) ==> utf16(s).len()
            == s.len(),
    decreases s.len(),
{
    if s.len() > 0 {
        lemma_length_counts_units(s.drop_last());
        assert(s[s.len() - 1] == s.last());
        if forall|i: int| 0 <= i < s.len() ==> (#[trigger] s[i]) as u32 <= 0xFFFF {
            assert forall|i: int| 0 <= i < s.len() - 1 implies (
            #[trigger] s.drop_last()[i]) as u32 <= 0xFFFF by {
                assert(s[i] as u32 <= 0xFFFF);
            }
        }
    }
}

/// Strings that are equal have equal hash codes, and equality of strings goes both ways.
pub proof fn lemma_equal_strings_hash_alike(w: WorldView, a: Val128, b: Val128)
    requires
        pure_result(NativeFn::StringEquals, w, seq![a, b]) == Ok::<Option<Val128>, NativeError>(
            Some(int_of(true)),
        ),
    ensures
        pure_result(NativeFn::StringHashCode, w, seq![a]) == pure_result(
            NativeFn::StringHashCode,
            w,
            seq![b],
        ),
        pure_result(NativeFn::StringEquals, w, seq![b, a]) == Ok::<Option<Val128>, NativeError>(
            Some(int_of(true)),
        ),
{
    broadcast use crate::value::group_values;

    assert(int_of(true) != int_of(false)) by {
        assert(int_of(true).as_i32() == 1);
        assert(int_of(false).as_i32() == 0);
    }
    assert(w.text_of_value(b) is Some);
    assert(b.tag().is_ref());
}

} // verus!
