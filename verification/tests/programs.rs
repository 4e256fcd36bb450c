//! Whole programs: linking, SSA construction and execution.

use rjava::classfile::{parse, ClassFile};
use rjava::diff::EscapeState;
use rjava::ids::{BlockId, ClassId, ValId};
use rjava::interp::error::ExecError;
use rjava::interp::eval::{eval, FloatOp, FloatRequest, Outcome};
use rjava::interp::program::{install_builtins, Program, Progress};
use rjava::inline::Operands;
use rjava::ir::{Block, BuiltMethod, Effect, IntCond, Method, Node, Op, Terminator};
use rjava::loader::{ClassRegistry, InitState, LoaderError, MethodBody};
use rjava::ssa::error::IrError;
use rjava::ssa::build;
use rjava::ssa::escape::mark_escapes;
use rjava::value::{Tag, Val128};
use rjava::verify::{
    decode, parse_method_descriptor, verify_method, VType, VerifiedMethod, VerifyError,
};

const STATIC: u16 = 0x0008;

/// A class file in the making.
struct Class {
    pool: Vec<u8>,
    entries: u16,
    this: u16,
    sup: u16,
    fields: Vec<(u16, u16, u16)>,
    methods: Vec<Vec<u8>>,
}

impl Class {
    fn new(name: &str, sup: &str) -> Class {
        let mut c = Class {
            pool: Vec::new(),
            entries: 0,
            this: 0,
            sup: 0,
            fields: Vec::new(),
            methods: Vec::new(),
        };
        c.this = c.class(name);
        c.sup = c.class(sup);
        c
    }

    fn entry(&mut self, bytes: &[u8]) -> u16 {
        self.pool.extend_from_slice(bytes);
        self.entries += 1;
        self.entries
    }

    fn utf8(&mut self, s: &str) -> u16 {
        let mut b = vec![1];
        b.extend_from_slice(&(s.len() as u16).to_be_bytes());
        b.extend_from_slice(s.as_bytes());
        self.entry(&b)
    }

    fn index(&mut self, tag: u8, i: u16) -> u16 {
        let mut b = vec![tag];
        b.extend_from_slice(&i.to_be_bytes());
        self.entry(&b)
    }

    fn pair(&mut self, tag: u8, i: u16, j: u16) -> u16 {
        let mut b = vec![tag];
        b.extend_from_slice(&i.to_be_bytes());
        b.extend_from_slice(&j.to_be_bytes());
        self.entry(&b)
    }

    fn class(&mut self, name: &str) -> u16 {
        let i = self.utf8(name);
        self.index(7, i)
    }

    fn string(&mut self, text: &str) -> u16 {
        let i = self.utf8(text);
        self.index(8, i)
    }

    fn integer(&mut self, v: i32) -> u16 {
        let mut b = vec![3];
        b.extend_from_slice(&v.to_be_bytes());
        self.entry(&b)
    }

    fn member(&mut self, tag: u8, class: &str, name: &str, desc: &str) -> u16 {
        let c = self.class(class);
        let (n, d) = (self.utf8(name), self.utf8(desc));
        let nt = self.pair(12, n, d);
        self.pair(tag, c, nt)
    }

    fn method_ref(&mut self, class: &str, name: &str, desc: &str) -> u16 {
        self.member(10, class, name, desc)
    }

    fn field_ref(&mut self, class: &str, name: &str, desc: &str) -> u16 {
        self.member(9, class, name, desc)
    }

    fn field(&mut self, flags: u16, name: &str, desc: &str) {
        let (n, d) = (self.utf8(name), self.utf8(desc));
        self.fields.push((flags, n, d));
    }

    fn method(&mut self, flags: u16, name: &str, desc: &str, code: &[u8], map: Option<&[u8]>) {
        self.method_sized(flags, name, desc, code, map, (8, 8));
    }

    /// A method with its greatest stack depth and its number of locals.
    fn method_sized(
        &mut self,
        flags: u16,
        name: &str,
        desc: &str,
        code: &[u8],
        map: Option<&[u8]>,
        size: (u16, u16),
    ) {
        let (n, d, c, s) = (
            self.utf8(name),
            self.utf8(desc),
            self.utf8("Code"),
            self.utf8("StackMapTable"),
        );
        let mut a: Vec<u8> = Vec::new();
        a.extend_from_slice(&size.0.to_be_bytes());
        a.extend_from_slice(&size.1.to_be_bytes());
        a.extend_from_slice(&(code.len() as u32).to_be_bytes());
        a.extend_from_slice(code);
        a.extend_from_slice(&[0, 0]);
        match map {
            None => a.extend_from_slice(&[0, 0]),
            Some(m) => {
                a.extend_from_slice(&[0, 1]);
                a.extend_from_slice(&s.to_be_bytes());
                a.extend_from_slice(&(m.len() as u32).to_be_bytes());
                a.extend_from_slice(m);
            }
        }
        let mut b: Vec<u8> = Vec::new();
        for v in [flags, n, d, 1, c] {
            b.extend_from_slice(&v.to_be_bytes());
        }
        b.extend_from_slice(&(a.len() as u32).to_be_bytes());
        b.extend_from_slice(&a);
        self.methods.push(b);
    }

    fn bytes(&self) -> Vec<u8> {
        let mut b: Vec<u8> = Vec::new();
        b.extend_from_slice(&0xCAFE_BABEu32.to_be_bytes());
        b.extend_from_slice(&[0, 0, 0, 65]);
        b.extend_from_slice(&(self.entries + 1).to_be_bytes());
        b.extend_from_slice(&self.pool);
        for v in [0x21, self.this, self.sup, 0, self.fields.len() as u16] {
            b.extend_from_slice(&v.to_be_bytes());
        }
        for &(f, n, d) in &self.fields {
            for v in [f, n, d, 0] {
                b.extend_from_slice(&v.to_be_bytes());
            }
        }
        b.extend_from_slice(&(self.methods.len() as u16).to_be_bytes());
        for m in &self.methods {
            b.extend_from_slice(m);
        }
        b.extend_from_slice(&[0, 0]);
        b
    }

    fn file(&self) -> ClassFile {
        parse(&self.bytes()).unwrap()
    }
}

/// Code with constant-pool indices: a byte, or a two-byte index.
enum P {
    B(u8),
    I(u16),
}

fn code(parts: &[P]) -> Vec<u8> {
    let mut b = Vec::new();
    for p in parts {
        match p {
            P::B(x) => b.push(*x),
            P::I(i) => b.extend_from_slice(&i.to_be_bytes()),
        }
    }
    b
}

/// The bodies of a class's methods, built as they stand.
fn bodies(cf: &ClassFile) -> Vec<MethodBody> {
    let mut out = Vec::new();
    for m in &cf.methods {
        let attr = m.code().unwrap();
        let (arg_types, ret) =
            parse_method_descriptor(m.descriptor(&cf.constant_pool).unwrap()).unwrap();
        let vm = VerifiedMethod {
            insns: decode(&attr.code).unwrap(),
            max_stack: attr.max_stack,
            max_locals: attr.max_locals,
            is_static: m.access_flags & STATIC != 0,
            arg_types,
            ret,
            frames: Default::default(),
        };
        out.push(MethodBody::Bytecode(build(&vm, cf).unwrap()));
    }
    out
}

/// A program over hand-built classes; the last is the entry class.
fn program(classes: &[&Class]) -> Program {
    let mut registry = ClassRegistry::new();
    install_builtins(&mut registry);
    let mut entry = ClassId(0);
    for c in classes {
        let cf = c.file();
        let b = bodies(&cf);
        entry = registry.link_with(cf, b);
    }
    Program::with_registry(registry, entry)
}

/// What the floating-point unit answers.
fn float_unit(q: FloatRequest) -> Val128 {
    match q {
        FloatRequest::Single { op, a, b } => {
            let (x, y) = (f32::from_bits(a), f32::from_bits(b));
            let r = match op {
                FloatOp::Add => x + y,
                FloatOp::Sub => x - y,
                FloatOp::Mul => x * y,
                FloatOp::Div => x / y,
                FloatOp::Rem => x % y,
            };
            Val128::from_f32(r.to_bits())
        }
        FloatRequest::Double { op, a, b } => {
            let (x, y) = (f64::from_bits(a), f64::from_bits(b));
            let r = match op {
                FloatOp::Add => x + y,
                FloatOp::Sub => x - y,
                FloatOp::Mul => x * y,
                FloatOp::Div => x / y,
                FloatOp::Rem => x % y,
            };
            Val128::from_f64(r.to_bits())
        }
        FloatRequest::Convert { value, to } => match (value.tag(), to) {
            (Tag::I32, Tag::F32) => Val128::from_f32((value.as_i32() as f32).to_bits()),
            (Tag::I64, Tag::F32) => Val128::from_f32((value.as_i64() as f32).to_bits()),
            (Tag::F32, Tag::I32) => Val128::from_i32(f32::from_bits(value.as_f32()) as i32),
            (Tag::F32, Tag::I64) => Val128::from_i64(f32::from_bits(value.as_f32()) as i64),
            _ => panic!("unexpected conversion"),
        },
    }
}

fn call(p: &mut Program, name: &str, desc: &str, args: &[Val128]) -> Result<Option<Val128>, ExecError> {
    let mut progress = p.call_named(name, desc, args);
    loop {
        match progress {
            Progress::Done(r) => return r,
            Progress::Float(q) => progress = p.supply(float_unit(q)),
        }
    }
}

fn num(v: i32) -> Val128 {
    Val128::from_i32(v)
}

fn call_int(p: &mut Program, name: &str, desc: &str, args: &[Val128]) -> i32 {
    call(p, name, desc, args).unwrap().unwrap().as_i32()
}

/// `static int sumTo(int n)`: the sum of 1 to n, in a loop.
const SUM_TO: [u8; 21] = [
    0x03, 0x3c, 0x04, 0x3d, 0x1c, 0x1a, 0xa3, 0, 13, 0x1b, 0x1c, 0x60, 0x3c, 0x84, 2, 1, 0xa7, 0xff,
    0xf4, 0x1b, 0xac,
];

const SUM_TO_MAP: [u8; 8] = [0, 2, 253, 0, 4, 1, 1, 14];

fn loops() -> Class {
    let mut c = Class::new("Loops", "java/lang/Object");
    c.method(STATIC, "sumTo", "(I)I", &SUM_TO, Some(&SUM_TO_MAP));
    // fload_0; fload_1; fadd; f2i; ireturn
    c.method(STATIC, "addf", "(FF)I", &[0x22, 0x23, 0x62, 0x8b, 0xac], None);
    // iload_0; iload_1; idiv; ireturn
    c.method(STATIC, "quot", "(II)I", &[0x1a, 0x1b, 0x6c, 0xac], None);
    // lload_0; lload_2; lcmp; ireturn
    c.method(STATIC, "sign", "(JJ)I", &[0x1e, 0x20, 0x94, 0xac], None);
    c
}

#[test]
fn builds_loop_with_phi() {
    let cf = loops().file();
    let m = cf.method("sumTo", "(I)I").unwrap();
    let vm = verify_method(&cf, m).unwrap();
    let built = build(&vm, &cf).unwrap();
    // The loop header must carry φ nodes for the loop-carried locals (s, i).
    let total_phis: usize = built.method.blocks.iter().map(|b| b.phis.len()).sum();
    assert!(
        total_phis >= 2,
        "loop header should have φ for s and i, got {total_phis}"
    );
    assert_eq!(built.arg_vals.len(), 1); // n
}

#[test]
fn each_value_is_defined_once() {
    let cf = loops().file();
    let vm = verify_method(&cf, cf.method("sumTo", "(I)I").unwrap()).unwrap();
    let built = build(&vm, &cf).unwrap();
    let mut seen: Vec<u16> = built.arg_vals.iter().map(|v| v.offset).collect();
    for b in &built.method.blocks {
        seen.extend(b.phis.iter().map(|p| p.slot.offset));
        seen.extend(b.nodes.iter().map(|n| n.id.offset));
    }
    let n = seen.len();
    seen.sort();
    seen.dedup();
    assert_eq!(seen.len(), n);
    assert!(seen.iter().all(|&o| (o as usize) < built.n_slots));
}

#[test]
fn loops_run() {
    let mut p = Program::from_class(&loops().file());
    assert_eq!(call_int(&mut p, "sumTo", "(I)I", &[num(100)]), 5050);
    assert_eq!(call_int(&mut p, "sumTo", "(I)I", &[num(0)]), 0);
    assert_eq!(call_int(&mut p, "sumTo", "(I)I", &[num(100_000)]), 705_082_704);
}

#[test]
fn floats_go_through_the_unit() {
    let mut p = Program::from_class(&loops().file());
    let f = |x: f32| Val128::from_f32(x.to_bits());
    let first = p.call_named("addf", "(FF)I", &[f(1.5), f(2.25)]);
    assert_eq!(
        first,
        Progress::Float(FloatRequest::Single {
            op: FloatOp::Add,
            a: 1.5f32.to_bits(),
            b: 2.25f32.to_bits()
        })
    );
    let second = p.supply(f(3.75));
    assert_eq!(
        second,
        Progress::Float(FloatRequest::Convert {
            value: f(3.75),
            to: Tag::I32
        })
    );
    assert_eq!(p.supply(num(3)), Progress::Done(Ok(Some(num(3)))));
    // An answer that nobody waits for changes nothing.
    assert_eq!(p.supply(num(9)), Progress::Done(Ok(Some(num(3)))));
    assert_eq!(call_int(&mut p, "addf", "(FF)I", &[f(f32::NAN), f(1.0)]), 0);
    assert_eq!(call_int(&mut p, "addf", "(FF)I", &[f(1e20), f(1.0)]), i32::MAX);
}

#[test]
fn integer_division_traps_and_wraps() {
    let mut p = Program::from_class(&loops().file());
    assert_eq!(call_int(&mut p, "quot", "(II)I", &[num(-7), num(2)]), -3);
    assert_eq!(call_int(&mut p, "quot", "(II)I", &[num(i32::MIN), num(-1)]), i32::MIN);
    assert_eq!(
        call(&mut p, "quot", "(II)I", &[num(1), num(0)]),
        Err(ExecError::DivByZero)
    );
}

#[test]
fn long_comparison_has_three_results() {
    let mut p = Program::from_class(&loops().file());
    let l = Val128::from_i64;
    assert_eq!(call_int(&mut p, "sign", "(JJ)I", &[l(1), l(2)]), -1);
    assert_eq!(call_int(&mut p, "sign", "(JJ)I", &[l(2), l(2)]), 0);
    assert_eq!(call_int(&mut p, "sign", "(JJ)I", &[l(i64::MAX), l(i64::MIN)]), 1);
}

#[test]
fn a_call_needs_a_method_and_its_arguments() {
    let mut p = Program::from_class(&loops().file());
    assert_eq!(call(&mut p, "nope", "()V", &[]), Err(ExecError::NoMethod));
    assert_eq!(call(&mut p, "sumTo", "(I)I", &[]), Err(ExecError::BadArgs));
    assert_eq!(p.method_index("quot", "(II)I"), Some(2));
    assert_eq!(p.method_index("quot", "()I"), None);
    assert_eq!(
        p.call(ClassId(99), 0, &[], 0),
        Progress::Done(Err(ExecError::NoMethod))
    );
    assert_eq!(
        p.call(ClassId(4), 0, &[num(1)], 257),
        Progress::Done(Err(ExecError::StackOverflow))
    );
    assert_eq!(
        p.call(ClassId(4), 0, &[num(4)], 256),
        Progress::Done(Ok(Some(num(10))))
    );
}

#[test]
fn a_body_that_does_not_verify_is_absent() {
    let mut c = Class::new("T", "java/lang/Object");
    c.method(STATIC, "bad", "()I", &[0xac], None);
    let mut p = Program::from_class(&c.file());
    assert_eq!(call(&mut p, "bad", "()I", &[]), Err(ExecError::NoMethod));
}

fn calls() -> Class {
    let mut c = Class::new("Calls", "java/lang/Object");
    let fib = c.method_ref("Calls", "fib", "(I)I");
    let inf = c.method_ref("Calls", "inf", "(I)I");
    let gone = c.method_ref("Calls", "gone", "()I");
    c.method(
        STATIC,
        "fib",
        "(I)I",
        &code(&[
            P::B(0x1a), P::B(0x05), P::B(0xa2), P::B(0), P::B(5), P::B(0x1a), P::B(0xac), P::B(0x1a), P::B(0x04), P::B(0x64),
            P::B(0xb8), P::I(fib), P::B(0x1a), P::B(0x05), P::B(0x64), P::B(0xb8), P::I(fib), P::B(0x60), P::B(0xac),
        ]),
        None,
    );
    c.method(
        STATIC,
        "inf",
        "(I)I",
        &code(&[P::B(0x1a), P::B(0xb8), P::I(inf), P::B(0xac)]),
        None,
    );
    c.method(STATIC, "lost", "()I", &code(&[P::B(0xb8), P::I(gone), P::B(0xac)]), None);
    c
}

#[test]
fn calls_recurse_and_return() {
    let mut p = program(&[&calls()]);
    assert_eq!(call_int(&mut p, "fib", "(I)I", &[num(15)]), 610);
    assert_eq!(call(&mut p, "lost", "()I", &[]), Err(ExecError::Unresolved));
}

#[test]
fn infinite_recursion_is_a_stack_overflow() {
    let mut p = program(&[&calls()]);
    assert_eq!(
        call(&mut p, "inf", "(I)I", &[num(1)]),
        Err(ExecError::StackOverflow)
    );
    // The engine survives it.
    assert_eq!(call_int(&mut p, "fib", "(I)I", &[num(10)]), 55);
}

#[test]
fn the_depth_limit_can_be_raised() {
    let mut c = Class::new("Deep", "java/lang/Object");
    let down = c.method_ref("Deep", "down", "(I)I");
    // n == 0 ? 0 : down(n - 1)
    c.method(
        STATIC,
        "down",
        "(I)I",
        &code(&[
            P::B(0x1a), P::B(0x9a), P::B(0), P::B(5), P::B(0x03), P::B(0xac), P::B(0x1a), P::B(0x04), P::B(0x64), P::B(0xb8),
            P::I(down), P::B(0xac),
        ]),
        None,
    );
    let mut p = program(&[&c]);
    assert_eq!(call_int(&mut p, "down", "(I)I", &[num(256)]), 0);
    assert_eq!(
        call(&mut p, "down", "(I)I", &[num(257)]),
        Err(ExecError::StackOverflow)
    );
    let mut p = p.with_max_call_depth(5000);
    assert_eq!(call_int(&mut p, "down", "(I)I", &[num(5000)]), 0);
}

fn point() -> Class {
    let mut c = Class::new("Point", "java/lang/Object");
    c.field(0, "x", "I");
    let object_init = c.method_ref("java/lang/Object", "<init>", "()V");
    let init = c.method_ref("Point", "<init>", "()V");
    let class = c.class("Point");
    let x = c.field_ref("Point", "x", "I");
    c.method(
        0,
        "<init>",
        "()V",
        &code(&[P::B(0x2a), P::B(0xb7), P::I(object_init), P::B(0xb1)]),
        None,
    );
    // Point p = new Point(); p.x = n; return p.x;
    c.method(
        STATIC,
        "make",
        "(I)I",
        &code(&[
            P::B(0xbb), P::I(class), P::B(0x59), P::B(0xb7), P::I(init), P::B(0x4c), P::B(0x2b), P::B(0x1a), P::B(0xb5), P::I(x),
            P::B(0x2b), P::B(0xb4), P::I(x), P::B(0xac),
        ]),
        None,
    );
    // return null.x
    c.method(
        STATIC,
        "npe",
        "()I",
        &code(&[P::B(0x01), P::B(0xb4), P::I(x), P::B(0xac)]),
        None,
    );
    // new Point(); 1 / n
    c.method(
        STATIC,
        "abrupt",
        "(I)I",
        &code(&[
            P::B(0xbb), P::I(class), P::B(0x59), P::B(0xb7), P::I(init), P::B(0x4c), P::B(0x04), P::B(0x1a), P::B(0x6c),
            P::B(0xac),
        ]),
        None,
    );
    // a scope-exclusive object: it is never passed on
    c.method(STATIC, "own", "()I", &code(&[P::B(0xbb), P::I(class), P::B(0x4b), P::B(0x04), P::B(0xac)]), None);
    c
}

#[test]
fn a_superclass_constructor_call_is_never_dropped() {
    let cf = point().file();
    let b = bodies(&cf);
    let MethodBody::Bytecode(init) = &b[0] else {
        panic!("<init> is built")
    };
    let calls = init
        .method
        .blocks
        .iter()
        .flat_map(|b| &b.nodes)
        .filter(|n| matches!(n.op, Op::InvokeSpecial(_)))
        .count();
    assert_eq!(calls, 1);
}

#[test]
fn objects_hold_fields_and_are_reclaimed() {
    let mut p = program(&[&point()]);
    assert_eq!(call_int(&mut p, "make", "(I)I", &[num(7)]), 7);
    // Only the two standard streams are left.
    assert_eq!(p.heap_live(), 2);
    let mut p = p.with_heap_limit(3);
    for i in 0..50 {
        // The streams were lost with the old heap, so nothing but one object is ever live.
        assert_eq!(call_int(&mut p, "make", "(I)I", &[num(i)]), i);
    }
    assert_eq!(p.heap_live(), 0);
}

#[test]
fn an_abrupt_exit_releases_what_the_frame_held() {
    let mut p = program(&[&point()]);
    assert_eq!(call(&mut p, "abrupt", "(I)I", &[num(0)]), Err(ExecError::DivByZero));
    assert_eq!(p.heap_live(), 2);
    assert_eq!(call(&mut p, "npe", "()I", &[]), Err(ExecError::NullPointer));
    assert_eq!(p.heap_live(), 2);
}

#[test]
fn escape_decides_how_an_object_lives() {
    let cf = point().file();
    let b = bodies(&cf);
    let escapes: Vec<EscapeState> = b
        .iter()
        .filter_map(|m| match m {
            MethodBody::Bytecode(b) => Some(b),
            _ => None,
        })
        .flat_map(|b| &b.method.blocks)
        .flat_map(|b| &b.nodes)
        .filter_map(|n| match n.op {
            Op::New { escape, .. } => Some(escape),
            _ => None,
        })
        .collect();
    // Passed to a constructor in `make` and `abrupt`; never passed on in `own`.
    assert_eq!(escapes, vec![EscapeState::S2, EscapeState::S2, EscapeState::S1]);
    let mut p = program(&[&point()]);
    assert_eq!(call_int(&mut p, "own", "()I", &[]), 1);
    assert_eq!(p.heap_live(), 2);
}

/// `static Box cast()`: a new object, cast and then returned.
fn caster() -> Class {
    let mut c = Class::new("Box", "java/lang/Object");
    let this = c.this;
    c.method(
        STATIC,
        "cast",
        "()LBox;",
        &code(&[P::B(0xbb), P::I(this), P::B(0xc0), P::I(this), P::B(0xb0)]),
        None,
    );
    c.method(
        STATIC,
        "test",
        "()I",
        &code(&[P::B(0xbb), P::I(this), P::B(0xc0), P::I(this), P::B(0xc1), P::I(this), P::B(0xac)]),
        None,
    );
    c
}

#[test]
fn a_cast_object_that_is_returned_is_shared() {
    let b = bodies(&caster().file());
    let news: Vec<(Op, Tag)> = b
        .iter()
        .filter_map(|m| match m {
            MethodBody::Bytecode(b) => Some(b),
            _ => None,
        })
        .flat_map(|b| &b.method.blocks)
        .flat_map(|b| &b.nodes)
        .filter(|n| matches!(n.op, Op::New { .. }))
        .map(|n| (n.op, n.ty))
        .collect();
    let this = caster().this;
    assert_eq!(
        news,
        vec![
            (Op::New { class_cp: this, escape: EscapeState::S2 }, Tag::Ptr),
            (Op::New { class_cp: this, escape: EscapeState::S1 }, Tag::Handle),
        ]
    );
    // The object that `cast` returns outlives its frame; the one that `test` looks at does not.
    let mut p = program(&[&caster()]);
    let v = call(&mut p, "cast", "()LBox;", &[]).unwrap().unwrap();
    assert_eq!(v.tag(), Tag::Ptr);
    assert_eq!(p.heap_live(), 3);
    assert_eq!(call_int(&mut p, "test", "()I", &[]), 1);
    assert_eq!(p.heap_live(), 3);
}

#[test]
fn an_escaping_cast_promotes_what_it_casts() {
    let v = |offset: u16| ValId { scope_level: 0, offset };
    let node = |id: u16, op: Op, ins: &[ValId], ty: Tag, effect: Effect| Node {
        id: v(id),
        op,
        ins: Operands::from_slice(ins),
        ty,
        effect,
    };
    let new = Op::New { class_cp: 1, escape: EscapeState::S1 };
    let cast = Effect::MayThrow { caught: false };
    let block = |term: Terminator| Block {
        id: BlockId(0),
        phis: Vec::new(),
        nodes: vec![
            node(0, new, &[], Tag::Handle, Effect::WriteHeap),
            node(1, Op::CheckCast(1), &[v(0)], Tag::Ptr, cast),
        ],
        term,
    };
    let mut blocks = vec![block(Terminator::Return(Some(v(1))))];
    mark_escapes(&mut blocks);
    let shared = Op::New { class_cp: 1, escape: EscapeState::S2 };
    assert_eq!(blocks[0].nodes[0].op, shared);
    assert_eq!(blocks[0].nodes[0].ty, Tag::Ptr);
    let mut blocks = vec![block(Terminator::Return(None))];
    mark_escapes(&mut blocks);
    assert_eq!(blocks[0].nodes[0].op, new);
    assert_eq!(blocks[0].nodes[0].ty, Tag::Handle);
}

#[test]
fn memory_runs_out_at_the_limit() {
    let mut p = program(&[&point()]).with_heap_limit(1);
    // There is no room for both standard streams.
    assert_eq!(call(&mut p, "make", "(I)I", &[num(1)]), Err(ExecError::OutOfMemory));
    let mut p = program(&[&point()]).with_heap_limit(2);
    assert_eq!(call(&mut p, "make", "(I)I", &[num(1)]), Err(ExecError::OutOfMemory));
    let mut p = program(&[&point()]).with_heap_limit(3);
    assert_eq!(call_int(&mut p, "make", "(I)I", &[num(1)]), 1);
}

fn shape() -> Class {
    let mut c = Class::new("Shape", "java/lang/Object");
    c.field(0, "size", "I");
    let object_init = c.method_ref("java/lang/Object", "<init>", "()V");
    let size = c.field_ref("Shape", "size", "I");
    let area = c.method_ref("Shape", "area", "()I");
    c.method(
        0,
        "<init>",
        "(I)V",
        &code(&[
            P::B(0x2a), P::B(0xb7), P::I(object_init), P::B(0x2a), P::B(0x1b), P::B(0xb5), P::I(size), P::B(0xb1),
        ]),
        None,
    );
    c.method(0, "area", "()I", &[0x03, 0xac], None);
    // 2 * area()
    c.method(
        0,
        "doubled",
        "()I",
        &code(&[P::B(0x05), P::B(0x2a), P::B(0xb6), P::I(area), P::B(0x68), P::B(0xac)]),
        None,
    );
    c.method(STATIC, "describe", "(LShape;)I", &[0x03, 0xac], None);
    c
}

fn square() -> Class {
    let mut c = Class::new("Square", "Shape");
    let init = c.method_ref("Shape", "<init>", "(I)V");
    let size = c.field_ref("Square", "size", "I");
    c.method(
        0,
        "<init>",
        "(I)V",
        &code(&[P::B(0x2a), P::B(0x1b), P::B(0xb7), P::I(init), P::B(0xb1)]),
        None,
    );
    c.method(
        0,
        "area",
        "()I",
        &code(&[
            P::B(0x2a), P::B(0xb4), P::I(size), P::B(0x2a), P::B(0xb4), P::I(size), P::B(0x68), P::B(0xac),
        ]),
        None,
    );
    c
}

fn rect() -> Class {
    let mut c = Class::new("Rect", "Shape");
    c.field(0, "height", "I");
    let init = c.method_ref("Shape", "<init>", "(I)V");
    c.method(
        0,
        "<init>",
        "(I)V",
        &code(&[P::B(0x2a), P::B(0x1b), P::B(0xb7), P::I(init), P::B(0xb1)]),
        None,
    );
    c.method(0, "area", "()I", &[0x06, 0xac], None);
    c
}

fn shapes() -> Class {
    let mut c = Class::new("Shapes", "java/lang/Object");
    c.field(STATIC, "counter", "I");
    c.field(STATIC, "BASE", "I");
    let square = c.class("Square");
    let shape = c.class("Shape");
    let init = c.method_ref("Square", "<init>", "(I)V");
    let shape_init = c.method_ref("Shape", "<init>", "(I)V");
    let doubled = c.method_ref("Shape", "doubled", "()I");
    let base = c.field_ref("Shapes", "BASE", "I");
    let counter = c.field_ref("Shapes", "counter", "I");
    // BASE = 10
    c.method(
        STATIC,
        "<clinit>",
        "()V",
        &code(&[P::B(0x10), P::B(10), P::B(0xb3), P::I(base), P::B(0xb1)]),
        None,
    );
    // new Square(n).doubled()
    c.method(
        STATIC,
        "twice",
        "(I)I",
        &code(&[
            P::B(0xbb), P::I(square), P::B(0x59), P::B(0x1a), P::B(0xb7), P::I(init), P::B(0xb6), P::I(doubled), P::B(0xac),
        ]),
        None,
    );
    // counter = counter + 1; return BASE + counter
    c.method(
        STATIC,
        "count",
        "()I",
        &code(&[
            P::B(0xb2), P::I(counter), P::B(0x04), P::B(0x60), P::B(0xb3), P::I(counter), P::B(0xb2), P::I(base), P::B(0xb2),
            P::I(counter), P::B(0x60), P::B(0xac),
        ]),
        None,
    );
    // new Square(1) instanceof Shape
    c.method(
        STATIC,
        "is",
        "()I",
        &code(&[
            P::B(0xbb), P::I(square), P::B(0x59), P::B(0x04), P::B(0xb7), P::I(init), P::B(0xc1), P::I(shape), P::B(0xac),
        ]),
        None,
    );
    // ((Square) new Shape(1)).doubled()
    c.method(
        STATIC,
        "bad",
        "()I",
        &code(&[
            P::B(0xbb), P::I(shape), P::B(0x59), P::B(0x04), P::B(0xb7), P::I(shape_init), P::B(0xc0), P::I(square),
            P::B(0xb6), P::I(doubled), P::B(0xac),
        ]),
        None,
    );
    // (Square) null; null instanceof Square
    c.method(
        STATIC,
        "nil",
        "()I",
        &code(&[P::B(0x01), P::B(0xc0), P::I(square), P::B(0xc1), P::I(square), P::B(0xac)]),
        None,
    );
    // ((Shape) null).doubled()
    c.method(STATIC, "call_nil", "()I", &code(&[P::B(0x01), P::B(0xb6), P::I(doubled), P::B(0xac)]), None);
    c
}

fn found(c: &Class, path: &str) -> (String, Option<Vec<u8>>) {
    (path.to_string(), Some(c.bytes()))
}

fn hierarchy() -> Vec<(String, Option<Vec<u8>>)> {
    // Subclasses come first, so linking has to put the superclass before them.
    vec![
        found(&square(), "Square.class"),
        found(&rect(), "Rect.class"),
        found(&shapes(), "Shapes.class"),
        found(&shape(), "Shape.class"),
    ]
}

#[test]
fn links_a_hierarchy_with_layout_and_dispatch() {
    let mut reg = ClassRegistry::new();
    reg.load_dir(hierarchy()).expect("classpath links");

    let shape = reg.by_name("Shape").expect("Shape loaded");
    let square = reg.by_name("Square").expect("Square loaded");
    let rect = reg.by_name("Rect").expect("Rect loaded");

    // Subclass layout extends the superclass's: `size` keeps its slot, `height` follows it.
    let sh = reg.get(shape).unwrap();
    let rc = reg.get(rect).unwrap();
    assert_eq!(sh.field_slot("size", "I"), Some(0));
    assert_eq!(
        rc.field_slot("size", "I"),
        Some(0),
        "inherited slot is stable"
    );
    assert_eq!(rc.field_slot("height", "I"), Some(1));
    assert_eq!(rc.field_base, 1, "Rect's own fields start after Shape's");
    assert_eq!(rc.field_defaults.len(), 2);

    // Dispatch: `area` occupies one slot, and each subclass overrides it in place.
    let slot = sh.vslot("area", "()I").expect("area is virtual");
    assert_eq!(sh.vtable[slot].class, shape);
    assert_eq!(reg.get(square).unwrap().vtable[slot].class, square);
    assert_eq!(rc.vtable[slot].class, rect);
    // `doubled` is inherited, not overridden: both subclasses still point at Shape's method.
    let d = sh.vslot("doubled", "()I").expect("doubled is virtual");
    assert_eq!(reg.get(square).unwrap().vtable[d].class, shape);

    // Constructors and static methods are not virtually dispatched.
    assert_eq!(sh.vslot("<init>", "(I)V"), None);
    assert_eq!(sh.vslot("describe", "(LShape;)I"), None);

    // Subtyping, for instanceof/checkcast.
    assert!(reg.is_subclass_of(square, shape));
    assert!(reg.is_subclass_of(square, square));
    assert!(!reg.is_subclass_of(shape, square));
    assert!(!reg.is_subclass_of(square, rect));
}

#[test]
fn a_linked_class_keeps_its_file() {
    let mut reg = ClassRegistry::new();
    install_builtins(&mut reg);
    let cf = shape().file();
    let id = reg.link_class(cf.clone());
    let kept = reg.get(id).unwrap().cf.as_ref().expect("it came from a file");
    assert_eq!(format!("{:?}", kept), format!("{:?}", cf));
    assert!(reg.get(ClassId(0)).unwrap().cf.is_none());
}

#[test]
fn an_override_takes_the_inherited_slot_and_no_other() {
    let mut reg = ClassRegistry::new();
    install_builtins(&mut reg);
    let shape = reg.link_class(shape().file());
    // Declared twice, the last method counts; a new method gets a slot of its own.
    let mut c = Class::new("Odd", "Shape");
    c.method(0, "area", "()I", &[0x04, 0xac], None);
    c.method(0, "extra", "()I", &[0x05, 0xac], None);
    c.method(0, "area", "()I", &[0x06, 0xac], None);
    let odd = reg.link_class(c.file());
    let (sup, sub) = (reg.get(shape).unwrap(), reg.get(odd).unwrap());
    let area = sup.vslot("area", "()I").unwrap();
    assert_eq!(sub.vslot("area", "()I"), Some(area));
    assert_eq!((sub.vtable[area].class, sub.vtable[area].method), (odd, 2));
    assert_eq!(sub.vslot("extra", "()I"), Some(sup.vtable.len()));
    for slot in 0..sup.vtable.len() {
        if slot != area {
            assert_eq!(sub.vtable[slot].class, sup.vtable[slot].class);
            assert_eq!(sub.vtable[slot].method, sup.vtable[slot].method);
        }
    }

    // The same for builtin classes: a string answers `equals` itself, at the slot of any object.
    let (object, string) = (
        reg.by_name("java/lang/Object").unwrap(),
        reg.by_name("java/lang/String").unwrap(),
    );
    let equals = reg.get(object).unwrap().vslot("equals", "(Ljava/lang/Object;)Z").unwrap();
    let s = reg.get(string).unwrap();
    assert_eq!(s.vslot("equals", "(Ljava/lang/Object;)Z"), Some(equals));
    assert_eq!(s.vtable[equals].class, string);
    assert_eq!(reg.get(object).unwrap().vtable[equals].class, object);
    let printer = reg.get(reg.by_name("java/io/PrintStream").unwrap()).unwrap();
    assert_eq!(printer.vtable[equals].class, object);
}

#[test]
fn one_class_file_makes_many_programs() {
    let cf = loops().file();
    let mut first = Program::from_class(&cf);
    let mut second = Program::from_class(&cf);
    assert_eq!(call_int(&mut first, "sumTo", "(I)I", &[num(10)]), 55);
    assert_eq!(call_int(&mut second, "sumTo", "(I)I", &[num(10)]), 55);
    assert!(cf.method("sumTo", "(I)I").is_some());
}

#[test]
fn statics_start_at_their_default_and_init_is_lazy() {
    let mut reg = ClassRegistry::new();
    reg.load_dir(hierarchy()).unwrap();
    let shapes = reg.get(reg.by_name("Shapes").unwrap()).unwrap();

    // Static storage exists with its defaults; `<clinit>` has not run yet.
    let counter = shapes.static_slot("counter", "I").expect("counter");
    let base = shapes.static_slot("BASE", "I").expect("BASE");
    assert_eq!(shapes.statics[counter].as_i32(), 0);
    assert_eq!(shapes.statics[base].as_i32(), 0);
    assert_eq!(shapes.init_state(), InitState::Loaded);
}

#[test]
fn virtual_calls_go_by_the_receiver() {
    let mut p = program(&[&shape(), &square(), &rect(), &shapes()]);
    // Shape.doubled calls area on itself, which is Square's here.
    assert_eq!(call_int(&mut p, "twice", "(I)I", &[num(5)]), 50);
    assert_eq!(call(&mut p, "call_nil", "()I", &[]), Err(ExecError::NullPointer));
}

#[test]
fn casts_and_type_tests_go_by_the_runtime_class() {
    let mut p = program(&[&shape(), &square(), &rect(), &shapes()]);
    assert_eq!(call_int(&mut p, "is", "()I", &[]), 1);
    assert_eq!(call(&mut p, "bad", "()I", &[]), Err(ExecError::ClassCast));
    assert_eq!(call_int(&mut p, "nil", "()I", &[]), 0);
    assert_eq!(p.heap_live(), 2);
}

#[test]
fn a_class_initialises_once() {
    let mut p = program(&[&shape(), &square(), &rect(), &shapes()]);
    let id = p.registry().by_name("Shapes").unwrap();
    assert_eq!(p.registry().get(id).unwrap().init_state(), InitState::Loaded);
    // <clinit> sets BASE to 10 once; `counter` goes on.
    assert_eq!(call_int(&mut p, "count", "()I", &[]), 11);
    assert_eq!(p.registry().get(id).unwrap().init_state(), InitState::Initialized);
    assert_eq!(call_int(&mut p, "count", "()I", &[]), 12);
}

#[test]
fn a_failed_initialisation_stays_failed() {
    let mut c = Class::new("Broken", "java/lang/Object");
    c.field(STATIC, "v", "I");
    let v = c.field_ref("Broken", "v", "I");
    c.method(
        STATIC,
        "<clinit>",
        "()V",
        &code(&[P::B(0x04), P::B(0x03), P::B(0x6c), P::B(0xb3), P::I(v), P::B(0xb1)]),
        None,
    );
    c.method(STATIC, "get", "()I", &code(&[P::B(0xb2), P::I(v), P::B(0xac)]), None);
    let mut p = program(&[&c]);
    assert_eq!(call(&mut p, "get", "()I", &[]), Err(ExecError::DivByZero));
    assert_eq!(call(&mut p, "get", "()I", &[]), Err(ExecError::ClassInitFailed));
}

#[test]
fn a_class_fails_with_its_superclass() {
    let mut sup = Class::new("Sup", "java/lang/Object");
    sup.field(STATIC, "w", "I");
    let w = sup.field_ref("Sup", "w", "I");
    sup.method(
        STATIC,
        "<clinit>",
        "()V",
        &code(&[P::B(0x04), P::B(0x03), P::B(0x6c), P::B(0xb3), P::I(w), P::B(0xb1)]),
        None,
    );
    let mut sub = Class::new("Sub", "Sup");
    sub.field(STATIC, "v", "I");
    let v = sub.field_ref("Sub", "v", "I");
    sub.method(STATIC, "get", "()I", &code(&[P::B(0xb2), P::I(v), P::B(0xac)]), None);
    let mut p = program(&[&sup, &sub]);
    assert_eq!(call(&mut p, "get", "()I", &[]), Err(ExecError::DivByZero));
    for name in ["Sup", "Sub"] {
        let id = p.registry().by_name(name).unwrap();
        assert_eq!(p.registry().get(id).unwrap().init, InitState::Failed);
    }
    assert_eq!(call(&mut p, "get", "()I", &[]), Err(ExecError::ClassInitFailed));
}

fn printer() -> Class {
    let mut c = Class::new("Printer", "java/lang/Object");
    let out = c.field_ref("java/lang/System", "out", "Ljava/io/PrintStream;");
    let stream = "java/io/PrintStream";
    let println = c.method_ref(stream, "println", "(Ljava/lang/String;)V");
    let print_int = c.method_ref(stream, "print", "(I)V");
    let println_int = c.method_ref(stream, "println", "(I)V");
    let println_long = c.method_ref(stream, "println", "(J)V");
    let println_bool = c.method_ref(stream, "println", "(Z)V");
    let println_char = c.method_ref(stream, "println", "(C)V");
    let hello = c.string("hello");
    let world = c.string(", world");
    let big = c.integer(1_000_000);
    let string = "java/lang/String";
    let concat = c.method_ref(string, "concat", "(Ljava/lang/String;)Ljava/lang/String;");
    let hash = c.method_ref(string, "hashCode", "()I");
    let length = c.method_ref(string, "length", "()I");
    let char_at = c.method_ref(string, "charAt", "(I)C");
    let equals = c.method_ref(string, "equals", "(Ljava/lang/Object;)Z");
    c.method(
        STATIC,
        "greet",
        "()V",
        &code(&[
            P::B(0xb2), P::I(out), P::B(0x13), P::I(hello), P::B(0x13), P::I(world), P::B(0xb6), P::I(concat), P::B(0xb6),
            P::I(println), P::B(0xb1),
        ]),
        None,
    );
    c.method(
        STATIC,
        "numbers",
        "(IJ)V",
        &code(&[
            P::B(0xb2), P::I(out), P::B(0x13), P::I(big), P::B(0xb6), P::I(print_int), //
            P::B(0xb2), P::I(out), P::B(0x1a), P::B(0xb6), P::I(println_int), //
            P::B(0xb2), P::I(out), P::B(0x1f), P::B(0xb6), P::I(println_long), //
            P::B(0xb2), P::I(out), P::B(0x04), P::B(0xb6), P::I(println_bool), //
            P::B(0xb2), P::I(out), P::B(0x10), P::B(65), P::B(0xb6), P::I(println_char), P::B(0xb1),
        ]),
        None,
    );
    c.method(
        STATIC,
        "hash",
        "()I",
        &code(&[P::B(0x13), P::I(hello), P::B(0xb6), P::I(hash), P::B(0xac)]),
        None,
    );
    c.method(
        STATIC,
        "len",
        "()I",
        &code(&[P::B(0x13), P::I(hello), P::B(0xb6), P::I(length), P::B(0xac)]),
        None,
    );
    c.method(
        STATIC,
        "at",
        "(I)I",
        &code(&[P::B(0x13), P::I(hello), P::B(0x1a), P::B(0xb6), P::I(char_at), P::B(0xac)]),
        None,
    );
    c.method(
        STATIC,
        "same",
        "()I",
        &code(&[P::B(0x13), P::I(hello), P::B(0x13), P::I(hello), P::B(0xb6), P::I(equals), P::B(0xac)]),
        None,
    );
    c
}

#[test]
fn printed_text_is_captured() {
    let mut p = program(&[&printer()]).capturing();
    assert_eq!(call(&mut p, "greet", "()V", &[]), Ok(None));
    assert_eq!(p.take_output(), b"hello, world\n".to_vec());
    assert_eq!(p.take_output(), Vec::<u8>::new());
    call(&mut p, "numbers", "(IJ)V", &[num(-5), Val128::from_i64(i64::MIN)]).unwrap();
    assert_eq!(
        String::from_utf8(p.take_output()).unwrap(),
        "1000000-5\n-9223372036854775808\ntrue\nA\n"
    );
    assert!(p.take_outgoing().is_empty());
}

#[test]
fn printed_text_goes_out_unless_captured() {
    let mut p = program(&[&printer()]);
    assert_eq!(call(&mut p, "greet", "()V", &[]), Ok(None));
    assert_eq!(p.take_output(), Vec::<u8>::new());
    assert_eq!(p.take_outgoing(), b"hello, world\n".to_vec());
    assert!(p.take_outgoing().is_empty());
}

#[test]
fn string_methods_compute_what_java_does() {
    let mut p = program(&[&printer()]);
    assert_eq!(call_int(&mut p, "hash", "()I", &[]), 99_162_322);
    assert_eq!(call_int(&mut p, "len", "()I", &[]), 5);
    assert_eq!(call_int(&mut p, "at", "(I)I", &[num(1)]), 'e' as i32);
    assert_eq!(call_int(&mut p, "same", "()I", &[]), 1);
}

#[test]
fn a_literal_is_one_object() {
    let mut p = program(&[&printer()]);
    assert_eq!(call_int(&mut p, "len", "()I", &[]), 5);
    let live = p.heap_live();
    assert_eq!(live, 3); // two streams and the literal
    for _ in 0..5 {
        assert_eq!(call_int(&mut p, "same", "()I", &[]), 1);
    }
    assert_eq!(p.heap_live(), live);
    // A concatenation is reclaimed; its second literal stays.
    call(&mut p, "greet", "()V", &[]).unwrap();
    assert_eq!(p.heap_live(), live + 1);
}

#[test]
fn an_interned_string_outlives_every_call() {
    let mut p = program(&[&printer()]);
    call(&mut p, "greet", "()V", &[]).unwrap();
    assert_eq!(call_int(&mut p, "len", "()I", &[]), 5);
    let live = p.heap_live();
    for _ in 0..50 {
        // Each call makes a string that is reclaimed when the call ends; the literals stay.
        call(&mut p, "greet", "()V", &[]).unwrap();
        assert_eq!(p.heap_live(), live);
        assert_eq!(call_int(&mut p, "len", "()I", &[]), 5);
        assert_eq!(call_int(&mut p, "same", "()I", &[]), 1);
    }
}

#[test]
fn a_classpath_is_loaded_whole_or_not_at_all() {
    assert!(Program::from_classpath(hierarchy(), "Shapes").is_ok());
    assert!(matches!(
        Program::from_classpath(hierarchy(), "Nope"),
        Err(LoaderError::NotFound(n)) if n == "Nope"
    ));
    let mut files = hierarchy();
    files.pop();
    assert!(matches!(
        Program::from_classpath(files, "Shapes"),
        Err(LoaderError::CircularHierarchy(n)) if n == "Square"
    ));
    let mut files = hierarchy();
    files.push(("Gone.class".to_string(), None));
    files.push(("Junk.class".to_string(), Some(vec![1, 2, 3])));
    let mut reg = ClassRegistry::new();
    assert_eq!(
        reg.load_dir(files),
        Err(LoaderError::Io("Gone.class".to_string()))
    );
    assert!(reg.is_empty());
    assert_eq!(
        reg.load_dir(vec![("Junk.class".to_string(), Some(vec![1, 2, 3]))]),
        Err(LoaderError::Malformed("Junk.class".to_string()))
    );
}

fn raw(insns: &[u8], max_locals: u16, args: usize) -> VerifiedMethod {
    VerifiedMethod {
        insns: decode(insns).unwrap(),
        max_stack: 8,
        max_locals,
        is_static: true,
        arg_types: vec![rjava::verify::VType::Int; args],
        ret: None,
        frames: Default::default(),
    }
}

#[test]
fn each_construction_error_has_its_input() {
    let cf = loops().file();
    let fails = |insns: &[u8]| build(&raw(insns, 2, 1), &cf).err();
    assert_eq!(fails(&[0x60]), Some(IrError::StackUnderflow(0)));
    assert_eq!(fails(&[0x1b, 0xac]), Some(IrError::BadLocalRead { index: 1 }));
    assert_eq!(fails(&[0x12, 0]), Some(IrError::BadConstant(0)));
    assert_eq!(fails(&[0xb8, 0, 0]), Some(IrError::Unsupported { op: 0xb8, pc: 0 }));
    assert_eq!(fails(&[0x99, 0x7F, 0xFF]), Some(IrError::StackUnderflow(0)));
    assert_eq!(fails(&[0x1a, 0x99, 0x7F, 0xFF]), Some(IrError::BadBlock(1)));
}

#[test]
fn a_branch_becomes_a_test_and_two_edges() {
    let cf = loops().file();
    // iload_0; ifeq +5; iconst_1; ireturn; iconst_0; ireturn
    let built = build(&raw(&[0x1a, 0x99, 0, 5, 0x04, 0xac, 0x03, 0xac], 1, 1), &cf).unwrap();
    let entry = &built.method.blocks[built.method.entry.0 as usize];
    assert!(matches!(entry.term, Terminator::CondBranch { .. }));
    assert_eq!(entry.nodes.len(), 1);
    assert_eq!(entry.nodes[0].op, Op::TestZero(IntCond::Eq));
    assert_eq!(entry.nodes[0].effect, Effect::Pure);
}

#[test]
fn nodes_evaluate_to_values_requests_and_faults() {
    assert_eq!(
        eval(Op::Add, Tag::I32, &[num(i32::MAX), num(1)]),
        Outcome::Value(num(i32::MIN))
    );
    assert_eq!(
        eval(Op::Neg, Tag::F32, &[Val128::from_f32(1.0f32.to_bits())]),
        Outcome::Value(Val128::from_f32((-1.0f32).to_bits()))
    );
    let f = |x: f64| Val128::from_f64(x.to_bits());
    for (x, y) in [(1.0, 2.0), (-0.0, 0.0), (f64::INFINITY, 1.0), (-3.0, -2.0), (5.0, -5.0)] {
        let want = if x > y {
            1
        } else if x < y {
            -1
        } else {
            0
        };
        assert_eq!(
            eval(Op::Cmp { nan_greater: true }, Tag::I32, &[f(x), f(y)]),
            Outcome::Value(num(want))
        );
    }
    assert_eq!(
        eval(Op::Cmp { nan_greater: true }, Tag::I32, &[f(f64::NAN), f(0.0)]),
        Outcome::Value(num(1))
    );
    assert_eq!(
        eval(Op::Cmp { nan_greater: false }, Tag::I32, &[f(0.0), f(f64::NAN)]),
        Outcome::Value(num(-1))
    );
    assert_eq!(
        eval(Op::Mul, Tag::F64, &[f(2.0), f(3.0)]),
        Outcome::Float(FloatRequest::Double {
            op: FloatOp::Mul,
            a: 2.0f64.to_bits(),
            b: 3.0f64.to_bits()
        })
    );
    assert_eq!(eval(Op::Rem, Tag::I64, &[Val128::from_i64(-7), Val128::from_i64(3)]),
        Outcome::Value(Val128::from_i64(-1)));
    assert_eq!(eval(Op::Add, Tag::I32, &[num(1)]), Outcome::Fault(ExecError::BadValue));
    assert_eq!(
        eval(Op::InvokeStatic(0), Tag::I32, &[]),
        Outcome::Fault(ExecError::UnsupportedOp)
    );
    assert_eq!(
        eval(Op::TestNull { expect_null: true }, Tag::I32, &[Val128::null()]),
        Outcome::Value(num(1))
    );
    assert_eq!(
        eval(Op::Convert, Tag::I64, &[num(-1)]),
        Outcome::Value(Val128::from_i64(-1))
    );
}

/// A method that throws whatever its argument is.
fn thrower() -> BuiltMethod {
    let v = ValId {
        scope_level: 0,
        offset: 0,
    };
    BuiltMethod {
        method: Method {
            blocks: vec![Block {
                id: BlockId(0),
                phis: Vec::new(),
                nodes: Vec::new(),
                term: Terminator::Throw(v),
            }],
            entry: BlockId(0),
            max_locals: 1,
            exc_table: Vec::new(),
        },
        arg_vals: vec![v],
        n_slots: 1,
    }
}

#[test]
fn a_throw_ends_the_call() {
    let mut c = Class::new("Thrower", "java/lang/Object");
    c.method(STATIC, "fail", "(I)V", &[0xb1], None);
    let mut registry = ClassRegistry::new();
    install_builtins(&mut registry);
    let entry = registry.link_with(c.file(), vec![MethodBody::Bytecode(thrower())]);
    let mut p = Program::with_registry(registry, entry);
    assert_eq!(call(&mut p, "fail", "(I)V", &[num(3)]), Err(ExecError::Thrown));
    assert_eq!(p.heap_live(), 2);
}

#[test]
fn a_verified_method_builds_unless_it_loads_a_class() {
    let mut c = Class::new("Edge", "java/lang/Object");
    let class = c.class("Edge");
    // ldc_w Edge; pop is not supported, so the constant is left on the stack: iconst_1; ireturn
    c.method(
        STATIC,
        "load",
        "()I",
        &code(&[P::B(0x13), P::I(class), P::B(0x04), P::B(0xac)]),
        None,
    );
    c.method(STATIC, "good", "(I)I", &[0x1a, 0xac], None);
    let cf = c.file();
    let built = |name: &str, desc: &str| {
        let vm = verify_method(&cf, cf.method(name, desc).unwrap()).unwrap();
        build(&vm, &cf).err()
    };
    assert_eq!(built("load", "()I"), Some(IrError::BadConstant(0)));
    assert_eq!(built("good", "(I)I"), None);
}

#[test]
fn control_must_not_run_off_the_end() {
    let mut c = Class::new("Edge", "java/lang/Object");
    // iload_0; ifeq 0, with the frame of the start declared again
    c.method(STATIC, "off", "(I)I", &[0x1a, 0x99, 0xff, 0xff], Some(&[0, 1, 0]));
    c.method_sized(STATIC, "nop", "()V", &[0x00], None, (0, 0));
    c.method_sized(STATIC, "none", "()V", &[], None, (0, 0));
    let cf = c.file();
    let verified = |name: &str, desc: &str| {
        verify_method(&cf, cf.method(name, desc).unwrap()).map(|_| ())
    };
    assert_eq!(verified("off", "(I)I"), Err(VerifyError::Truncated(4)));
    assert_eq!(verified("nop", "()V"), Err(VerifyError::Truncated(1)));
    assert_eq!(verified("none", "()V"), Err(VerifyError::Truncated(0)));
}

#[test]
fn a_phi_has_an_operand_for_each_way_in() {
    let cf = loops().file();
    let vm = verify_method(&cf, cf.method("sumTo", "(I)I").unwrap()).unwrap();
    let built = build(&vm, &cf).unwrap();
    let mut ways: Vec<Vec<BlockId>> = built.method.blocks.iter().map(|_| Vec::new()).collect();
    for b in &built.method.blocks {
        match b.term {
            Terminator::Goto(t) => ways[t.0 as usize].push(b.id),
            Terminator::CondBranch { taken, not_taken, .. } => {
                ways[taken.0 as usize].push(b.id);
                ways[not_taken.0 as usize].push(b.id);
            }
            _ => {}
        }
    }
    let mut seen = 0;
    for b in &built.method.blocks {
        for phi in &b.phis {
            let from: Vec<BlockId> = (0..phi.sources.len())
                .map(|i| phi.sources.get(i).unwrap().0)
                .collect();
            assert_eq!(from, ways[b.id.0 as usize]);
            seen += 1;
        }
    }
    assert!(seen >= 2);
}

#[test]
fn the_class_linked_last_is_found() {
    let mut reg = ClassRegistry::new();
    let first = reg.link_class(Class::new("Twin", "java/lang/Object").file());
    let second = reg.link_class(Class::new("Twin", "java/lang/Object").file());
    assert_ne!(first, second);
    assert_eq!(reg.by_name("Twin"), Some(second));
    assert_eq!(reg.by_name("Nobody"), None);
    assert_eq!(reg.len(), 2);
}

#[test]
fn supplementary_characters_count_twice() {
    let mut c = Class::new("Wide", "java/lang/Object");
    // "a" and U+1F600, in modified UTF-8
    let raw: [u8; 7] = [b'a', 0xED, 0xA0, 0xBD, 0xED, 0xB8, 0x80];
    let mut entry = vec![1, 0, 7];
    entry.extend_from_slice(&raw);
    let utf8 = c.entry(&entry);
    let text = c.index(8, utf8);
    let length = c.method_ref("java/lang/String", "length", "()I");
    let char_at = c.method_ref("java/lang/String", "charAt", "(I)C");
    c.method(
        STATIC,
        "len",
        "()I",
        &code(&[P::B(0x13), P::I(text), P::B(0xb6), P::I(length), P::B(0xac)]),
        None,
    );
    c.method(
        STATIC,
        "at",
        "(I)I",
        &code(&[
            P::B(0x13), P::I(text), P::B(0x1a), P::B(0xb6), P::I(char_at), P::B(0xac),
        ]),
        None,
    );
    let mut p = program(&[&c]);
    assert_eq!(call_int(&mut p, "len", "()I", &[]), 3);
    assert_eq!(call_int(&mut p, "at", "(I)I", &[num(1)]), 0xD83D);
    assert_eq!(call_int(&mut p, "at", "(I)I", &[num(2)]), 0xDE00);
    assert_eq!(call(&mut p, "at", "(I)I", &[num(3)]), Err(ExecError::BadValue));
}

#[test]
fn equal_strings_hash_alike() {
    let mut c = Class::new("Equal", "java/lang/Object");
    let string = "java/lang/String";
    let (ab, a, b) = (c.string("ab"), c.string("a"), c.string("b"));
    let concat = c.method_ref(string, "concat", "(Ljava/lang/String;)Ljava/lang/String;");
    let equals = c.method_ref(string, "equals", "(Ljava/lang/Object;)Z");
    let hash = c.method_ref(string, "hashCode", "()I");
    // "ab".equals("a".concat("b"))
    c.method(
        STATIC,
        "same",
        "()I",
        &code(&[
            P::B(0x13), P::I(ab), P::B(0x13), P::I(a), P::B(0x13), P::I(b), P::B(0xb6), P::I(concat),
            P::B(0xb6), P::I(equals), P::B(0xac),
        ]),
        None,
    );
    // "ab".hashCode() - "a".concat("b").hashCode()
    c.method(
        STATIC,
        "diff",
        "()I",
        &code(&[
            P::B(0x13), P::I(ab), P::B(0xb6), P::I(hash), P::B(0x13), P::I(a), P::B(0x13), P::I(b),
            P::B(0xb6), P::I(concat), P::B(0xb6), P::I(hash), P::B(0x64), P::B(0xac),
        ]),
        None,
    );
    let mut p = program(&[&c]);
    assert_eq!(call_int(&mut p, "same", "()I", &[]), 1);
    assert_eq!(call_int(&mut p, "diff", "()I", &[]), 0);
    // The two streams and the three literals are left; the concatenations are gone.
    assert_eq!(p.heap_live(), 5);
}

/// Methods whose values cross blocks in every way: swapped in a loop that starts at the first
/// instruction, and left on the operand stack at a merge.
fn crossings() -> Class {
    let mut c = Class::new("Cross", "java/lang/Object");
    // while (n != 0) { t = a; a = b; b = t; n--; } return a;
    c.method(
        STATIC,
        "swap",
        "(III)I",
        &[
            0x1c, 0x99, 0, 13, 0x1a, 0x1b, 0x3b, 0x3c, 0x84, 2, 0xff, 0xa7, 0xff, 0xf5, 0x1a, 0xac,
        ],
        Some(&[0, 2, 0, 13]),
    );
    // return (c != 0 ? x : y) + 1;
    c.method(
        STATIC,
        "pick",
        "(III)I",
        &[0x1a, 0x99, 0, 7, 0x1b, 0xa7, 0, 4, 0x1c, 0x04, 0x60, 0xac],
        Some(&[0, 2, 8, 64, 1]),
    );
    c
}

#[test]
fn a_call_computes_what_the_bytecode_means() {
    let mut p = Program::from_class(&crossings().file());
    for n in 0..6 {
        let want = if n % 2 == 0 { 9 } else { 7 };
        assert_eq!(call_int(&mut p, "swap", "(III)I", &[num(9), num(7), num(n)]), want);
    }
    assert_eq!(call_int(&mut p, "pick", "(III)I", &[num(1), num(20), num(30)]), 21);
    assert_eq!(call_int(&mut p, "pick", "(III)I", &[num(0), num(20), num(30)]), 31);
    // A call has one result.
    assert_eq!(call_int(&mut p, "pick", "(III)I", &[num(0), num(20), num(30)]), 31);
}

#[test]
fn a_verified_method_may_load_strings() {
    let mut c = Class::new("Text", "java/lang/Object");
    let s = c.string("text");
    // ldc_w "text"; ldc_w "text"; iload_0; ireturn
    let bytes = code(&[P::B(0x13), P::I(s), P::B(0x13), P::I(s), P::B(0x1a), P::B(0xac)]);
    c.method(STATIC, "same", "(I)I", &bytes, None);
    let mut p = Program::from_class(&c.file());
    assert_eq!(call_int(&mut p, "same", "(I)I", &[num(5)]), 5);
    // The two streams, and the one string.
    assert_eq!(p.heap_live(), 3);
    let mut p = Program::from_class(&c.file()).with_heap_limit(2);
    assert_eq!(call(&mut p, "same", "(I)I", &[num(5)]), Err(ExecError::OutOfMemory));
}

#[test]
fn a_loop_at_the_start_gets_an_entry_of_its_own() {
    let cf = crossings().file();
    let vm = verify_method(&cf, cf.method("swap", "(III)I").unwrap()).unwrap();
    let built = build(&vm, &cf).unwrap();
    let entry = &built.method.blocks[built.method.entry.0 as usize];
    assert!(entry.nodes.is_empty());
    assert!(entry.phis.is_empty());
    assert_eq!(entry.term, Terminator::Goto(BlockId(0)));
    assert_eq!(built.method.blocks[0].phis.len(), 3);
}

/// `static int arith(int a, int b, long c, float d)`, with three ways out:
///
/// ```java
/// int s = a + b * 3 - a / (b + 1); long t = c * 1L; float u = d * 1f;
/// s = (int) (float) s; s = (int) (long) s;
/// if (s > 10 && t < u) return (int) (t - (long) u) + s;
/// else if (s % 2 == 0) return s * s;
/// else return -s;
/// ```
const ARITH: [u8; 80] = [
    // s
    0x1a, 0x1b, 0x06, 0x68, 0x60, 0x1a, 0x1b, 0x04, 0x60, 0x6c, 0x64, 0x36, 5,
    // t, u
    0x20, 0x0a, 0x69, 0x37, 6, 0x17, 4, 0x0c, 0x6a, 0x38, 8,
    // s through float and long
    0x15, 5, 0x86, 0x8b, 0x36, 5, 0x15, 5, 0x85, 0x88, 0x36, 5,
    // s > 10
    0x15, 5, 0x10, 10, 0xa4, 0, 23,
    // t < u
    0x16, 6, 0x89, 0x17, 8, 0x96, 0x9c, 0, 14,
    0x16, 6, 0x17, 8, 0x8c, 0x65, 0x88, 0x15, 5, 0x60, 0xac,
    // s % 2 == 0
    0x15, 5, 0x05, 0x70, 0x9a, 0, 9, 0x15, 5, 0x15, 5, 0x68, 0xac,
    0x15, 5, 0x74, 0xac,
];

const ARITH_MAP: [u8; 9] = [0, 2, 254, 0, 63, 1, 4, 2, 12];

fn slice() -> Class {
    let mut c = Class::new("Slice", "java/lang/Object");
    let init = c.method_ref("java/lang/Object", "<init>", "()V");
    c.method_sized(
        0,
        "<init>",
        "()V",
        &code(&[P::B(0x2a), P::B(0xb7), P::I(init), P::B(0xb1)]),
        None,
        (1, 1),
    );
    c.method_sized(STATIC, "arith", "(IIJF)I", &ARITH, Some(&ARITH_MAP), (4, 9));
    c
}

#[test]
fn parses_real_slice_class() {
    let cf = parse(&slice().bytes()).expect("Slice.class should parse");
    assert_eq!(cf.major, 65, "Java 21 classfile major version");
    assert_eq!(cf.this_class_name(), Some("Slice"));
    assert_eq!(cf.super_class_name(), Some("java/lang/Object"));
    assert_eq!(cf.methods.len(), 2); // <init> and arith
    assert!(cf.fields.is_empty());

    let arith = cf.method("arith", "(IIJF)I").expect("arith(IIJF)I present");
    assert_ne!(arith.access_flags & 0x0008, 0, "ACC_STATIC");
    let code = arith.code().expect("Code attribute");
    assert_eq!(code.max_stack, 4);
    assert_eq!(code.max_locals, 9);
    assert_eq!(code.code.first(), Some(&0x1a)); // iload_0
    assert_eq!(code.code.last(), Some(&0xac)); // ireturn
    assert!(code.exception_table.is_empty());
    assert!(
        code.attributes
            .iter()
            .any(|a| a.raw_named(&cf.constant_pool, "StackMapTable").is_some()),
        "StackMapTable retained in Code attributes"
    );
}

#[test]
fn verifies_slice_arith() {
    let cf = slice().file();
    let arith = cf.method("arith", "(IIJF)I").unwrap();
    let vm = verify_method(&cf, arith).expect("arith must verify");
    assert_eq!(vm.max_locals, 9);
    assert_eq!(vm.ret, Some(VType::Int));
    assert_eq!(
        vm.arg_types,
        vec![VType::Int, VType::Int, VType::Long, VType::Float]
    );
    assert_eq!(vm.frames.len(), 2);
    assert!(vm.frames.contains_key(&63));
    assert!(vm.frames.contains_key(&76));
    // <init> uses aload_0/invokespecial/return, which the verifier does not know: it must be
    // rejected as unsupported, not mis-verified.
    let init = cf.method("<init>", "()V").unwrap();
    assert!(matches!(
        verify_method(&cf, init),
        Err(VerifyError::UnsupportedOpcode { .. })
    ));
}

#[test]
fn executes_slice_arith_matches_hand_computed() {
    let mut program = Program::from_class(&slice().file());
    let mut run = |a: i32, b: i32, c: i64, d: f32| -> i32 {
        let args = [num(a), num(b), Val128::from_i64(c), Val128::from_f32(d.to_bits())];
        call_int(&mut program, "arith", "(IIJF)I", &args)
    };
    // Hand-computed values across all three ways out of `arith`.
    assert_eq!(run(1, 2, 3, 4.0), -7); // else: -s
    assert_eq!(run(50, 3, 100, 200.0), -53); // first: (int)(t-(long)u)+s
    assert_eq!(run(2, 0, 0, 0.0), 0); // else-if: s*s (s==0)
}
