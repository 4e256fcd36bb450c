//! Parsing and verifying class files.

use std::collections::BTreeMap;

use rjava::classfile::attribute::{parse_attributes, Attribute};
use rjava::classfile::constant_pool::{decode_mutf8, Constant, ConstantPool};
use rjava::classfile::error::ClassFileError;
use rjava::classfile::reader::Reader;
use rjava::classfile::{parse, ClassFile};
use rjava::verify::error::VerifyError;
use rjava::verify::insn::{decode, pc_index, Insn};
use rjava::verify::stackmap;
use rjava::verify::typecheck::{typecheck, AbstractFrame, Limits};
use rjava::verify::verify_method;
use rjava::verify::vtype::{
    expand_to_slots, is_assignable, parse_field_type, parse_method_descriptor, VType,
};

#[test]
fn rejects_wide_constant_in_the_final_slot() {
    let mut b = Vec::new();
    b.extend_from_slice(&2u16.to_be_bytes()); // constant_pool_count = 2: exactly one entry
    b.push(5); // CONSTANT_Long
    b.extend_from_slice(&7i64.to_be_bytes()); // ...which needs two slots
    let mut r = Reader::new(&b);
    assert!(matches!(
        ConstantPool::parse(&mut r),
        Err(ClassFileError::BadCpIndex(_))
    ));

    // With room for both slots it parses, and `len()` equals the declared count.
    let mut ok = Vec::new();
    ok.extend_from_slice(&3u16.to_be_bytes()); // count = 3: entry 1 (wide) + sentinel 2
    ok.push(5);
    ok.extend_from_slice(&7i64.to_be_bytes());
    let mut r = Reader::new(&ok);
    let cp = ConstantPool::parse(&mut r).expect("well-formed wide entry parses");
    assert_eq!(cp.len(), 3);
    assert_eq!(cp.get(1), Some(&Constant::Long(7)));
    assert_eq!(cp.get(2), Some(&Constant::Unusable));
}

#[test]
fn a_pool_counts_its_sentinel() {
    // The count includes index 0, so it is never 0.
    assert_eq!(
        ConstantPool::parse(&mut Reader::new(&[0, 0])).err(),
        Some(ClassFileError::BadCpIndex(0))
    );
    let cp = ConstantPool::parse(&mut Reader::new(&[0, 1])).unwrap();
    assert_eq!(cp.len(), 1);
    assert!(cp.is_empty());
    assert_eq!(cp.get(0), Some(&Constant::Unusable));
    assert_eq!(cp.get(1), None);
}

#[test]
fn mutf8_ascii_and_two_byte_nul() {
    assert_eq!(decode_mutf8(b"Slice").unwrap(), "Slice");
    assert_eq!(decode_mutf8(b"(IIJF)I").unwrap(), "(IIJF)I");
    // MUTF-8 encodes NUL as 0xC0 0x80.
    assert_eq!(decode_mutf8(&[0xC0, 0x80]).unwrap(), "\0");
    // A bare NUL byte is invalid.
    assert_eq!(decode_mutf8(&[0x00]), Err(ClassFileError::BadUtf8));
}

#[test]
fn mutf8_valid_multibyte_roundtrips() {
    // 2-byte (U+00E9 é), 3-byte (U+4E2D 中), and a surrogate pair (U+1F600 😀).
    assert_eq!(decode_mutf8(&[0xC3, 0xA9]).unwrap(), "é");
    assert_eq!(decode_mutf8(&[0xE4, 0xB8, 0xAD]).unwrap(), "中");
    assert_eq!(
        decode_mutf8(&[0xED, 0xA0, 0xBD, 0xED, 0xB8, 0x80]).unwrap(),
        "😀"
    );
}

#[test]
fn mutf8_rejects_malformed_and_overlong() {
    for bad in [
        &[0xC2, 0x41][..],             // 2-byte: second byte is not a continuation
        &[0xE1, 0x41, 0x42][..],       // 3-byte: neither trailing byte is a continuation
        &[0xC0, 0x81][..],             // overlong 2-byte (only C0 80 is allowed)
        &[0xE0, 0x80, 0x81][..],       // overlong 3-byte
        &[0xC1, 0xBF][..],             // overlong 2-byte encoding of 0x7F
        &[0xF0, 0x9F, 0x98, 0x80][..], // 4-byte UTF-8 is not valid MUTF-8
        &[0xED, 0xB8, 0x80][..],       // unpaired low surrogate
        &[0xED, 0xA0, 0xBD][..],       // unpaired high surrogate (truncated pair)
        &[0x80][..],                   // stray continuation byte
    ] {
        assert_eq!(
            decode_mutf8(bad),
            Err(ClassFileError::BadUtf8),
            "must reject {bad:02X?}"
        );
    }
}

#[test]
fn rejects_bad_magic() {
    assert_eq!(
        parse(&[0, 0, 0, 0]).unwrap_err(),
        ClassFileError::BadMagic(0)
    );
    // Truncated input is an Eof error, never a panic.
    assert!(matches!(
        parse(&[0xCA, 0xFE]).unwrap_err(),
        ClassFileError::Eof(_)
    ));
}

#[test]
fn the_reader_is_big_endian_and_bounded() {
    let data = [1, 2, 3, 4, 5, 6, 7, 8, 9, 10, 11, 12, 13, 14, 15, 16];
    let mut r = Reader::new(&data);
    assert_eq!(r.u1().unwrap(), 1);
    assert_eq!(r.u2().unwrap(), 0x0203);
    assert_eq!(r.u4().unwrap(), 0x0405_0607);
    assert_eq!(r.u8().unwrap(), 0x0809_0A0B_0C0D_0E0F);
    assert_eq!(r.pos(), 15);
    assert_eq!(r.remaining(), 1);
    assert!(r.bytes(2).is_err());
    assert_eq!(r.bytes(1).unwrap(), &[16]);
    assert!(r.u1().is_err());
}

#[test]
fn every_constant_kind_parses() {
    let mut b: Vec<u8> = Vec::new();
    b.extend_from_slice(&11u16.to_be_bytes());
    b.extend_from_slice(&[1, 0, 1, b'A']); // 1: "A"
    b.extend_from_slice(&[3, 0xFF, 0xFF, 0xFF, 0xFE]); // 2: -2
    b.push(4); // 3: 1.5f
    b.extend_from_slice(&1.5f32.to_bits().to_be_bytes());
    b.push(6); // 4, 5: 2.5
    b.extend_from_slice(&2.5f64.to_bits().to_be_bytes());
    b.extend_from_slice(&[7, 0, 1]); // 6: class A
    b.extend_from_slice(&[8, 0, 1]); // 7: string A
    b.extend_from_slice(&[12, 0, 1, 0, 1]); // 8: A:A
    b.extend_from_slice(&[10, 0, 6, 0, 8]); // 9: method
    b.extend_from_slice(&[9, 0, 6, 0, 8]); // 10: field
    let mut r = Reader::new(&b);
    let cp = ConstantPool::parse(&mut r).unwrap();
    assert_eq!(cp.len(), 11);
    assert!(!cp.is_empty());
    assert_eq!(cp.utf8(1), Some("A"));
    assert_eq!(cp.get(2), Some(&Constant::Integer(-2)));
    assert_eq!(cp.get(3), Some(&Constant::Float(1.5f32.to_bits())));
    assert_eq!(cp.get(4), Some(&Constant::Double(2.5f64.to_bits())));
    assert_eq!(cp.get(5), Some(&Constant::Unusable));
    assert_eq!(cp.class_name(6), Some("A"));
    assert_eq!(cp.class_name(7), None);
    assert_eq!(cp.get(7), Some(&Constant::String { string_index: 1 }));
    assert_eq!(
        cp.get(9),
        Some(&Constant::MethodRef {
            class_index: 6,
            name_and_type_index: 8
        })
    );
    assert_eq!(cp.get(11), None);
}

#[test]
fn an_unknown_constant_kind_is_refused() {
    let b = [0, 2, 99];
    let mut r = Reader::new(&b);
    assert!(matches!(
        ConstantPool::parse(&mut r),
        Err(ClassFileError::UnknownTag { tag: 99, index: 1 })
    ));
}

#[test]
fn a_failed_parse_stops_where_it_failed() {
    // One byte is skipped first; the count and the bad tag are read, what follows is not.
    let b = [7, 0, 2, 99, 8];
    let mut r = Reader::new(&b);
    assert_eq!(r.u1(), Ok(7));
    assert!(ConstantPool::parse(&mut r).is_err());
    assert_eq!(r.pos(), 4);
    assert_eq!(r.u1(), Ok(8));

    // The head of an attribute is read, and its body is too long for what is left.
    let b = [0, 1, 0, 1, 0, 0, 0, 9, 5];
    let mut r = Reader::new(&b);
    assert!(matches!(
        parse_attributes(&mut r, &make_dummy_cp()),
        Err(ClassFileError::Eof(_))
    ));
    assert_eq!(r.pos(), 8);
    assert_eq!(r.remaining(), 1);
}

/// Bytes of a minimal class: no constants, no members.
fn minimal_class_bytes() -> Vec<u8> {
    let mut b = Vec::new();
    b.extend_from_slice(&0xCAFE_BABEu32.to_be_bytes());
    b.extend_from_slice(&0u16.to_be_bytes()); // minor
    b.extend_from_slice(&65u16.to_be_bytes()); // major
    b.extend_from_slice(&1u16.to_be_bytes()); // constant_pool_count = 1 (no entries)
    b.extend_from_slice(&0u16.to_be_bytes()); // access_flags
    b.extend_from_slice(&0u16.to_be_bytes()); // this_class
    b.extend_from_slice(&0u16.to_be_bytes()); // super_class
    b.extend_from_slice(&0u16.to_be_bytes()); // interfaces_count
    b.extend_from_slice(&0u16.to_be_bytes()); // fields_count
    b.extend_from_slice(&0u16.to_be_bytes()); // methods_count
    b.extend_from_slice(&0u16.to_be_bytes()); // attributes_count
    b
}

/// A constant pool with only the index-0 sentinel, for tests that never index it.
fn make_dummy_cp() -> ConstantPool {
    let bytes = minimal_class_bytes();
    parse(&bytes).unwrap().constant_pool
}

#[test]
fn every_prefix_of_a_class_is_too_short() {
    let bytes = minimal_class_bytes();
    let cf = parse(&bytes).unwrap();
    assert_eq!((cf.major, cf.minor), (65, 0));
    assert_eq!(cf.this_class_name(), None);
    for n in 0..bytes.len() {
        assert!(matches!(parse(&bytes[..n]), Err(ClassFileError::Eof(_))));
    }
}

#[test]
fn decodes_and_computes_branch_targets() {
    // iload_0(0x1a); ifne +5 (0x9a 0x00 0x05); ireturn(0xac)
    let code = [0x1a, 0x9a, 0x00, 0x05, 0xac];
    let insns = decode(&code).unwrap();
    assert_eq!(insns.len(), 3);
    assert_eq!(insns[0].op, 0x1a);
    assert_eq!(insns[1].branch_target(), Some(1 + 5)); // pc 1 + offset 5
    assert_eq!(insns[2].op, 0xac);
}

#[test]
fn rejects_unknown_opcode_without_panic() {
    assert!(matches!(
        decode(&[0xfe]),
        Err(VerifyError::UnsupportedOpcode { op: 0xfe, pc: 0 })
    ));
}

#[test]
fn truncated_operand_is_error() {
    assert!(matches!(decode(&[0x10]), Err(VerifyError::Truncated(_)))); // bipush, missing byte
}

#[test]
fn operands_are_signed_where_they_should_be() {
    // bipush -1; sipush -2; iinc 3, -4; goto -7; ldc 200
    let code = [
        0x10, 0xFF, 0x11, 0xFF, 0xFE, 0x84, 3, 0xFC, 0xa7, 0xFF, 0xF9, 0x12, 200,
    ];
    let insns = decode(&code).unwrap();
    assert_eq!(insns[0].arg, -1);
    assert_eq!(insns[1].arg, -2);
    assert_eq!(insns[2].arg, (3 << 8) | 0xFC);
    assert_eq!(insns[3].branch_target(), Some(1));
    assert!(insns[3].is_unconditional_end());
    assert_eq!(insns[4].arg, 200);
    let index = pc_index(&insns);
    assert_eq!(index.get(&8), Some(&3));
    assert_eq!(index.get(&9), None);
}

#[test]
fn descriptor_of_slice_arith() {
    let (args, ret) = parse_method_descriptor("(IIJF)I").unwrap();
    assert_eq!(
        args,
        vec![VType::Int, VType::Int, VType::Long, VType::Float]
    );
    assert_eq!(ret, Some(VType::Int));
}

#[test]
fn descriptor_refs_and_void() {
    let (args, ret) = parse_method_descriptor("(Ljava/lang/String;[IJ)V").unwrap();
    assert_eq!(args, vec![VType::Reference, VType::Reference, VType::Long]);
    assert_eq!(ret, None);
    assert!(parse_method_descriptor("nonsense").is_err());
}

#[test]
fn field_types_end_where_the_next_begins() {
    assert_eq!(parse_field_type(b"[[IJ", 0).unwrap(), (VType::Reference, 3));
    assert_eq!(parse_field_type(b"[[IJ", 3).unwrap(), (VType::Long, 4));
    assert_eq!(parse_field_type(b"La/B;", 0).unwrap(), (VType::Reference, 5));
    assert!(parse_field_type(b"La/B", 0).is_err());
    assert!(parse_field_type(b"Q", 0).is_err());
    assert_eq!(
        expand_to_slots(&[VType::Long, VType::Int]),
        vec![VType::Long, VType::Top, VType::Int]
    );
}

#[test]
fn assignability_basics() {
    assert!(is_assignable(VType::Int, VType::Int));
    assert!(is_assignable(VType::Int, VType::Top));
    assert!(!is_assignable(VType::Top, VType::Int));
    assert!(!is_assignable(VType::Int, VType::Long));
    assert!(is_assignable(VType::Null, VType::Reference));
}

#[test]
fn rejects_stack_underflow() {
    // A single `iadd` on an empty stack must be rejected, not panic. Arithmetic never touches the
    // constant pool, so a minimal one suffices.
    let insns = vec![Insn {
        pc: 0,
        op: 0x60,
        arg: 0,
        len: 1,
    }];
    let initial = AbstractFrame {
        locals: vec![VType::Top; 1],
        stack: vec![],
    };
    let frames = BTreeMap::new();
    let cp = make_dummy_cp();
    let limits = Limits {
        max_stack: 2,
        max_locals: 1,
        ret: Some(VType::Int),
    };
    let r = typecheck(&insns, &frames, initial, &limits, &cp);
    assert_eq!(r, Err(VerifyError::StackUnderflow(0)));
}

/// A class with one static method `m` of the given descriptor.
fn one_method(
    desc: &str,
    max_stack: u16,
    max_locals: u16,
    code: &[u8],
    stack_map: Option<&[u8]>,
) -> ClassFile {
    let mut b: Vec<u8> = Vec::new();
    b.extend_from_slice(&0xCAFE_BABEu32.to_be_bytes());
    b.extend_from_slice(&[0, 0, 0, 65]);
    let texts = ["T", "java/lang/Object", "m", desc, "Code", "StackMapTable"];
    b.extend_from_slice(&9u16.to_be_bytes());
    for t in texts {
        b.push(1);
        b.extend_from_slice(&(t.len() as u16).to_be_bytes());
        b.extend_from_slice(t.as_bytes());
    }
    b.extend_from_slice(&[7, 0, 1]); // 7: class T
    b.extend_from_slice(&[7, 0, 2]); // 8: class Object
    b.extend_from_slice(&[0, 0x21, 0, 7, 0, 8, 0, 0, 0, 0, 0, 1]);
    b.extend_from_slice(&[0, 0x09, 0, 3, 0, 4, 0, 1]);
    let mut attr: Vec<u8> = Vec::new();
    attr.extend_from_slice(&max_stack.to_be_bytes());
    attr.extend_from_slice(&max_locals.to_be_bytes());
    attr.extend_from_slice(&(code.len() as u32).to_be_bytes());
    attr.extend_from_slice(code);
    attr.extend_from_slice(&[0, 0]);
    match stack_map {
        None => attr.extend_from_slice(&[0, 0]),
        Some(m) => {
            attr.extend_from_slice(&[0, 1, 0, 6]);
            attr.extend_from_slice(&(m.len() as u32).to_be_bytes());
            attr.extend_from_slice(m);
        }
    }
    b.extend_from_slice(&[0, 5]);
    b.extend_from_slice(&(attr.len() as u32).to_be_bytes());
    b.extend_from_slice(&attr);
    b.extend_from_slice(&[0, 0]);
    parse(&b).unwrap()
}

fn verdict(cf: &ClassFile) -> Result<(), VerifyError> {
    verify_method(cf, &cf.methods[0]).map(|_| ())
}

#[test]
fn a_parsed_method_is_found_with_its_code() {
    let cf = one_method("(I)I", 1, 1, &[0x1a, 0xac], None);
    assert_eq!(cf.this_class_name(), Some("T"));
    assert_eq!(cf.super_class_name(), Some("java/lang/Object"));
    let m = cf.method("m", "(I)I").expect("m is there");
    assert!(cf.method("m", "()V").is_none());
    assert_eq!(m.name(&cf.constant_pool), Some("m"));
    let code = m.code().expect("it has code");
    assert_eq!(code.max_stack, 1);
    assert_eq!(code.code, vec![0x1a, 0xac]);
    assert!(code.exception_table.is_empty());
    assert!(matches!(m.attributes[0], Attribute::Code(_)));
}

#[test]
fn a_class_file_is_cloned_whole() {
    let code = [0x1a, 0x99, 0, 5, 0x04, 0xac, 0x03, 0xac];
    let cf = one_method("(I)I", 1, 1, &code, Some(&[0, 1, 6]));
    let copy = cf.clone();
    assert_eq!(format!("{:?}", copy), format!("{:?}", cf));
    assert_eq!(copy.method("m", "(I)I").unwrap().code().unwrap().code, code);
    assert_eq!(copy.constant_pool.get(3), Some(&Constant::Utf8("m".to_string())));
    let vm = verify_method(&copy, &copy.methods[0]).unwrap();
    assert_eq!(format!("{:?}", vm.clone()), format!("{:?}", vm));
    assert_eq!(vm.frames.get(&6).cloned(), verify_method(&cf, &cf.methods[0]).unwrap().frames.remove(&6));
}

#[test]
fn every_constant_is_its_own_clone() {
    let all = [
        Constant::Utf8("x".to_string()),
        Constant::Integer(-1),
        Constant::Float(0x3f80_0000),
        Constant::Long(i64::MIN),
        Constant::Double(1),
        Constant::Class { name_index: 1 },
        Constant::String { string_index: 2 },
        Constant::FieldRef { class_index: 3, name_and_type_index: 4 },
        Constant::MethodRef { class_index: 5, name_and_type_index: 6 },
        Constant::InterfaceMethodRef { class_index: 7, name_and_type_index: 8 },
        Constant::NameAndType { name_index: 9, descriptor_index: 10 },
        Constant::MethodHandle { reference_kind: 1, reference_index: 11 },
        Constant::MethodType { descriptor_index: 12 },
        Constant::Dynamic { bootstrap_method_attr_index: 13, name_and_type_index: 14 },
        Constant::InvokeDynamic { bootstrap_method_attr_index: 15, name_and_type_index: 16 },
        Constant::Module { name_index: 17 },
        Constant::Package { name_index: 18 },
        Constant::Unusable,
    ];
    for c in &all {
        assert_eq!(c.clone(), *c);
    }
}

#[test]
fn a_straight_line_method_verifies() {
    let cf = one_method("(II)I", 2, 2, &[0x1a, 0x1b, 0x60, 0xac], None);
    let vm = verify_method(&cf, &cf.methods[0]).unwrap();
    assert_eq!(vm.insns.len(), 4);
    assert_eq!(vm.arg_types, vec![VType::Int, VType::Int]);
    assert_eq!(vm.ret, Some(VType::Int));
    assert!(vm.is_static);
    assert!(vm.frames.is_empty());
}

#[test]
fn a_branch_needs_a_frame_at_its_target() {
    // iload_0; ifeq +5; iconst_1; ireturn; iconst_0; ireturn
    let code = [0x1a, 0x99, 0, 5, 0x04, 0xac, 0x03, 0xac];
    let cf = one_method("(I)I", 1, 1, &code, None);
    assert_eq!(verdict(&cf), Err(VerifyError::MissingFrame(6)));
    // same_frame at offset 6
    let cf = one_method("(I)I", 1, 1, &code, Some(&[0, 1, 6]));
    let vm = verify_method(&cf, &cf.methods[0]).unwrap();
    assert_eq!(vm.frames.len(), 1);
    assert_eq!(vm.frames.get(&6).unwrap().locals, vec![VType::Int]);
    // a frame that asks for a stack item that is not there
    let cf = one_method("(I)I", 1, 1, &code, Some(&[0, 1, 64 + 6, 1]));
    assert_eq!(verdict(&cf), Err(VerifyError::FrameMismatch(6)));
}

#[test]
fn each_verification_error_has_its_input() {
    let bad = |desc: &str, stack: u16, locals: u16, code: &[u8]| {
        verdict(&one_method(desc, stack, locals, code, None))
    };
    assert_eq!(bad("()I", 0, 0, &[0x04, 0xac]), Err(VerifyError::StackOverflow(0)));
    assert_eq!(bad("()I", 1, 0, &[0xac]), Err(VerifyError::StackUnderflow(0)));
    assert_eq!(bad("()J", 1, 0, &[0x04, 0xac]), Err(VerifyError::BadReturn(1)));
    assert!(matches!(
        bad("()I", 2, 0, &[0x04, 0x09, 0x60, 0xac]),
        Err(VerifyError::StackOverflow(1))
    ));
    assert!(matches!(
        bad("(J)I", 2, 2, &[0x1a, 0xac]),
        Err(VerifyError::TypeMismatch { pc: 0, .. })
    ));
    assert_eq!(
        bad("()I", 1, 1, &[0x1b, 0xac]),
        Err(VerifyError::BadLocal { pc: 0, index: 1 })
    );
    assert_eq!(
        bad("(J)I", 1, 1, &[0x04, 0xac]),
        Err(VerifyError::BadLocal { pc: 0, index: 1 })
    );
    assert!(matches!(
        bad("()I", 1, 0, &[0xa7, 0, 2, 0x03, 0xac]),
        Err(VerifyError::BadBranchTarget { at: 0, .. })
    ));
    assert_eq!(
        bad("()V", 0, 0, &[0xb1]),
        Err(VerifyError::UnsupportedOpcode { op: 0xb1, pc: 0 })
    );
    assert_eq!(bad("(Q)I", 1, 0, &[0xac]), Err(VerifyError::BadDescriptor));
    assert_eq!(
        verdict(&one_method("()I", 1, 0, &[0x04, 0xac], Some(&[0, 1, 200]))),
        Err(VerifyError::BadStackMap)
    );
    let mut cf = one_method("()I", 1, 0, &[0x04, 0xac], None);
    cf.methods[0].attributes.clear();
    assert_eq!(verdict(&cf), Err(VerifyError::NoCode));
}

#[test]
fn stack_map_frames_build_on_each_other() {
    // append one float at 2; chop it at 2+1+3; full frame at 6+1+0 with a long on the stack
    let smt = [0, 3, 252, 0, 2, 2, 250, 0, 3, 255, 0, 0, 0, 1, 1, 0, 1, 4];
    let frames = stackmap::decode(&smt, &[VType::Int]).unwrap();
    assert_eq!(frames.len(), 3);
    assert_eq!(frames.get(&2).unwrap().locals, vec![VType::Int, VType::Float]);
    assert_eq!(frames.get(&6).unwrap().locals, vec![VType::Int]);
    assert_eq!(frames.get(&7).unwrap().stack, vec![VType::Long]);
    assert!(stackmap::decode(&[0, 1], &[]).is_err());
}

#[test]
fn no_byte_string_makes_parsing_or_verifying_panic() {
    let mut seed: u64 = 0x9E37_79B9_7F4A_7C15;
    let template = {
        let mut b = minimal_class_bytes();
        b.extend_from_slice(&[0; 64]);
        b
    };
    for round in 0..400usize {
        let mut bytes = template.clone();
        for _ in 0..8 {
            seed ^= seed << 13;
            seed ^= seed >> 7;
            seed ^= seed << 17;
            let n = bytes.len();
            bytes[(seed as usize) % n] = (seed >> 32) as u8;
        }
        bytes.truncate(10 + round % 80);
        if let Ok(cf) = parse(&bytes) {
            for m in &cf.methods {
                let _ = verify_method(&cf, m);
            }
        }
    }
}
