use classparse::attributes::{
    read_annotation, read_innerclasses_data, read_methodparameters_data, read_module_data, AnnotationElementValue,
};
use classparse::bytecode::{decode_bytecode, Operand};
use classparse::class::{parse, parse_class};
use classparse::attributes::{AttributeData, ParseOptions};
use classparse::constant_pool::{decode_java_utf8, BootstrapArgument, ConstantPoolEntry, LiteralConstant};
use classparse::cursor::{read_u1, read_u2, read_u4, read_u8};
use classparse::error::ErrorKind;
use classparse::flags::{InnerClassAccessFlags, ModuleAccessFlags, ACC_PUBLIC, ACC_STATIC};
use classparse::names::{is_field_descriptor, is_method_descriptor, is_return_descriptor, is_unqualified_name};

fn utf8(s: &str) -> ConstantPoolEntry {
    ConstantPoolEntry::Utf8(s.to_string())
}

#[test]
fn cursor_reads_big_endian() {
    let b = [0x01, 0x02, 0x03, 0x04, 0x05, 0x06, 0x07, 0x08, 0x09];
    let mut ix = 0usize;
    assert_eq!(read_u1(&b, &mut ix).unwrap(), 1);
    assert_eq!(read_u2(&b, &mut ix).unwrap(), 0x0203);
    assert_eq!(read_u4(&b, &mut ix).unwrap(), 0x04050607);
    assert_eq!(ix, 7);
    assert_eq!(read_u8(&b, &mut ix).unwrap_err().kind, ErrorKind::UnexpectedEnd);
    assert_eq!(ix, 7);
    let mut ix = 1usize;
    assert_eq!(read_u8(&b, &mut ix).unwrap(), 0x0203040506070809);
}

#[test]
fn descriptors() {
    assert!(is_field_descriptor("I"));
    assert!(is_field_descriptor("[[J"));
    assert!(is_field_descriptor("Ljava/lang/String;"));
    assert!(!is_field_descriptor("V"));
    assert!(!is_field_descriptor("L;"));
    assert!(!is_field_descriptor("Ljava//String;"));
    assert!(!is_field_descriptor("Ljava/lang/String"));
    assert!(!is_field_descriptor("II"));
    assert!(!is_field_descriptor(""));
    assert!(is_return_descriptor("V"));
    assert!(is_return_descriptor("[I"));
    assert!(!is_return_descriptor("[V"));
    assert!(is_method_descriptor("()V"));
    assert!(is_method_descriptor("(I[JLjava/lang/Object;)Ljava/lang/String;"));
    assert!(!is_method_descriptor("(V)V"));
    assert!(!is_method_descriptor("()"));
    assert!(!is_method_descriptor("(I"));
    assert!(!is_method_descriptor("()VV"));
}

#[test]
fn unqualified_names() {
    assert!(is_unqualified_name("x", false, false));
    assert!(!is_unqualified_name("", false, false));
    assert!(!is_unqualified_name("a.b", false, false));
    assert!(!is_unqualified_name("a;b", false, false));
    assert!(!is_unqualified_name("a[b", false, false));
    assert!(!is_unqualified_name("a/b", false, false));
    assert!(!is_unqualified_name("<init>", false, false));
    assert!(is_unqualified_name("<init>", true, false));
    assert!(!is_unqualified_name("<clinit>", true, false));
    assert!(is_unqualified_name("<clinit>", false, true));
}

#[test]
fn modified_utf8_decoding() {
    assert_eq!(decode_java_utf8(&[0xC0, 0x80]).unwrap(), "\u{0}");
    assert_eq!(decode_java_utf8(&[0xED, 0xA0, 0x81, 0xED, 0xB0, 0x81]).unwrap(), "\u{10401}");
    assert_eq!(decode_java_utf8(b"abc").unwrap(), "abc");
    assert_eq!(decode_java_utf8(&[0xFF]).unwrap_err().kind, ErrorKind::ModifiedUtf8Decode);
}

#[test]
fn inner_class_flags_are_lenient() {
    let f = InnerClassAccessFlags::from_bits_truncate(0xFFFF);
    assert_eq!(f.bits, 0x761F);
    assert!(f.contains(ACC_PUBLIC | ACC_STATIC));
    let pool = vec![ConstantPoolEntry::Placeholder, ConstantPoolEntry::ClassInfo(2), utf8("Outer$Inner")];
    let b = [0x00, 0x01, 0x00, 0x01, 0x00, 0x00, 0x00, 0x00, 0x80, 0x09];
    let mut ix = 0usize;
    let entries = read_innerclasses_data(&b, &mut ix, &pool).unwrap();
    assert_eq!(entries[0].inner_class_info, "Outer$Inner");
    assert!(entries[0].outer_class_info.is_none());
    assert!(entries[0].inner_name.is_none());
    assert_eq!(entries[0].access_flags.bits, 0x0009);
}

#[test]
fn module_flags_are_strict() {
    assert!(ModuleAccessFlags::from_bits(0x0020).is_some());
    assert!(ModuleAccessFlags::from_bits(0x0001).is_none());
    let pool = vec![ConstantPoolEntry::Placeholder, ConstantPoolEntry::ModuleInfo(2), utf8("m")];
    let mut b = vec![0x00, 0x01, 0x00, 0x20, 0x00, 0x00];
    b.extend_from_slice(&[0; 10]);
    let mut ix = 0usize;
    let m = read_module_data(&b, &mut ix, &pool).unwrap();
    assert_eq!(m.name, "m");
    assert_eq!(m.access_flags.bits, 0x0020);
    assert!(m.version.is_none());
    assert_eq!(ix, b.len());
    b[3] = 0x01;
    let mut ix = 0usize;
    assert_eq!(read_module_data(&b, &mut ix, &pool).unwrap_err().kind, ErrorKind::InvalidFlags);
}

#[test]
fn method_parameter_flags_are_strict() {
    let pool = vec![ConstantPoolEntry::Placeholder, utf8("arg")];
    let b = [0x01, 0x00, 0x01, 0x00, 0x10];
    let mut ix = 0usize;
    let p = read_methodparameters_data(&b, &mut ix, &pool).unwrap();
    assert_eq!(p[0].name.as_deref(), Some("arg"));
    assert_eq!(p[0].access_flags.bits, 0x0010);
    let b = [0x01, 0x00, 0x01, 0x00, 0x01];
    let mut ix = 0usize;
    assert_eq!(read_methodparameters_data(&b, &mut ix, &pool).unwrap_err().kind, ErrorKind::InvalidFlags);
}

#[test]
fn annotation_values() {
    let pool = vec![
        ConstantPoolEntry::Placeholder,
        utf8("LAnno;"),
        utf8("value"),
        ConstantPoolEntry::Integer(7),
        utf8("LColor;"),
        utf8("RED"),
        utf8("V"),
    ];
    // @Anno(value = {7, Color.RED, void.class})
    let b = [
        0x00, 0x01, 0x00, 0x01, 0x00, 0x02, b'[', 0x00, 0x03, b'I', 0x00, 0x03, b'e', 0x00, 0x04, 0x00, 0x05, b'c',
        0x00, 0x06,
    ];
    let mut ix = 0usize;
    let a = read_annotation(&b, &mut ix, &pool).unwrap();
    assert_eq!(ix, b.len());
    assert_eq!(a.type_descriptor, "LAnno;");
    assert_eq!(a.elements[0].name, "value");
    match &a.elements[0].value {
        AnnotationElementValue::ArrayValue(v) => {
            assert!(matches!(v[0], AnnotationElementValue::IntConstant(7)));
            match &v[1] {
                AnnotationElementValue::EnumConstant { type_descriptor, const_name } => {
                    assert_eq!(type_descriptor, "LColor;");
                    assert_eq!(const_name, "RED");
                }
                other => panic!("unexpected {:?}", other),
            }
            match &v[2] {
                AnnotationElementValue::ClassLiteral { class_name } => assert_eq!(class_name, "V"),
                other => panic!("unexpected {:?}", other),
            }
        }
        other => panic!("unexpected {:?}", other),
    }
    // The annotation type itself must be a field descriptor.
    let b = [0x00, 0x02, 0x00, 0x00];
    let mut ix = 0usize;
    assert_eq!(read_annotation(&b, &mut ix, &pool).unwrap_err().kind, ErrorKind::InvalidDescriptor);
    // An unknown element tag.
    let b = [0x00, 0x01, 0x00, 0x01, 0x00, 0x02, b'x'];
    let mut ix = 0usize;
    assert_eq!(read_annotation(&b, &mut ix, &pool).unwrap_err().kind, ErrorKind::UnrecognizedDiscriminant);
}

#[test]
fn bytecode_decoding() {
    let pool = vec![
        ConstantPoolEntry::Placeholder,
        ConstantPoolEntry::Integer(42),
        ConstantPoolEntry::ClassInfo(3),
        utf8("java/lang/Object"),
        ConstantPoolEntry::Long(5),
        ConstantPoolEntry::Placeholder,
    ];
    // iconst_0; ldc #1; ldc2_w #4; new #2; wide iload 256; goto -3; tableswitch; return
    let mut code = vec![0x03, 0x12, 0x01, 0x14, 0x00, 0x04, 0xbb, 0x00, 0x02, 0xc4, 0x15, 0x01, 0x00, 0xa7, 0xff, 0xfd];
    code.push(0xaa);
    while code.len() % 4 != 0 {
        code.push(0);
    }
    for v in [10i32, 1, 2, 20, 30] {
        code.extend_from_slice(&v.to_be_bytes());
    }
    code.push(0xb1);
    let bc = decode_bytecode(&code, &pool).unwrap();
    let ins = &bc.instructions;
    assert_eq!(ins.len(), 8);
    assert_eq!(ins[0].opcode, 0x03);
    assert!(matches!(ins[1].operand, Operand::Constant(BootstrapArgument::Literal(LiteralConstant::Integer(42)))));
    assert!(matches!(ins[2].operand, Operand::Constant(BootstrapArgument::Literal(LiteralConstant::Long(5)))));
    match &ins[3].operand {
        Operand::Class(c) => assert_eq!(c, "java/lang/Object"),
        other => panic!("unexpected {:?}", other),
    }
    assert!(ins[4].wide);
    assert_eq!(ins[4].opcode, 0x15);
    assert!(matches!(ins[4].operand, Operand::Local(256)));
    assert_eq!(ins[5].pc, 13);
    assert!(matches!(ins[5].operand, Operand::Branch(-3)));
    match &ins[6].operand {
        Operand::TableSwitch { default, low, high, offsets } => {
            assert_eq!((*default, *low, *high), (10, 1, 2));
            assert_eq!(offsets, &vec![20, 30]);
        }
        other => panic!("unexpected {:?}", other),
    }
    assert_eq!(ins[7].opcode, 0xb1);
    assert_eq!(decode_bytecode(&[0xcb], &pool).unwrap_err().kind, ErrorKind::UnrecognizedOpcode);
    assert_eq!(decode_bytecode(&[0x10], &pool).unwrap_err().kind, ErrorKind::UnexpectedEnd);
    // ldc may not load a Long.
    assert_eq!(decode_bytecode(&[0x12, 0x04], &pool).unwrap_err().kind, ErrorKind::PoolKindMismatch);
}

fn u2(out: &mut Vec<u8>, v: u16) {
    out.extend_from_slice(&v.to_be_bytes());
}

fn put_utf8(out: &mut Vec<u8>, s: &str) {
    out.push(1);
    u2(out, s.len() as u16);
    out.extend_from_slice(s.as_bytes());
}

/// `class A { void m() { return; } }` with a Code attribute and a LineNumberTable.
fn class_with_code() -> Vec<u8> {
    let mut b = vec![0xCA, 0xFE, 0xBA, 0xBE, 0x00, 0x00, 0x00, 0x34];
    u2(&mut b, 9);
    b.push(7);
    u2(&mut b, 2);
    put_utf8(&mut b, "A");
    b.push(7);
    u2(&mut b, 4);
    put_utf8(&mut b, "java/lang/Object");
    put_utf8(&mut b, "m");
    put_utf8(&mut b, "()V");
    put_utf8(&mut b, "Code");
    put_utf8(&mut b, "LineNumberTable");
    u2(&mut b, 0x0021);
    u2(&mut b, 1);
    u2(&mut b, 3);
    u2(&mut b, 0);
    u2(&mut b, 0);
    u2(&mut b, 1);
    u2(&mut b, 0x0001);
    u2(&mut b, 5);
    u2(&mut b, 6);
    u2(&mut b, 1);
    u2(&mut b, 7);
    b.extend_from_slice(&25u32.to_be_bytes());
    u2(&mut b, 1);
    u2(&mut b, 1);
    b.extend_from_slice(&1u32.to_be_bytes());
    b.push(0xb1);
    u2(&mut b, 0);
    u2(&mut b, 1);
    u2(&mut b, 8);
    b.extend_from_slice(&6u32.to_be_bytes());
    u2(&mut b, 1);
    u2(&mut b, 0);
    u2(&mut b, 3);
    u2(&mut b, 0);
    b
}

#[test]
fn code_attribute_with_and_without_bytecode() {
    let b = class_with_code();
    let c = parse(&b, &ParseOptions { parse_bytecode: true }).unwrap();
    match &c.methods[0].attributes[0].data {
        AttributeData::Code(code) => {
            assert_eq!(code.code, vec![0xb1]);
            assert_eq!(code.bytecode.as_ref().unwrap().instructions.len(), 1);
            match &code.attributes[0].data {
                AttributeData::LineNumberTable(v) => {
                    assert_eq!(v[0].start_pc, 0);
                    assert_eq!(v[0].line_number, 3);
                }
                other => panic!("unexpected {:?}", other),
            }
        }
        other => panic!("unexpected {:?}", other),
    }
    let c = parse_class(&b).unwrap();
    match &c.methods[0].attributes[0].data {
        AttributeData::Code(code) => {
            assert_eq!(code.code, vec![0xb1]);
            assert!(code.bytecode.is_none());
        }
        other => panic!("unexpected {:?}", other),
    }
}

#[test]
fn single_byte_corruption_never_panics() {
    let b = class_with_code();
    for i in 0..b.len() {
        for v in [0x00u8, 0x01, 0x7f, 0x80, 0xff] {
            let mut c = b.clone();
            c[i] = v;
            let _ = parse(&c, &ParseOptions { parse_bytecode: true });
        }
    }
    for n in 0..b.len() {
        assert!(parse(&b[..n], &ParseOptions { parse_bytecode: true }).is_err());
    }
}

#[test]
fn same_input_same_result() {
    let b = class_with_code();
    let x = format!("{:?}", parse_class(&b).unwrap());
    let y = format!("{:?}", parse_class(&b).unwrap());
    assert_eq!(x, y);
}
