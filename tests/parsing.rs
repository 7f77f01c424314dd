use classparse::attributes::{
    read_stackmaptable_data, AttributeData, ParseOptions, StackMapEntry, VerificationType,
};
use classparse::class::{parse, parse_class};
use classparse::constant_pool::{read_cp_long, resolve_utf8, ConstantPoolEntry};
use classparse::error::{ErrorKind, Frame};

fn u2(out: &mut Vec<u8>, v: u16) {
    out.extend_from_slice(&v.to_be_bytes());
}

fn utf8(out: &mut Vec<u8>, s: &str) {
    out.push(1);
    u2(out, s.len() as u16);
    out.extend_from_slice(s.as_bytes());
}

fn class_ref(out: &mut Vec<u8>, index: u16) {
    out.push(7);
    u2(out, index);
}

/// Header and a pool of: 1 Class "A", 2 "A", 3 Class Object, 4 "java/lang/Object",
/// followed by `extra` Utf8 entries from index 5 on.
fn header(extra: &[&str]) -> Vec<u8> {
    let mut b = vec![0xCA, 0xFE, 0xBA, 0xBE, 0x00, 0x00, 0x00, 0x34];
    u2(&mut b, 5 + extra.len() as u16);
    class_ref(&mut b, 2);
    utf8(&mut b, "A");
    class_ref(&mut b, 4);
    utf8(&mut b, "java/lang/Object");
    for s in extra {
        utf8(&mut b, s);
    }
    u2(&mut b, 0x0021);
    u2(&mut b, 1);
    u2(&mut b, 3);
    u2(&mut b, 0);
    b
}

/// A class with one method `m()V` carrying one attribute named by pool index 7.
fn class_with_method_attribute(attr_name: &str, declared: u32, payload: &[u8]) -> Vec<u8> {
    let mut b = header(&["m", "()V", attr_name]);
    u2(&mut b, 0);
    u2(&mut b, 1);
    u2(&mut b, 0x0001);
    u2(&mut b, 5);
    u2(&mut b, 6);
    u2(&mut b, 1);
    u2(&mut b, 7);
    b.extend_from_slice(&declared.to_be_bytes());
    b.extend_from_slice(payload);
    u2(&mut b, 0);
    b
}

#[test]
fn minimal_class() {
    let mut b = header(&[]);
    u2(&mut b, 0);
    u2(&mut b, 0);
    u2(&mut b, 0);
    let c = parse_class(&b).unwrap();
    assert_eq!(c.magic, 0xCAFEBABE);
    assert_eq!(c.major_version, 52);
    assert_eq!(c.this_class, "A");
    assert_eq!(c.super_class.as_deref(), Some("java/lang/Object"));
    assert!(c.interfaces.is_empty());
    assert!(c.fields.is_empty());
    assert!(c.methods.is_empty());
    assert!(c.attributes.is_empty());
}

#[test]
fn long_in_pool() {
    let mut b = vec![0xCA, 0xFE, 0xBA, 0xBE, 0x00, 0x00, 0x00, 0x34];
    u2(&mut b, 7);
    class_ref(&mut b, 2);
    utf8(&mut b, "A");
    b.push(5);
    b.extend_from_slice(&[0x01, 0x02, 0x03, 0x04, 0x05, 0x06, 0x07, 0x08]);
    class_ref(&mut b, 6);
    utf8(&mut b, "java/lang/Object");
    u2(&mut b, 0x0021);
    u2(&mut b, 1);
    u2(&mut b, 5);
    for _ in 0..4 {
        u2(&mut b, 0);
    }
    let c = parse_class(&b).unwrap();
    assert!(matches!(c.constant_pool[3], ConstantPoolEntry::Long(72623859790382856)));
    assert!(matches!(c.constant_pool[4], ConstantPoolEntry::Placeholder));
    let err = resolve_utf8(&c.constant_pool, 4).unwrap_err();
    assert_eq!(err.kind, ErrorKind::BadPoolIndex);
    let mut ix = 0usize;
    let err = read_cp_long(&[0x00, 0x04], &mut ix, &c.constant_pool).unwrap_err();
    assert_eq!(err.kind, ErrorKind::BadPoolIndex);
    let mut ix = 0usize;
    assert_eq!(read_cp_long(&[0x00, 0x03], &mut ix, &c.constant_pool).unwrap(), 72623859790382856);
}

#[test]
fn reference_to_placeholder_fails_the_pool() {
    let mut b = vec![0xCA, 0xFE, 0xBA, 0xBE, 0x00, 0x00, 0x00, 0x34];
    u2(&mut b, 4);
    b.push(6);
    b.extend_from_slice(&[0; 8]);
    b.push(8);
    u2(&mut b, 2);
    let err = parse_class(&b).unwrap_err();
    assert_eq!(err.kind, ErrorKind::BadPoolIndex);
    assert_eq!(err.context, vec![Frame::PoolEntry(3)]);
}

#[test]
fn unknown_attribute() {
    let b = class_with_method_attribute("Foo", 3, &[0xAA, 0xBB, 0xCC]);
    let c = parse_class(&b).unwrap();
    assert_eq!(c.methods.len(), 1);
    assert_eq!(c.methods[0].name, "m");
    let a = &c.methods[0].attributes[0];
    assert_eq!(a.name, "Foo");
    match &a.data {
        AttributeData::Other(v) => assert_eq!(v, &vec![0xAA, 0xBB, 0xCC]),
        other => panic!("unexpected {:?}", other),
    }
}

#[test]
fn stackmaptable_discriminants() {
    let pool = vec![
        ConstantPoolEntry::Placeholder,
        ConstantPoolEntry::ClassInfo(2),
        ConstantPoolEntry::Utf8("java/lang/String".to_string()),
    ];
    let mut b = Vec::new();
    u2(&mut b, 7);
    b.push(0);
    b.extend_from_slice(&[64, 1]);
    b.extend_from_slice(&[247, 0x00, 0x05, 0]);
    b.extend_from_slice(&[248, 0x00, 0x07]);
    b.extend_from_slice(&[251, 0x00, 0x09]);
    b.extend_from_slice(&[252, 0x00, 0x03, 1]);
    b.extend_from_slice(&[255, 0x00, 0x02, 0x00, 0x01, 5, 0x00, 0x01, 7, 0x00, 0x01]);
    let mut ix = 0usize;
    let frames = read_stackmaptable_data(&b, &mut ix, &pool).unwrap();
    assert_eq!(ix, b.len());
    assert_eq!(frames.len(), 7);
    assert!(matches!(frames[0], StackMapEntry::Same { offset_delta: 0 }));
    assert!(matches!(frames[1], StackMapEntry::SameLocals1StackItem { offset_delta: 0, stack: VerificationType::Integer }));
    assert!(matches!(frames[2], StackMapEntry::SameLocals1StackItem { offset_delta: 5, stack: VerificationType::Top }));
    assert!(matches!(frames[3], StackMapEntry::Chop { offset_delta: 7, chop_count: 3 }));
    assert!(matches!(frames[4], StackMapEntry::Same { offset_delta: 9 }));
    match &frames[5] {
        StackMapEntry::Append { offset_delta, locals } => {
            assert_eq!(*offset_delta, 3);
            assert_eq!(locals.len(), 1);
            assert!(matches!(locals[0], VerificationType::Integer));
        }
        other => panic!("unexpected {:?}", other),
    }
    match &frames[6] {
        StackMapEntry::FullFrame { offset_delta, locals, stack } => {
            assert_eq!(*offset_delta, 2);
            assert_eq!(locals.len(), 1);
            assert!(matches!(locals[0], VerificationType::Null));
            assert_eq!(stack.len(), 1);
            match &stack[0] {
                VerificationType::Object { class_name } => assert_eq!(class_name, "java/lang/String"),
                other => panic!("unexpected {:?}", other),
            }
        }
        other => panic!("unexpected {:?}", other),
    }
}

#[test]
fn reserved_stackmap_tag() {
    let pool = vec![ConstantPoolEntry::Placeholder];
    let b = vec![0x00, 0x01, 200];
    let mut ix = 0usize;
    let err = read_stackmaptable_data(&b, &mut ix, &pool).unwrap_err();
    assert_eq!(err.kind, ErrorKind::UnrecognizedDiscriminant);
    assert_eq!(err.context, vec![Frame::Entry(0)]);
}

#[test]
fn truncated_input() {
    let b = class_with_method_attribute("Foo", 3, &[0xAA, 0xBB, 0xCC]);
    let cut = b.len() - 4;
    let err = parse_class(&b[..cut]).unwrap_err();
    assert_eq!(err.kind, ErrorKind::UnexpectedEnd);
    assert_eq!(err.context, vec![Frame::Attribute(0), Frame::Method(0)]);
    assert_eq!(err.outermost(), Some(Frame::Method(0)));
}

#[test]
fn length_mismatch() {
    let b = class_with_method_attribute("Synthetic", 3, &[0, 0, 0]);
    let err = parse_class(&b).unwrap_err();
    assert_eq!(err.kind, ErrorKind::LengthMismatch);
    assert_eq!(err.context, vec![Frame::Attribute(0), Frame::Method(0)]);
}

#[test]
fn synthetic_marker() {
    let b = class_with_method_attribute("Synthetic", 0, &[]);
    let c = parse(&b, &ParseOptions { parse_bytecode: true }).unwrap();
    assert!(matches!(c.methods[0].attributes[0].data, AttributeData::Synthetic));
}

#[test]
fn bad_magic() {
    let b = vec![0xCA, 0xFE, 0xBA, 0xBF, 0, 0, 0, 0];
    assert_eq!(parse_class(&b).unwrap_err().kind, ErrorKind::InvalidMagic);
    assert_eq!(parse_class(&b[..3]).unwrap_err().kind, ErrorKind::UnexpectedEnd);
}
