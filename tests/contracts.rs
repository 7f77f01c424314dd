use classparse::attributes::{
    read_annotation_element_value, read_attributes, read_bootstrapmethods_data, read_exceptions_data,
    read_localvariable_data, read_module_data, read_record_data, read_stackmaptable_data, read_type_annotation_data,
    AnnotationElementValue, AttributeData, ParseOptions, TypeAnnotationTarget,
};
use classparse::constant_pool::{ConstantPoolEntry, LiteralConstant};
use classparse::error::{ErrorKind, Frame};

fn utf8(s: &str) -> ConstantPoolEntry {
    ConstantPoolEntry::Utf8(s.to_string())
}

fn opts() -> ParseOptions {
    ParseOptions { parse_bytecode: false }
}

fn long_pool() -> Vec<ConstantPoolEntry> {
    vec![
        ConstantPoolEntry::Placeholder,
        utf8("ConstantValue"),
        utf8("x"),
        ConstantPoolEntry::Long(0x0102030405060708),
        ConstantPoolEntry::Placeholder,
    ]
}

#[test]
fn empty_attribute_list() {
    let mut ix = 0usize;
    let v = read_attributes(&[0x00, 0x00], &mut ix, &long_pool(), &opts()).unwrap();
    assert!(v.is_empty());
    assert_eq!(ix, 2);
}

#[test]
fn constant_value_long() {
    let b = [0x00, 0x01, 0x00, 0x01, 0x00, 0x00, 0x00, 0x02, 0x00, 0x03];
    let mut ix = 0usize;
    let v = read_attributes(&b, &mut ix, &long_pool(), &opts()).unwrap();
    assert_eq!(ix, 10);
    assert_eq!(v[0].name, "ConstantValue");
    assert!(matches!(v[0].data, AttributeData::ConstantValue(LiteralConstant::Long(72623859790382856))));
}

#[test]
fn constant_value_into_placeholder() {
    let b = [0x00, 0x01, 0x00, 0x01, 0x00, 0x00, 0x00, 0x02, 0x00, 0x04];
    let mut ix = 0usize;
    let e = read_attributes(&b, &mut ix, &long_pool(), &opts()).unwrap_err();
    assert_eq!(e.kind, ErrorKind::BadPoolIndex);
    assert_eq!(e.outermost(), Some(Frame::Attribute(0)));
}

#[test]
fn unknown_attribute_in_list() {
    let pool = vec![ConstantPoolEntry::Placeholder, utf8("Foo")];
    let b = [0x00, 0x01, 0x00, 0x01, 0x00, 0x00, 0x00, 0x03, 0xAA, 0xBB, 0xCC];
    let mut ix = 0usize;
    let v = read_attributes(&b, &mut ix, &pool, &opts()).unwrap();
    assert_eq!(ix, 11);
    assert_eq!(v[0].name, "Foo");
    match &v[0].data {
        AttributeData::Other(bytes) => assert_eq!(bytes, &vec![0xAA, 0xBB, 0xCC]),
        other => panic!("unexpected {:?}", other),
    }
}

#[test]
fn synthetic_with_wrong_length() {
    let pool = vec![ConstantPoolEntry::Placeholder, utf8("Synthetic")];
    let b = [0x00, 0x01, 0x00, 0x01, 0x00, 0x00, 0x00, 0x03, 0x00, 0x00, 0x00];
    let mut ix = 0usize;
    let e = read_attributes(&b, &mut ix, &pool, &opts()).unwrap_err();
    assert_eq!(e.kind, ErrorKind::LengthMismatch);
    assert_eq!(e.outermost(), Some(Frame::Attribute(0)));
}

#[test]
fn cut_inside_second_attribute() {
    let pool = vec![ConstantPoolEntry::Placeholder, utf8("Foo")];
    let b = [0x00, 0x02, 0x00, 0x01, 0x00, 0x00, 0x00, 0x01, 0xAA, 0x00, 0x01, 0x00, 0x00];
    let mut ix = 0usize;
    let e = read_attributes(&b, &mut ix, &pool, &opts()).unwrap_err();
    assert_eq!(e.kind, ErrorKind::UnexpectedEnd);
    assert_eq!(e.outermost(), Some(Frame::Attribute(1)));
}

#[test]
fn empty_module() {
    let pool = vec![ConstantPoolEntry::Placeholder, utf8("m"), ConstantPoolEntry::ModuleInfo(1)];
    let b = [0x00, 0x02, 0, 0, 0, 0, 0, 0, 0, 0, 0, 0, 0, 0, 0, 0];
    let mut ix = 0usize;
    let m = read_module_data(&b, &mut ix, &pool).unwrap();
    assert_eq!(ix, 16);
    assert_eq!(m.name, "m");
    assert_eq!(m.access_flags.bits, 0);
    assert!(m.version.is_none());
    assert!(m.requires_entries.is_empty() && m.exports.is_empty() && m.opens.is_empty());
    assert!(m.uses.is_empty() && m.provides.is_empty());
}

#[test]
fn module_requires_flags_are_strict() {
    let pool = vec![ConstantPoolEntry::Placeholder, utf8("m"), ConstantPoolEntry::ModuleInfo(1)];
    let mut b = vec![0x00, 0x02, 0, 0, 0, 0, 0x00, 0x01, 0x00, 0x02, 0x00, 0x01, 0x00, 0x00];
    b.extend_from_slice(&[0; 8]);
    let mut ix = 0usize;
    let e = read_module_data(&b, &mut ix, &pool).unwrap_err();
    assert_eq!(e.kind, ErrorKind::InvalidFlags);
    assert_eq!(e.context, vec![Frame::Entry(0)]);
    b[11] = 0x20;
    let mut ix = 0usize;
    let m = read_module_data(&b, &mut ix, &pool).unwrap();
    assert_eq!(m.requires_entries[0].name, "m");
    assert_eq!(m.requires_entries[0].flags.bits, 0x0020);
}

#[test]
fn bootstrap_method_must_be_a_handle() {
    let pool = vec![ConstantPoolEntry::Placeholder, utf8("x")];
    let b = [0x00, 0x01, 0x00, 0x01, 0x00, 0x00];
    let mut ix = 0usize;
    let e = read_bootstrapmethods_data(&b, &mut ix, &pool).unwrap_err();
    assert_eq!(e.kind, ErrorKind::PoolKindMismatch);
}

#[test]
fn local_variable_name_and_descriptor_errors() {
    let pool = vec![ConstantPoolEntry::Placeholder, utf8("a.b"), utf8("I"), utf8("x"), utf8("Q")];
    let bad_name = [0x00, 0x01, 0, 0, 0, 1, 0x00, 0x01, 0x00, 0x02, 0, 0];
    let mut ix = 0usize;
    assert_eq!(read_localvariable_data(&bad_name, &mut ix, &pool).unwrap_err().kind, ErrorKind::InvalidName);
    let bad_desc = [0x00, 0x01, 0, 0, 0, 1, 0x00, 0x03, 0x00, 0x04, 0, 0];
    let mut ix = 0usize;
    assert_eq!(read_localvariable_data(&bad_desc, &mut ix, &pool).unwrap_err().kind, ErrorKind::InvalidDescriptor);
}

#[test]
fn type_annotation_empty_target() {
    let pool = vec![ConstantPoolEntry::Placeholder, utf8("LFoo;")];
    let b = [0x00, 0x01, 0x13, 0x00, 0x00, 0x01, 0x00, 0x00];
    let mut ix = 0usize;
    let v = read_type_annotation_data(&b, &mut ix, &pool).unwrap();
    assert_eq!(ix, 8);
    assert!(matches!(v[0].target_type, TypeAnnotationTarget::Empty));
    assert!(v[0].target_path.is_empty());
    assert_eq!(v[0].annotation.type_descriptor, "LFoo;");
    assert!(v[0].annotation.elements.is_empty());
}

#[test]
fn type_annotation_bad_target_and_path() {
    let pool = vec![ConstantPoolEntry::Placeholder, utf8("LFoo;")];
    let b = [0x00, 0x02, 0x13, 0x00, 0x00, 0x01, 0x00, 0x00, 0x20];
    let mut ix = 0usize;
    let e = read_type_annotation_data(&b, &mut ix, &pool).unwrap_err();
    assert_eq!(e.kind, ErrorKind::UnrecognizedDiscriminant);
    assert_eq!(e.outermost(), Some(Frame::Entry(1)));
    let b = [0x00, 0x01, 0x13, 0x02, 0x00, 0x00, 0x07, 0x00];
    let mut ix = 0usize;
    let e = read_type_annotation_data(&b, &mut ix, &pool).unwrap_err();
    assert_eq!(e.kind, ErrorKind::UnrecognizedDiscriminant);
    assert_eq!(e.context, vec![Frame::Element(1), Frame::Entry(0)]);
}

#[test]
fn reserved_tag_in_second_frame() {
    let pool = vec![ConstantPoolEntry::Placeholder];
    let b = [0x00, 0x02, 0x05, 128];
    let mut ix = 0usize;
    let e = read_stackmaptable_data(&b, &mut ix, &pool).unwrap_err();
    assert_eq!(e.kind, ErrorKind::UnrecognizedDiscriminant);
    assert_eq!(e.outermost(), Some(Frame::Entry(1)));
}

#[test]
fn array_element_value() {
    let pool = vec![ConstantPoolEntry::Placeholder, ConstantPoolEntry::Integer(1)];
    let b = [0x5B, 0x00, 0x02, 0x49, 0x00, 0x01, 0x5A, 0x00, 0x01];
    let mut ix = 0usize;
    match read_annotation_element_value(&b, &mut ix, &pool).unwrap() {
        AnnotationElementValue::ArrayValue(v) => {
            assert_eq!(v.len(), 2);
            assert!(matches!(v[0], AnnotationElementValue::IntConstant(1)));
            assert!(matches!(v[1], AnnotationElementValue::BooleanConstant(1)));
        }
        other => panic!("unexpected {:?}", other),
    }
    assert_eq!(ix, 9);
}

#[test]
fn record_component() {
    let pool = vec![ConstantPoolEntry::Placeholder, utf8("x"), utf8("I")];
    let b = [0x00, 0x01, 0x00, 0x01, 0x00, 0x02, 0x00, 0x00];
    let mut ix = 0usize;
    let v = read_record_data(&b, &mut ix, &pool, &opts()).unwrap();
    assert_eq!(ix, 8);
    assert_eq!(v[0].name, "x");
    assert_eq!(v[0].descriptor, "I");
    assert!(v[0].attributes.is_empty());
}

#[test]
fn exceptions_into_placeholder() {
    let b = [0x00, 0x01, 0x00, 0x04];
    let mut ix = 0usize;
    let e = read_exceptions_data(&b, &mut ix, &long_pool()).unwrap_err();
    assert_eq!(e.kind, ErrorKind::BadPoolIndex);
    assert_eq!(e.outermost(), Some(Frame::Entry(0)));
}
