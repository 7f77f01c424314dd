use vstd::prelude::*;
use crate::constant_pool::{
    BootstrapArgument, ConstantPoolEntry, LiteralConstant, MethodHandle, NameAndType, class_at, index_at,
    package_at, module_at, utf8_at, read_cp_bootstrap_argument, read_cp_classinfo, read_cp_classinfo_opt,
    read_cp_double, read_cp_float, read_cp_integer, read_cp_literalconstant, read_cp_long, read_cp_methodhandle,
    read_cp_moduleinfo, read_cp_nameandtype_opt, read_cp_packageinfo, read_cp_utf8, read_cp_utf8_opt,
    decode_java_utf8, readable, handle_matches, literal_matches, nat_matches, literal_resolves, handle_resolves, bootstrap_argument_resolves, nat_resolves, java_utf8_text, bootstrap_argument_matches,
};
use crate::bytecode::{ByteCode, decode_bytecode, plain_run};
use crate::cursor::{be16, be32, can_read, read_u1, read_u2, read_u4, read_bytes};
use crate::error::{ErrorKind, Frame, ParseError, fails_with, in_context};
use crate::flags::{
    InnerClassAccessFlags, MethodParameterAccessFlags, ModuleAccessFlags, ModuleExportsFlags, ModuleOpensFlags,
    ModuleRequiresFlags, INNER_CLASS_FLAGS, METHOD_PARAMETER_FLAGS, MODULE_FLAGS,
    MODULE_REQUIRES_FLAGS, MODULE_EXPORTS_FLAGS, MODULE_OPENS_FLAGS,
};
use crate::names::{
    is_field_descriptor, is_return_descriptor, is_unqualified_name, spec_is_field_descriptor,
    spec_is_return_descriptor, spec_is_unqualified_name, str_equals,
};

verus! {

/// Settings for one parse.
#[derive(Clone, Copy, Debug, PartialEq, Eq, Structural)]
pub struct ParseOptions {
    /// Decode the instructions of each Code attribute.
    pub parse_bytecode: bool,
}

#[derive(Debug)]
pub struct ExceptionTableEntry {
    pub start_pc: u16,
    pub end_pc: u16,
    pub handler_pc: u16,
    pub catch_type: Option<String>,
}

#[derive(Debug)]
pub struct CodeData {
    pub max_stack: u16,
    pub max_locals: u16,
    pub code: Vec<u8>,
    /// The decoded instructions, where the parse options ask for them.
    pub bytecode: Option<ByteCode>,
    pub exception_table: Vec<ExceptionTableEntry>,
    pub attributes: Vec<AttributeInfo>,
}

#[derive(Debug)]
pub enum VerificationType {
    Top,
    Integer,
    Float,
    Long,
    Double,
    Null,
    UninitializedThis,
    Uninitialized { code_offset: u16 },
    Object { class_name: String },
}

#[derive(Debug)]
pub enum StackMapEntry {
    Same { offset_delta: u16 },
    SameLocals1StackItem { offset_delta: u16, stack: VerificationType },
    Chop { offset_delta: u16, chop_count: u16 },
    Append { offset_delta: u16, locals: Vec<VerificationType> },
    FullFrame { offset_delta: u16, locals: Vec<VerificationType>, stack: Vec<VerificationType> },
}

#[derive(Debug)]
pub struct InnerClassEntry {
    pub inner_class_info: String,
    pub outer_class_info: Option<String>,
    pub inner_name: Option<String>,
    pub access_flags: InnerClassAccessFlags,
}

#[derive(Debug)]
pub struct LineNumberEntry {
    pub start_pc: u16,
    pub line_number: u16,
}

#[derive(Debug)]
pub struct LocalVariableEntry {
    pub start_pc: u16,
    pub length: u16,
    pub name: String,
    pub descriptor: String,
    pub index: u16,
}

#[derive(Debug)]
pub struct LocalVariableTypeEntry {
    pub start_pc: u16,
    pub length: u16,
    pub name: String,
    pub signature: String,
    pub index: u16,
}

/// An annotation element value. Double and Float hold IEEE 754 bit patterns.
#[derive(Debug)]
pub enum AnnotationElementValue {
    ByteConstant(i32),
    CharConstant(i32),
    DoubleConstant(u64),
    FloatConstant(u32),
    IntConstant(i32),
    LongConstant(i64),
    ShortConstant(i32),
    BooleanConstant(i32),
    StringConstant(String),
    EnumConstant { type_descriptor: String, const_name: String },
    ClassLiteral { class_name: String },
    AnnotationValue(Annotation),
    ArrayValue(Vec<AnnotationElementValue>),
}

#[derive(Debug)]
pub struct AnnotationElement {
    pub name: String,
    pub value: AnnotationElementValue,
}

#[derive(Debug)]
pub struct Annotation {
    pub type_descriptor: String,
    pub elements: Vec<AnnotationElement>,
}

#[derive(Debug)]
pub struct ParameterAnnotation {
    pub annotations: Vec<Annotation>,
}

#[derive(Debug)]
pub struct TypeAnnotationLocalVarTargetEntry {
    pub start_pc: u16,
    pub length: u16,
    pub index: u16,
}

#[derive(Debug)]
pub enum TypeAnnotationTarget {
    TypeParameter { index: u8 },
    Supertype { index: u16 },
    TypeParameterBound { type_parameter_index: u8, bound_index: u8 },
    Empty,
    FormalParameter { index: u8 },
    Throws { index: u16 },
    LocalVar(Vec<TypeAnnotationLocalVarTargetEntry>),
    Catch { exception_table_index: u16 },
    Offset { offset: u16 },
    TypeArgument { offset: u16, type_argument_index: u8 },
}

#[derive(Debug, PartialEq, Eq, Structural)]
pub enum TypeAnnotationTargetPathKind {
    DeeperArray,
    DeeperNested,
    WildcardTypeArgument,
    TypeArgument,
}

#[derive(Debug)]
pub struct TypeAnnotationTargetPathEntry {
    pub path_kind: TypeAnnotationTargetPathKind,
    pub argument_index: u8,
}

#[derive(Debug)]
pub struct TypeAnnotation {
    pub target_type: TypeAnnotationTarget,
    pub target_path: Vec<TypeAnnotationTargetPathEntry>,
    pub annotation: Annotation,
}

#[derive(Debug)]
pub struct BootstrapMethodEntry {
    pub method: MethodHandle,
    pub arguments: Vec<BootstrapArgument>,
}

#[derive(Debug)]
pub struct MethodParameterEntry {
    pub name: Option<String>,
    pub access_flags: MethodParameterAccessFlags,
}

#[derive(Debug)]
pub struct ModuleRequireEntry {
    pub name: String,
    pub flags: ModuleRequiresFlags,
    pub version: Option<String>,
}

#[derive(Debug)]
pub struct ModuleExportsEntry {
    pub package_name: String,
    pub flags: ModuleExportsFlags,
    pub exports_to: Vec<String>,
}

#[derive(Debug)]
pub struct ModuleOpensEntry {
    pub package_name: String,
    pub flags: ModuleOpensFlags,
    pub opens_to: Vec<String>,
}

#[derive(Debug)]
pub struct ModuleProvidesEntry {
    pub service_interface_name: String,
    pub provides_with: Vec<String>,
}

#[derive(Debug)]
pub struct ModuleData {
    pub name: String,
    pub access_flags: ModuleAccessFlags,
    pub version: Option<String>,
    pub requires_entries: Vec<ModuleRequireEntry>,
    pub exports: Vec<ModuleExportsEntry>,
    pub opens: Vec<ModuleOpensEntry>,
    pub uses: Vec<String>,
    pub provides: Vec<ModuleProvidesEntry>,
}

#[derive(Debug)]
pub struct RecordComponentEntry {
    pub name: String,
    pub descriptor: String,
    pub attributes: Vec<AttributeInfo>,
}

#[derive(Debug)]
pub enum AttributeData {
    ConstantValue(LiteralConstant),
    Code(CodeData),
    StackMapTable(Vec<StackMapEntry>),
    Exceptions(Vec<String>),
    InnerClasses(Vec<InnerClassEntry>),
    EnclosingMethod { class_name: String, method: Option<NameAndType> },
    Synthetic,
    Signature(String),
    SourceFile(String),
    SourceDebugExtension(String),
    LineNumberTable(Vec<LineNumberEntry>),
    LocalVariableTable(Vec<LocalVariableEntry>),
    LocalVariableTypeTable(Vec<LocalVariableTypeEntry>),
    Deprecated,
    RuntimeVisibleAnnotations(Vec<Annotation>),
    RuntimeInvisibleAnnotations(Vec<Annotation>),
    RuntimeVisibleParameterAnnotations(Vec<ParameterAnnotation>),
    RuntimeInvisibleParameterAnnotations(Vec<ParameterAnnotation>),
    RuntimeVisibleTypeAnnotations(Vec<TypeAnnotation>),
    RuntimeInvisibleTypeAnnotations(Vec<TypeAnnotation>),
    AnnotationDefault(AnnotationElementValue),
    BootstrapMethods(Vec<BootstrapMethodEntry>),
    MethodParameters(Vec<MethodParameterEntry>),
    Module(ModuleData),
    ModulePackages(Vec<String>),
    ModuleMainClass(String),
    NestHost(String),
    NestMembers(Vec<String>),
    Record(Vec<RecordComponentEntry>),
    Other(Vec<u8>),
}

#[derive(Debug)]
pub struct AttributeInfo {
    pub name: String,
    pub data: AttributeData,
}

/// Descriptors inside an element value are well formed: enum types are field
/// descriptors, class literals return descriptors, nested annotations valid.
pub open spec fn element_value_valid(v: AnnotationElementValue) -> bool
    decreases v,
{
    match v {
        AnnotationElementValue::EnumConstant { type_descriptor, .. } => spec_is_field_descriptor(type_descriptor@),
        AnnotationElementValue::ClassLiteral { class_name } => spec_is_return_descriptor(class_name@),
        AnnotationElementValue::AnnotationValue(a) => annotation_valid(a),
        AnnotationElementValue::ArrayValue(vs) =>
            forall|i: int| 0 <= i < vs@.len() ==> element_value_valid(#[trigger] vs@[i]),
        _ => true,
    }
}

/// The annotation's type is a field descriptor, and so is every descriptor inside it.
pub open spec fn annotation_valid(a: Annotation) -> bool
    decreases a,
{
    &&& spec_is_field_descriptor(a.type_descriptor@)
    &&& forall|i: int| 0 <= i < a.elements@.len() ==> element_value_valid(#[trigger] a.elements@[i].value)
}

/// Fails with `LengthMismatch` unless the declared length is the fixed one.
pub fn ensure_length(length: usize, expected: usize) -> (r: Result<(), ParseError>)
    ensures
        r is Ok <==> length == expected,
        r is Err ==> fails_with(r, ErrorKind::LengthMismatch),
{
    if length != expected {
        return Err(ParseError::new(ErrorKind::LengthMismatch));
    }
    Ok(())
}

/// The verification type with a one-byte encoding `t` (0 to 6).
pub open spec fn simple_verification_type(t: u8) -> VerificationType {
    if t == 0 { VerificationType::Top }
    else if t == 1 { VerificationType::Integer }
    else if t == 2 { VerificationType::Float }
    else if t == 3 { VerificationType::Double }
    else if t == 4 { VerificationType::Long }
    else if t == 5 { VerificationType::Null }
    else { VerificationType::UninitializedThis }
}

/// Size of the verification type at `p`, where it reads and resolves.
pub open spec fn vtype_size(b: Seq<u8>, pool: Seq<ConstantPoolEntry>, p: int) -> Option<int> {
    if !can_read(b, p, 1) { None }
    else if b[p] <= 6 { Some(1) }
    else if b[p] == 7 {
        if can_read(b, p + 1, 2) && class_at(pool, index_at(b, p + 1)) is Some { Some(3) } else { None }
    } else if b[p] == 8 {
        if can_read(b, p + 1, 2) { Some(3) } else { None }
    } else { None }
}

/// The verification type `v` is the one encoded at `p`.
pub open spec fn vtype_matches(b: Seq<u8>, pool: Seq<ConstantPoolEntry>, p: int, v: VerificationType) -> bool {
    &&& vtype_size(b, pool, p) is Some
    &&& b[p] <= 6 ==> v == simple_verification_type(b[p])
    &&& b[p] == 7 ==> (v matches VerificationType::Object { class_name }
            && class_at(pool, index_at(b, p + 1)) == Some(class_name@))
    &&& b[p] == 8 ==> v == (VerificationType::Uninitialized { code_offset: be16(b, p + 1) as u16 })
}

/// End of `n` verification types starting at `p`, where all of them read.
pub open spec fn vtypes_end(b: Seq<u8>, pool: Seq<ConstantPoolEntry>, p: int, n: nat) -> Option<int>
    decreases n,
{
    if n == 0 { Some(p) } else {
        match vtypes_end(b, pool, p, (n - 1) as nat) {
            Some(q) => match vtype_size(b, pool, q) {
                Some(sz) => Some(q + sz),
                None => None,
            },
            None => None,
        }
    }
}

/// `vs` are the verification types encoded from `p` on, one after another.
pub open spec fn vtypes_match(b: Seq<u8>, pool: Seq<ConstantPoolEntry>, p: int, vs: Seq<VerificationType>) -> bool {
    &&& vtypes_end(b, pool, p, vs.len()) is Some
    &&& forall|k: int| 0 <= k < vs.len() ==>
            vtype_matches(b, pool, vtypes_end(b, pool, p, k as nat)->Some_0, #[trigger] vs[k])
}

pub fn read_stackmaptable_verification(bytes: &[u8], ix: &mut usize, pool: &[ConstantPoolEntry]) -> (r: Result<VerificationType, ParseError>)
    ensures
        !can_read(bytes@, *old(ix) as int, 1) ==> fails_with(r, ErrorKind::UnexpectedEnd),
        r is Ok ==> *old(ix) < *final(ix) <= bytes@.len(),
        r is Ok <==> vtype_size(bytes@, pool@, *old(ix) as int) is Some,
        r is Ok ==> *final(ix) == *old(ix) + vtype_size(bytes@, pool@, *old(ix) as int)->Some_0
            && vtype_matches(bytes@, pool@, *old(ix) as int, r->Ok_0),
        can_read(bytes@, *old(ix) as int, 1) ==> ({
            let o = *old(ix) as int;
            let t = bytes@[o];
            &&& t <= 6 ==> r is Ok && r->Ok_0 == simple_verification_type(t) && *final(ix) == o + 1
            &&& t == 7 ==> (r is Ok <==> can_read(bytes@, o + 1, 2) && class_at(pool@, index_at(bytes@, o + 1)) is Some)
            &&& t == 7 && r is Ok ==> (r->Ok_0 matches VerificationType::Object { class_name }
                    && class_name@ == class_at(pool@, index_at(bytes@, o + 1))->Some_0 && *final(ix) == o + 3)
            &&& t == 8 ==> (r is Ok <==> can_read(bytes@, o + 1, 2))
            &&& t == 8 && r is Ok ==> r->Ok_0 == (VerificationType::Uninitialized { code_offset: be16(bytes@, o + 1) as u16 })
                    && *final(ix) == o + 3
            &&& t > 8 ==> fails_with(r, ErrorKind::UnrecognizedDiscriminant)
        }),
{
    let verification_type = match read_u1(bytes, ix)? {
        0 => VerificationType::Top,
        1 => VerificationType::Integer,
        2 => VerificationType::Float,
        3 => VerificationType::Double,
        4 => VerificationType::Long,
        5 => VerificationType::Null,
        6 => VerificationType::UninitializedThis,
        7 => {
            let class_name = read_cp_classinfo(bytes, ix, pool)?;
            VerificationType::Object { class_name }
        },
        8 => {
            let code_offset = read_u2(bytes, ix)?;
            VerificationType::Uninitialized { code_offset }
        },
        _ => {
            return Err(ParseError::new(ErrorKind::UnrecognizedDiscriminant));
        },
    };
    Ok(verification_type)
}

/// Reads `count` verification types.
fn read_verification_types(bytes: &[u8], ix: &mut usize, pool: &[ConstantPoolEntry], count: u16) -> (r: Result<Vec<VerificationType>, ParseError>)
    requires
        *old(ix) <= bytes@.len(),
    ensures
        r is Ok <==> vtypes_end(bytes@, pool@, *old(ix) as int, count as nat) is Some,
        r is Ok ==> r->Ok_0@.len() == count && *old(ix) <= *final(ix) <= bytes@.len()
            && *final(ix) == vtypes_end(bytes@, pool@, *old(ix) as int, count as nat)->Some_0
            && vtypes_match(bytes@, pool@, *old(ix) as int, r->Ok_0@),
{
    let ghost o = *old(ix) as int;
    let mut out: Vec<VerificationType> = Vec::new();
    let mut j: u16 = 0;
    while j < count
        invariant
            o == *old(ix) as int,
            out@.len() == j,
            j <= count,
            o <= *ix <= bytes@.len(),
            vtypes_end(bytes@, pool@, o, j as nat) == Some(*ix as int),
            forall|k: int| 0 <= k < j ==> vtype_matches(bytes@, pool@, vtypes_end(bytes@, pool@, o, k as nat)->Some_0, #[trigger] out@[k]),
        decreases count - j,
    {
        let ghost before = out@;
        match read_stackmaptable_verification(bytes, ix, pool) {
            Ok(v) => {
                out.push(v);
            },
            Err(e) => {
                proof { lemma_vtypes_end_none(bytes@, pool@, o, j as nat, count as nat); }
                return Err(e.wrap(Frame::Element(j)));
            },
        }
        assert(vtypes_end(bytes@, pool@, o, (j + 1) as nat) == Some(*ix as int));
        assert forall|k: int| 0 <= k < j + 1 implies vtype_matches(bytes@, pool@, vtypes_end(bytes@, pool@, o, k as nat)->Some_0, #[trigger] out@[k]) by {
            if k < j {
                assert(out@[k] == before[k]);
            }
        }
        j = j + 1;
    }
    Ok(out)
}

/// Once the types fail to read, no longer run of them reads.
proof fn lemma_vtypes_end_none(b: Seq<u8>, pool: Seq<ConstantPoolEntry>, p: int, j: nat, n: nat)
    requires
        j < n,
        vtypes_end(b, pool, p, (j + 1) as nat) is None,
    ensures
        vtypes_end(b, pool, p, n) is None,
    decreases n - j,
{
    if n > j + 1 {
        lemma_vtypes_end_none(b, pool, p, j, (n - 1) as nat);
    }
}

/// End of the stack map frame at `p`, where it reads and resolves.
pub open spec fn frame_end(b: Seq<u8>, pool: Seq<ConstantPoolEntry>, p: int) -> Option<int> {
    if !can_read(b, p, 1) { None } else {
        let t = b[p];
        if t <= 63 { Some(p + 1) }
        else if t <= 127 { vtypes_end(b, pool, p + 1, 1) }
        else if t <= 246 { None }
        else if !can_read(b, p + 1, 2) { None }
        else if t == 247 { vtypes_end(b, pool, p + 3, 1) }
        else if t <= 251 { Some(p + 3) }
        else if t <= 254 { vtypes_end(b, pool, p + 3, (t - 251) as nat) }
        else if !can_read(b, p + 3, 2) { None }
        else {
            match vtypes_end(b, pool, p + 5, be16(b, p + 3) as nat) {
                Some(q) => if can_read(b, q, 2) { vtypes_end(b, pool, q + 2, be16(b, q) as nat) } else { None },
                None => None,
            }
        }
    }
}

/// `e` is the frame encoded at `p`.
pub open spec fn frame_matches(b: Seq<u8>, pool: Seq<ConstantPoolEntry>, p: int, e: StackMapEntry) -> bool {
    let t = b[p];
    let delta = be16(b, p + 1) as u16;
    &&& frame_end(b, pool, p) is Some
    &&& t <= 63 ==> e == (StackMapEntry::Same { offset_delta: t as u16 })
    &&& 64 <= t <= 127 ==> (e matches StackMapEntry::SameLocals1StackItem { offset_delta, stack }
            && offset_delta == t - 64 && vtype_matches(b, pool, p + 1, stack))
    &&& t == 247 ==> (e matches StackMapEntry::SameLocals1StackItem { offset_delta, stack }
            && offset_delta == delta && vtype_matches(b, pool, p + 3, stack))
    &&& 248 <= t <= 250 ==> e == (StackMapEntry::Chop { offset_delta: delta, chop_count: (251 - t) as u16 })
    &&& t == 251 ==> e == (StackMapEntry::Same { offset_delta: delta })
    &&& 252 <= t <= 254 ==> (e matches StackMapEntry::Append { offset_delta, locals }
            && offset_delta == delta && locals@.len() == t - 251 && vtypes_match(b, pool, p + 3, locals@))
    &&& t == 255 ==> (e matches StackMapEntry::FullFrame { offset_delta, locals, stack }
            && offset_delta == delta && locals@.len() == be16(b, p + 3)
            && vtypes_match(b, pool, p + 5, locals@)
            && stack@.len() == be16(b, vtypes_end(b, pool, p + 5, locals@.len())->Some_0)
            && vtypes_match(b, pool, vtypes_end(b, pool, p + 5, locals@.len())->Some_0 + 2, stack@))
}

/// End of `n` frames starting at `p`, where all of them read.
pub open spec fn frames_end(b: Seq<u8>, pool: Seq<ConstantPoolEntry>, p: int, n: nat) -> Option<int>
    decreases n,
{
    if n == 0 { Some(p) } else {
        match frames_end(b, pool, p, (n - 1) as nat) {
            Some(q) => frame_end(b, pool, q),
            None => None,
        }
    }
}

/// Frame `k` of the table whose frames start at `p` is reached and has a reserved tag.
pub open spec fn frame_reserved(b: Seq<u8>, pool: Seq<ConstantPoolEntry>, p: int, k: nat) -> bool {
    let q = frames_end(b, pool, p, k);
    q is Some && can_read(b, q->Some_0, 1) && 128 <= b[q->Some_0] <= 246
}

proof fn lemma_frames_end_prefix(b: Seq<u8>, pool: Seq<ConstantPoolEntry>, p: int, j: nat, n: nat)
    requires
        j <= n,
        frames_end(b, pool, p, n) is Some,
    ensures
        frames_end(b, pool, p, j) is Some,
    decreases n - j,
{
    if j < n {
        lemma_frames_end_prefix(b, pool, p, j, (n - 1) as nat);
    }
}

proof fn lemma_frames_end_none(b: Seq<u8>, pool: Seq<ConstantPoolEntry>, p: int, j: nat, n: nat)
    requires
        j < n,
        frames_end(b, pool, p, (j + 1) as nat) is None,
    ensures
        frames_end(b, pool, p, n) is None,
    decreases n - j,
{
    if n > j + 1 {
        lemma_frames_end_none(b, pool, p, j, (n - 1) as nat);
    }
}

/// Reads one stack map frame, dispatching on its one-byte frame type.
pub fn read_stackmap_frame(bytes: &[u8], ix: &mut usize, pool: &[ConstantPoolEntry]) -> (r: Result<StackMapEntry, ParseError>)
    ensures
        !can_read(bytes@, *old(ix) as int, 1) ==> fails_with(r, ErrorKind::UnexpectedEnd),
        r is Ok ==> *old(ix) < *final(ix) <= bytes@.len(),
        r is Ok <==> frame_end(bytes@, pool@, *old(ix) as int) is Some,
        r is Ok ==> *final(ix) == frame_end(bytes@, pool@, *old(ix) as int)->Some_0
            && frame_matches(bytes@, pool@, *old(ix) as int, r->Ok_0),
        can_read(bytes@, *old(ix) as int, 1) ==> ({
            let o = *old(ix) as int;
            let t = bytes@[o];
            let delta = be16(bytes@, o + 1) as u16;
            &&& t <= 63 ==> r is Ok && r->Ok_0 == (StackMapEntry::Same { offset_delta: t as u16 }) && *final(ix) == o + 1
            &&& 64 <= t <= 127 && r is Ok ==> (r->Ok_0 matches StackMapEntry::SameLocals1StackItem { offset_delta, .. }
                    && offset_delta == t - 64)
            &&& 128 <= t <= 246 ==> fails_with(r, ErrorKind::UnrecognizedDiscriminant)
            &&& t == 247 && r is Ok ==> (r->Ok_0 matches StackMapEntry::SameLocals1StackItem { offset_delta, .. }
                    && offset_delta == delta)
            &&& 248 <= t <= 250 ==> (r is Ok <==> can_read(bytes@, o + 1, 2))
            &&& 248 <= t <= 250 && r is Ok ==> r->Ok_0 == (StackMapEntry::Chop { offset_delta: delta, chop_count: (251 - t) as u16 })
                    && *final(ix) == o + 3
            &&& t == 251 ==> (r is Ok <==> can_read(bytes@, o + 1, 2))
            &&& t == 251 && r is Ok ==> r->Ok_0 == (StackMapEntry::Same { offset_delta: delta }) && *final(ix) == o + 3
            &&& 252 <= t <= 254 && r is Ok ==> (r->Ok_0 matches StackMapEntry::Append { offset_delta, locals }
                    && offset_delta == delta && locals@.len() == t - 251)
            &&& t == 255 && r is Ok ==> (r->Ok_0 matches StackMapEntry::FullFrame { offset_delta, locals, .. }
                    && offset_delta == delta && locals@.len() == be16(bytes@, o + 3))
        }),
{
    if *ix > bytes.len() {
        return Err(ParseError::new(ErrorKind::UnexpectedEnd));
    }
    proof {
        reveal_with_fuel(vtypes_end, 2);
    }
    let tag = read_u1(bytes, ix)?;
    let entry = if tag <= 63 {
        StackMapEntry::Same { offset_delta: tag as u16 }
    } else if tag <= 127 {
        let stack = read_stackmaptable_verification(bytes, ix, pool)?;
        StackMapEntry::SameLocals1StackItem { offset_delta: (tag - 64) as u16, stack }
    } else if tag <= 246 {
        return Err(ParseError::new(ErrorKind::UnrecognizedDiscriminant));
    } else if tag == 247 {
        let offset_delta = read_u2(bytes, ix)?;
        let stack = read_stackmaptable_verification(bytes, ix, pool)?;
        StackMapEntry::SameLocals1StackItem { offset_delta, stack }
    } else if tag <= 250 {
        let offset_delta = read_u2(bytes, ix)?;
        StackMapEntry::Chop { offset_delta, chop_count: (251 - tag) as u16 }
    } else if tag == 251 {
        let offset_delta = read_u2(bytes, ix)?;
        StackMapEntry::Same { offset_delta }
    } else if tag <= 254 {
        let offset_delta = read_u2(bytes, ix)?;
        let locals = read_verification_types(bytes, ix, pool, (tag - 251) as u16)?;
        StackMapEntry::Append { offset_delta, locals }
    } else {
        let offset_delta = read_u2(bytes, ix)?;
        let locals_count = read_u2(bytes, ix)?;
        let locals = in_context(read_verification_types(bytes, ix, pool, locals_count), Frame::Entry(0))?;
        let stack_count = read_u2(bytes, ix)?;
        let stack = in_context(read_verification_types(bytes, ix, pool, stack_count), Frame::Entry(1))?;
        StackMapEntry::FullFrame { offset_delta, locals, stack }
    };
    Ok(entry)
}

pub fn read_stackmaptable_data(bytes: &[u8], ix: &mut usize, pool: &[ConstantPoolEntry]) -> (r: Result<Vec<StackMapEntry>, ParseError>)
    ensures
        !can_read(bytes@, *old(ix) as int, 2) ==> fails_with(r, ErrorKind::UnexpectedEnd),
        r is Ok <==> can_read(bytes@, *old(ix) as int, 2)
            && frames_end(bytes@, pool@, *old(ix) + 2, be16(bytes@, *old(ix) as int) as nat) is Some,
        r is Ok ==> r->Ok_0@.len() == be16(bytes@, *old(ix) as int) && *old(ix) + 2 <= *final(ix) <= bytes@.len()
            && *final(ix) == frames_end(bytes@, pool@, *old(ix) + 2, be16(bytes@, *old(ix) as int) as nat)->Some_0
            && forall|k: int| 0 <= k < r->Ok_0@.len() ==> frame_matches(bytes@, pool@,
                frames_end(bytes@, pool@, *old(ix) + 2, k as nat)->Some_0, #[trigger] r->Ok_0@[k]),
        can_read(bytes@, *old(ix) as int, 3) && be16(bytes@, *old(ix) as int) > 0
            && 128 <= bytes@[*old(ix) + 2] <= 246 ==> fails_with(r, ErrorKind::UnrecognizedDiscriminant),
        forall|k: nat| k < be16(bytes@, *old(ix) as int) && can_read(bytes@, *old(ix) as int, 2)
            && #[trigger] frame_reserved(bytes@, pool@, *old(ix) + 2, k) ==>
            fails_with(r, ErrorKind::UnrecognizedDiscriminant) && r->Err_0.context@.last() == Frame::Entry(k as u16),
{
    if *ix > bytes.len() {
        return Err(ParseError::new(ErrorKind::UnexpectedEnd));
    }
    let ghost o = *old(ix) as int;
    let count = read_u2(bytes, ix)?;
    let mut frames: Vec<StackMapEntry> = Vec::new();
    let mut i: u16 = 0;
    while i < count
        invariant
            o == *old(ix) as int,
            can_read(bytes@, o, 2),
            count == be16(bytes@, o),
            frames@.len() == i,
            i <= count,
            o + 2 <= *ix <= bytes@.len(),
            frames_end(bytes@, pool@, o + 2, i as nat) == Some(*ix as int),
            i == 0 ==> *ix == o + 2,
            i > 0 ==> frame_end(bytes@, pool@, o + 2) is Some,
            forall|k: nat| k < i ==> !#[trigger] frame_reserved(bytes@, pool@, o + 2, k),
            forall|k: int| 0 <= k < i ==> frame_matches(bytes@, pool@,
                frames_end(bytes@, pool@, o + 2, k as nat)->Some_0, #[trigger] frames@[k]),
        decreases count - i,
    {
        let ghost before = frames@;
        match read_stackmap_frame(bytes, ix, pool) {
            Ok(f) => {
                frames.push(f);
            },
            Err(e) => {
                proof { lemma_frames_end_none(bytes@, pool@, o + 2, i as nat, count as nat); }
                let out = e.wrap(Frame::Entry(i));
                proof {
                    assert forall|k: nat| k < count && #[trigger] frame_reserved(bytes@, pool@, o + 2, k) implies
                        out.kind == ErrorKind::UnrecognizedDiscriminant && out.context@.last() == Frame::Entry(k as u16) by {
                        if k < i {
                            assert(!frame_reserved(bytes@, pool@, o + 2, k));
                        } else if k > i {
                            lemma_frames_end_prefix(bytes@, pool@, o + 2, (i + 1) as nat, k);
                        }
                    }
                }
                return Err(out);
            },
        }
        assert(frames_end(bytes@, pool@, o + 2, (i + 1) as nat) == Some(*ix as int));
        assert forall|k: nat| k < i + 1 implies !#[trigger] frame_reserved(bytes@, pool@, o + 2, k) by {
            if k == i {
                assert(frame_end(bytes@, pool@, frames_end(bytes@, pool@, o + 2, k)->Some_0) is Some);
            }
        }
        assert forall|k: int| 0 <= k < i + 1 implies frame_matches(bytes@, pool@,
            frames_end(bytes@, pool@, o + 2, k as nat)->Some_0, #[trigger] frames@[k]) by {
            if k < i {
                assert(frames@[k] == before[k]);
            }
        }
        i = i + 1;
    }
    Ok(frames)
}

/// The class name that entry `k` of a u16-counted list of class indices at `o` names.
pub open spec fn class_list_item(b: Seq<u8>, pool: Seq<ConstantPoolEntry>, o: int, k: int) -> Option<Seq<char>> {
    class_at(pool, index_at(b, o + 2 + 2 * k))
}

/// Entry `k` of the class list at `o` is in the input but names no readable pool slot.
pub open spec fn class_list_item_unreadable(b: Seq<u8>, pool: Seq<ConstantPoolEntry>, o: int, k: int) -> bool {
    can_read(b, o + 2 + 2 * k, 2) && !readable(pool, index_at(b, o + 2 + 2 * k))
}

/// A u16 count at `o`, then that many ClassInfo indices, all in the input and all resolving.
pub open spec fn class_list_ok(b: Seq<u8>, pool: Seq<ConstantPoolEntry>, o: int) -> bool {
    &&& can_read(b, o, 2)
    &&& can_read(b, o + 2, 2 * be16(b, o))
    &&& forall|k: int| 0 <= k < be16(b, o) ==> (#[trigger] class_list_item(b, pool, o, k)) is Some
}

/// The names that a class list at `o` gives, when `class_list_ok` holds.
pub open spec fn class_list_matches(b: Seq<u8>, pool: Seq<ConstantPoolEntry>, o: int, r: Seq<String>) -> bool {
    &&& r.len() == be16(b, o)
    &&& forall|k: int| 0 <= k < r.len() ==> (#[trigger] r[k])@ == class_list_item(b, pool, o, k)->Some_0
}

fn read_class_list(bytes: &[u8], ix: &mut usize, pool: &[ConstantPoolEntry]) -> (r: Result<Vec<String>, ParseError>)
    ensures
        r is Ok <==> class_list_ok(bytes@, pool@, *old(ix) as int),
        r is Ok ==> class_list_matches(bytes@, pool@, *old(ix) as int, r->Ok_0@)
            && *final(ix) == *old(ix) + 2 + 2 * be16(bytes@, *old(ix) as int),
        !can_read(bytes@, *old(ix) as int, 2) ==> fails_with(r, ErrorKind::UnexpectedEnd),
        forall|k: int| 0 <= k < be16(bytes@, *old(ix) as int) && can_read(bytes@, *old(ix) as int, 2)
            && (forall|j: int| 0 <= j < k ==> (#[trigger] class_list_item(bytes@, pool@, *old(ix) as int, j)) is Some)
            && #[trigger] class_list_item_unreadable(bytes@, pool@, *old(ix) as int, k) ==>
            fails_with(r, ErrorKind::BadPoolIndex) && r->Err_0.context@.last() == Frame::Entry(k as u16),
{
    let ghost o = *old(ix) as int;
    let count = read_u2(bytes, ix)?;
    let mut names: Vec<String> = Vec::new();
    let mut i: u16 = 0;
    while i < count
        invariant
            o == *old(ix) as int,
            can_read(bytes@, o, 2),
            count == be16(bytes@, o),
            i <= count,
            *ix == o + 2 + 2 * i,
            *ix <= bytes@.len(),
            names@.len() == i,
            forall|k: int| 0 <= k < i ==> (#[trigger] class_list_item(bytes@, pool@, o, k)) is Some,
            forall|k: int| 0 <= k < i ==> (#[trigger] names@[k])@ == class_list_item(bytes@, pool@, o, k)->Some_0,
        decreases count - i,
    {
        match read_cp_classinfo(bytes, ix, pool) {
            Ok(s) => {
                assert(class_list_item(bytes@, pool@, o, i as int) is Some);
                names.push(s);
            },
            Err(e) => {
                assert(!class_list_ok(bytes@, pool@, o)) by {
                    if can_read(bytes@, o + 2, 2 * be16(bytes@, o)) {
                        assert(class_list_item(bytes@, pool@, o, i as int) is None);
                    }
                }
                let out = e.wrap(Frame::Entry(i));
                proof {
                    assert forall|k: int| 0 <= k < count && can_read(bytes@, o, 2)
                        && (forall|j: int| 0 <= j < k ==> (#[trigger] class_list_item(bytes@, pool@, o, j)) is Some)
                        && #[trigger] class_list_item_unreadable(bytes@, pool@, o, k) implies
                        out.kind == ErrorKind::BadPoolIndex && out.context@.last() == Frame::Entry(k as u16) by {
                        if k < i {
                            assert(class_list_item(bytes@, pool@, o, k) is Some);
                        } else if k > i {
                            assert(class_list_item(bytes@, pool@, o, i as int) is Some);
                        }
                    }
                }
                return Err(out);
            },
        }
        i = i + 1;
    }
    assert forall|k: int| 0 <= k < count && #[trigger] class_list_item_unreadable(bytes@, pool@, o, k) implies false by {
        assert(class_list_item(bytes@, pool@, o, k) is Some);
    }
    Ok(names)
}

/// Exceptions: the class names that a method declares it throws.
pub fn read_exceptions_data(bytes: &[u8], ix: &mut usize, pool: &[ConstantPoolEntry]) -> (r: Result<Vec<String>, ParseError>)
    ensures
        r is Ok <==> class_list_ok(bytes@, pool@, *old(ix) as int),
        r is Ok ==> class_list_matches(bytes@, pool@, *old(ix) as int, r->Ok_0@)
            && *final(ix) == *old(ix) + 2 + 2 * be16(bytes@, *old(ix) as int),
        !can_read(bytes@, *old(ix) as int, 2) ==> fails_with(r, ErrorKind::UnexpectedEnd),
        forall|k: int| 0 <= k < be16(bytes@, *old(ix) as int) && can_read(bytes@, *old(ix) as int, 2)
            && (forall|j: int| 0 <= j < k ==> (#[trigger] class_list_item(bytes@, pool@, *old(ix) as int, j)) is Some)
            && #[trigger] class_list_item_unreadable(bytes@, pool@, *old(ix) as int, k) ==>
            fails_with(r, ErrorKind::BadPoolIndex) && r->Err_0.context@.last() == Frame::Entry(k as u16),
{
    read_class_list(bytes, ix, pool)
}

/// NestMembers: the class names of the nest's members.
pub fn read_nestmembers_data(bytes: &[u8], ix: &mut usize, pool: &[ConstantPoolEntry]) -> (r: Result<Vec<String>, ParseError>)
    ensures
        r is Ok <==> class_list_ok(bytes@, pool@, *old(ix) as int),
        r is Ok ==> class_list_matches(bytes@, pool@, *old(ix) as int, r->Ok_0@)
            && *final(ix) == *old(ix) + 2 + 2 * be16(bytes@, *old(ix) as int),
        !can_read(bytes@, *old(ix) as int, 2) ==> fails_with(r, ErrorKind::UnexpectedEnd),
        forall|k: int| 0 <= k < be16(bytes@, *old(ix) as int) && can_read(bytes@, *old(ix) as int, 2)
            && (forall|j: int| 0 <= j < k ==> (#[trigger] class_list_item(bytes@, pool@, *old(ix) as int, j)) is Some)
            && #[trigger] class_list_item_unreadable(bytes@, pool@, *old(ix) as int, k) ==>
            fails_with(r, ErrorKind::BadPoolIndex) && r->Err_0.context@.last() == Frame::Entry(k as u16),
{
    read_class_list(bytes, ix, pool)
}

pub open spec fn package_list_item(b: Seq<u8>, pool: Seq<ConstantPoolEntry>, o: int, k: int) -> Option<Seq<char>> {
    package_at(pool, index_at(b, o + 2 + 2 * k))
}

pub open spec fn package_list_ok(b: Seq<u8>, pool: Seq<ConstantPoolEntry>, o: int) -> bool {
    &&& can_read(b, o, 2)
    &&& can_read(b, o + 2, 2 * be16(b, o))
    &&& forall|k: int| 0 <= k < be16(b, o) ==> (#[trigger] package_list_item(b, pool, o, k)) is Some
}

/// ModulePackages: the package names of a module.
pub fn read_modulepackages_data(bytes: &[u8], ix: &mut usize, pool: &[ConstantPoolEntry]) -> (r: Result<Vec<String>, ParseError>)
    ensures
        r is Ok <==> package_list_ok(bytes@, pool@, *old(ix) as int),
        r is Ok ==> r->Ok_0@.len() == be16(bytes@, *old(ix) as int)
            && *final(ix) == *old(ix) + 2 + 2 * be16(bytes@, *old(ix) as int)
            && forall|k: int| 0 <= k < r->Ok_0@.len() ==>
                (#[trigger] r->Ok_0@[k])@ == package_list_item(bytes@, pool@, *old(ix) as int, k)->Some_0,
        !can_read(bytes@, *old(ix) as int, 2) ==> fails_with(r, ErrorKind::UnexpectedEnd),
{
    let ghost o = *old(ix) as int;
    let count = read_u2(bytes, ix)?;
    let mut packages: Vec<String> = Vec::new();
    let mut i: u16 = 0;
    while i < count
        invariant
            o == *old(ix) as int,
            can_read(bytes@, o, 2),
            count == be16(bytes@, o),
            i <= count,
            *ix == o + 2 + 2 * i,
            *ix <= bytes@.len(),
            packages@.len() == i,
            forall|k: int| 0 <= k < i ==> (#[trigger] package_list_item(bytes@, pool@, o, k)) is Some,
            forall|k: int| 0 <= k < i ==> (#[trigger] packages@[k])@ == package_list_item(bytes@, pool@, o, k)->Some_0,
        decreases count - i,
    {
        match read_cp_packageinfo(bytes, ix, pool) {
            Ok(s) => {
                assert(package_list_item(bytes@, pool@, o, i as int) is Some);
                packages.push(s);
            },
            Err(e) => {
                assert(!package_list_ok(bytes@, pool@, o)) by {
                    if can_read(bytes@, o + 2, 2 * be16(bytes@, o)) {
                        assert(package_list_item(bytes@, pool@, o, i as int) is None);
                    }
                }
                return Err(e.wrap(Frame::Entry(i)));
            },
        }
        i = i + 1;
    }
    Ok(packages)
}

/// LineNumberTable entries: `start_pc` and `line_number`, four bytes each, after a u16 count.
pub fn read_linenumber_data(bytes: &[u8], ix: &mut usize) -> (r: Result<Vec<LineNumberEntry>, ParseError>)
    ensures
        r is Ok <==> can_read(bytes@, *old(ix) as int, 2)
            && can_read(bytes@, *old(ix) + 2, 4 * be16(bytes@, *old(ix) as int)),
        r is Err ==> fails_with(r, ErrorKind::UnexpectedEnd),
        r is Ok ==> ({
            let o = *old(ix) as int;
            &&& r->Ok_0@.len() == be16(bytes@, o)
            &&& *final(ix) == o + 2 + 4 * be16(bytes@, o)
            &&& forall|k: int| 0 <= k < r->Ok_0@.len() ==> (#[trigger] r->Ok_0@[k]) == (LineNumberEntry {
                    start_pc: be16(bytes@, o + 2 + 4 * k) as u16,
                    line_number: be16(bytes@, o + 4 + 4 * k) as u16,
                })
        }),
{
    let ghost o = *old(ix) as int;
    let count = read_u2(bytes, ix)?;
    let mut entries: Vec<LineNumberEntry> = Vec::new();
    let mut i: u16 = 0;
    while i < count
        invariant
            o == *old(ix) as int,
            can_read(bytes@, o, 2),
            count == be16(bytes@, o),
            i <= count,
            *ix == o + 2 + 4 * i,
            *ix <= bytes@.len(),
            entries@.len() == i,
            forall|k: int| 0 <= k < i ==> (#[trigger] entries@[k]) == (LineNumberEntry {
                start_pc: be16(bytes@, o + 2 + 4 * k) as u16,
                line_number: be16(bytes@, o + 4 + 4 * k) as u16,
            }),
        decreases count - i,
    {
        let start_pc = read_u2(bytes, ix)?;
        let line_number = read_u2(bytes, ix)?;
        entries.push(LineNumberEntry { start_pc, line_number });
        i = i + 1;
    }
    Ok(entries)
}

/// Start of entry `k` of a u16-counted table of `size`-byte entries at `o`.
pub open spec fn entry_pos(o: int, size: int, k: int) -> int {
    o + 2 + size * k
}

/// Entry `k` of a LocalVariableTable (or LocalVariableTypeTable) at `o`: a name
/// that is an unqualified name, and, where `descriptor` is set, a field descriptor.
pub open spec fn local_variable_ok(b: Seq<u8>, pool: Seq<ConstantPoolEntry>, o: int, k: int, descriptor: bool) -> bool {
    let p = entry_pos(o, 10, k);
    let name = utf8_at(pool, index_at(b, p + 4));
    let desc = utf8_at(pool, index_at(b, p + 6));
    &&& name is Some && spec_is_unqualified_name(name->Some_0, false, false)
    &&& desc is Some && (descriptor ==> spec_is_field_descriptor(desc->Some_0))
}

pub open spec fn local_variable_table_ok(b: Seq<u8>, pool: Seq<ConstantPoolEntry>, o: int, descriptor: bool) -> bool {
    &&& can_read(b, o, 2)
    &&& can_read(b, o + 2, 10 * be16(b, o))
    &&& forall|k: int| 0 <= k < be16(b, o) ==> #[trigger] local_variable_ok(b, pool, o, k, descriptor)
}

pub open spec fn local_variable_matches(b: Seq<u8>, pool: Seq<ConstantPoolEntry>, o: int, k: int, e: LocalVariableEntry) -> bool {
    let p = entry_pos(o, 10, k);
    &&& e.start_pc == be16(b, p)
    &&& e.length == be16(b, p + 2)
    &&& Some(e.name@) == utf8_at(pool, index_at(b, p + 4))
    &&& Some(e.descriptor@) == utf8_at(pool, index_at(b, p + 6))
    &&& e.index == be16(b, p + 8)
}

pub open spec fn local_variable_type_matches(b: Seq<u8>, pool: Seq<ConstantPoolEntry>, o: int, k: int, e: LocalVariableTypeEntry) -> bool {
    let p = entry_pos(o, 10, k);
    &&& e.start_pc == be16(b, p)
    &&& e.length == be16(b, p + 2)
    &&& Some(e.name@) == utf8_at(pool, index_at(b, p + 4))
    &&& Some(e.signature@) == utf8_at(pool, index_at(b, p + 6))
    &&& e.index == be16(b, p + 8)
}

/// The name index at `p` resolves to a string that is not an unqualified name.
pub open spec fn name_invalid_at(b: Seq<u8>, pool: Seq<ConstantPoolEntry>, p: int) -> bool {
    let name = utf8_at(pool, index_at(b, p));
    name is Some && !spec_is_unqualified_name(name->Some_0, false, false)
}

/// The name at `p` is valid, and the descriptor index at `p + 2` resolves to a
/// string that is not a field descriptor.
pub open spec fn descriptor_invalid_at(b: Seq<u8>, pool: Seq<ConstantPoolEntry>, p: int) -> bool {
    let name = utf8_at(pool, index_at(b, p));
    let desc = utf8_at(pool, index_at(b, p + 2));
    &&& name is Some && spec_is_unqualified_name(name->Some_0, false, false)
    &&& desc is Some && !spec_is_field_descriptor(desc->Some_0)
}

/// Reads one name/descriptor pair of a local variable entry, checking the name
/// and, where `descriptor` is set, the descriptor.
fn read_variable_strings(bytes: &[u8], ix: &mut usize, pool: &[ConstantPoolEntry], descriptor: bool) -> (r: Result<(String, String), ParseError>)
    ensures
        r is Ok <==> can_read(bytes@, *old(ix) as int, 4) && ({
            let name = utf8_at(pool@, index_at(bytes@, *old(ix) as int));
            let desc = utf8_at(pool@, index_at(bytes@, *old(ix) + 2));
            &&& name is Some && spec_is_unqualified_name(name->Some_0, false, false)
            &&& desc is Some && (descriptor ==> spec_is_field_descriptor(desc->Some_0))
        }),
        r is Ok ==> *final(ix) == *old(ix) + 4
            && Some(r->Ok_0.0@) == utf8_at(pool@, index_at(bytes@, *old(ix) as int))
            && Some(r->Ok_0.1@) == utf8_at(pool@, index_at(bytes@, *old(ix) + 2)),
        can_read(bytes@, *old(ix) as int, 4) && name_invalid_at(bytes@, pool@, *old(ix) as int) ==>
            fails_with(r, ErrorKind::InvalidName),
        can_read(bytes@, *old(ix) as int, 4) && descriptor && descriptor_invalid_at(bytes@, pool@, *old(ix) as int) ==>
            fails_with(r, ErrorKind::InvalidDescriptor),
{
    let name = in_context(read_cp_utf8(bytes, ix, pool), Frame::Element(0))?;
    if !is_unqualified_name(name.as_str(), false, false) {
        return Err(ParseError::new(ErrorKind::InvalidName));
    }
    let desc = in_context(read_cp_utf8(bytes, ix, pool), Frame::Element(1))?;
    if descriptor && !is_field_descriptor(desc.as_str()) {
        return Err(ParseError::new(ErrorKind::InvalidDescriptor));
    }
    Ok((name, desc))
}

/// Reads one ten-byte local variable entry at the cursor.
fn read_local_variable_entry(bytes: &[u8], ix: &mut usize, pool: &[ConstantPoolEntry]) -> (r: Result<LocalVariableEntry, ParseError>)
    ensures
        r is Ok <==> can_read(bytes@, *old(ix) as int, 10) && ({
            let name = utf8_at(pool@, index_at(bytes@, *old(ix) + 4));
            let desc = utf8_at(pool@, index_at(bytes@, *old(ix) + 6));
            &&& name is Some && spec_is_unqualified_name(name->Some_0, false, false)
            &&& desc is Some && spec_is_field_descriptor(desc->Some_0)
        }),
        r is Ok ==> *final(ix) == *old(ix) + 10 && local_variable_matches(bytes@, pool@, *old(ix) - 2, 0, r->Ok_0),
        can_read(bytes@, *old(ix) as int, 10) && name_invalid_at(bytes@, pool@, *old(ix) + 4) ==>
            fails_with(r, ErrorKind::InvalidName),
        can_read(bytes@, *old(ix) as int, 10) && descriptor_invalid_at(bytes@, pool@, *old(ix) + 4) ==>
            fails_with(r, ErrorKind::InvalidDescriptor),
{
    let start_pc = read_u2(bytes, ix)?;
    let length = read_u2(bytes, ix)?;
    let (name, descriptor) = read_variable_strings(bytes, ix, pool, true)?;
    let index = read_u2(bytes, ix)?;
    Ok(LocalVariableEntry { start_pc, length, name, descriptor, index })
}

/// Entry `k` of the LocalVariableTable at `o` is in the input, the entries before it are fine.
pub open spec fn local_variable_reached(b: Seq<u8>, pool: Seq<ConstantPoolEntry>, o: int, k: int) -> bool {
    &&& can_read(b, o, 2)
    &&& 0 <= k < be16(b, o)
    &&& can_read(b, entry_pos(o, 10, k), 10)
    &&& forall|j: int| 0 <= j < k ==> #[trigger] local_variable_ok(b, pool, o, j, true)
}

/// LocalVariableTable: ten-byte entries whose names are unqualified names and
/// whose descriptors are field descriptors.
#[verifier::rlimit(100)]
pub fn read_localvariable_data(bytes: &[u8], ix: &mut usize, pool: &[ConstantPoolEntry]) -> (r: Result<Vec<LocalVariableEntry>, ParseError>)
    ensures
        r is Ok <==> local_variable_table_ok(bytes@, pool@, *old(ix) as int, true),
        forall|k: int| #[trigger] local_variable_reached(bytes@, pool@, *old(ix) as int, k)
            && name_invalid_at(bytes@, pool@, entry_pos(*old(ix) as int, 10, k) + 4) ==>
            fails_with(r, ErrorKind::InvalidName) && r->Err_0.context@.last() == Frame::Entry(k as u16),
        forall|k: int| #[trigger] local_variable_reached(bytes@, pool@, *old(ix) as int, k)
            && descriptor_invalid_at(bytes@, pool@, entry_pos(*old(ix) as int, 10, k) + 4) ==>
            fails_with(r, ErrorKind::InvalidDescriptor) && r->Err_0.context@.last() == Frame::Entry(k as u16),
        r is Ok ==> ({
            let o = *old(ix) as int;
            &&& r->Ok_0@.len() == be16(bytes@, o)
            &&& *final(ix) == o + 2 + 10 * be16(bytes@, o)
            &&& forall|k: int| 0 <= k < r->Ok_0@.len() ==>
                    local_variable_matches(bytes@, pool@, o, k, #[trigger] r->Ok_0@[k])
            &&& forall|k: int| 0 <= k < r->Ok_0@.len() ==>
                    spec_is_unqualified_name((#[trigger] r->Ok_0@[k]).name@, false, false)
                    && spec_is_field_descriptor(r->Ok_0@[k].descriptor@)
        }),
        !can_read(bytes@, *old(ix) as int, 2) ==> fails_with(r, ErrorKind::UnexpectedEnd),
{
    let ghost o = *old(ix) as int;
    let count = read_u2(bytes, ix)?;
    let mut entries: Vec<LocalVariableEntry> = Vec::new();
    let mut i: u16 = 0;
    while i < count
        invariant
            o == *old(ix) as int,
            can_read(bytes@, o, 2),
            count == be16(bytes@, o),
            i <= count,
            *ix == entry_pos(o, 10, i as int),
            *ix <= bytes@.len(),
            entries@.len() == i,
            forall|k: int| 0 <= k < i ==> #[trigger] local_variable_ok(bytes@, pool@, o, k, true),
            forall|k: int| 0 <= k < i ==> local_variable_matches(bytes@, pool@, o, k, #[trigger] entries@[k]),
        decreases count - i,
    {
        match read_local_variable_entry(bytes, ix, pool) {
            Ok(entry) => {
                assert(local_variable_ok(bytes@, pool@, o, i as int, true));
                assert(local_variable_matches(bytes@, pool@, o, i as int, entry));
                entries.push(entry);
            },
            Err(e) => {
                let out = e.wrap(Frame::Entry(i));
                proof {
                    assert(!local_variable_table_ok(bytes@, pool@, o, true)) by {
                        if can_read(bytes@, o + 2, 10 * be16(bytes@, o)) {
                            assert(!local_variable_ok(bytes@, pool@, o, i as int, true));
                        }
                    }
                    assert forall|k: int| #[trigger] local_variable_reached(bytes@, pool@, o, k)
                        && (name_invalid_at(bytes@, pool@, entry_pos(o, 10, k) + 4)
                            || descriptor_invalid_at(bytes@, pool@, entry_pos(o, 10, k) + 4)) implies
                        k == i && out.context@.last() == Frame::Entry(k as u16) by {
                        if k < i {
                            assert(local_variable_ok(bytes@, pool@, o, k, true));
                        } else if k > i {
                            assert(local_variable_ok(bytes@, pool@, o, i as int, true));
                        }
                    }
                }
                return Err(out);
            },
        }
        i = i + 1;
    }
    assert forall|k: int| #[trigger] local_variable_reached(bytes@, pool@, o, k)
        && (name_invalid_at(bytes@, pool@, entry_pos(o, 10, k) + 4)
            || descriptor_invalid_at(bytes@, pool@, entry_pos(o, 10, k) + 4)) implies false by {
        assert(local_variable_ok(bytes@, pool@, o, k, true));
    }
    assert forall|k: int| 0 <= k < entries@.len() implies
        spec_is_unqualified_name((#[trigger] entries@[k]).name@, false, false)
        && spec_is_field_descriptor(entries@[k].descriptor@) by {
        assert(local_variable_ok(bytes@, pool@, o, k, true));
        assert(local_variable_matches(bytes@, pool@, o, k, entries@[k]));
    }
    Ok(entries)
}

/// LocalVariableTypeTable: ten-byte entries whose names are unqualified names;
/// the signatures are kept as they stand.
pub fn read_localvariabletype_data(bytes: &[u8], ix: &mut usize, pool: &[ConstantPoolEntry]) -> (r: Result<Vec<LocalVariableTypeEntry>, ParseError>)
    ensures
        r is Ok <==> local_variable_table_ok(bytes@, pool@, *old(ix) as int, false),
        r is Ok ==> ({
            let o = *old(ix) as int;
            &&& r->Ok_0@.len() == be16(bytes@, o)
            &&& *final(ix) == o + 2 + 10 * be16(bytes@, o)
            &&& forall|k: int| 0 <= k < r->Ok_0@.len() ==>
                    local_variable_type_matches(bytes@, pool@, o, k, #[trigger] r->Ok_0@[k])
            &&& forall|k: int| 0 <= k < r->Ok_0@.len() ==>
                    spec_is_unqualified_name((#[trigger] r->Ok_0@[k]).name@, false, false)
        }),
        !can_read(bytes@, *old(ix) as int, 2) ==> fails_with(r, ErrorKind::UnexpectedEnd),
{
    let ghost o = *old(ix) as int;
    let count = read_u2(bytes, ix)?;
    let mut entries: Vec<LocalVariableTypeEntry> = Vec::new();
    let mut i: u16 = 0;
    while i < count
        invariant
            o == *old(ix) as int,
            can_read(bytes@, o, 2),
            count == be16(bytes@, o),
            i <= count,
            *ix == entry_pos(o, 10, i as int),
            *ix <= bytes@.len(),
            entries@.len() == i,
            forall|k: int| 0 <= k < i ==> #[trigger] local_variable_ok(bytes@, pool@, o, k, false),
            forall|k: int| 0 <= k < i ==> local_variable_type_matches(bytes@, pool@, o, k, #[trigger] entries@[k]),
        decreases count - i,
    {
        let start_pc = match read_u2(bytes, ix) {
            Ok(v) => v,
            Err(e) => { return Err(e.wrap(Frame::Entry(i))); },
        };
        let length = match read_u2(bytes, ix) {
            Ok(v) => v,
            Err(e) => { return Err(e.wrap(Frame::Entry(i))); },
        };
        let (name, signature) = match read_variable_strings(bytes, ix, pool, false) {
            Ok(v) => v,
            Err(e) => {
                assert(!local_variable_table_ok(bytes@, pool@, o, false)) by {
                    if can_read(bytes@, o + 2, 10 * be16(bytes@, o)) {
                        assert(!local_variable_ok(bytes@, pool@, o, i as int, false));
                    }
                }
                return Err(e.wrap(Frame::Entry(i)));
            },
        };
        let index = match read_u2(bytes, ix) {
            Ok(v) => v,
            Err(e) => { return Err(e.wrap(Frame::Entry(i))); },
        };
        let entry = LocalVariableTypeEntry { start_pc, length, name, signature, index };
        assert(local_variable_ok(bytes@, pool@, o, i as int, false));
        assert(local_variable_type_matches(bytes@, pool@, o, i as int, entry));
        entries.push(entry);
        i = i + 1;
    }
    assert forall|k: int| 0 <= k < entries@.len() implies
        spec_is_unqualified_name((#[trigger] entries@[k]).name@, false, false) by {
        assert(local_variable_ok(bytes@, pool@, o, k, false));
        assert(local_variable_type_matches(bytes@, pool@, o, k, entries@[k]));
    }
    Ok(entries)
}

/// An optional class reference at pool index `i` (0 means absent) resolves.
pub open spec fn opt_class_ok(pool: Seq<ConstantPoolEntry>, i: int) -> bool {
    i == 0 || class_at(pool, i) is Some
}

pub open spec fn opt_class_matches(pool: Seq<ConstantPoolEntry>, i: int, v: Option<String>) -> bool {
    if i == 0 { v is None } else { v is Some && class_at(pool, i) == Some(v->Some_0@) }
}

pub open spec fn opt_utf8_ok(pool: Seq<ConstantPoolEntry>, i: int) -> bool {
    i == 0 || utf8_at(pool, i) is Some
}

pub open spec fn opt_utf8_matches(pool: Seq<ConstantPoolEntry>, i: int, v: Option<String>) -> bool {
    if i == 0 { v is None } else { v is Some && utf8_at(pool, i) == Some(v->Some_0@) }
}

pub open spec fn inner_class_ok(b: Seq<u8>, pool: Seq<ConstantPoolEntry>, o: int, k: int) -> bool {
    let p = entry_pos(o, 8, k);
    &&& class_at(pool, index_at(b, p)) is Some
    &&& opt_class_ok(pool, index_at(b, p + 2))
    &&& opt_utf8_ok(pool, index_at(b, p + 4))
}

pub open spec fn inner_class_matches(b: Seq<u8>, pool: Seq<ConstantPoolEntry>, o: int, k: int, e: InnerClassEntry) -> bool {
    let p = entry_pos(o, 8, k);
    &&& Some(e.inner_class_info@) == class_at(pool, index_at(b, p))
    &&& opt_class_matches(pool, index_at(b, p + 2), e.outer_class_info)
    &&& opt_utf8_matches(pool, index_at(b, p + 4), e.inner_name)
    &&& e.access_flags.bits == (be16(b, p + 6) as u16) & INNER_CLASS_FLAGS
}

/// InnerClasses: eight-byte entries; flags outside the inner-class set are dropped.
pub fn read_innerclasses_data(bytes: &[u8], ix: &mut usize, pool: &[ConstantPoolEntry]) -> (r: Result<Vec<InnerClassEntry>, ParseError>)
    ensures
        r is Ok <==> ({
            let o = *old(ix) as int;
            &&& can_read(bytes@, o, 2)
            &&& can_read(bytes@, o + 2, 8 * be16(bytes@, o))
            &&& forall|k: int| 0 <= k < be16(bytes@, o) ==> #[trigger] inner_class_ok(bytes@, pool@, o, k)
        }),
        r is Ok ==> ({
            let o = *old(ix) as int;
            &&& r->Ok_0@.len() == be16(bytes@, o)
            &&& *final(ix) == o + 2 + 8 * be16(bytes@, o)
            &&& forall|k: int| 0 <= k < r->Ok_0@.len() ==>
                    inner_class_matches(bytes@, pool@, o, k, #[trigger] r->Ok_0@[k])
        }),
        !can_read(bytes@, *old(ix) as int, 2) ==> fails_with(r, ErrorKind::UnexpectedEnd),
{
    let ghost o = *old(ix) as int;
    let count = read_u2(bytes, ix)?;
    let mut entries: Vec<InnerClassEntry> = Vec::new();
    let mut i: u16 = 0;
    while i < count
        invariant
            o == *old(ix) as int,
            can_read(bytes@, o, 2),
            count == be16(bytes@, o),
            i <= count,
            *ix == entry_pos(o, 8, i as int),
            *ix <= bytes@.len(),
            entries@.len() == i,
            forall|k: int| 0 <= k < i ==> #[trigger] inner_class_ok(bytes@, pool@, o, k),
            forall|k: int| 0 <= k < i ==> inner_class_matches(bytes@, pool@, o, k, #[trigger] entries@[k]),
        decreases count - i,
    {
        let ghost p = *ix as int;
        let inner_class_info = match read_cp_classinfo(bytes, ix, pool) {
            Ok(v) => v,
            Err(e) => {
                assert(!inner_class_ok(bytes@, pool@, o, i as int) || !can_read(bytes@, o + 2, 8 * be16(bytes@, o)));
                return Err(e.wrap(Frame::Entry(i)));
            },
        };
        let outer_class_info = match read_cp_classinfo_opt(bytes, ix, pool) {
            Ok(v) => v,
            Err(e) => {
                assert(!inner_class_ok(bytes@, pool@, o, i as int) || !can_read(bytes@, o + 2, 8 * be16(bytes@, o)));
                return Err(e.wrap(Frame::Entry(i)));
            },
        };
        let inner_name = match read_cp_utf8_opt(bytes, ix, pool) {
            Ok(v) => v,
            Err(e) => {
                assert(!inner_class_ok(bytes@, pool@, o, i as int) || !can_read(bytes@, o + 2, 8 * be16(bytes@, o)));
                return Err(e.wrap(Frame::Entry(i)));
            },
        };
        let bits = match read_u2(bytes, ix) {
            Ok(v) => v,
            Err(e) => { return Err(e.wrap(Frame::Entry(i))); },
        };
        let entry = InnerClassEntry {
            inner_class_info,
            outer_class_info,
            inner_name,
            access_flags: InnerClassAccessFlags::from_bits_truncate(bits),
        };
        assert(inner_class_ok(bytes@, pool@, o, i as int));
        assert(inner_class_matches(bytes@, pool@, o, i as int, entry));
        entries.push(entry);
        i = i + 1;
    }
    Ok(entries)
}

/// The method parameter entry at `p`: an optional valid name and flags in the set.
pub open spec fn method_parameter_ok_at(b: Seq<u8>, pool: Seq<ConstantPoolEntry>, p: int) -> bool {
    let i = index_at(b, p);
    &&& i == 0 || (utf8_at(pool, i) is Some && spec_is_unqualified_name(utf8_at(pool, i)->Some_0, false, false))
    &&& (be16(b, p + 2) as u16) & !METHOD_PARAMETER_FLAGS == 0
}

/// The entry at `p` has an acceptable name but a flag bit outside the set.
pub open spec fn method_parameter_flags_bad_at(b: Seq<u8>, pool: Seq<ConstantPoolEntry>, p: int) -> bool {
    let i = index_at(b, p);
    &&& i == 0 || (utf8_at(pool, i) is Some && spec_is_unqualified_name(utf8_at(pool, i)->Some_0, false, false))
    &&& (be16(b, p + 2) as u16) & !METHOD_PARAMETER_FLAGS != 0
}

/// Entry `k` of the MethodParameters table at `o` is in the input, the entries before it are fine.
pub open spec fn method_parameter_reached(b: Seq<u8>, pool: Seq<ConstantPoolEntry>, o: int, k: int) -> bool {
    &&& can_read(b, o, 1)
    &&& 0 <= k < b[o]
    &&& can_read(b, o + 1 + 4 * k, 4)
    &&& forall|j: int| 0 <= j < k ==> #[trigger] method_parameter_ok(b, pool, o, j)
}

pub open spec fn method_parameter_flags_bad(b: Seq<u8>, pool: Seq<ConstantPoolEntry>, o: int, k: int) -> bool {
    method_parameter_flags_bad_at(b, pool, o + 1 + 4 * k)
}

pub open spec fn method_parameter_ok(b: Seq<u8>, pool: Seq<ConstantPoolEntry>, o: int, k: int) -> bool {
    method_parameter_ok_at(b, pool, o + 1 + 4 * k)
}

pub open spec fn method_parameter_matches(b: Seq<u8>, pool: Seq<ConstantPoolEntry>, o: int, k: int, e: MethodParameterEntry) -> bool {
    let p = o + 1 + 4 * k;
    &&& opt_utf8_matches(pool, index_at(b, p), e.name)
    &&& e.access_flags.bits == be16(b, p + 2)
}

/// Reads one method parameter entry.
fn read_method_parameter(bytes: &[u8], ix: &mut usize, pool: &[ConstantPoolEntry]) -> (r: Result<MethodParameterEntry, ParseError>)
    ensures
        r is Ok <==> can_read(bytes@, *old(ix) as int, 4) && method_parameter_ok_at(bytes@, pool@, *old(ix) as int),
        r is Ok ==> *final(ix) == *old(ix) + 4 && opt_utf8_matches(pool@, index_at(bytes@, *old(ix) as int), r->Ok_0.name)
            && r->Ok_0.access_flags.bits == be16(bytes@, *old(ix) + 2),
        can_read(bytes@, *old(ix) as int, 4) && method_parameter_flags_bad_at(bytes@, pool@, *old(ix) as int) ==>
            fails_with(r, ErrorKind::InvalidFlags),
        can_read(bytes@, *old(ix) as int, 4) && name_invalid_at(bytes@, pool@, *old(ix) as int)
            && index_at(bytes@, *old(ix) as int) != 0 ==> fails_with(r, ErrorKind::InvalidName),
{
    let name = read_cp_utf8_opt(bytes, ix, pool)?;
    let valid = match &name {
        Some(n) => is_unqualified_name(n.as_str(), false, false),
        None => true,
    };
    if !valid {
        return Err(ParseError::new(ErrorKind::InvalidName));
    }
    let bits = read_u2(bytes, ix)?;
    match MethodParameterAccessFlags::from_bits(bits) {
        Some(access_flags) => Ok(MethodParameterEntry { name, access_flags }),
        None => Err(ParseError::new(ErrorKind::InvalidFlags)),
    }
}

/// MethodParameters: a one-byte count, then four-byte entries with an optional
/// unqualified name and flags that must lie in the method-parameter set.
pub fn read_methodparameters_data(bytes: &[u8], ix: &mut usize, pool: &[ConstantPoolEntry]) -> (r: Result<Vec<MethodParameterEntry>, ParseError>)
    ensures
        r is Ok <==> ({
            let o = *old(ix) as int;
            &&& can_read(bytes@, o, 1)
            &&& can_read(bytes@, o + 1, 4 * bytes@[o])
            &&& forall|k: int| 0 <= k < bytes@[o] ==> #[trigger] method_parameter_ok(bytes@, pool@, o, k)
        }),
        r is Ok ==> ({
            let o = *old(ix) as int;
            &&& r->Ok_0@.len() == bytes@[o]
            &&& *final(ix) == o + 1 + 4 * bytes@[o]
            &&& forall|k: int| 0 <= k < r->Ok_0@.len() ==>
                    method_parameter_matches(bytes@, pool@, o, k, #[trigger] r->Ok_0@[k])
        }),
        !can_read(bytes@, *old(ix) as int, 1) ==> fails_with(r, ErrorKind::UnexpectedEnd),
        forall|k: int| #[trigger] method_parameter_reached(bytes@, pool@, *old(ix) as int, k)
            && method_parameter_flags_bad(bytes@, pool@, *old(ix) as int, k) ==>
            fails_with(r, ErrorKind::InvalidFlags) && r->Err_0.context@.last() == Frame::Entry(k as u16),
        forall|k: int| #[trigger] method_parameter_reached(bytes@, pool@, *old(ix) as int, k)
            && index_at(bytes@, *old(ix) + 1 + 4 * k) != 0 && name_invalid_at(bytes@, pool@, *old(ix) + 1 + 4 * k) ==>
            fails_with(r, ErrorKind::InvalidName) && r->Err_0.context@.last() == Frame::Entry(k as u16),
{
    let ghost o = *old(ix) as int;
    let count = read_u1(bytes, ix)?;
    let mut entries: Vec<MethodParameterEntry> = Vec::new();
    let mut i: u8 = 0;
    while i < count
        invariant
            o == *old(ix) as int,
            can_read(bytes@, o, 1),
            count == bytes@[o],
            i <= count,
            *ix == o + 1 + 4 * i,
            *ix <= bytes@.len(),
            entries@.len() == i,
            forall|k: int| 0 <= k < i ==> #[trigger] method_parameter_ok(bytes@, pool@, o, k),
            forall|k: int| 0 <= k < i ==> method_parameter_matches(bytes@, pool@, o, k, #[trigger] entries@[k]),
        decreases count - i,
    {
        match read_method_parameter(bytes, ix, pool) {
            Ok(entry) => {
                assert(method_parameter_ok(bytes@, pool@, o, i as int));
                assert(method_parameter_matches(bytes@, pool@, o, i as int, entry));
                entries.push(entry);
            },
            Err(e) => {
                let out = e.wrap(Frame::Entry(i as u16));
                proof {
                    assert(!method_parameter_ok(bytes@, pool@, o, i as int) || !can_read(bytes@, o + 1, 4 * count as int));
                    assert forall|k: int| #[trigger] method_parameter_reached(bytes@, pool@, o, k)
                        && (method_parameter_flags_bad(bytes@, pool@, o, k)
                            || (index_at(bytes@, o + 1 + 4 * k) != 0 && name_invalid_at(bytes@, pool@, o + 1 + 4 * k))) implies
                        k == i && out.context@.last() == Frame::Entry(k as u16) by {
                        if k < i {
                            assert(method_parameter_ok(bytes@, pool@, o, k));
                        } else if k > i {
                            assert(method_parameter_ok(bytes@, pool@, o, i as int));
                        }
                    }
                }
                return Err(out);
            },
        }
        i = i + 1;
    }
    assert forall|k: int| #[trigger] method_parameter_reached(bytes@, pool@, o, k)
        && (method_parameter_flags_bad(bytes@, pool@, o, k)
            || (index_at(bytes@, o + 1 + 4 * k) != 0 && name_invalid_at(bytes@, pool@, o + 1 + 4 * k))) implies false by {
        assert(method_parameter_ok(bytes@, pool@, o, k));
    }
    Ok(entries)
}

/// The element value tags: `B C D F I J S Z s e c @ [`.
pub open spec fn is_element_tag(t: u8) -> bool {
    t == 66 || t == 67 || t == 68 || t == 70 || t == 73 || t == 74 || t == 83 || t == 90
        || t == 115 || t == 101 || t == 99 || t == 64 || t == 91
}

/// The value of a primitive element whose tag is `t` and whose pool entry is `e`, if it fits.
pub open spec fn primitive_element(t: u8, e: ConstantPoolEntry) -> Option<AnnotationElementValue> {
    match e {
        ConstantPoolEntry::Integer(x) =>
            if t == 66 { Some(AnnotationElementValue::ByteConstant(x)) }
            else if t == 67 { Some(AnnotationElementValue::CharConstant(x)) }
            else if t == 73 { Some(AnnotationElementValue::IntConstant(x)) }
            else if t == 83 { Some(AnnotationElementValue::ShortConstant(x)) }
            else if t == 90 { Some(AnnotationElementValue::BooleanConstant(x)) }
            else { None },
        ConstantPoolEntry::Double(x) => if t == 68 { Some(AnnotationElementValue::DoubleConstant(x)) } else { None },
        ConstantPoolEntry::Float(x) => if t == 70 { Some(AnnotationElementValue::FloatConstant(x)) } else { None },
        ConstantPoolEntry::Long(x) => if t == 74 { Some(AnnotationElementValue::LongConstant(x)) } else { None },
        _ => None,
    }
}

/// End of the element value at `p`, where it reads, resolves and is valid.
pub open spec fn element_value_end(b: Seq<u8>, pool: Seq<ConstantPoolEntry>, p: int) -> Option<int>
    decreases b.len() - p, 0nat, 0nat,
{
    if p < 0 || !can_read(b, p, 1) { None } else {
        let t = b[p];
        let i = index_at(b, p + 1);
        if t == 66 || t == 67 || t == 68 || t == 70 || t == 73 || t == 74 || t == 83 || t == 90 {
            if can_read(b, p + 1, 2) && readable(pool, i) && primitive_element(t, pool[i]) is Some { Some(p + 3) } else { None }
        } else if t == 115 {
            if can_read(b, p + 1, 2) && utf8_at(pool, i) is Some { Some(p + 3) } else { None }
        } else if t == 101 {
            if can_read(b, p + 1, 4) && utf8_at(pool, i) is Some && spec_is_field_descriptor(utf8_at(pool, i)->Some_0)
                && utf8_at(pool, index_at(b, p + 3)) is Some { Some(p + 5) } else { None }
        } else if t == 99 {
            if can_read(b, p + 1, 2) && utf8_at(pool, i) is Some && spec_is_return_descriptor(utf8_at(pool, i)->Some_0) {
                Some(p + 3)
            } else { None }
        } else if t == 64 {
            annotation_end(b, pool, p + 1)
        } else if t == 91 {
            if can_read(b, p + 1, 2) { element_values_end(b, pool, p + 3, be16(b, p + 1) as nat) } else { None }
        } else {
            None
        }
    }
}

/// End of `n` element values one after another from `p`.
pub open spec fn element_values_end(b: Seq<u8>, pool: Seq<ConstantPoolEntry>, p: int, n: nat) -> Option<int>
    decreases b.len() - p, 2nat, n,
{
    if p < 0 || p > b.len() { None }
    else if n == 0 { Some(p) }
    else {
        match element_value_end(b, pool, p) {
            Some(q) => if p < q <= b.len() { element_values_end(b, pool, q, (n - 1) as nat) } else { None },
            None => None,
        }
    }
}

/// End of `n` name/value pairs one after another from `p`.
pub open spec fn element_pairs_end(b: Seq<u8>, pool: Seq<ConstantPoolEntry>, p: int, n: nat) -> Option<int>
    decreases b.len() - p, 2nat, n,
{
    if p < 0 || p > b.len() { None }
    else if n == 0 { Some(p) }
    else if !(can_read(b, p, 2) && utf8_at(pool, index_at(b, p)) is Some) { None }
    else {
        match element_value_end(b, pool, p + 2) {
            Some(q) => if p < q <= b.len() { element_pairs_end(b, pool, q, (n - 1) as nat) } else { None },
            None => None,
        }
    }
}

/// End of the annotation at `p`, where its type is a field descriptor and its pairs read.
pub open spec fn annotation_end(b: Seq<u8>, pool: Seq<ConstantPoolEntry>, p: int) -> Option<int>
    decreases b.len() - p, 1nat, 0nat,
{
    if p < 0 || !can_read(b, p, 4) { None }
    else if !(utf8_at(pool, index_at(b, p)) is Some && spec_is_field_descriptor(utf8_at(pool, index_at(b, p))->Some_0)) { None }
    else { element_pairs_end(b, pool, p + 4, be16(b, p + 2) as nat) }
}

/// Start of element value `k` of an array whose values start at `p`.
pub open spec fn values_pos(b: Seq<u8>, pool: Seq<ConstantPoolEntry>, p: int, k: nat) -> int
    decreases k,
{
    if k == 0 { p } else { element_value_end(b, pool, values_pos(b, pool, p, (k - 1) as nat))->Some_0 }
}

/// Start of name/value pair `k`, the pairs starting at `p`.
pub open spec fn pairs_pos(b: Seq<u8>, pool: Seq<ConstantPoolEntry>, p: int, k: nat) -> int
    decreases k,
{
    if k == 0 { p } else { element_value_end(b, pool, pairs_pos(b, pool, p, (k - 1) as nat) + 2)->Some_0 }
}

pub open spec fn is_primitive_tag(t: u8) -> bool {
    t == 66 || t == 67 || t == 68 || t == 70 || t == 73 || t == 74 || t == 83 || t == 90
}

/// `v` is the element value encoded at `p`, nested values included.
pub open spec fn element_value_matches(b: Seq<u8>, pool: Seq<ConstantPoolEntry>, p: int, v: AnnotationElementValue) -> bool
    decreases v,
{
    let t = b[p];
    let i = index_at(b, p + 1);
    &&& element_value_end(b, pool, p) is Some
    &&& if is_primitive_tag(t) {
        v == primitive_element(t, pool[i])->Some_0
    } else if t == 115 {
        v is StringConstant && Some(v->StringConstant_0@) == utf8_at(pool, i)
    } else if t == 101 {
        v matches AnnotationElementValue::EnumConstant { type_descriptor, const_name }
            && Some(type_descriptor@) == utf8_at(pool, i) && Some(const_name@) == utf8_at(pool, index_at(b, p + 3))
    } else if t == 99 {
        v matches AnnotationElementValue::ClassLiteral { class_name } && Some(class_name@) == utf8_at(pool, i)
    } else if t == 64 {
        match v {
            AnnotationElementValue::AnnotationValue(a) => annotation_matches(b, pool, p + 1, a),
            _ => false,
        }
    } else if t == 91 {
        match v {
            AnnotationElementValue::ArrayValue(vs) => vs@.len() == be16(b, p + 1) && forall|k: int| 0 <= k < vs@.len() ==>
                element_value_matches(b, pool, values_pos(b, pool, p + 3, k as nat), #[trigger] vs@[k]),
            _ => false,
        }
    } else {
        false
    }
}

/// `a` is the annotation encoded at `p`: its type, and each element's name and value.
pub open spec fn annotation_matches(b: Seq<u8>, pool: Seq<ConstantPoolEntry>, p: int, a: Annotation) -> bool
    decreases a,
{
    &&& annotation_end(b, pool, p) is Some
    &&& Some(a.type_descriptor@) == utf8_at(pool, index_at(b, p))
    &&& a.elements@.len() == be16(b, p + 2)
    &&& forall|k: int| 0 <= k < a.elements@.len() ==> ({
            let q = pairs_pos(b, pool, p + 4, k as nat);
            &&& Some((#[trigger] a.elements@[k]).name@) == utf8_at(pool, index_at(b, q))
            &&& element_value_matches(b, pool, q + 2, a.elements@[k].value)
        })
}

/// Reads one element value, dispatching on its one-byte tag.
pub fn read_annotation_element_value(bytes: &[u8], ix: &mut usize, pool: &[ConstantPoolEntry]) -> (r: Result<AnnotationElementValue, ParseError>)
    ensures
        r is Ok ==> *old(ix) < *final(ix) <= bytes@.len() && element_value_valid(r->Ok_0),
        r is Ok <==> element_value_end(bytes@, pool@, *old(ix) as int) is Some,
        r is Ok ==> *final(ix) == element_value_end(bytes@, pool@, *old(ix) as int)->Some_0,
        r is Ok ==> element_value_matches(bytes@, pool@, *old(ix) as int, r->Ok_0),
        !can_read(bytes@, *old(ix) as int, 1) ==> fails_with(r, ErrorKind::UnexpectedEnd),
        can_read(bytes@, *old(ix) as int, 1) ==> ({
            let o = *old(ix) as int;
            let t = bytes@[o];
            let i = index_at(bytes@, o + 1);
            &&& !is_element_tag(t) ==> fails_with(r, ErrorKind::UnrecognizedDiscriminant)
            &&& (t == 66 || t == 67 || t == 68 || t == 70 || t == 73 || t == 74 || t == 83 || t == 90) ==>
                    (r is Ok <==> can_read(bytes@, o + 1, 2) && readable(pool@, i) && primitive_element(t, pool@[i]) is Some)
            &&& (t == 66 || t == 67 || t == 68 || t == 70 || t == 73 || t == 74 || t == 83 || t == 90) && r is Ok ==>
                    r->Ok_0 == primitive_element(t, pool@[i])->Some_0 && *final(ix) == o + 3
            &&& t == 115 ==> (r is Ok <==> can_read(bytes@, o + 1, 2) && utf8_at(pool@, i) is Some)
            &&& t == 115 && r is Ok ==> (r->Ok_0 matches AnnotationElementValue::StringConstant(s)
                    && Some(s@) == utf8_at(pool@, i))
            &&& t == 101 ==> (r is Ok <==> can_read(bytes@, o + 1, 4) && utf8_at(pool@, i) is Some
                    && spec_is_field_descriptor(utf8_at(pool@, i)->Some_0)
                    && utf8_at(pool@, index_at(bytes@, o + 3)) is Some)
            &&& t == 101 && r is Ok ==> (r->Ok_0 matches AnnotationElementValue::EnumConstant { type_descriptor, const_name }
                    && Some(type_descriptor@) == utf8_at(pool@, i)
                    && Some(const_name@) == utf8_at(pool@, index_at(bytes@, o + 3)) && *final(ix) == o + 5)
            &&& t == 101 && can_read(bytes@, o + 1, 2) && utf8_at(pool@, i) is Some
                    && !spec_is_field_descriptor(utf8_at(pool@, i)->Some_0) ==> fails_with(r, ErrorKind::InvalidDescriptor)
            &&& t == 99 ==> (r is Ok <==> can_read(bytes@, o + 1, 2) && utf8_at(pool@, i) is Some
                    && spec_is_return_descriptor(utf8_at(pool@, i)->Some_0))
            &&& t == 99 && r is Ok ==> (r->Ok_0 matches AnnotationElementValue::ClassLiteral { class_name }
                    && Some(class_name@) == utf8_at(pool@, i) && *final(ix) == o + 3)
            &&& t == 99 && can_read(bytes@, o + 1, 2) && utf8_at(pool@, i) is Some
                    && !spec_is_return_descriptor(utf8_at(pool@, i)->Some_0) ==> fails_with(r, ErrorKind::InvalidDescriptor)
        }),
    decreases bytes@.len() - *old(ix),
{
    if *ix > bytes.len() {
        return Err(ParseError::new(ErrorKind::UnexpectedEnd));
    }
    let tag = read_u1(bytes, ix)?;
    let value = if tag == 66 {
        AnnotationElementValue::ByteConstant(read_cp_integer(bytes, ix, pool)?)
    } else if tag == 67 {
        AnnotationElementValue::CharConstant(read_cp_integer(bytes, ix, pool)?)
    } else if tag == 68 {
        AnnotationElementValue::DoubleConstant(read_cp_double(bytes, ix, pool)?)
    } else if tag == 70 {
        AnnotationElementValue::FloatConstant(read_cp_float(bytes, ix, pool)?)
    } else if tag == 73 {
        AnnotationElementValue::IntConstant(read_cp_integer(bytes, ix, pool)?)
    } else if tag == 74 {
        AnnotationElementValue::LongConstant(read_cp_long(bytes, ix, pool)?)
    } else if tag == 83 {
        AnnotationElementValue::ShortConstant(read_cp_integer(bytes, ix, pool)?)
    } else if tag == 90 {
        AnnotationElementValue::BooleanConstant(read_cp_integer(bytes, ix, pool)?)
    } else if tag == 115 {
        AnnotationElementValue::StringConstant(read_cp_utf8(bytes, ix, pool)?)
    } else if tag == 101 {
        let type_descriptor = read_cp_utf8(bytes, ix, pool)?;
        if !is_field_descriptor(type_descriptor.as_str()) {
            return Err(ParseError::new(ErrorKind::InvalidDescriptor));
        }
        let const_name = read_cp_utf8(bytes, ix, pool)?;
        AnnotationElementValue::EnumConstant { type_descriptor, const_name }
    } else if tag == 99 {
        let class_name = read_cp_utf8(bytes, ix, pool)?;
        if !is_return_descriptor(class_name.as_str()) {
            return Err(ParseError::new(ErrorKind::InvalidDescriptor));
        }
        AnnotationElementValue::ClassLiteral { class_name }
    } else if tag == 64 {
        AnnotationElementValue::AnnotationValue(read_annotation(bytes, ix, pool)?)
    } else if tag == 91 {
        let count = read_u2(bytes, ix)?;
        let mut values: Vec<AnnotationElementValue> = Vec::new();
        let mut i: u16 = 0;
        while i < count
            invariant
                *old(ix) + 3 <= *ix <= bytes@.len(),
                can_read(bytes@, *old(ix) as int, 3),
                bytes@[*old(ix) as int] == 91,
                count == be16(bytes@, *old(ix) + 1),
                element_values_end(bytes@, pool@, *old(ix) + 3, count as nat)
                    == element_values_end(bytes@, pool@, *ix as int, (count - i) as nat),
                i <= count,
                values@.len() == i,
                forall|k: int| 0 <= k < i ==> element_value_valid(#[trigger] values@[k]),
                *ix == values_pos(bytes@, pool@, *old(ix) + 3, i as nat),
                forall|k: int| 0 <= k < i ==>
                    element_value_matches(bytes@, pool@, values_pos(bytes@, pool@, *old(ix) + 3, k as nat), #[trigger] values@[k]),
            decreases count - i,
        {
            let ghost before = values@;
            values.push(in_context(read_annotation_element_value(bytes, ix, pool), Frame::Element(i))?);
            assert(values_pos(bytes@, pool@, *old(ix) + 3, (i + 1) as nat) == *ix);
            assert forall|k: int| 0 <= k < i + 1 implies
                element_value_matches(bytes@, pool@, values_pos(bytes@, pool@, *old(ix) + 3, k as nat), #[trigger] values@[k]) by {
                if k < i {
                    assert(values@[k] == before[k]);
                }
            }
            i = i + 1;
        }
        AnnotationElementValue::ArrayValue(values)
    } else {
        return Err(ParseError::new(ErrorKind::UnrecognizedDiscriminant));
    };
    Ok(value)
}

/// Reads an annotation: a type that must be a field descriptor, then named element values.
pub fn read_annotation(bytes: &[u8], ix: &mut usize, pool: &[ConstantPoolEntry]) -> (r: Result<Annotation, ParseError>)
    ensures
        r is Ok ==> *old(ix) + 4 <= *final(ix) <= bytes@.len() && annotation_valid(r->Ok_0),
        r is Ok <==> annotation_end(bytes@, pool@, *old(ix) as int) is Some,
        r is Ok ==> *final(ix) == annotation_end(bytes@, pool@, *old(ix) as int)->Some_0,
        r is Ok ==> annotation_matches(bytes@, pool@, *old(ix) as int, r->Ok_0),
        r is Ok ==> Some(r->Ok_0.type_descriptor@) == utf8_at(pool@, index_at(bytes@, *old(ix) as int))
            && r->Ok_0.elements@.len() == be16(bytes@, *old(ix) + 2),
        !can_read(bytes@, *old(ix) as int, 2) ==> fails_with(r, ErrorKind::UnexpectedEnd),
        can_read(bytes@, *old(ix) as int, 2) && utf8_at(pool@, index_at(bytes@, *old(ix) as int)) is Some
            && !spec_is_field_descriptor(utf8_at(pool@, index_at(bytes@, *old(ix) as int))->Some_0) ==>
            fails_with(r, ErrorKind::InvalidDescriptor),
    decreases bytes@.len() - *old(ix),
{
    if *ix > bytes.len() {
        return Err(ParseError::new(ErrorKind::UnexpectedEnd));
    }
    let type_descriptor = read_cp_utf8(bytes, ix, pool)?;
    if !is_field_descriptor(type_descriptor.as_str()) {
        return Err(ParseError::new(ErrorKind::InvalidDescriptor));
    }
    let count = read_u2(bytes, ix)?;
    let mut elements: Vec<AnnotationElement> = Vec::new();
    let mut i: u16 = 0;
    while i < count
        invariant
            *old(ix) + 4 <= *ix <= bytes@.len(),
            can_read(bytes@, *old(ix) as int, 4),
            utf8_at(pool@, index_at(bytes@, *old(ix) as int)) == Some(type_descriptor@),
            spec_is_field_descriptor(type_descriptor@),
            count == be16(bytes@, *old(ix) + 2),
            element_pairs_end(bytes@, pool@, *old(ix) + 4, count as nat)
                == element_pairs_end(bytes@, pool@, *ix as int, (count - i) as nat),
            i <= count,
            elements@.len() == i,
            forall|k: int| 0 <= k < i ==> element_value_valid(#[trigger] elements@[k].value),
            *ix == pairs_pos(bytes@, pool@, *old(ix) + 4, i as nat),
            forall|k: int| 0 <= k < i ==> ({
                let q = pairs_pos(bytes@, pool@, *old(ix) + 4, k as nat);
                &&& Some((#[trigger] elements@[k]).name@) == utf8_at(pool@, index_at(bytes@, q))
                &&& element_value_matches(bytes@, pool@, q + 2, elements@[k].value)
            }),
        decreases count - i,
    {
        let ghost before = elements@;
        let name = in_context(read_cp_utf8(bytes, ix, pool), Frame::Element(i))?;
        let value = in_context(read_annotation_element_value(bytes, ix, pool), Frame::Element(i))?;
        elements.push(AnnotationElement { name, value });
        assert(pairs_pos(bytes@, pool@, *old(ix) + 4, (i + 1) as nat) == *ix);
        assert forall|k: int| 0 <= k < i + 1 implies ({
            let q = pairs_pos(bytes@, pool@, *old(ix) + 4, k as nat);
            &&& Some((#[trigger] elements@[k]).name@) == utf8_at(pool@, index_at(bytes@, q))
            &&& element_value_matches(bytes@, pool@, q + 2, elements@[k].value)
        }) by {
            if k < i {
                assert(elements@[k] == before[k]);
            }
        }
        i = i + 1;
    }
    let a = Annotation { type_descriptor, elements };
    assert(annotation_valid(a));
    Ok(a)
}

/// End of `n` annotations one after another from `p`.
pub open spec fn annotations_end(b: Seq<u8>, pool: Seq<ConstantPoolEntry>, p: int, n: nat) -> Option<int>
    decreases n,
{
    if n == 0 { Some(p) } else {
        match annotation_end(b, pool, p) {
            Some(q) => annotations_end(b, pool, q, (n - 1) as nat),
            None => None,
        }
    }
}

/// End of `n` per-parameter annotation lists (each u16-counted) from `p`.
pub open spec fn parameter_annotations_end(b: Seq<u8>, pool: Seq<ConstantPoolEntry>, p: int, n: nat) -> Option<int>
    decreases n,
{
    if n == 0 { Some(p) }
    else if !can_read(b, p, 2) { None }
    else {
        match annotations_end(b, pool, p + 2, be16(b, p) as nat) {
            Some(q) => parameter_annotations_end(b, pool, q, (n - 1) as nat),
            None => None,
        }
    }
}

/// End of the target_type and target_info at `p`.
pub open spec fn target_end(b: Seq<u8>, p: int) -> Option<int> {
    if !can_read(b, p, 1) || !is_target_type(b[p]) { None }
    else if b[p] == 0x40 || b[p] == 0x41 {
        if can_read(b, p + 1, 2) && can_read(b, p + 3, 6 * be16(b, p + 1)) { Some(p + 3 + 6 * be16(b, p + 1)) } else { None }
    } else if can_read(b, p + 1, fixed_target_size(b[p])) { Some(p + 1 + fixed_target_size(b[p])) } else { None }
}

/// End of the type_path at `q`, where every step kind is 0 to 3.
pub open spec fn path_end(b: Seq<u8>, q: int) -> Option<int> {
    if can_read(b, q, 1) && can_read(b, q + 1, 2 * b[q]) && forall|k: int| 0 <= k < b[q] ==> #[trigger] b[q + 1 + 2 * k] <= 3 {
        Some(q + 1 + 2 * b[q])
    } else { None }
}

/// End of the type annotation at `p`: target, path, then annotation.
pub open spec fn type_annotation_end(b: Seq<u8>, pool: Seq<ConstantPoolEntry>, p: int) -> Option<int> {
    match target_end(b, p) {
        Some(q) => match path_end(b, q) {
            Some(r) => annotation_end(b, pool, r),
            None => None,
        },
        None => None,
    }
}

pub open spec fn type_annotations_end(b: Seq<u8>, pool: Seq<ConstantPoolEntry>, p: int, n: nat) -> Option<int>
    decreases n,
{
    if n == 0 { Some(p) } else {
        match type_annotation_end(b, pool, p) {
            Some(q) => type_annotations_end(b, pool, q, (n - 1) as nat),
            None => None,
        }
    }
}

/// Start of annotation `k`, the annotations starting at `p`.
pub open spec fn annotations_pos(b: Seq<u8>, pool: Seq<ConstantPoolEntry>, p: int, k: nat) -> int
    decreases k,
{
    if k == 0 { p } else { annotation_end(b, pool, annotations_pos(b, pool, p, (k - 1) as nat))->Some_0 }
}

/// RuntimeVisibleAnnotations and RuntimeInvisibleAnnotations: a u16-counted list of annotations.
pub fn read_annotation_data(bytes: &[u8], ix: &mut usize, pool: &[ConstantPoolEntry]) -> (r: Result<Vec<Annotation>, ParseError>)
    ensures
        r is Ok ==> *old(ix) + 2 <= *final(ix) <= bytes@.len()
            && r->Ok_0@.len() == be16(bytes@, *old(ix) as int)
            && forall|k: int| 0 <= k < r->Ok_0@.len() ==> annotation_valid(#[trigger] r->Ok_0@[k]),
        r is Ok <==> can_read(bytes@, *old(ix) as int, 2)
            && annotations_end(bytes@, pool@, *old(ix) + 2, be16(bytes@, *old(ix) as int) as nat) is Some,
        r is Ok ==> *final(ix) == annotations_end(bytes@, pool@, *old(ix) + 2, be16(bytes@, *old(ix) as int) as nat)->Some_0,
        r is Ok ==> forall|k: int| 0 <= k < r->Ok_0@.len() ==>
            annotation_matches(bytes@, pool@, annotations_pos(bytes@, pool@, *old(ix) + 2, k as nat), #[trigger] r->Ok_0@[k]),
        !can_read(bytes@, *old(ix) as int, 2) ==> fails_with(r, ErrorKind::UnexpectedEnd),
{
    if *ix > bytes.len() {
        return Err(ParseError::new(ErrorKind::UnexpectedEnd));
    }
    let count = read_u2(bytes, ix)?;
    let mut annotations: Vec<Annotation> = Vec::new();
    let mut i: u16 = 0;
    while i < count
        invariant
            *old(ix) + 2 <= *ix <= bytes@.len(),
            count == be16(bytes@, *old(ix) as int),
            can_read(bytes@, *old(ix) as int, 2),
            annotations_end(bytes@, pool@, *old(ix) + 2, count as nat)
                == annotations_end(bytes@, pool@, *ix as int, (count - i) as nat),
            *ix == annotations_pos(bytes@, pool@, *old(ix) + 2, i as nat),
            forall|k: int| 0 <= k < i ==>
                annotation_matches(bytes@, pool@, annotations_pos(bytes@, pool@, *old(ix) + 2, k as nat), #[trigger] annotations@[k]),
            i <= count,
            annotations@.len() == i,
            forall|k: int| 0 <= k < i ==> annotation_valid(#[trigger] annotations@[k]),
        decreases count - i,
    {
        let ghost before = annotations@;
        annotations.push(in_context(read_annotation(bytes, ix, pool), Frame::Entry(i))?);
        assert(annotations_pos(bytes@, pool@, *old(ix) + 2, (i + 1) as nat) == *ix);
        assert forall|k: int| 0 <= k < i + 1 implies
            annotation_matches(bytes@, pool@, annotations_pos(bytes@, pool@, *old(ix) + 2, k as nat), #[trigger] annotations@[k]) by {
            if k < i {
                assert(annotations@[k] == before[k]);
            }
        }
        i = i + 1;
    }
    Ok(annotations)
}

/// Start of parameter `k`'s annotation list, the lists starting at `p`.
pub open spec fn parameter_pos(b: Seq<u8>, pool: Seq<ConstantPoolEntry>, p: int, k: nat) -> int
    decreases k,
{
    if k == 0 { p } else {
        let q = parameter_pos(b, pool, p, (k - 1) as nat);
        annotations_end(b, pool, q + 2, be16(b, q) as nat)->Some_0
    }
}

/// Runtime(In)VisibleParameterAnnotations: a one-byte parameter count, then a
/// u16-counted list of annotations per parameter.
pub fn read_parameter_annotation_data(bytes: &[u8], ix: &mut usize, pool: &[ConstantPoolEntry]) -> (r: Result<Vec<ParameterAnnotation>, ParseError>)
    ensures
        r is Ok ==> *old(ix) + 1 <= *final(ix) <= bytes@.len()
            && r->Ok_0@.len() == bytes@[*old(ix) as int]
            && forall|k: int, m: int| 0 <= k < r->Ok_0@.len() && 0 <= m < r->Ok_0@[k].annotations@.len() ==>
                annotation_valid(#[trigger] r->Ok_0@[k].annotations@[m]),
        r is Ok <==> can_read(bytes@, *old(ix) as int, 1)
            && parameter_annotations_end(bytes@, pool@, *old(ix) + 1, bytes@[*old(ix) as int] as nat) is Some,
        r is Ok ==> *final(ix) == parameter_annotations_end(bytes@, pool@, *old(ix) + 1, bytes@[*old(ix) as int] as nat)->Some_0,
        r is Ok ==> forall|k: int| 0 <= k < r->Ok_0@.len() ==> (#[trigger] r->Ok_0@[k]).annotations@.len()
            == be16(bytes@, parameter_pos(bytes@, pool@, *old(ix) + 1, k as nat)),
        r is Ok ==> forall|k: int, m: int| 0 <= k < r->Ok_0@.len() && 0 <= m < r->Ok_0@[k].annotations@.len() ==>
            annotation_matches(bytes@, pool@, annotations_pos(bytes@, pool@,
                parameter_pos(bytes@, pool@, *old(ix) + 1, k as nat) + 2, m as nat), #[trigger] r->Ok_0@[k].annotations@[m]),
        !can_read(bytes@, *old(ix) as int, 1) ==> fails_with(r, ErrorKind::UnexpectedEnd),
{
    if *ix > bytes.len() {
        return Err(ParseError::new(ErrorKind::UnexpectedEnd));
    }
    let count = read_u1(bytes, ix)?;
    let mut parameters: Vec<ParameterAnnotation> = Vec::new();
    let mut i: u8 = 0;
    while i < count
        invariant
            *old(ix) + 1 <= *ix <= bytes@.len(),
            count == bytes@[*old(ix) as int],
            can_read(bytes@, *old(ix) as int, 1),
            parameter_annotations_end(bytes@, pool@, *old(ix) + 1, count as nat)
                == parameter_annotations_end(bytes@, pool@, *ix as int, (count - i) as nat),
            *ix == parameter_pos(bytes@, pool@, *old(ix) + 1, i as nat),
            forall|k: int| 0 <= k < i ==> (#[trigger] parameters@[k]).annotations@.len()
                == be16(bytes@, parameter_pos(bytes@, pool@, *old(ix) + 1, k as nat)),
            forall|k: int, m: int| 0 <= k < i && 0 <= m < parameters@[k].annotations@.len() ==>
                annotation_matches(bytes@, pool@, annotations_pos(bytes@, pool@,
                    parameter_pos(bytes@, pool@, *old(ix) + 1, k as nat) + 2, m as nat), #[trigger] parameters@[k].annotations@[m]),
            i <= count,
            parameters@.len() == i,
            forall|k: int, m: int| 0 <= k < i && 0 <= m < parameters@[k].annotations@.len() ==>
                annotation_valid(#[trigger] parameters@[k].annotations@[m]),
        decreases count - i,
    {
        let ghost q = *ix as int;
        let ghost before = parameters@;
        let annotations = in_context(read_annotation_data(bytes, ix, pool), Frame::Entry(i as u16))?;
        parameters.push(ParameterAnnotation { annotations });
        assert(parameter_pos(bytes@, pool@, *old(ix) + 1, (i + 1) as nat) == *ix);
        assert forall|k: int| 0 <= k < i + 1 implies (#[trigger] parameters@[k]).annotations@.len()
            == be16(bytes@, parameter_pos(bytes@, pool@, *old(ix) + 1, k as nat)) by {
            if k < i {
                assert(parameters@[k] == before[k]);
            }
        }
        assert forall|k: int, m: int| 0 <= k < i + 1 && 0 <= m < parameters@[k].annotations@.len() implies
            annotation_matches(bytes@, pool@, annotations_pos(bytes@, pool@,
                parameter_pos(bytes@, pool@, *old(ix) + 1, k as nat) + 2, m as nat), #[trigger] parameters@[k].annotations@[m]) by {
            if k < i {
                assert(parameters@[k] == before[k]);
            }
        }
        i = i + 1;
    }
    Ok(parameters)
}

/// The target types that the type annotation format defines.
pub open spec fn is_target_type(t: u8) -> bool {
    t == 0x00 || t == 0x01 || (0x10 <= t <= 0x17) || (0x40 <= t <= 0x4B)
}

/// The target of a type annotation with a fixed-size encoding of tag `t` at `p`.
pub open spec fn fixed_target(b: Seq<u8>, t: u8, p: int) -> TypeAnnotationTarget {
    if t == 0x00 || t == 0x01 { TypeAnnotationTarget::TypeParameter { index: b[p] } }
    else if t == 0x10 { TypeAnnotationTarget::Supertype { index: be16(b, p) as u16 } }
    else if t == 0x11 || t == 0x12 { TypeAnnotationTarget::TypeParameterBound { type_parameter_index: b[p], bound_index: b[p + 1] } }
    else if 0x13 <= t <= 0x15 { TypeAnnotationTarget::Empty }
    else if t == 0x16 { TypeAnnotationTarget::FormalParameter { index: b[p] } }
    else if t == 0x17 { TypeAnnotationTarget::Throws { index: be16(b, p) as u16 } }
    else if t == 0x42 { TypeAnnotationTarget::Catch { exception_table_index: be16(b, p) as u16 } }
    else if 0x43 <= t <= 0x46 { TypeAnnotationTarget::Offset { offset: be16(b, p) as u16 } }
    else { TypeAnnotationTarget::TypeArgument { offset: be16(b, p) as u16, type_argument_index: b[p + 2] } }
}

/// Size of the fixed-size target encodings after the tag.
pub open spec fn fixed_target_size(t: u8) -> int {
    if t == 0x00 || t == 0x01 || t == 0x16 { 1 }
    else if 0x13 <= t <= 0x15 { 0 }
    else if 0x47 <= t <= 0x4B { 3 }
    else { 2 }
}

/// Reads the target_type tag and the target_info that it selects.
pub fn read_type_annotation_target(bytes: &[u8], ix: &mut usize) -> (r: Result<TypeAnnotationTarget, ParseError>)
    ensures
        r is Ok ==> *old(ix) < *final(ix) <= bytes@.len(),
        !can_read(bytes@, *old(ix) as int, 1) ==> fails_with(r, ErrorKind::UnexpectedEnd),
        r is Ok <==> target_end(bytes@, *old(ix) as int) is Some,
        r is Ok ==> *final(ix) == target_end(bytes@, *old(ix) as int)->Some_0,
        can_read(bytes@, *old(ix) as int, 1) ==> ({
            let o = *old(ix) as int;
            let t = bytes@[o];
            &&& !is_target_type(t) ==> fails_with(r, ErrorKind::UnrecognizedDiscriminant)
            &&& is_target_type(t) && t != 0x40 && t != 0x41 ==>
                    (r is Ok <==> can_read(bytes@, o + 1, fixed_target_size(t)))
            &&& is_target_type(t) && t != 0x40 && t != 0x41 && r is Ok ==>
                    r->Ok_0 == fixed_target(bytes@, t, o + 1) && *final(ix) == o + 1 + fixed_target_size(t)
            &&& (t == 0x40 || t == 0x41) && r is Ok ==> (r->Ok_0 matches TypeAnnotationTarget::LocalVar(v)
                    && v@.len() == be16(bytes@, o + 1) && *final(ix) == o + 3 + 6 * be16(bytes@, o + 1)
                    && forall|k: int| 0 <= k < v@.len() ==> (#[trigger] v@[k]).start_pc == be16(bytes@, o + 3 + 6 * k)
                        && v@[k].length == be16(bytes@, o + 5 + 6 * k) && v@[k].index == be16(bytes@, o + 7 + 6 * k))
        }),
{
    if *ix > bytes.len() {
        return Err(ParseError::new(ErrorKind::UnexpectedEnd));
    }
    let t = read_u1(bytes, ix)?;
    let target = if t == 0x00 || t == 0x01 {
        TypeAnnotationTarget::TypeParameter { index: read_u1(bytes, ix)? }
    } else if t == 0x10 {
        TypeAnnotationTarget::Supertype { index: read_u2(bytes, ix)? }
    } else if t == 0x11 || t == 0x12 {
        let type_parameter_index = read_u1(bytes, ix)?;
        let bound_index = read_u1(bytes, ix)?;
        TypeAnnotationTarget::TypeParameterBound { type_parameter_index, bound_index }
    } else if 0x13 <= t && t <= 0x15 {
        TypeAnnotationTarget::Empty
    } else if t == 0x16 {
        TypeAnnotationTarget::FormalParameter { index: read_u1(bytes, ix)? }
    } else if t == 0x17 {
        TypeAnnotationTarget::Throws { index: read_u2(bytes, ix)? }
    } else if t == 0x40 || t == 0x41 {
        let count = read_u2(bytes, ix)?;
        let mut entries: Vec<TypeAnnotationLocalVarTargetEntry> = Vec::new();
        let mut j: u16 = 0;
        while j < count
            invariant
                *ix == *old(ix) + 3 + 6 * j,
                *ix <= bytes@.len(),
                can_read(bytes@, *old(ix) as int, 3),
                bytes@[*old(ix) as int] == 0x40 || bytes@[*old(ix) as int] == 0x41,
                count == be16(bytes@, *old(ix) + 1),
                j <= count,
                entries@.len() == j,
                forall|k: int| 0 <= k < j ==> (#[trigger] entries@[k]).start_pc == be16(bytes@, *old(ix) + 3 + 6 * k)
                    && entries@[k].length == be16(bytes@, *old(ix) + 5 + 6 * k)
                    && entries@[k].index == be16(bytes@, *old(ix) + 7 + 6 * k),
            decreases count - j,
        {
            let start_pc = read_u2(bytes, ix)?;
            let length = read_u2(bytes, ix)?;
            let index = read_u2(bytes, ix)?;
            entries.push(TypeAnnotationLocalVarTargetEntry { start_pc, length, index });
            j = j + 1;
        }
        TypeAnnotationTarget::LocalVar(entries)
    } else if t == 0x42 {
        TypeAnnotationTarget::Catch { exception_table_index: read_u2(bytes, ix)? }
    } else if 0x43 <= t && t <= 0x46 {
        TypeAnnotationTarget::Offset { offset: read_u2(bytes, ix)? }
    } else if 0x47 <= t && t <= 0x4B {
        let offset = read_u2(bytes, ix)?;
        let type_argument_index = read_u1(bytes, ix)?;
        TypeAnnotationTarget::TypeArgument { offset, type_argument_index }
    } else {
        return Err(ParseError::new(ErrorKind::UnrecognizedDiscriminant));
    };
    Ok(target)
}

pub open spec fn path_kind_of(k: u8) -> TypeAnnotationTargetPathKind {
    if k == 0 { TypeAnnotationTargetPathKind::DeeperArray }
    else if k == 1 { TypeAnnotationTargetPathKind::DeeperNested }
    else if k == 2 { TypeAnnotationTargetPathKind::WildcardTypeArgument }
    else { TypeAnnotationTargetPathKind::TypeArgument }
}

/// Step `j` of the type path at `q` is in the input and has a kind above 3, the
/// steps before it being fine.
pub open spec fn path_kind_bad(b: Seq<u8>, q: int, j: int) -> bool {
    &&& 0 <= j < b[q]
    &&& forall|m: int| 0 <= m < j ==> #[trigger] b[q + 1 + 2 * m] <= 3
    &&& can_read(b, q + 1 + 2 * j, 1)
    &&& b[q + 1 + 2 * j] > 3
}

/// Reads a type_path: a one-byte count of two-byte `{kind, argument_index}` steps, kind 0 to 3.
pub fn read_type_path(bytes: &[u8], ix: &mut usize) -> (r: Result<Vec<TypeAnnotationTargetPathEntry>, ParseError>)
    ensures
        r is Ok <==> path_end(bytes@, *old(ix) as int) is Some,
        can_read(bytes@, *old(ix) as int, 1) ==> forall|j: int| #[trigger] path_kind_bad(bytes@, *old(ix) as int, j) ==>
            fails_with(r, ErrorKind::UnrecognizedDiscriminant) && r->Err_0.context@.len() > 0
            && r->Err_0.context@.last() == Frame::Element(j as u16),
        r is Ok ==> *final(ix) == path_end(bytes@, *old(ix) as int)->Some_0,
        r is Ok <==> ({
            let o = *old(ix) as int;
            &&& can_read(bytes@, o, 1)
            &&& can_read(bytes@, o + 1, 2 * bytes@[o])
            &&& forall|k: int| 0 <= k < bytes@[o] ==> #[trigger] bytes@[o + 1 + 2 * k] <= 3
        }),
        r is Ok ==> ({
            let o = *old(ix) as int;
            &&& r->Ok_0@.len() == bytes@[o]
            &&& *final(ix) == o + 1 + 2 * bytes@[o]
            &&& forall|k: int| 0 <= k < r->Ok_0@.len() ==> (#[trigger] r->Ok_0@[k]).path_kind == path_kind_of(bytes@[o + 1 + 2 * k])
                    && r->Ok_0@[k].argument_index == bytes@[o + 2 + 2 * k]
        }),
{
    let ghost o = *old(ix) as int;
    let count = read_u1(bytes, ix)?;
    let mut path: Vec<TypeAnnotationTargetPathEntry> = Vec::new();
    let mut j: u8 = 0;
    while j < count
        invariant
            o == *old(ix) as int,
            can_read(bytes@, o, 1),
            count == bytes@[o],
            *ix == o + 1 + 2 * j,
            *ix <= bytes@.len(),
            j <= count,
            path@.len() == j,
            forall|k: int| 0 <= k < j ==> #[trigger] bytes@[o + 1 + 2 * k] <= 3,
            forall|k: int| 0 <= k < j ==> (#[trigger] path@[k]).path_kind == path_kind_of(bytes@[o + 1 + 2 * k])
                && path@[k].argument_index == bytes@[o + 2 + 2 * k],
        decreases count - j,
    {
        let kind = match read_u1(bytes, ix) {
            Ok(v) => v,
            Err(e) => {
                let out = e.wrap(Frame::Element(j as u16));
                proof {
                    assert forall|jj: int| #[trigger] path_kind_bad(bytes@, o, jj) implies
                        out.kind == ErrorKind::UnrecognizedDiscriminant && out.context@.len() > 0
                        && out.context@.last() == Frame::Element(jj as u16) by {
                        if jj > j {
                            assert(bytes@[o + 1 + 2 * j] <= 3);
                        }
                    }
                }
                return Err(out);
            },
        };
        let path_kind = if kind == 0 {
            TypeAnnotationTargetPathKind::DeeperArray
        } else if kind == 1 {
            TypeAnnotationTargetPathKind::DeeperNested
        } else if kind == 2 {
            TypeAnnotationTargetPathKind::WildcardTypeArgument
        } else if kind == 3 {
            TypeAnnotationTargetPathKind::TypeArgument
        } else {
            assert(!(bytes@[o + 1 + 2 * j] <= 3));
            let out = ParseError::new(ErrorKind::UnrecognizedDiscriminant).wrap(Frame::Element(j as u16));
                proof {
                    assert forall|jj: int| #[trigger] path_kind_bad(bytes@, o, jj) implies
                        out.kind == ErrorKind::UnrecognizedDiscriminant && out.context@.len() > 0
                        && out.context@.last() == Frame::Element(jj as u16) by {
                        if jj > j {
                            assert(bytes@[o + 1 + 2 * j] <= 3);
                        }
                    }
                }
                return Err(out);
        };
        let argument_index = match read_u1(bytes, ix) {
            Ok(v) => v,
            Err(e) => {
                let out = e.wrap(Frame::Element(j as u16));
                proof {
                    assert forall|jj: int| #[trigger] path_kind_bad(bytes@, o, jj) implies
                        out.kind == ErrorKind::UnrecognizedDiscriminant && out.context@.len() > 0
                        && out.context@.last() == Frame::Element(jj as u16) by {
                        if jj > j {
                            assert(bytes@[o + 1 + 2 * j] <= 3);
                        }
                    }
                }
                return Err(out);
            },
        };
        path.push(TypeAnnotationTargetPathEntry { path_kind, argument_index });
        j = j + 1;
    }
    assert forall|jj: int| #[trigger] path_kind_bad(bytes@, o, jj) implies false by {
        assert(bytes@[o + 1 + 2 * jj] <= 3);
    }
    Ok(path)
}

/// `t` is the target encoded at `p`.
pub open spec fn target_matches(b: Seq<u8>, p: int, t: TypeAnnotationTarget) -> bool {
    &&& target_end(b, p) is Some
    &&& b[p] != 0x40 && b[p] != 0x41 ==> t == fixed_target(b, b[p], p + 1)
    &&& (b[p] == 0x40 || b[p] == 0x41) ==> (t matches TypeAnnotationTarget::LocalVar(v) && v@.len() == be16(b, p + 1))
}

/// `v` is the type path encoded at `q`.
pub open spec fn path_matches(b: Seq<u8>, q: int, v: Seq<TypeAnnotationTargetPathEntry>) -> bool {
    &&& path_end(b, q) is Some
    &&& v.len() == b[q]
    &&& forall|k: int| 0 <= k < v.len() ==> (#[trigger] v[k]).path_kind == path_kind_of(b[q + 1 + 2 * k])
            && v[k].argument_index == b[q + 2 + 2 * k]
}

/// Start of type annotation `k`, the annotations starting at `p`.
pub open spec fn type_annotation_pos(b: Seq<u8>, pool: Seq<ConstantPoolEntry>, p: int, k: nat) -> int
    decreases k,
{
    if k == 0 { p } else { type_annotation_end(b, pool, type_annotation_pos(b, pool, p, (k - 1) as nat))->Some_0 }
}

/// Type annotation `m` of the list whose entries start at `p` decodes.
pub open spec fn type_annotation_decodes(b: Seq<u8>, pool: Seq<ConstantPoolEntry>, p: int, m: nat) -> bool {
    type_annotation_end(b, pool, type_annotation_pos(b, pool, p, m)) is Some
}

pub open spec fn type_annotations_ok_before(b: Seq<u8>, pool: Seq<ConstantPoolEntry>, p: int, k: nat) -> bool {
    forall|m: nat| m < k ==> #[trigger] type_annotation_decodes(b, pool, p, m)
}

/// Type annotation `k` is reached and its target byte is not a target type.
pub open spec fn type_annotation_target_bad(b: Seq<u8>, pool: Seq<ConstantPoolEntry>, p: int, k: nat) -> bool {
    let q = type_annotation_pos(b, pool, p, k);
    type_annotations_ok_before(b, pool, p, k) && can_read(b, q, 1) && !is_target_type(b[q])
}

/// Type annotation `k` is reached, its target reads, and step `j` of its path has a kind above 3.
pub open spec fn type_annotation_path_bad(b: Seq<u8>, pool: Seq<ConstantPoolEntry>, p: int, k: nat, j: int) -> bool {
    let q = type_annotation_pos(b, pool, p, k);
    &&& type_annotations_ok_before(b, pool, p, k)
    &&& target_end(b, q) is Some
    &&& can_read(b, target_end(b, q)->Some_0, 1)
    &&& path_kind_bad(b, target_end(b, q)->Some_0, j)
}

/// Reads one type annotation: target, path and annotation.
fn read_one_type_annotation(bytes: &[u8], ix: &mut usize, pool: &[ConstantPoolEntry]) -> (r: Result<TypeAnnotation, ParseError>)
    requires
        *old(ix) <= bytes@.len(),
    ensures
        r is Ok <==> type_annotation_end(bytes@, pool@, *old(ix) as int) is Some,
        r is Ok ==> ({
            let q = *old(ix) as int;
            &&& *final(ix) == type_annotation_end(bytes@, pool@, q)->Some_0 <= bytes@.len()
            &&& q < *final(ix)
            &&& target_matches(bytes@, q, r->Ok_0.target_type)
            &&& path_matches(bytes@, target_end(bytes@, q)->Some_0, r->Ok_0.target_path@)
            &&& annotation_matches(bytes@, pool@, path_end(bytes@, target_end(bytes@, q)->Some_0)->Some_0, r->Ok_0.annotation)
            &&& annotation_valid(r->Ok_0.annotation)
        }),
        can_read(bytes@, *old(ix) as int, 1) && !is_target_type(bytes@[*old(ix) as int]) ==>
            fails_with(r, ErrorKind::UnrecognizedDiscriminant),
        target_end(bytes@, *old(ix) as int) is Some && can_read(bytes@, target_end(bytes@, *old(ix) as int)->Some_0, 1) ==>
            forall|j: int| #[trigger] path_kind_bad(bytes@, target_end(bytes@, *old(ix) as int)->Some_0, j) ==>
                fails_with(r, ErrorKind::UnrecognizedDiscriminant) && r->Err_0.context@.len() > 0
            && r->Err_0.context@.last() == Frame::Element(j as u16),
{
    let ghost q = *old(ix) as int;
    let target_type = read_type_annotation_target(bytes, ix)?;
    let target_path = read_type_path(bytes, ix)?;
    let annotation = read_annotation(bytes, ix, pool)?;
    Ok(TypeAnnotation { target_type, target_path, annotation })
}

/// Where type annotation `i` fails to read with `e`, and the caller wraps `e` in
/// `Entry(i)`, the failure is the one the discriminant clauses describe.
proof fn lemma_type_annotation_error(b: Seq<u8>, pool: Seq<ConstantPoolEntry>, p: int, i: nat, count: nat,
    e: ParseError, out: ParseError)
    requires
        type_annotations_ok_before(b, pool, p, i),
        !type_annotation_decodes(b, pool, p, i),
        out.kind == e.kind,
        out.context@ == e.context@.push(Frame::Entry(i as u16)),
        ({
            let q = type_annotation_pos(b, pool, p, i);
            &&& can_read(b, q, 1) && !is_target_type(b[q]) ==> e.kind == ErrorKind::UnrecognizedDiscriminant
            &&& target_end(b, q) is Some && can_read(b, target_end(b, q)->Some_0, 1) ==>
                forall|j: int| #[trigger] path_kind_bad(b, target_end(b, q)->Some_0, j) ==>
                    e.kind == ErrorKind::UnrecognizedDiscriminant && e.context@.len() > 0
                    && e.context@.last() == Frame::Element(j as u16)
        }),
    ensures
        forall|k: nat| k < count && #[trigger] type_annotation_target_bad(b, pool, p, k) ==>
            out.kind == ErrorKind::UnrecognizedDiscriminant && out.context@.last() == Frame::Entry(k as u16),
        forall|k: nat, j: int| k < count && #[trigger] type_annotation_path_bad(b, pool, p, k, j) ==>
            out.kind == ErrorKind::UnrecognizedDiscriminant && out.context@.last() == Frame::Entry(k as u16)
            && out.context@[out.context@.len() - 2] == Frame::Element(j as u16),
{
    assert forall|k: nat| k < count && #[trigger] type_annotation_target_bad(b, pool, p, k) implies
        out.kind == ErrorKind::UnrecognizedDiscriminant && out.context@.last() == Frame::Entry(k as u16) by {
        if k < i {
            assert(type_annotation_decodes(b, pool, p, k));
        } else if k > i {
            assert(type_annotation_decodes(b, pool, p, i));
        }
    }
    assert forall|k: nat, j: int| k < count && #[trigger] type_annotation_path_bad(b, pool, p, k, j) implies
        out.kind == ErrorKind::UnrecognizedDiscriminant && out.context@.last() == Frame::Entry(k as u16)
        && out.context@[out.context@.len() - 2] == Frame::Element(j as u16) by {
        if k < i {
            assert(type_annotation_decodes(b, pool, p, k));
            let te = target_end(b, type_annotation_pos(b, pool, p, k))->Some_0;
            assert(b[te + 1 + 2 * j] <= 3);
        } else if k > i {
            assert(type_annotation_decodes(b, pool, p, i));
        } else {
            assert(out.context@[out.context@.len() - 2] == e.context@.last());
        }
    }
}

/// Runtime(In)VisibleTypeAnnotations: a u16-counted list of target, path and annotation.
#[verifier::rlimit(100)]
pub fn read_type_annotation_data(bytes: &[u8], ix: &mut usize, pool: &[ConstantPoolEntry]) -> (r: Result<Vec<TypeAnnotation>, ParseError>)
    ensures
        r is Ok ==> *old(ix) + 2 <= *final(ix) <= bytes@.len()
            && r->Ok_0@.len() == be16(bytes@, *old(ix) as int)
            && forall|k: int| 0 <= k < r->Ok_0@.len() ==> annotation_valid(#[trigger] r->Ok_0@[k].annotation),
        r is Ok <==> can_read(bytes@, *old(ix) as int, 2)
            && type_annotations_end(bytes@, pool@, *old(ix) + 2, be16(bytes@, *old(ix) as int) as nat) is Some,
        r is Ok ==> *final(ix) == type_annotations_end(bytes@, pool@, *old(ix) + 2, be16(bytes@, *old(ix) as int) as nat)->Some_0,
        r is Ok ==> forall|k: int| 0 <= k < r->Ok_0@.len() ==> ({
            let q = type_annotation_pos(bytes@, pool@, *old(ix) + 2, k as nat);
            &&& target_matches(bytes@, q, (#[trigger] r->Ok_0@[k]).target_type)
            &&& path_matches(bytes@, target_end(bytes@, q)->Some_0, r->Ok_0@[k].target_path@)
            &&& annotation_matches(bytes@, pool@, path_end(bytes@, target_end(bytes@, q)->Some_0)->Some_0, r->Ok_0@[k].annotation)
        }),
        !can_read(bytes@, *old(ix) as int, 2) ==> fails_with(r, ErrorKind::UnexpectedEnd),
        forall|k: nat| k < be16(bytes@, *old(ix) as int) && can_read(bytes@, *old(ix) as int, 2)
            && #[trigger] type_annotation_target_bad(bytes@, pool@, *old(ix) + 2, k) ==>
            fails_with(r, ErrorKind::UnrecognizedDiscriminant) && r->Err_0.context@.last() == Frame::Entry(k as u16),
        forall|k: nat, j: int| k < be16(bytes@, *old(ix) as int) && can_read(bytes@, *old(ix) as int, 2)
            && #[trigger] type_annotation_path_bad(bytes@, pool@, *old(ix) + 2, k, j) ==>
            fails_with(r, ErrorKind::UnrecognizedDiscriminant) && r->Err_0.context@.last() == Frame::Entry(k as u16)
            && r->Err_0.context@[r->Err_0.context@.len() - 2] == Frame::Element(j as u16),
{
    if *ix > bytes.len() {
        return Err(ParseError::new(ErrorKind::UnexpectedEnd));
    }
    let ghost o = *old(ix) as int;
    let count = read_u2(bytes, ix)?;
    let mut annotations: Vec<TypeAnnotation> = Vec::new();
    let mut i: u16 = 0;
    while i < count
        invariant
            o == *old(ix) as int,
            o + 2 <= *ix <= bytes@.len(),
            count == be16(bytes@, o),
            i <= count,
            annotations@.len() == i,
            forall|k: int| 0 <= k < i ==> annotation_valid(#[trigger] annotations@[k].annotation),
            can_read(bytes@, o, 2),
            type_annotations_end(bytes@, pool@, o + 2, count as nat)
                == type_annotations_end(bytes@, pool@, *ix as int, (count - i) as nat),
            *ix == type_annotation_pos(bytes@, pool@, o + 2, i as nat),
            type_annotations_ok_before(bytes@, pool@, o + 2, i as nat),
            forall|k: int| 0 <= k < i ==> ({
                let q = type_annotation_pos(bytes@, pool@, o + 2, k as nat);
                &&& target_matches(bytes@, q, (#[trigger] annotations@[k]).target_type)
                &&& path_matches(bytes@, target_end(bytes@, q)->Some_0, annotations@[k].target_path@)
                &&& annotation_matches(bytes@, pool@, path_end(bytes@, target_end(bytes@, q)->Some_0)->Some_0, annotations@[k].annotation)
            }),
        decreases count - i,
    {
        let ghost before = annotations@;
        let a = match read_one_type_annotation(bytes, ix, pool) {
            Ok(a) => a,
            Err(e) => {
                let out = e.wrap(Frame::Entry(i));
                proof {
                    lemma_type_annotation_error(bytes@, pool@, o + 2, i as nat, count as nat, e, out);
                }
                return Err(out);
            },
        };
        annotations.push(a);
        assert(type_annotation_pos(bytes@, pool@, o + 2, (i + 1) as nat) == *ix);
        assert(type_annotation_decodes(bytes@, pool@, o + 2, i as nat));
        assert forall|k: int| 0 <= k < i + 1 implies ({
            let q = type_annotation_pos(bytes@, pool@, o + 2, k as nat);
            &&& target_matches(bytes@, q, (#[trigger] annotations@[k]).target_type)
            &&& path_matches(bytes@, target_end(bytes@, q)->Some_0, annotations@[k].target_path@)
            &&& annotation_matches(bytes@, pool@, path_end(bytes@, target_end(bytes@, q)->Some_0)->Some_0, annotations@[k].annotation)
        }) by {
            if k < i {
                assert(annotations@[k] == before[k]);
            }
        }
        i = i + 1;
    }
    proof {
        assert forall|k: nat| k < count && #[trigger] type_annotation_target_bad(bytes@, pool@, o + 2, k) implies false by {
            assert(type_annotation_decodes(bytes@, pool@, o + 2, k));
        }
        assert forall|k: nat, j: int| k < count && #[trigger] type_annotation_path_bad(bytes@, pool@, o + 2, k, j) implies false by {
            assert(type_annotation_decodes(bytes@, pool@, o + 2, k));
            let te = target_end(bytes@, type_annotation_pos(bytes@, pool@, o + 2, k))->Some_0;
            assert(bytes@[te + 1 + 2 * j] <= 3);
        }
    }
    Ok(annotations)
}

/// End of the bootstrap method entry at `q`: a method handle index, then a
/// u16-counted list of argument indices, all resolving.
pub open spec fn bootstrap_entry_end(b: Seq<u8>, pool: Seq<ConstantPoolEntry>, q: int) -> Option<int> {
    let n = be16(b, q + 2);
    if can_read(b, q, 4) && handle_resolves(pool, index_at(b, q)) && can_read(b, q + 4, 2 * n)
        && forall|j: int| 0 <= j < n ==> #[trigger] bootstrap_argument_resolves(pool, index_at(b, q + 4 + 2 * j)) {
        Some(q + 4 + 2 * n)
    } else { None }
}

pub open spec fn bootstrap_entries_end(b: Seq<u8>, pool: Seq<ConstantPoolEntry>, p: int, n: nat) -> Option<int>
    decreases n,
{
    if n == 0 { Some(p) } else {
        match bootstrap_entries_end(b, pool, p, (n - 1) as nat) {
            Some(q) => bootstrap_entry_end(b, pool, q),
            None => None,
        }
    }
}

proof fn lemma_bootstrap_entries_end_none(b: Seq<u8>, pool: Seq<ConstantPoolEntry>, p: int, j: nat, n: nat)
    requires
        j < n,
        bootstrap_entries_end(b, pool, p, (j + 1) as nat) is None,
    ensures
        bootstrap_entries_end(b, pool, p, n) is None,
    decreases n - j,
{
    if n > j + 1 {
        lemma_bootstrap_entries_end_none(b, pool, p, j, (n - 1) as nat);
    }
}

/// `e` is the bootstrap method entry encoded at `q`.
pub open spec fn bootstrap_entry_matches(b: Seq<u8>, pool: Seq<ConstantPoolEntry>, q: int, e: BootstrapMethodEntry) -> bool {
    &&& handle_matches(pool, index_at(b, q), e.method)
    &&& e.arguments@.len() == be16(b, q + 2)
    &&& forall|j: int| 0 <= j < e.arguments@.len() ==>
            bootstrap_argument_matches(pool, index_at(b, q + 4 + 2 * j), #[trigger] e.arguments@[j])
}

/// Reads one bootstrap method entry: a method handle and its static arguments.
fn read_bootstrap_method(bytes: &[u8], ix: &mut usize, pool: &[ConstantPoolEntry]) -> (r: Result<BootstrapMethodEntry, ParseError>)
    requires
        *old(ix) <= bytes@.len(),
    ensures
        r is Ok <==> bootstrap_entry_end(bytes@, pool@, *old(ix) as int) is Some,
        r is Ok ==> *final(ix) == bootstrap_entry_end(bytes@, pool@, *old(ix) as int)->Some_0 <= bytes@.len()
            && bootstrap_entry_matches(bytes@, pool@, *old(ix) as int, r->Ok_0),
        can_read(bytes@, *old(ix) as int, 2) && readable(pool@, index_at(bytes@, *old(ix) as int))
            && !(pool@[index_at(bytes@, *old(ix) as int)] is MethodHandle) ==> fails_with(r, ErrorKind::PoolKindMismatch),
{
    let ghost q = *old(ix) as int;
    let method = read_cp_methodhandle(bytes, ix, pool)?;
    let arg_count = read_u2(bytes, ix)?;
    let mut arguments: Vec<BootstrapArgument> = Vec::new();
    let mut j: u16 = 0;
    while j < arg_count
        invariant
            q == *old(ix) as int,
            can_read(bytes@, q, 4),
            arg_count == be16(bytes@, q + 2),
            handle_matches(pool@, index_at(bytes@, q), method),
            j <= arg_count,
            *ix == q + 4 + 2 * j,
            *ix <= bytes@.len(),
            arguments@.len() == j,
            forall|m: int| 0 <= m < j ==> #[trigger] bootstrap_argument_resolves(pool@, index_at(bytes@, q + 4 + 2 * m)),
            forall|m: int| 0 <= m < j ==>
                bootstrap_argument_matches(pool@, index_at(bytes@, q + 4 + 2 * m), #[trigger] arguments@[m]),
        decreases arg_count - j,
    {
        let ghost before_args = arguments@;
        let argument = match read_cp_bootstrap_argument(bytes, ix, pool) {
            Ok(a) => a,
            Err(e) => {
                proof {
                    if can_read(bytes@, q + 4, 2 * arg_count as int) {
                        assert(!bootstrap_argument_resolves(pool@, index_at(bytes@, q + 4 + 2 * j)));
                    }
                }
                return Err(e.wrap(Frame::Element(j)));
            },
        };
        arguments.push(argument);
        assert forall|m: int| 0 <= m < j + 1 implies
            bootstrap_argument_matches(pool@, index_at(bytes@, q + 4 + 2 * m), #[trigger] arguments@[m]) by {
            if m < j {
                assert(arguments@[m] == before_args[m]);
            }
        }
        j = j + 1;
    }
    Ok(BootstrapMethodEntry { method, arguments })
}

proof fn lemma_bootstrap_entries_end_prefix(b: Seq<u8>, pool: Seq<ConstantPoolEntry>, p: int, j: nat, n: nat)
    requires
        j <= n,
        bootstrap_entries_end(b, pool, p, n) is Some,
    ensures
        bootstrap_entries_end(b, pool, p, j) is Some,
    decreases n - j,
{
    if j < n {
        lemma_bootstrap_entries_end_prefix(b, pool, p, j, (n - 1) as nat);
    }
}

/// Bootstrap method `k` of the table whose entries start at `p` is reached, and
/// its method index names a readable slot that is not a MethodHandle.
pub open spec fn bootstrap_method_not_handle(b: Seq<u8>, pool: Seq<ConstantPoolEntry>, p: int, k: nat) -> bool {
    let q = bootstrap_entries_end(b, pool, p, k);
    &&& q is Some
    &&& can_read(b, q->Some_0, 2)
    &&& readable(pool, index_at(b, q->Some_0))
    &&& !(pool[index_at(b, q->Some_0)] is MethodHandle)
}

/// BootstrapMethods: per entry a method handle and a u16-counted list of static arguments.
pub fn read_bootstrapmethods_data(bytes: &[u8], ix: &mut usize, pool: &[ConstantPoolEntry]) -> (r: Result<Vec<BootstrapMethodEntry>, ParseError>)
    ensures
        r is Ok <==> can_read(bytes@, *old(ix) as int, 2)
            && bootstrap_entries_end(bytes@, pool@, *old(ix) + 2, be16(bytes@, *old(ix) as int) as nat) is Some,
        r is Ok ==> *final(ix) == bootstrap_entries_end(bytes@, pool@, *old(ix) + 2, be16(bytes@, *old(ix) as int) as nat)->Some_0
            && *old(ix) + 2 <= *final(ix) <= bytes@.len()
            && r->Ok_0@.len() == be16(bytes@, *old(ix) as int)
            && forall|k: int| 0 <= k < r->Ok_0@.len() ==> bootstrap_entry_matches(bytes@, pool@,
                bootstrap_entries_end(bytes@, pool@, *old(ix) + 2, k as nat)->Some_0, #[trigger] r->Ok_0@[k]),
        !can_read(bytes@, *old(ix) as int, 2) ==> fails_with(r, ErrorKind::UnexpectedEnd),
        forall|k: nat| k < be16(bytes@, *old(ix) as int) && can_read(bytes@, *old(ix) as int, 2)
            && #[trigger] bootstrap_method_not_handle(bytes@, pool@, *old(ix) + 2, k) ==>
            fails_with(r, ErrorKind::PoolKindMismatch) && r->Err_0.context@.last() == Frame::Entry(k as u16),
{
    if *ix > bytes.len() {
        return Err(ParseError::new(ErrorKind::UnexpectedEnd));
    }
    let ghost o = *old(ix) as int;
    let count = read_u2(bytes, ix)?;
    let mut methods: Vec<BootstrapMethodEntry> = Vec::new();
    let mut i: u16 = 0;
    while i < count
        invariant
            o == *old(ix) as int,
            can_read(bytes@, o, 2),
            count == be16(bytes@, o),
            i <= count,
            *ix <= bytes@.len(),
            o + 2 <= *ix,
            bootstrap_entries_end(bytes@, pool@, o + 2, i as nat) == Some(*ix as int),
            methods@.len() == i,
            forall|k: int| 0 <= k < i ==> bootstrap_entry_matches(bytes@, pool@,
                bootstrap_entries_end(bytes@, pool@, o + 2, k as nat)->Some_0, #[trigger] methods@[k]),
            forall|k: nat| k < i ==> !#[trigger] bootstrap_method_not_handle(bytes@, pool@, o + 2, k),
        decreases count - i,
    {
        let ghost before = methods@;
        let entry = match read_bootstrap_method(bytes, ix, pool) {
            Ok(m) => m,
            Err(e) => {
                proof { lemma_bootstrap_entries_end_none(bytes@, pool@, o + 2, i as nat, count as nat); }
                let out = e.wrap(Frame::Entry(i));
                proof {
                    assert forall|k: nat| k < count && #[trigger] bootstrap_method_not_handle(bytes@, pool@, o + 2, k) implies
                        out.kind == ErrorKind::PoolKindMismatch && out.context@.last() == Frame::Entry(k as u16) by {
                        if k > i {
                            lemma_bootstrap_entries_end_prefix(bytes@, pool@, o + 2, (i + 1) as nat, k);
                        }
                    }
                }
                return Err(out);
            },
        };
        methods.push(entry);
        assert(bootstrap_entries_end(bytes@, pool@, o + 2, (i + 1) as nat) == Some(*ix as int));
        assert forall|k: int| 0 <= k < i + 1 implies bootstrap_entry_matches(bytes@, pool@,
            bootstrap_entries_end(bytes@, pool@, o + 2, k as nat)->Some_0, #[trigger] methods@[k]) by {
            if k < i {
                assert(methods@[k] == before[k]);
            }
        }
        assert forall|k: nat| k < i + 1 implies !#[trigger] bootstrap_method_not_handle(bytes@, pool@, o + 2, k) by {
            if k == i {
                assert(handle_matches(pool@, index_at(bytes@, bootstrap_entries_end(bytes@, pool@, o + 2, k)->Some_0), entry.method));
            }
        }
        i = i + 1;
    }
    Ok(methods)
}

/// The pool index `i` resolves as a class (`kind` 0), a module (1) or a package (2).
pub open spec fn ref_at(pool: Seq<ConstantPoolEntry>, kind: u8, i: int) -> Option<Seq<char>> {
    if kind == 0 { class_at(pool, i) } else if kind == 1 { module_at(pool, i) } else { package_at(pool, i) }
}

/// End of a u16-counted list of references of `kind` at `p`, where all resolve.
pub open spec fn ref_list_end(b: Seq<u8>, pool: Seq<ConstantPoolEntry>, p: int, kind: u8) -> Option<int> {
    let n = be16(b, p);
    if can_read(b, p, 2) && can_read(b, p + 2, 2 * n)
        && forall|k: int| 0 <= k < n ==> (#[trigger] ref_at(pool, kind, index_at(b, p + 2 + 2 * k))) is Some {
        Some(p + 2 + 2 * n)
    } else {
        None
    }
}

/// `v` holds the names of the reference list at `p`.
pub open spec fn ref_list_matches(b: Seq<u8>, pool: Seq<ConstantPoolEntry>, p: int, kind: u8, v: Seq<String>) -> bool {
    &&& v.len() == be16(b, p)
    &&& forall|k: int| 0 <= k < v.len() ==> Some((#[trigger] v[k])@) == ref_at(pool, kind, index_at(b, p + 2 + 2 * k))
}

/// Reads a u16-counted list of references resolved by `kind`: 0 classes, 1 modules, 2 packages.
pub fn read_reference_list(bytes: &[u8], ix: &mut usize, pool: &[ConstantPoolEntry], kind: u8) -> (r: Result<Vec<String>, ParseError>)
    ensures
        r is Ok <==> ref_list_end(bytes@, pool@, *old(ix) as int, kind) is Some,
        r is Ok ==> *final(ix) == ref_list_end(bytes@, pool@, *old(ix) as int, kind)->Some_0 <= bytes@.len()
            && *old(ix) + 2 <= *final(ix)
            && ref_list_matches(bytes@, pool@, *old(ix) as int, kind, r->Ok_0@),
        !can_read(bytes@, *old(ix) as int, 2) ==> fails_with(r, ErrorKind::UnexpectedEnd),
{
    let ghost o = *old(ix) as int;
    let count = read_u2(bytes, ix)?;
    let mut names: Vec<String> = Vec::new();
    let mut j: u16 = 0;
    while j < count
        invariant
            o == *old(ix) as int,
            can_read(bytes@, o, 2),
            *ix == o + 2 + 2 * j,
            *ix <= bytes@.len(),
            count == be16(bytes@, o),
            j <= count,
            names@.len() == j,
            forall|k: int| 0 <= k < j ==> (#[trigger] ref_at(pool@, kind, index_at(bytes@, o + 2 + 2 * k))) is Some,
            forall|k: int| 0 <= k < j ==> Some((#[trigger] names@[k])@) == ref_at(pool@, kind, index_at(bytes@, o + 2 + 2 * k)),
        decreases count - j,
    {
        let name = if kind == 0 {
            read_cp_classinfo(bytes, ix, pool)
        } else if kind == 1 {
            read_cp_moduleinfo(bytes, ix, pool)
        } else {
            read_cp_packageinfo(bytes, ix, pool)
        };
        match name {
            Ok(n) => {
                assert(ref_at(pool@, kind, index_at(bytes@, o + 2 + 2 * j)) is Some);
                names.push(n);
            },
            Err(e) => {
                assert(ref_list_end(bytes@, pool@, o, kind) is None) by {
                    if can_read(bytes@, o + 2, 2 * count as int) {
                        assert(ref_at(pool@, kind, index_at(bytes@, o + 2 + 2 * j)) is None);
                    }
                }
                return Err(e.wrap(Frame::Element(j)));
            },
        }
        j = j + 1;
    }
    Ok(names)
}

/// Requires entry `k` of the table whose entries start at `p`.
pub open spec fn requires_entry_ok(b: Seq<u8>, pool: Seq<ConstantPoolEntry>, p: int, k: int) -> bool {
    let q = p + 6 * k;
    &&& module_at(pool, index_at(b, q)) is Some
    &&& (be16(b, q + 2) as u16) & !MODULE_REQUIRES_FLAGS == 0
    &&& opt_utf8_ok(pool, index_at(b, q + 4))
}

pub open spec fn requires_entry_matches(b: Seq<u8>, pool: Seq<ConstantPoolEntry>, p: int, k: int, e: ModuleRequireEntry) -> bool {
    let q = p + 6 * k;
    &&& Some(e.name@) == module_at(pool, index_at(b, q))
    &&& e.flags.bits == be16(b, q + 2)
    &&& opt_utf8_matches(pool, index_at(b, q + 4), e.version)
}

/// End of an exports or opens entry at `q` whose flags must lie in `mask`.
pub open spec fn export_entry_end(b: Seq<u8>, pool: Seq<ConstantPoolEntry>, q: int, mask: u16) -> Option<int> {
    if can_read(b, q, 4) && package_at(pool, index_at(b, q)) is Some && (be16(b, q + 2) as u16) & !mask == 0 {
        ref_list_end(b, pool, q + 4, 1)
    } else {
        None
    }
}

pub open spec fn exports_end(b: Seq<u8>, pool: Seq<ConstantPoolEntry>, p: int, n: nat, mask: u16) -> Option<int>
    decreases n,
{
    if n == 0 { Some(p) } else {
        match exports_end(b, pool, p, (n - 1) as nat, mask) {
            Some(q) => export_entry_end(b, pool, q, mask),
            None => None,
        }
    }
}

proof fn lemma_exports_end_none(b: Seq<u8>, pool: Seq<ConstantPoolEntry>, p: int, j: nat, n: nat, mask: u16)
    requires
        j < n,
        exports_end(b, pool, p, (j + 1) as nat, mask) is None,
    ensures
        exports_end(b, pool, p, n, mask) is None,
    decreases n - j,
{
    if n > j + 1 {
        lemma_exports_end_none(b, pool, p, j, (n - 1) as nat, mask);
    }
}

/// End of a provides entry at `q`: a service class and a list of implementation classes.
pub open spec fn provide_entry_end(b: Seq<u8>, pool: Seq<ConstantPoolEntry>, q: int) -> Option<int> {
    if can_read(b, q, 2) && class_at(pool, index_at(b, q)) is Some { ref_list_end(b, pool, q + 2, 0) } else { None }
}

pub open spec fn provides_end(b: Seq<u8>, pool: Seq<ConstantPoolEntry>, p: int, n: nat) -> Option<int>
    decreases n,
{
    if n == 0 { Some(p) } else {
        match provides_end(b, pool, p, (n - 1) as nat) {
            Some(q) => provide_entry_end(b, pool, q),
            None => None,
        }
    }
}

proof fn lemma_provides_end_none(b: Seq<u8>, pool: Seq<ConstantPoolEntry>, p: int, j: nat, n: nat)
    requires
        j < n,
        provides_end(b, pool, p, (j + 1) as nat) is None,
    ensures
        provides_end(b, pool, p, n) is None,
    decreases n - j,
{
    if n > j + 1 {
        lemma_provides_end_none(b, pool, p, j, (n - 1) as nat);
    }
}

/// End of a u16-counted exports (or opens) table at `p`.
pub open spec fn exports_table_end(b: Seq<u8>, pool: Seq<ConstantPoolEntry>, p: int, mask: u16) -> Option<int> {
    if can_read(b, p, 2) { exports_end(b, pool, p + 2, be16(b, p) as nat, mask) } else { None }
}

pub open spec fn provides_table_end(b: Seq<u8>, pool: Seq<ConstantPoolEntry>, p: int) -> Option<int> {
    if can_read(b, p, 2) { provides_end(b, pool, p + 2, be16(b, p) as nat) } else { None }
}

/// End of the Module payload at `o`, where every reference resolves to its kind
/// and every flag word lies in its set.
pub open spec fn module_end(b: Seq<u8>, pool: Seq<ConstantPoolEntry>, o: int) -> Option<int> {
    let n = be16(b, o + 6);
    let exports_at = o + 8 + 6 * n;
    if !(can_read(b, o, 8) && module_at(pool, index_at(b, o)) is Some
        && (be16(b, o + 2) as u16) & !MODULE_FLAGS == 0 && opt_utf8_ok(pool, index_at(b, o + 4))
        && can_read(b, o + 8, 6 * n) && forall|k: int| 0 <= k < n ==> #[trigger] requires_entry_ok(b, pool, o + 8, k)) {
        None
    } else {
        match exports_table_end(b, pool, exports_at, MODULE_EXPORTS_FLAGS) {
            Some(opens_at) => match exports_table_end(b, pool, opens_at, MODULE_OPENS_FLAGS) {
                Some(uses_at) => match ref_list_end(b, pool, uses_at, 0) {
                    Some(provides_at) => provides_table_end(b, pool, provides_at),
                    None => None,
                },
                None => None,
            },
            None => None,
        }
    }
}

/// Requires entry `k` of the table at `o` is reached, names a module, and has a
/// flag bit outside the requires set.
pub open spec fn requires_flags_bad(b: Seq<u8>, pool: Seq<ConstantPoolEntry>, o: int, k: int) -> bool {
    let q = o + 2 + 6 * k;
    &&& can_read(b, o, 2)
    &&& 0 <= k < be16(b, o)
    &&& can_read(b, q, 6)
    &&& forall|j: int| 0 <= j < k ==> #[trigger] requires_entry_ok(b, pool, o + 2, j)
    &&& module_at(pool, index_at(b, q)) is Some
    &&& (be16(b, q + 2) as u16) & !MODULE_REQUIRES_FLAGS != 0
}

/// Reads one six-byte requires entry.
fn read_require_entry(bytes: &[u8], ix: &mut usize, pool: &[ConstantPoolEntry]) -> (r: Result<ModuleRequireEntry, ParseError>)
    ensures
        r is Ok <==> can_read(bytes@, *old(ix) as int, 6) && requires_entry_ok(bytes@, pool@, *old(ix) as int, 0),
        r is Ok ==> *final(ix) == *old(ix) + 6 && requires_entry_matches(bytes@, pool@, *old(ix) as int, 0, r->Ok_0),
        can_read(bytes@, *old(ix) as int, 6) && module_at(pool@, index_at(bytes@, *old(ix) as int)) is Some
            && (be16(bytes@, *old(ix) + 2) as u16) & !MODULE_REQUIRES_FLAGS != 0 ==> fails_with(r, ErrorKind::InvalidFlags),
{
    let name = read_cp_moduleinfo(bytes, ix, pool)?;
    let bits = read_u2(bytes, ix)?;
    let flags = match ModuleRequiresFlags::from_bits(bits) {
        Some(f) => f,
        None => {
            return Err(ParseError::new(ErrorKind::InvalidFlags));
        },
    };
    let version = read_cp_utf8_opt(bytes, ix, pool)?;
    Ok(ModuleRequireEntry { name, flags, version })
}

/// Reads the requires table at the cursor: six-byte entries after a u16 count.
fn read_requires_table(bytes: &[u8], ix: &mut usize, pool: &[ConstantPoolEntry]) -> (r: Result<Vec<ModuleRequireEntry>, ParseError>)
    ensures
        r is Ok <==> ({
            let o = *old(ix) as int;
            &&& can_read(bytes@, o, 2)
            &&& can_read(bytes@, o + 2, 6 * be16(bytes@, o))
            &&& forall|k: int| 0 <= k < be16(bytes@, o) ==> #[trigger] requires_entry_ok(bytes@, pool@, o + 2, k)
        }),
        r is Ok ==> ({
            let o = *old(ix) as int;
            &&& r->Ok_0@.len() == be16(bytes@, o)
            &&& *final(ix) == o + 2 + 6 * be16(bytes@, o) <= bytes@.len()
            &&& forall|k: int| 0 <= k < r->Ok_0@.len() ==> requires_entry_matches(bytes@, pool@, o + 2, k, #[trigger] r->Ok_0@[k])
        }),
        forall|k: int| #[trigger] requires_flags_bad(bytes@, pool@, *old(ix) as int, k) ==>
            fails_with(r, ErrorKind::InvalidFlags) && r->Err_0.context@.last() == Frame::Entry(k as u16),
{
    let ghost o = *old(ix) as int;
    let count = read_u2(bytes, ix)?;
    let mut entries: Vec<ModuleRequireEntry> = Vec::new();
    let mut i: u16 = 0;
    while i < count
        invariant
            o == *old(ix) as int,
            can_read(bytes@, o, 2),
            count == be16(bytes@, o),
            i <= count,
            *ix == o + 2 + 6 * i,
            *ix <= bytes@.len(),
            entries@.len() == i,
            forall|k: int| 0 <= k < i ==> #[trigger] requires_entry_ok(bytes@, pool@, o + 2, k),
            forall|k: int| 0 <= k < i ==> requires_entry_matches(bytes@, pool@, o + 2, k, #[trigger] entries@[k]),
        decreases count - i,
    {
        match read_require_entry(bytes, ix, pool) {
            Ok(entry) => {
                assert(requires_entry_ok(bytes@, pool@, o + 2, i as int));
                assert(requires_entry_matches(bytes@, pool@, o + 2, i as int, entry));
                entries.push(entry);
            },
            Err(e) => {
                let out = e.wrap(Frame::Entry(i));
                proof {
                    assert(!requires_entry_ok(bytes@, pool@, o + 2, i as int) || !can_read(bytes@, o + 2, 6 * count as int));
                    assert forall|k: int| #[trigger] requires_flags_bad(bytes@, pool@, o, k) implies
                        k == i && out.kind == ErrorKind::InvalidFlags && out.context@.last() == Frame::Entry(k as u16) by {
                        if k < i {
                            assert(requires_entry_ok(bytes@, pool@, o + 2, k));
                        } else if k > i {
                            assert(requires_entry_ok(bytes@, pool@, o + 2, i as int));
                        }
                    }
                }
                return Err(out);
            },
        }
        i = i + 1;
    }
    assert forall|k: int| #[trigger] requires_flags_bad(bytes@, pool@, o, k) implies false by {
        assert(requires_entry_ok(bytes@, pool@, o + 2, k));
    }
    Ok(entries)
}

/// Entry `q` of an exports or opens table holds `package`, the flags `bits` and `to`.
pub open spec fn export_matches(b: Seq<u8>, pool: Seq<ConstantPoolEntry>, q: int, package: Seq<char>, bits: u16, to: Seq<String>) -> bool {
    &&& Some(package) == package_at(pool, index_at(b, q))
    &&& bits == be16(b, q + 2)
    &&& ref_list_matches(b, pool, q + 4, 1, to)
}

/// The flag set of an opens table (`opens`) or an exports table.
pub open spec fn table_mask(opens: bool) -> u16 {
    if opens { MODULE_OPENS_FLAGS } else { MODULE_EXPORTS_FLAGS }
}

/// Exports (or opens) entry `k` of the table at `o` is reached, names a package,
/// and has a flag bit outside `mask`.
pub open spec fn export_flags_bad(b: Seq<u8>, pool: Seq<ConstantPoolEntry>, o: int, k: nat, mask: u16) -> bool {
    let q = exports_end(b, pool, o + 2, k, mask);
    &&& can_read(b, o, 2)
    &&& k < be16(b, o)
    &&& q is Some
    &&& can_read(b, q->Some_0, 4)
    &&& package_at(pool, index_at(b, q->Some_0)) is Some
    &&& (be16(b, q->Some_0 + 2) as u16) & !mask != 0
}

proof fn lemma_exports_end_prefix(b: Seq<u8>, pool: Seq<ConstantPoolEntry>, p: int, j: nat, n: nat, mask: u16)
    requires
        j <= n,
        exports_end(b, pool, p, n, mask) is Some,
    ensures
        exports_end(b, pool, p, j, mask) is Some,
    decreases n - j,
{
    if j < n {
        lemma_exports_end_prefix(b, pool, p, j, (n - 1) as nat, mask);
    }
}

/// Where exports entry `i` fails to read and the error is wrapped in `Entry(i)`,
/// the flag clause holds for every entry.
proof fn lemma_export_error(b: Seq<u8>, pool: Seq<ConstantPoolEntry>, o: int, i: nat, mask: u16, out: ParseError)
    requires
        exports_end(b, pool, o + 2, i, mask) is Some,
        exports_end(b, pool, o + 2, i + 1, mask) is None,
        forall|k: nat| k < i ==> !#[trigger] export_flags_bad(b, pool, o, k, mask),
        out.context@.len() > 0 && out.context@.last() == Frame::Entry(i as u16),
        export_flags_bad(b, pool, o, i, mask) ==> out.kind == ErrorKind::InvalidFlags,
    ensures
        forall|k: nat| #[trigger] export_flags_bad(b, pool, o, k, mask) ==>
            out.kind == ErrorKind::InvalidFlags && out.context@.last() == Frame::Entry(k as u16),
{
    assert forall|k: nat| #[trigger] export_flags_bad(b, pool, o, k, mask) implies
        out.kind == ErrorKind::InvalidFlags && out.context@.last() == Frame::Entry(k as u16) by {
        if k > i {
            lemma_exports_end_prefix(b, pool, o + 2, i + 1, k, mask);
        }
    }
}

/// Reads an exports table (`opens` false, into the first list) or an opens table
/// (`opens` true, into the second): package name, flags word and target modules per entry.
fn read_exports_table(bytes: &[u8], ix: &mut usize, pool: &[ConstantPoolEntry], opens: bool)
    -> (r: Result<(Vec<ModuleExportsEntry>, Vec<ModuleOpensEntry>), ParseError>)
    ensures
        ({
            let mask = if opens { MODULE_OPENS_FLAGS } else { MODULE_EXPORTS_FLAGS };
            let o = *old(ix) as int;
            &&& r is Ok <==> exports_table_end(bytes@, pool@, o, mask) is Some
            &&& r is Ok ==> *final(ix) == exports_table_end(bytes@, pool@, o, mask)->Some_0 <= bytes@.len()
                && o + 2 <= *final(ix)
            &&& r is Ok && !opens ==> r->Ok_0.0@.len() == be16(bytes@, o) && r->Ok_0.1@.len() == 0
                && forall|k: int| 0 <= k < r->Ok_0.0@.len() ==> export_matches(bytes@, pool@,
                    exports_end(bytes@, pool@, o + 2, k as nat, mask)->Some_0,
                    (#[trigger] r->Ok_0.0@[k]).package_name@, r->Ok_0.0@[k].flags.bits, r->Ok_0.0@[k].exports_to@)
            &&& r is Ok && opens ==> r->Ok_0.1@.len() == be16(bytes@, o) && r->Ok_0.0@.len() == 0
                && forall|k: int| 0 <= k < r->Ok_0.1@.len() ==> export_matches(bytes@, pool@,
                    exports_end(bytes@, pool@, o + 2, k as nat, mask)->Some_0,
                    (#[trigger] r->Ok_0.1@[k]).package_name@, r->Ok_0.1@[k].flags.bits, r->Ok_0.1@[k].opens_to@)
        }),
        forall|k: nat| #[trigger] export_flags_bad(bytes@, pool@, *old(ix) as int, k, table_mask(opens)) ==>
            fails_with(r, ErrorKind::InvalidFlags) && r->Err_0.context@.last() == Frame::Entry(k as u16),
{
    let ghost mask = if opens { MODULE_OPENS_FLAGS } else { MODULE_EXPORTS_FLAGS };
    let ghost o = *old(ix) as int;
    let count = read_u2(bytes, ix)?;
    let mut exports: Vec<ModuleExportsEntry> = Vec::new();
    let mut opened: Vec<ModuleOpensEntry> = Vec::new();
    let mut i: u16 = 0;
    while i < count
        invariant
            o == *old(ix) as int,
            mask == (if opens { MODULE_OPENS_FLAGS } else { MODULE_EXPORTS_FLAGS }),
            can_read(bytes@, o, 2),
            count == be16(bytes@, o),
            i <= count,
            *ix <= bytes@.len(),
            exports_end(bytes@, pool@, o + 2, i as nat, mask) == Some(*ix as int),
            o + 2 <= *ix,
            forall|k: nat| k < i ==> !#[trigger] export_flags_bad(bytes@, pool@, o, k, mask),
            !opens ==> exports@.len() == i && opened@.len() == 0,
            opens ==> opened@.len() == i && exports@.len() == 0,
            forall|k: int| 0 <= k < exports@.len() ==> export_matches(bytes@, pool@,
                exports_end(bytes@, pool@, o + 2, k as nat, mask)->Some_0,
                (#[trigger] exports@[k]).package_name@, exports@[k].flags.bits, exports@[k].exports_to@),
            forall|k: int| 0 <= k < opened@.len() ==> export_matches(bytes@, pool@,
                exports_end(bytes@, pool@, o + 2, k as nat, mask)->Some_0,
                (#[trigger] opened@[k]).package_name@, opened@[k].flags.bits, opened@[k].opens_to@),
        decreases count - i,
    {
        let ghost before_e = exports@;
        let ghost before_o = opened@;
        let package_name = match read_cp_packageinfo(bytes, ix, pool) {
            Ok(v) => v,
            Err(e) => {
                proof { lemma_exports_end_none(bytes@, pool@, o + 2, i as nat, count as nat, mask); }
                let out = e.wrap(Frame::Entry(i));
                proof { lemma_export_error(bytes@, pool@, o, i as nat, mask, out); }
                return Err(out);
            },
        };
        let bits = match read_u2(bytes, ix) {
            Ok(v) => v,
            Err(e) => {
                proof { lemma_exports_end_none(bytes@, pool@, o + 2, i as nat, count as nat, mask); }
                let out = e.wrap(Frame::Entry(i));
                proof { lemma_export_error(bytes@, pool@, o, i as nat, mask, out); }
                return Err(out);
            },
        };
        let flags_ok = if opens { ModuleOpensFlags::from_bits(bits).is_some() } else { ModuleExportsFlags::from_bits(bits).is_some() };
        if !flags_ok {
            proof { lemma_exports_end_none(bytes@, pool@, o + 2, i as nat, count as nat, mask); }
            let out = ParseError::new(ErrorKind::InvalidFlags).wrap(Frame::Entry(i));
            proof { lemma_export_error(bytes@, pool@, o, i as nat, mask, out); }
            return Err(out);
        }
        let targets = match read_reference_list(bytes, ix, pool, 1) {
            Ok(v) => v,
            Err(e) => {
                proof { lemma_exports_end_none(bytes@, pool@, o + 2, i as nat, count as nat, mask); }
                let out = e.wrap(Frame::Entry(i));
                proof { lemma_export_error(bytes@, pool@, o, i as nat, mask, out); }
                return Err(out);
            },
        };
        if opens {
            opened.push(ModuleOpensEntry { package_name, flags: ModuleOpensFlags { bits }, opens_to: targets });
            assert forall|k: int| 0 <= k < opened@.len() implies export_matches(bytes@, pool@,
                exports_end(bytes@, pool@, o + 2, k as nat, mask)->Some_0,
                (#[trigger] opened@[k]).package_name@, opened@[k].flags.bits, opened@[k].opens_to@) by {
                if k < i {
                    assert(opened@[k] == before_o[k]);
                }
            }
        } else {
            exports.push(ModuleExportsEntry { package_name, flags: ModuleExportsFlags { bits }, exports_to: targets });
            assert forall|k: int| 0 <= k < exports@.len() implies export_matches(bytes@, pool@,
                exports_end(bytes@, pool@, o + 2, k as nat, mask)->Some_0,
                (#[trigger] exports@[k]).package_name@, exports@[k].flags.bits, exports@[k].exports_to@) by {
                if k < i {
                    assert(exports@[k] == before_e[k]);
                }
            }
        }
        assert(exports_end(bytes@, pool@, o + 2, (i + 1) as nat, mask) == Some(*ix as int));
        assert(!export_flags_bad(bytes@, pool@, o, i as nat, mask));
        i = i + 1;
    }
    assert forall|k: nat| #[trigger] export_flags_bad(bytes@, pool@, o, k, mask) implies false by {
        assert(k < i);
    }
    Ok((exports, opened))
}

/// Reads the provides table: a service class and its implementation classes per entry.
fn read_provides_table(bytes: &[u8], ix: &mut usize, pool: &[ConstantPoolEntry]) -> (r: Result<Vec<ModuleProvidesEntry>, ParseError>)
    ensures
        r is Ok <==> provides_table_end(bytes@, pool@, *old(ix) as int) is Some,
        r is Ok ==> *final(ix) == provides_table_end(bytes@, pool@, *old(ix) as int)->Some_0 <= bytes@.len()
            && *old(ix) + 2 <= *final(ix)
            && r->Ok_0@.len() == be16(bytes@, *old(ix) as int)
            && forall|k: int| 0 <= k < r->Ok_0@.len() ==> ({
                let q = provides_end(bytes@, pool@, *old(ix) + 2, k as nat)->Some_0;
                &&& Some((#[trigger] r->Ok_0@[k]).service_interface_name@) == class_at(pool@, index_at(bytes@, q))
                &&& ref_list_matches(bytes@, pool@, q + 2, 0, r->Ok_0@[k].provides_with@)
            }),
{
    let ghost o = *old(ix) as int;
    let count = read_u2(bytes, ix)?;
    let mut entries: Vec<ModuleProvidesEntry> = Vec::new();
    let mut i: u16 = 0;
    while i < count
        invariant
            o == *old(ix) as int,
            can_read(bytes@, o, 2),
            count == be16(bytes@, o),
            i <= count,
            *ix <= bytes@.len(),
            provides_end(bytes@, pool@, o + 2, i as nat) == Some(*ix as int),
            o + 2 <= *ix,
            entries@.len() == i,
            forall|k: int| 0 <= k < i ==> ({
                let q = provides_end(bytes@, pool@, o + 2, k as nat)->Some_0;
                &&& Some((#[trigger] entries@[k]).service_interface_name@) == class_at(pool@, index_at(bytes@, q))
                &&& ref_list_matches(bytes@, pool@, q + 2, 0, entries@[k].provides_with@)
            }),
        decreases count - i,
    {
        let ghost before = entries@;
        let service_interface_name = match read_cp_classinfo(bytes, ix, pool) {
            Ok(v) => v,
            Err(e) => {
                proof { lemma_provides_end_none(bytes@, pool@, o + 2, i as nat, count as nat); }
                return Err(e.wrap(Frame::Entry(i)));
            },
        };
        let provides_with = match read_reference_list(bytes, ix, pool, 0) {
            Ok(v) => v,
            Err(e) => {
                proof { lemma_provides_end_none(bytes@, pool@, o + 2, i as nat, count as nat); }
                return Err(e.wrap(Frame::Entry(i)));
            },
        };
        entries.push(ModuleProvidesEntry { service_interface_name, provides_with });
        assert(provides_end(bytes@, pool@, o + 2, (i + 1) as nat) == Some(*ix as int));
        assert forall|k: int| 0 <= k < i + 1 implies ({
            let q = provides_end(bytes@, pool@, o + 2, k as nat)->Some_0;
            &&& Some((#[trigger] entries@[k]).service_interface_name@) == class_at(pool@, index_at(bytes@, q))
            &&& ref_list_matches(bytes@, pool@, q + 2, 0, entries@[k].provides_with@)
        }) by {
            if k < i {
                assert(entries@[k] == before[k]);
            }
        }
        i = i + 1;
    }
    Ok(entries)
}

/// `m` is the module encoded at `o`: its head, and every table's entries.
pub open spec fn module_matches(b: Seq<u8>, pool: Seq<ConstantPoolEntry>, o: int, m: ModuleData) -> bool {
    let exports_at = o + 8 + 6 * be16(b, o + 6);
    let opens_at = exports_table_end(b, pool, exports_at, MODULE_EXPORTS_FLAGS)->Some_0;
    let uses_at = exports_table_end(b, pool, opens_at, MODULE_OPENS_FLAGS)->Some_0;
    let provides_at = ref_list_end(b, pool, uses_at, 0)->Some_0;
    &&& Some(m.name@) == module_at(pool, index_at(b, o))
    &&& m.access_flags.bits == be16(b, o + 2)
    &&& opt_utf8_matches(pool, index_at(b, o + 4), m.version)
    &&& m.requires_entries@.len() == be16(b, o + 6)
    &&& forall|k: int| 0 <= k < m.requires_entries@.len() ==>
            requires_entry_matches(b, pool, o + 8, k, #[trigger] m.requires_entries@[k])
    &&& m.exports@.len() == be16(b, exports_at)
    &&& forall|k: int| 0 <= k < m.exports@.len() ==> export_matches(b, pool,
            exports_end(b, pool, exports_at + 2, k as nat, MODULE_EXPORTS_FLAGS)->Some_0,
            (#[trigger] m.exports@[k]).package_name@, m.exports@[k].flags.bits, m.exports@[k].exports_to@)
    &&& m.opens@.len() == be16(b, opens_at)
    &&& forall|k: int| 0 <= k < m.opens@.len() ==> export_matches(b, pool,
            exports_end(b, pool, opens_at + 2, k as nat, MODULE_OPENS_FLAGS)->Some_0,
            (#[trigger] m.opens@[k]).package_name@, m.opens@[k].flags.bits, m.opens@[k].opens_to@)
    &&& ref_list_matches(b, pool, uses_at, 0, m.uses@)
    &&& m.provides@.len() == be16(b, provides_at)
    &&& forall|k: int| 0 <= k < m.provides@.len() ==> ({
            let q = provides_end(b, pool, provides_at + 2, k as nat)->Some_0;
            &&& Some((#[trigger] m.provides@[k]).service_interface_name@) == class_at(pool, index_at(b, q))
            &&& ref_list_matches(b, pool, q + 2, 0, m.provides@[k].provides_with@)
        })
}

/// The module's name, flags and version at `o` read and are acceptable.
pub open spec fn module_head_fine(b: Seq<u8>, pool: Seq<ConstantPoolEntry>, o: int) -> bool {
    &&& can_read(b, o, 8)
    &&& module_at(pool, index_at(b, o)) is Some
    &&& (be16(b, o + 2) as u16) & !MODULE_FLAGS == 0
    &&& opt_utf8_ok(pool, index_at(b, o + 4))
}

/// The requires table at `p` reads in full and every entry is acceptable.
pub open spec fn requires_table_fine(b: Seq<u8>, pool: Seq<ConstantPoolEntry>, p: int) -> bool {
    &&& can_read(b, p, 2)
    &&& can_read(b, p + 2, 6 * be16(b, p))
    &&& forall|k: int| 0 <= k < be16(b, p) ==> #[trigger] requires_entry_ok(b, pool, p + 2, k)
}

/// Module: the module's name, flags and version, then its requires, exports,
/// opens, uses and provides tables. Every flag set is strict.
pub fn read_module_data(bytes: &[u8], ix: &mut usize, pool: &[ConstantPoolEntry]) -> (r: Result<ModuleData, ParseError>)
    ensures
        r is Ok <==> module_end(bytes@, pool@, *old(ix) as int) is Some,
        r is Ok ==> *final(ix) == module_end(bytes@, pool@, *old(ix) as int)->Some_0 <= bytes@.len()
            && *old(ix) + 16 <= *final(ix),
        r is Ok ==> module_matches(bytes@, pool@, *old(ix) as int, r->Ok_0),
        can_read(bytes@, *old(ix) as int, 4) && module_at(pool@, index_at(bytes@, *old(ix) as int)) is Some
            && (be16(bytes@, *old(ix) + 2) as u16) & !MODULE_FLAGS != 0 ==> fails_with(r, ErrorKind::InvalidFlags),
        forall|k: int| module_head_fine(bytes@, pool@, *old(ix) as int)
            && #[trigger] requires_flags_bad(bytes@, pool@, *old(ix) + 6, k) ==>
            fails_with(r, ErrorKind::InvalidFlags) && r->Err_0.context@.last() == Frame::Entry(k as u16),
        forall|k: nat| module_head_fine(bytes@, pool@, *old(ix) as int) && requires_table_fine(bytes@, pool@, *old(ix) + 6)
            && #[trigger] export_flags_bad(bytes@, pool@, *old(ix) + 8 + 6 * be16(bytes@, *old(ix) + 6), k, MODULE_EXPORTS_FLAGS) ==>
            fails_with(r, ErrorKind::InvalidFlags) && r->Err_0.context@.last() == Frame::Entry(k as u16),
        forall|k: nat| module_head_fine(bytes@, pool@, *old(ix) as int) && requires_table_fine(bytes@, pool@, *old(ix) + 6)
            && exports_table_end(bytes@, pool@, *old(ix) + 8 + 6 * be16(bytes@, *old(ix) + 6), MODULE_EXPORTS_FLAGS) is Some
            && #[trigger] export_flags_bad(bytes@, pool@, exports_table_end(bytes@, pool@,
                *old(ix) + 8 + 6 * be16(bytes@, *old(ix) + 6), MODULE_EXPORTS_FLAGS)->Some_0, k, MODULE_OPENS_FLAGS) ==>
            fails_with(r, ErrorKind::InvalidFlags) && r->Err_0.context@.last() == Frame::Entry(k as u16),
        !can_read(bytes@, *old(ix) as int, 2) ==> fails_with(r, ErrorKind::UnexpectedEnd),
{
    let name = in_context(read_cp_moduleinfo(bytes, ix, pool), Frame::Header)?;
    let access_flags = match ModuleAccessFlags::from_bits(read_u2(bytes, ix)?) {
        Some(f) => f,
        None => {
            return Err(ParseError::new(ErrorKind::InvalidFlags));
        },
    };
    let version = in_context(read_cp_utf8_opt(bytes, ix, pool), Frame::Header)?;
    let requires_entries = read_requires_table(bytes, ix, pool)?;
    assert(table_mask(false) == MODULE_EXPORTS_FLAGS && table_mask(true) == MODULE_OPENS_FLAGS);
    let (exports, _) = read_exports_table(bytes, ix, pool, false)?;
    let (_, opens) = read_exports_table(bytes, ix, pool, true)?;
    let uses = read_reference_list(bytes, ix, pool, 0)?;
    let provides = read_provides_table(bytes, ix, pool)?;
    Ok(ModuleData { name, access_flags, version, requires_entries, exports, opens, uses, provides })
}

/// The position of the decoder that an attribute name selects in the list of
/// known attributes; names outside the list select `Other`, the last.
pub open spec fn decoder_for(name: Seq<char>) -> nat {
    if name == "ConstantValue"@ { 0 }
    else if name == "Code"@ { 1 }
    else if name == "StackMapTable"@ { 2 }
    else if name == "Exceptions"@ { 3 }
    else if name == "InnerClasses"@ { 4 }
    else if name == "EnclosingMethod"@ { 5 }
    else if name == "Synthetic"@ { 6 }
    else if name == "Signature"@ { 7 }
    else if name == "SourceFile"@ { 8 }
    else if name == "SourceDebugExtension"@ { 9 }
    else if name == "LineNumberTable"@ { 10 }
    else if name == "LocalVariableTable"@ { 11 }
    else if name == "LocalVariableTypeTable"@ { 12 }
    else if name == "Deprecated"@ { 13 }
    else if name == "RuntimeVisibleAnnotations"@ { 14 }
    else if name == "RuntimeInvisibleAnnotations"@ { 15 }
    else if name == "RuntimeVisibleParameterAnnotations"@ { 16 }
    else if name == "RuntimeInvisibleParameterAnnotations"@ { 17 }
    else if name == "RuntimeVisibleTypeAnnotations"@ { 18 }
    else if name == "RuntimeInvisibleTypeAnnotations"@ { 19 }
    else if name == "AnnotationDefault"@ { 20 }
    else if name == "BootstrapMethods"@ { 21 }
    else if name == "MethodParameters"@ { 22 }
    else if name == "Module"@ { 23 }
    else if name == "ModulePackages"@ { 24 }
    else if name == "ModuleMainClass"@ { 25 }
    else if name == "NestHost"@ { 26 }
    else if name == "NestMembers"@ { 27 }
    else if name == "Record"@ { 28 }
    else { 29 }
}

/// The position of a data variant in the same list.
pub open spec fn variant_of(d: AttributeData) -> nat {
    match d {
        AttributeData::ConstantValue(..) => 0,
        AttributeData::Code(..) => 1,
        AttributeData::StackMapTable(..) => 2,
        AttributeData::Exceptions(..) => 3,
        AttributeData::InnerClasses(..) => 4,
        AttributeData::EnclosingMethod { .. } => 5,
        AttributeData::Synthetic => 6,
        AttributeData::Signature(..) => 7,
        AttributeData::SourceFile(..) => 8,
        AttributeData::SourceDebugExtension(..) => 9,
        AttributeData::LineNumberTable(..) => 10,
        AttributeData::LocalVariableTable(..) => 11,
        AttributeData::LocalVariableTypeTable(..) => 12,
        AttributeData::Deprecated => 13,
        AttributeData::RuntimeVisibleAnnotations(..) => 14,
        AttributeData::RuntimeInvisibleAnnotations(..) => 15,
        AttributeData::RuntimeVisibleParameterAnnotations(..) => 16,
        AttributeData::RuntimeInvisibleParameterAnnotations(..) => 17,
        AttributeData::RuntimeVisibleTypeAnnotations(..) => 18,
        AttributeData::RuntimeInvisibleTypeAnnotations(..) => 19,
        AttributeData::AnnotationDefault(..) => 20,
        AttributeData::BootstrapMethods(..) => 21,
        AttributeData::MethodParameters(..) => 22,
        AttributeData::Module(..) => 23,
        AttributeData::ModulePackages(..) => 24,
        AttributeData::ModuleMainClass(..) => 25,
        AttributeData::NestHost(..) => 26,
        AttributeData::NestMembers(..) => 27,
        AttributeData::Record(..) => 28,
        AttributeData::Other(..) => 29,
    }
}

/// The data that an attribute called `name` decodes to has the variant that the name selects.
pub open spec fn attribute_variant_matches(name: Seq<char>, d: AttributeData) -> bool {
    variant_of(d) == decoder_for(name)
}

/// The name is one that has a decoder of its own (not `Other`).
pub open spec fn is_known_attribute(name: Seq<char>) -> bool {
    decoder_for(name) != 29
}

/// Names and descriptors inside decoded attribute data are valid: local variable
/// and record component names are unqualified names, their descriptors field
/// descriptors, and every annotation is valid; nested attribute lists likewise.
pub open spec fn attribute_data_valid(d: AttributeData) -> bool
    decreases d,
{
    match d {
        AttributeData::Code(c) => forall|k: int| 0 <= k < c.attributes@.len() ==>
            attribute_data_valid(#[trigger] c.attributes@[k].data),
        AttributeData::LocalVariableTable(v) => forall|k: int| 0 <= k < v@.len() ==>
            spec_is_unqualified_name((#[trigger] v@[k]).name@, false, false) && spec_is_field_descriptor(v@[k].descriptor@),
        AttributeData::LocalVariableTypeTable(v) => forall|k: int| 0 <= k < v@.len() ==>
            spec_is_unqualified_name((#[trigger] v@[k]).name@, false, false),
        AttributeData::RuntimeVisibleAnnotations(v) => forall|k: int| 0 <= k < v@.len() ==> annotation_valid(#[trigger] v@[k]),
        AttributeData::RuntimeInvisibleAnnotations(v) => forall|k: int| 0 <= k < v@.len() ==> annotation_valid(#[trigger] v@[k]),
        AttributeData::RuntimeVisibleParameterAnnotations(v) => forall|k: int, m: int|
            0 <= k < v@.len() && 0 <= m < v@[k].annotations@.len() ==> annotation_valid(#[trigger] v@[k].annotations@[m]),
        AttributeData::RuntimeInvisibleParameterAnnotations(v) => forall|k: int, m: int|
            0 <= k < v@.len() && 0 <= m < v@[k].annotations@.len() ==> annotation_valid(#[trigger] v@[k].annotations@[m]),
        AttributeData::RuntimeVisibleTypeAnnotations(v) => forall|k: int| 0 <= k < v@.len() ==> annotation_valid(#[trigger] v@[k].annotation),
        AttributeData::RuntimeInvisibleTypeAnnotations(v) => forall|k: int| 0 <= k < v@.len() ==> annotation_valid(#[trigger] v@[k].annotation),
        AttributeData::AnnotationDefault(v) => element_value_valid(v),
        AttributeData::Record(v) => forall|k: int| 0 <= k < v@.len() ==> ({
            let c = #[trigger] v@[k];
            &&& spec_is_unqualified_name(c.name@, false, false)
            &&& spec_is_field_descriptor(c.descriptor@)
            &&& forall|m: int| 0 <= m < c.attributes@.len() ==> attribute_data_valid(#[trigger] c.attributes@[m].data)
        }),
        _ => true,
    }
}

/// Every attribute of a list has valid data of the variant that its name selects.
pub open spec fn attributes_valid(v: Seq<AttributeInfo>) -> bool {
    &&& forall|k: int| 0 <= k < v.len() ==> attribute_data_valid(#[trigger] v[k].data)
    &&& forall|k: int| 0 <= k < v.len() ==> attribute_variant_matches((#[trigger] v[k]).name@, v[k].data)
}

/// Start of attribute `k` in a u16-counted attribute list at `o`: each attribute
/// takes its six header bytes plus its declared length.
pub open spec fn attribute_pos(b: Seq<u8>, o: int, k: nat) -> int
    decreases k,
{
    if k == 0 { o + 2 } else {
        let p = attribute_pos(b, o, (k - 1) as nat);
        p + 6 + be32(b, p + 2)
    }
}

/// Every attribute of a list is valid, is named after its variant, and has the
/// name that its header gives.
pub open spec fn attribute_list_ok(b: Seq<u8>, pool: Seq<ConstantPoolEntry>, o: int, v: Seq<AttributeInfo>) -> bool {
    &&& v.len() == be16(b, o)
    &&& forall|k: int| 0 <= k < v.len() ==> attribute_data_valid(#[trigger] v[k].data)
    &&& forall|k: int| 0 <= k < v.len() ==> attribute_variant_matches((#[trigger] v[k]).name@, v[k].data)
    &&& forall|k: int| 0 <= k < v.len() ==>
            Some((#[trigger] v[k]).name@) == utf8_at(pool, index_at(b, attribute_pos(b, o, k as nat)))
    &&& forall|k: int| 0 <= k < v.len() ==> attribute_data_tied(b, pool, attribute_pos(b, o, k as nat) + 6,
            be32(b, attribute_pos(b, o, k as nat) + 2), (#[trigger] v[k]).data)
}

/// The payload of `len` bytes at `q` of an attribute called `name` decodes in
/// exactly `len` bytes, for every kind but Code and Record (false for those two).
pub open spec fn payload_ok0(b: Seq<u8>, pool: Seq<ConstantPoolEntry>, name: Seq<char>, q: int, len: int) -> bool {
    let d = decoder_for(name);
    let n = be16(b, q);
    let i = index_at(b, q);
    if d == 0 { len == 2 && can_read(b, q, 2) && literal_resolves(pool, i) }
    else if d == 2 { can_read(b, q, 2) && frames_end(b, pool, q + 2, n as nat) == Some(q + len) }
    else if d == 3 || d == 27 { class_list_ok(b, pool, q) && 2 + 2 * n == len }
    else if d == 4 {
        &&& can_read(b, q, 2) && can_read(b, q + 2, 8 * n) && 2 + 8 * n == len
        &&& forall|k: int| 0 <= k < n ==> #[trigger] inner_class_ok(b, pool, q, k)
    }
    else if d == 5 {
        len == 4 && can_read(b, q, 4) && class_at(pool, i) is Some
            && (index_at(b, q + 2) == 0 || nat_resolves(pool, index_at(b, q + 2)))
    }
    else if d == 6 || d == 13 { len == 0 }
    else if d == 7 || d == 8 { len == 2 && can_read(b, q, 2) && utf8_at(pool, i) is Some }
    else if d == 9 { can_read(b, q, len) && java_utf8_text(b.subrange(q, q + len)) is Some }
    else if d == 10 { can_read(b, q, 2) && can_read(b, q + 2, 4 * n) && 2 + 4 * n == len }
    else if d == 11 { local_variable_table_ok(b, pool, q, true) && 2 + 10 * n == len }
    else if d == 12 { local_variable_table_ok(b, pool, q, false) && 2 + 10 * n == len }
    else if d == 21 { can_read(b, q, 2) && bootstrap_entries_end(b, pool, q + 2, n as nat) == Some(q + len) }
    else if d == 22 {
        &&& can_read(b, q, 1) && can_read(b, q + 1, 4 * b[q]) && 1 + 4 * b[q] == len
        &&& forall|k: int| 0 <= k < b[q] ==> #[trigger] method_parameter_ok(b, pool, q, k)
    }
    else if d == 14 || d == 15 { can_read(b, q, 2) && annotations_end(b, pool, q + 2, n as nat) == Some(q + len) }
    else if d == 16 || d == 17 {
        can_read(b, q, 1) && parameter_annotations_end(b, pool, q + 1, b[q] as nat) == Some(q + len)
    }
    else if d == 18 || d == 19 { can_read(b, q, 2) && type_annotations_end(b, pool, q + 2, n as nat) == Some(q + len) }
    else if d == 20 { element_value_end(b, pool, q) == Some(q + len) }
    else if d == 23 { module_end(b, pool, q) == Some(q + len) }
    else if d == 24 { package_list_ok(b, pool, q) && 2 + 2 * n == len }
    else if d == 25 || d == 26 { len == 2 && can_read(b, q, 2) && class_at(pool, i) is Some }
    else if d == 29 { can_read(b, q, len) }
    else { false }
}

/// The payload of `len` bytes at `q` of an attribute called `name` decodes in
/// exactly `len` bytes. Code and Record payloads are covered where the attribute
/// lists nested in them hold no Code or Record themselves, and a Code payload
/// where its instructions are a plain run (so that it decodes whether or not
/// bytecode decoding is asked for).
pub open spec fn payload_ok(b: Seq<u8>, pool: Seq<ConstantPoolEntry>, name: Seq<char>, q: int, len: int) -> bool {
    let d = decoder_for(name);
    if d == 1 {
        code_decodes(b, pool, q) && code_end(b, q) == q + len
            && plain_run(b.subrange(q + 8, q + 8 + be32(b, q + 4)), 0)
    } else if d == 28 {
        &&& can_read(b, q, 2)
        &&& forall|k: nat| k < be16(b, q) ==> #[trigger] component_ok(b, pool, q, k)
        &&& component_pos(b, q, be16(b, q) as nat) == q + len
    } else {
        payload_ok0(b, pool, name, q, len)
    }
}

/// `v` is the parameter annotation table at `o`.
pub open spec fn parameter_annotations_tied(b: Seq<u8>, pool: Seq<ConstantPoolEntry>, o: int, v: Seq<ParameterAnnotation>) -> bool {
    &&& v.len() == b[o]
    &&& forall|k: int| 0 <= k < v.len() ==> (#[trigger] v[k]).annotations@.len()
            == be16(b, parameter_pos(b, pool, o + 1, k as nat))
    &&& forall|k: int, m: int| 0 <= k < v.len() && 0 <= m < v[k].annotations@.len() ==>
            annotation_matches(b, pool, annotations_pos(b, pool,
                parameter_pos(b, pool, o + 1, k as nat) + 2, m as nat), #[trigger] v[k].annotations@[m])
}

/// `v` is the type annotation table at `o`.
pub open spec fn type_annotations_tied(b: Seq<u8>, pool: Seq<ConstantPoolEntry>, o: int, v: Seq<TypeAnnotation>) -> bool {
    &&& v.len() == be16(b, o)
    &&& forall|k: int| 0 <= k < v.len() ==> ({
            let q = type_annotation_pos(b, pool, o + 2, k as nat);
            &&& target_matches(b, q, (#[trigger] v[k]).target_type)
            &&& path_matches(b, target_end(b, q)->Some_0, v[k].target_path@)
            &&& annotation_matches(b, pool, path_end(b, target_end(b, q)->Some_0)->Some_0, v[k].annotation)
        })
}

/// The decoded data `d` of an attribute whose payload of `len` bytes starts at `q`
/// is the one its decoder reads there.
pub open spec fn attribute_data_tied(b: Seq<u8>, pool: Seq<ConstantPoolEntry>, q: int, len: int, d: AttributeData) -> bool {
    let n = be16(b, q);
    match d {
        AttributeData::ConstantValue(l) => literal_matches(pool, index_at(b, q), l),
        AttributeData::Code(c) => c.max_stack == be16(b, q) && c.max_locals == be16(b, q + 2)
            && c.code@ == b.subrange(q + 8, q + 8 + be32(b, q + 4))
            && c.exception_table@.len() == be16(b, q + 8 + be32(b, q + 4)),
        AttributeData::StackMapTable(v) => v@.len() == n && forall|k: int| 0 <= k < v@.len() ==>
            frame_matches(b, pool, frames_end(b, pool, q + 2, k as nat)->Some_0, #[trigger] v@[k]),
        AttributeData::Exceptions(v) => class_list_matches(b, pool, q, v@),
        AttributeData::InnerClasses(v) => v@.len() == n && forall|k: int| 0 <= k < v@.len() ==>
            inner_class_matches(b, pool, q, k, #[trigger] v@[k]),
        AttributeData::EnclosingMethod { class_name, method } => Some(class_name@) == class_at(pool, index_at(b, q))
            && (if index_at(b, q + 2) == 0 { method is None } else { method is Some && nat_matches(pool, index_at(b, q + 2), method->Some_0) }),
        AttributeData::Signature(t) => Some(t@) == utf8_at(pool, index_at(b, q)),
        AttributeData::SourceFile(t) => Some(t@) == utf8_at(pool, index_at(b, q)),
        AttributeData::SourceDebugExtension(t) => Some(t@) == java_utf8_text(b.subrange(q, q + len)),
        AttributeData::LineNumberTable(v) => v@.len() == n && forall|k: int| 0 <= k < v@.len() ==> (#[trigger] v@[k]) == (LineNumberEntry {
            start_pc: be16(b, q + 2 + 4 * k) as u16,
            line_number: be16(b, q + 4 + 4 * k) as u16,
        }),
        AttributeData::LocalVariableTable(v) => v@.len() == n && forall|k: int| 0 <= k < v@.len() ==>
            local_variable_matches(b, pool, q, k, #[trigger] v@[k]),
        AttributeData::LocalVariableTypeTable(v) => v@.len() == n && forall|k: int| 0 <= k < v@.len() ==>
            local_variable_type_matches(b, pool, q, k, #[trigger] v@[k]),
        AttributeData::RuntimeVisibleAnnotations(v) => v@.len() == n && forall|k: int| 0 <= k < v@.len() ==>
            annotation_matches(b, pool, annotations_pos(b, pool, q + 2, k as nat), #[trigger] v@[k]),
        AttributeData::RuntimeInvisibleAnnotations(v) => v@.len() == n && forall|k: int| 0 <= k < v@.len() ==>
            annotation_matches(b, pool, annotations_pos(b, pool, q + 2, k as nat), #[trigger] v@[k]),
        AttributeData::RuntimeVisibleParameterAnnotations(v) => parameter_annotations_tied(b, pool, q, v@),
        AttributeData::RuntimeInvisibleParameterAnnotations(v) => parameter_annotations_tied(b, pool, q, v@),
        AttributeData::RuntimeVisibleTypeAnnotations(v) => type_annotations_tied(b, pool, q, v@),
        AttributeData::RuntimeInvisibleTypeAnnotations(v) => type_annotations_tied(b, pool, q, v@),
        AttributeData::AnnotationDefault(v) => element_value_matches(b, pool, q, v),
        AttributeData::BootstrapMethods(v) => v@.len() == n && forall|k: int| 0 <= k < v@.len() ==> bootstrap_entry_matches(b, pool,
            bootstrap_entries_end(b, pool, q + 2, k as nat)->Some_0, #[trigger] v@[k]),
        AttributeData::MethodParameters(v) => v@.len() == b[q] && forall|k: int| 0 <= k < v@.len() ==>
            method_parameter_matches(b, pool, q, k, #[trigger] v@[k]),
        AttributeData::Module(m) => module_matches(b, pool, q, m),
        AttributeData::ModulePackages(v) => v@.len() == n && forall|k: int| 0 <= k < v@.len() ==>
            (#[trigger] v@[k])@ == package_list_item(b, pool, q, k)->Some_0,
        AttributeData::ModuleMainClass(t) => Some(t@) == class_at(pool, index_at(b, q)),
        AttributeData::NestHost(t) => Some(t@) == class_at(pool, index_at(b, q)),
        AttributeData::NestMembers(v) => class_list_matches(b, pool, q, v@),
        AttributeData::Record(v) => v@.len() == n && forall|k: int| 0 <= k < v@.len() ==> ({
            let c = component_pos(b, q, k as nat);
            &&& Some((#[trigger] v@[k]).name@) == utf8_at(pool, index_at(b, c))
            &&& Some(v@[k].descriptor@) == utf8_at(pool, index_at(b, c + 2))
        }),
        AttributeData::Other(v) => v@ == b.subrange(q, q + len),
        _ => true,
    }
}

/// The fixed payload length of attributes that have one.
pub open spec fn fixed_length(name: Seq<char>) -> Option<int> {
    let d = decoder_for(name);
    if d == 0 || d == 7 || d == 8 || d == 25 || d == 26 { Some(2) }
    else if d == 5 { Some(4) }
    else if d == 6 || d == 13 { Some(0) }
    else { None }
}

/// The attribute at `p`: its header reads, its name resolves, and its payload
/// fits in the input with the fixed length where the name has one.
pub open spec fn attribute_fits_at(b: Seq<u8>, pool: Seq<ConstantPoolEntry>, p: int) -> bool {
    let name = utf8_at(pool, index_at(b, p));
    &&& can_read(b, p, 6)
    &&& name is Some
    &&& can_read(b, p + 6, be32(b, p + 2))
    &&& fixed_length(name->Some_0) is Some ==> fixed_length(name->Some_0)->Some_0 == be32(b, p + 2)
}

/// The attribute at `p` fits and its payload decodes.
pub open spec fn attribute_ok_at(b: Seq<u8>, pool: Seq<ConstantPoolEntry>, p: int) -> bool {
    attribute_fits_at(b, pool, p)
        && payload_ok(b, pool, utf8_at(pool, index_at(b, p))->Some_0, p + 6, be32(b, p + 2))
}

/// The input ends inside the header or the payload of the attribute at `p`.
pub open spec fn attribute_cut_at(b: Seq<u8>, pool: Seq<ConstantPoolEntry>, p: int) -> bool {
    let name = utf8_at(pool, index_at(b, p));
    ||| !can_read(b, p, 2)
    ||| name is Some && !can_read(b, p + 2, 4)
    ||| name is Some && can_read(b, p, 6) && !can_read(b, p + 6, be32(b, p + 2))
}

/// The attribute at `p` fits the input but declares another length than its name fixes.
pub open spec fn attribute_mismatch_at(b: Seq<u8>, pool: Seq<ConstantPoolEntry>, p: int) -> bool {
    let name = utf8_at(pool, index_at(b, p));
    &&& can_read(b, p, 6)
    &&& name is Some
    &&& can_read(b, p + 6, be32(b, p + 2))
    &&& fixed_length(name->Some_0) is Some && fixed_length(name->Some_0)->Some_0 != be32(b, p + 2)
}

/// The attribute at `p` is not a ConstantValue, or its index names a readable slot.
pub open spec fn constant_value_ok_or_other(b: Seq<u8>, pool: Seq<ConstantPoolEntry>, p: int) -> bool {
    decoder_for(utf8_at(pool, index_at(b, p))->Some_0) == 0 ==> readable(pool, index_at(b, p + 6))
}

/// The attribute at `p` is a ConstantValue that fits but whose index names no readable slot.
pub open spec fn constant_value_bad_at(b: Seq<u8>, pool: Seq<ConstantPoolEntry>, p: int) -> bool {
    &&& attribute_fits_at(b, pool, p)
    &&& decoder_for(utf8_at(pool, index_at(b, p))->Some_0) == 0
    &&& !readable(pool, index_at(b, p + 6))
}

pub open spec fn attribute_ok(b: Seq<u8>, pool: Seq<ConstantPoolEntry>, o: int, k: nat) -> bool {
    attribute_ok_at(b, pool, attribute_pos(b, o, k))
}

/// As `attribute_ok`, with the payload read by `payload_ok0`.
pub open spec fn attribute_ok0(b: Seq<u8>, pool: Seq<ConstantPoolEntry>, o: int, k: nat) -> bool {
    let p = attribute_pos(b, o, k);
    attribute_fits_at(b, pool, p) && payload_ok0(b, pool, utf8_at(pool, index_at(b, p))->Some_0, p + 6, be32(b, p + 2))
}

/// Every attribute of the list at `o` decodes, and none is a Code or a Record.
pub open spec fn attributes_decode0(b: Seq<u8>, pool: Seq<ConstantPoolEntry>, o: int) -> bool {
    can_read(b, o, 2) && forall|k: nat| k < be16(b, o) ==> #[trigger] attribute_ok0(b, pool, o, k)
}

/// A list that decodes without Code or Record decodes.
pub proof fn lemma_attributes_decode0(b: Seq<u8>, pool: Seq<ConstantPoolEntry>, o: int)
    requires
        attributes_decode0(b, pool, o),
    ensures
        attributes_decode(b, pool, o),
{
    assert forall|k: nat| k < be16(b, o) implies #[trigger] attribute_ok(b, pool, o, k) by {
        assert(attribute_ok0(b, pool, o, k));
    }
}

/// The attributes before `k` of the list at `o` all decode.
pub open spec fn attributes_ok_before(b: Seq<u8>, pool: Seq<ConstantPoolEntry>, o: int, k: nat) -> bool {
    forall|j: nat| j < k ==> #[trigger] attribute_ok(b, pool, o, j)
}

/// Every attribute of the u16-counted list at `o` reads and decodes.
pub open spec fn attributes_decode(b: Seq<u8>, pool: Seq<ConstantPoolEntry>, o: int) -> bool {
    can_read(b, o, 2) && forall|k: nat| k < be16(b, o) ==> #[trigger] attribute_ok(b, pool, o, k)
}

/// Exception table entry `k` of a table whose entries start at `base`.
pub open spec fn exception_entry_matches(b: Seq<u8>, pool: Seq<ConstantPoolEntry>, base: int, k: int, e: ExceptionTableEntry) -> bool {
    let p = base + 8 * k;
    &&& e.start_pc == be16(b, p)
    &&& e.end_pc == be16(b, p + 2)
    &&& e.handler_pc == be16(b, p + 4)
    &&& opt_class_matches(pool, index_at(b, p + 6), e.catch_type)
}

/// A Code attribute body at `o`: the code fits, every exception entry's catch type
/// resolves (or is 0), and the nested attributes decode (none of them Code or Record).
pub open spec fn code_decodes(b: Seq<u8>, pool: Seq<ConstantPoolEntry>, o: int) -> bool {
    let len = be32(b, o + 4);
    let base = o + 10 + len;
    let n = be16(b, base - 2);
    &&& can_read(b, o, 8)
    &&& can_read(b, o + 8, len)
    &&& can_read(b, base - 2, 2)
    &&& can_read(b, base, 8 * n)
    &&& forall|k: int| 0 <= k < n ==> opt_class_ok(pool, #[trigger] index_at(b, base + 8 * k + 6))
    &&& attributes_decode0(b, pool, base + 8 * n)
}

/// End of the Code payload at `o`: after its nested attribute list.
pub open spec fn code_end(b: Seq<u8>, o: int) -> int {
    let base = o + 10 + be32(b, o + 4);
    let at = base + 8 * be16(b, base - 2);
    attribute_pos(b, at, be16(b, at) as nat)
}

/// Start of record component `k` of the Record payload at `o`.
pub open spec fn component_pos(b: Seq<u8>, o: int, k: nat) -> int
    decreases k,
{
    if k == 0 { o + 2 } else {
        let q = component_pos(b, o, (k - 1) as nat);
        attribute_pos(b, q + 4, be16(b, q + 4) as nat)
    }
}

/// Component `k`: a valid name, a field descriptor, and attributes that decode
/// (none of them Code or Record).
pub open spec fn component_ok(b: Seq<u8>, pool: Seq<ConstantPoolEntry>, o: int, k: nat) -> bool {
    let q = component_pos(b, o, k);
    let name = utf8_at(pool, index_at(b, q));
    let desc = utf8_at(pool, index_at(b, q + 2));
    &&& can_read(b, q, 4)
    &&& name is Some && spec_is_unqualified_name(name->Some_0, false, false)
    &&& desc is Some && spec_is_field_descriptor(desc->Some_0)
    &&& attributes_decode0(b, pool, q + 4)
}

/// Code: stack and locals limits, the code bytes, the exception table and nested attributes.
pub fn read_code_data(bytes: &[u8], ix: &mut usize, pool: &[ConstantPoolEntry], opts: &ParseOptions) -> (r: Result<CodeData, ParseError>)
    ensures
        r is Ok ==> *old(ix) + 12 <= *final(ix) <= bytes@.len(),
        r is Ok ==> ({
            let o = *old(ix) as int;
            let c = r->Ok_0;
            &&& c.max_stack == be16(bytes@, o)
            &&& c.max_locals == be16(bytes@, o + 2)
            &&& c.code@ == bytes@.subrange(o + 8, o + 8 + be32(bytes@, o + 4))
            &&& c.bytecode is Some <==> opts.parse_bytecode
            &&& c.exception_table@.len() == be16(bytes@, o + 8 + be32(bytes@, o + 4))
            &&& attribute_list_ok(bytes@, pool@, o + 10 + be32(bytes@, o + 4) + 8 * c.exception_table@.len(), c.attributes@)
            &&& *final(ix) == code_end(bytes@, o)
            &&& forall|k: int| 0 <= k < c.exception_table@.len() ==> exception_entry_matches(bytes@, pool@,
                    o + 10 + be32(bytes@, o + 4), k, #[trigger] c.exception_table@[k])
            &&& forall|k: int| 0 <= k < c.attributes@.len() ==> attribute_data_valid(#[trigger] c.attributes@[k].data)
            &&& forall|k: int| 0 <= k < c.attributes@.len() ==>
                    attribute_variant_matches((#[trigger] c.attributes@[k]).name@, c.attributes@[k].data)
        }),
        !can_read(bytes@, *old(ix) as int, 8) ==> fails_with(r, ErrorKind::UnexpectedEnd),
        can_read(bytes@, *old(ix) as int, 8) && !can_read(bytes@, *old(ix) + 8, be32(bytes@, *old(ix) + 4)) ==>
            fails_with(r, ErrorKind::UnexpectedEnd),
        code_decodes(bytes@, pool@, *old(ix) as int) && (opts.parse_bytecode ==> plain_run(bytes@.subrange(
            *old(ix) + 8, *old(ix) + 8 + be32(bytes@, *old(ix) + 4)), 0)) ==> r is Ok,
    decreases bytes@.len() - *old(ix), 0nat,
{
    if *ix > bytes.len() {
        return Err(ParseError::new(ErrorKind::UnexpectedEnd));
    }
    let max_stack = read_u2(bytes, ix)?;
    let max_locals = read_u2(bytes, ix)?;
    let code_length = read_u4(bytes, ix)?;
    let code = read_bytes(bytes, ix, code_length as usize)?;
    let ghost o = *old(ix) as int;
    let ghost base = o + 10 + code_length as int;
    let table_count = read_u2(bytes, ix)?;
    let mut exception_table: Vec<ExceptionTableEntry> = Vec::new();
    let mut i: u16 = 0;
    while i < table_count
        invariant
            o == *old(ix) as int,
            *ix == base + 8 * i,
            *ix <= bytes@.len(),
            base == o + 10 + be32(bytes@, o + 4),
            table_count == be16(bytes@, base - 2),
            max_stack == be16(bytes@, o),
            max_locals == be16(bytes@, o + 2),
            code@ == bytes@.subrange(o + 8, o + 8 + be32(bytes@, o + 4)),
            i <= table_count,
            exception_table@.len() == i,
            forall|k: int| 0 <= k < i ==> exception_entry_matches(bytes@, pool@, base, k, #[trigger] exception_table@[k]),
            code_decodes(bytes@, pool@, o) ==> table_count == be16(bytes@, base - 2),
        decreases table_count - i,
    {
        let start_pc = read_u2(bytes, ix)?;
        let end_pc = read_u2(bytes, ix)?;
        let handler_pc = read_u2(bytes, ix)?;
        proof {
            if code_decodes(bytes@, pool@, o) {
                assert(opt_class_ok(pool@, index_at(bytes@, base + 8 * i + 6)));
            }
        }
        let catch_type = in_context(read_cp_classinfo_opt(bytes, ix, pool), Frame::Entry(i))?;
        let entry = ExceptionTableEntry { start_pc, end_pc, handler_pc, catch_type };
        assert(exception_entry_matches(bytes@, pool@, base, i as int, entry));
        exception_table.push(entry);
        i = i + 1;
    }
    proof {
        if code_decodes(bytes@, pool@, o) {
            lemma_attributes_decode0(bytes@, pool@, *ix as int);
        }
    }
    let attributes = read_attributes(bytes, ix, pool, opts)?;
    let bytecode = if opts.parse_bytecode {
        Some(in_context(decode_bytecode(code.as_slice(), pool), Frame::Bytecode)?)
    } else {
        None
    };
    Ok(CodeData { max_stack, max_locals, code, bytecode, exception_table, attributes })
}

/// Record: components, each with an unqualified name, a field descriptor and attributes.
pub fn read_record_data(bytes: &[u8], ix: &mut usize, pool: &[ConstantPoolEntry], opts: &ParseOptions) -> (r: Result<Vec<RecordComponentEntry>, ParseError>)
    ensures
        r is Ok ==> *old(ix) + 2 <= *final(ix) <= bytes@.len(),
        r is Ok ==> r->Ok_0@.len() == be16(bytes@, *old(ix) as int),
        r is Ok ==> attribute_data_valid(AttributeData::Record(r->Ok_0)),
        r is Ok ==> forall|k: int| 0 <= k < r->Ok_0@.len() ==> ({
            let q = component_pos(bytes@, *old(ix) as int, k as nat);
            &&& Some((#[trigger] r->Ok_0@[k]).name@) == utf8_at(pool@, index_at(bytes@, q))
            &&& Some(r->Ok_0@[k].descriptor@) == utf8_at(pool@, index_at(bytes@, q + 2))
            &&& attribute_list_ok(bytes@, pool@, q + 4, r->Ok_0@[k].attributes@)
        }),
        r is Ok ==> *final(ix) == component_pos(bytes@, *old(ix) as int, be16(bytes@, *old(ix) as int) as nat),
        !can_read(bytes@, *old(ix) as int, 2) ==> fails_with(r, ErrorKind::UnexpectedEnd),
        (can_read(bytes@, *old(ix) as int, 2) && (forall|k: nat| k < be16(bytes@, *old(ix) as int) ==>
            #[trigger] component_ok(bytes@, pool@, *old(ix) as int, k))) ==> r is Ok,
    decreases bytes@.len() - *old(ix), 0nat,
{
    if *ix > bytes.len() {
        return Err(ParseError::new(ErrorKind::UnexpectedEnd));
    }
    let count = read_u2(bytes, ix)?;
    let mut components: Vec<RecordComponentEntry> = Vec::new();
    let mut i: u16 = 0;
    while i < count
        invariant
            *old(ix) + 2 <= *ix <= bytes@.len(),
            can_read(bytes@, *old(ix) as int, 2),
            count == be16(bytes@, *old(ix) as int),
            i <= count,
            components@.len() == i,
            *ix == component_pos(bytes@, *old(ix) as int, i as nat),
            forall|k: int| 0 <= k < i ==> ({
                let q = component_pos(bytes@, *old(ix) as int, k as nat);
                &&& Some((#[trigger] components@[k]).name@) == utf8_at(pool@, index_at(bytes@, q))
                &&& Some(components@[k].descriptor@) == utf8_at(pool@, index_at(bytes@, q + 2))
                &&& attribute_list_ok(bytes@, pool@, q + 4, components@[k].attributes@)
            }),
            forall|k: int| 0 <= k < i ==> ({
                let c = #[trigger] components@[k];
                &&& spec_is_unqualified_name(c.name@, false, false)
                &&& spec_is_field_descriptor(c.descriptor@)
                &&& forall|m: int| 0 <= m < c.attributes@.len() ==> attribute_data_valid(#[trigger] c.attributes@[m].data)
            }),
        decreases count - i,
    {
        let ghost q = *ix as int;
        let ghost before = components@;
        proof {
            if forall|k: nat| k < count ==> #[trigger] component_ok(bytes@, pool@, *old(ix) as int, k) {
                assert(component_ok(bytes@, pool@, *old(ix) as int, i as nat));
            }
        }
        let (name, descriptor) = in_context(read_variable_strings(bytes, ix, pool, true), Frame::Entry(i))?;
        proof {
            if forall|k: nat| k < count ==> #[trigger] component_ok(bytes@, pool@, *old(ix) as int, k) {
                assert(component_ok(bytes@, pool@, *old(ix) as int, i as nat));
                lemma_attributes_decode0(bytes@, pool@, *ix as int);
            }
        }
        let attributes = in_context(read_attributes(bytes, ix, pool, opts), Frame::Entry(i))?;
        components.push(RecordComponentEntry { name, descriptor, attributes });
        assert(component_pos(bytes@, *old(ix) as int, (i + 1) as nat) == *ix);
        assert forall|k: int| 0 <= k < i + 1 implies ({
            let q = component_pos(bytes@, *old(ix) as int, k as nat);
            &&& Some((#[trigger] components@[k]).name@) == utf8_at(pool@, index_at(bytes@, q))
            &&& Some(components@[k].descriptor@) == utf8_at(pool@, index_at(bytes@, q + 2))
            &&& attribute_list_ok(bytes@, pool@, q + 4, components@[k].attributes@)
        }) by {
            if k < i {
                assert(components@[k] == before[k]);
            }
        }
        i = i + 1;
    }
    Ok(components)
}

/// Decodes the payload of one attribute called `name` of `length` bytes at the cursor.
#[verifier::rlimit(100)]
fn read_attribute_data(bytes: &[u8], ix: &mut usize, pool: &[ConstantPoolEntry], opts: &ParseOptions,
    name: &str, length: usize) -> (r: Result<AttributeData, ParseError>)
    requires
        *old(ix) + length <= bytes@.len(),
    ensures
        r is Ok ==> *old(ix) <= *final(ix) <= bytes@.len(),
        r is Ok ==> attribute_variant_matches(name@, r->Ok_0) && attribute_data_valid(r->Ok_0),
        r is Ok && !is_known_attribute(name@) ==> (r->Ok_0 matches AttributeData::Other(v)
            && v@ == bytes@.subrange(*old(ix) as int, *old(ix) + length) && *final(ix) == *old(ix) + length),
        r is Ok ==> attribute_data_tied(bytes@, pool@, *old(ix) as int, length as int, r->Ok_0),
        payload_ok(bytes@, pool@, name@, *old(ix) as int, length as int) ==> r is Ok && *final(ix) == *old(ix) + length,
        fixed_length(name@) is Some && fixed_length(name@)->Some_0 != length ==> fails_with(r, ErrorKind::LengthMismatch),
        r is Ok && decoder_for(name@) == 0 ==> (r->Ok_0 matches AttributeData::ConstantValue(l)
            && literal_matches(pool@, index_at(bytes@, *old(ix) as int), l)),
        decoder_for(name@) == 0 && length == 2 && !readable(pool@, index_at(bytes@, *old(ix) as int)) ==>
            fails_with(r, ErrorKind::BadPoolIndex),
    decreases bytes@.len() - *old(ix), 2nat,
{
    let data = if str_equals(name, "ConstantValue") {
        ensure_length(length, 2)?;
        AttributeData::ConstantValue(read_cp_literalconstant(bytes, ix, pool)?)
    } else if str_equals(name, "Code") {
        AttributeData::Code(read_code_data(bytes, ix, pool, opts)?)
    } else if str_equals(name, "StackMapTable") {
        AttributeData::StackMapTable(read_stackmaptable_data(bytes, ix, pool)?)
    } else if str_equals(name, "Exceptions") {
        AttributeData::Exceptions(read_exceptions_data(bytes, ix, pool)?)
    } else if str_equals(name, "InnerClasses") {
        AttributeData::InnerClasses(read_innerclasses_data(bytes, ix, pool)?)
    } else if str_equals(name, "EnclosingMethod") {
        ensure_length(length, 4)?;
        let class_name = read_cp_classinfo(bytes, ix, pool)?;
        let method = read_cp_nameandtype_opt(bytes, ix, pool)?;
        AttributeData::EnclosingMethod { class_name, method }
    } else if str_equals(name, "Synthetic") {
        ensure_length(length, 0)?;
        AttributeData::Synthetic
    } else if str_equals(name, "Signature") {
        ensure_length(length, 2)?;
        AttributeData::Signature(read_cp_utf8(bytes, ix, pool)?)
    } else if str_equals(name, "SourceFile") {
        ensure_length(length, 2)?;
        AttributeData::SourceFile(read_cp_utf8(bytes, ix, pool)?)
    } else if str_equals(name, "SourceDebugExtension") {
        let raw = read_bytes(bytes, ix, length)?;
        AttributeData::SourceDebugExtension(decode_java_utf8(raw.as_slice())?)
    } else if str_equals(name, "LineNumberTable") {
        AttributeData::LineNumberTable(read_linenumber_data(bytes, ix)?)
    } else if str_equals(name, "LocalVariableTable") {
        AttributeData::LocalVariableTable(read_localvariable_data(bytes, ix, pool)?)
    } else if str_equals(name, "LocalVariableTypeTable") {
        AttributeData::LocalVariableTypeTable(read_localvariabletype_data(bytes, ix, pool)?)
    } else if str_equals(name, "Deprecated") {
        ensure_length(length, 0)?;
        AttributeData::Deprecated
    } else {
        read_attribute_data_rest(bytes, ix, pool, opts, name, length)?
    };
    Ok(data)
}

/// Decodes the attributes that come after `Deprecated` in the list of known names.
#[verifier::rlimit(100)]
fn read_attribute_data_rest(bytes: &[u8], ix: &mut usize, pool: &[ConstantPoolEntry], opts: &ParseOptions,
    name: &str, length: usize) -> (r: Result<AttributeData, ParseError>)
    requires
        *old(ix) + length <= bytes@.len(),
        decoder_for(name@) >= 14,
    ensures
        r is Ok ==> *old(ix) <= *final(ix) <= bytes@.len(),
        r is Ok ==> attribute_variant_matches(name@, r->Ok_0) && attribute_data_valid(r->Ok_0),
        r is Ok && !is_known_attribute(name@) ==> (r->Ok_0 matches AttributeData::Other(v)
            && v@ == bytes@.subrange(*old(ix) as int, *old(ix) + length) && *final(ix) == *old(ix) + length),
        r is Ok ==> attribute_data_tied(bytes@, pool@, *old(ix) as int, length as int, r->Ok_0),
        payload_ok(bytes@, pool@, name@, *old(ix) as int, length as int) ==> r is Ok && *final(ix) == *old(ix) + length,
        fixed_length(name@) is Some && fixed_length(name@)->Some_0 != length ==> fails_with(r, ErrorKind::LengthMismatch),
    decreases bytes@.len() - *old(ix), 1nat,
{
    let data = if str_equals(name, "RuntimeVisibleAnnotations") {
        AttributeData::RuntimeVisibleAnnotations(read_annotation_data(bytes, ix, pool)?)
    } else if str_equals(name, "RuntimeInvisibleAnnotations") {
        AttributeData::RuntimeInvisibleAnnotations(read_annotation_data(bytes, ix, pool)?)
    } else if str_equals(name, "RuntimeVisibleParameterAnnotations") {
        AttributeData::RuntimeVisibleParameterAnnotations(read_parameter_annotation_data(bytes, ix, pool)?)
    } else if str_equals(name, "RuntimeInvisibleParameterAnnotations") {
        AttributeData::RuntimeInvisibleParameterAnnotations(read_parameter_annotation_data(bytes, ix, pool)?)
    } else if str_equals(name, "RuntimeVisibleTypeAnnotations") {
        AttributeData::RuntimeVisibleTypeAnnotations(read_type_annotation_data(bytes, ix, pool)?)
    } else if str_equals(name, "RuntimeInvisibleTypeAnnotations") {
        AttributeData::RuntimeInvisibleTypeAnnotations(read_type_annotation_data(bytes, ix, pool)?)
    } else if str_equals(name, "AnnotationDefault") {
        AttributeData::AnnotationDefault(read_annotation_element_value(bytes, ix, pool)?)
    } else if str_equals(name, "BootstrapMethods") {
        AttributeData::BootstrapMethods(read_bootstrapmethods_data(bytes, ix, pool)?)
    } else if str_equals(name, "MethodParameters") {
        AttributeData::MethodParameters(read_methodparameters_data(bytes, ix, pool)?)
    } else if str_equals(name, "Module") {
        AttributeData::Module(read_module_data(bytes, ix, pool)?)
    } else if str_equals(name, "ModulePackages") {
        AttributeData::ModulePackages(read_modulepackages_data(bytes, ix, pool)?)
    } else if str_equals(name, "ModuleMainClass") {
        ensure_length(length, 2)?;
        AttributeData::ModuleMainClass(read_cp_classinfo(bytes, ix, pool)?)
    } else if str_equals(name, "NestHost") {
        ensure_length(length, 2)?;
        AttributeData::NestHost(read_cp_classinfo(bytes, ix, pool)?)
    } else if str_equals(name, "NestMembers") {
        AttributeData::NestMembers(read_nestmembers_data(bytes, ix, pool)?)
    } else if str_equals(name, "Record") {
        AttributeData::Record(read_record_data(bytes, ix, pool, opts)?)
    } else {
        AttributeData::Other(read_bytes(bytes, ix, length)?)
    };
    Ok(data)
}

/// Reads the header and the payload of one attribute.
fn read_one_attribute(bytes: &[u8], ix: &mut usize, pool: &[ConstantPoolEntry], opts: &ParseOptions) -> (r: Result<AttributeInfo, ParseError>)
    requires
        *old(ix) <= bytes@.len(),
    ensures
        r is Ok ==> ({
            let p = *old(ix) as int;
            &&& attribute_fits_at(bytes@, pool@, p)
            &&& *final(ix) == p + 6 + be32(bytes@, p + 2) <= bytes@.len()
            &&& Some(r->Ok_0.name@) == utf8_at(pool@, index_at(bytes@, p))
            &&& attribute_data_valid(r->Ok_0.data)
            &&& attribute_variant_matches(r->Ok_0.name@, r->Ok_0.data)
            &&& !is_known_attribute(r->Ok_0.name@) ==> (r->Ok_0.data matches AttributeData::Other(v)
                    && v@ == bytes@.subrange(p + 6, p + 6 + be32(bytes@, p + 2)))
        }),
        attribute_ok_at(bytes@, pool@, *old(ix) as int) ==> r is Ok,
        attribute_cut_at(bytes@, pool@, *old(ix) as int) ==> fails_with(r, ErrorKind::UnexpectedEnd),
        attribute_mismatch_at(bytes@, pool@, *old(ix) as int) ==> fails_with(r, ErrorKind::LengthMismatch),
        r is Ok && decoder_for(r->Ok_0.name@) == 0 ==> (r->Ok_0.data matches AttributeData::ConstantValue(l)
            && literal_matches(pool@, index_at(bytes@, *old(ix) + 6), l)),
        r is Ok ==> constant_value_ok_or_other(bytes@, pool@, *old(ix) as int),
        r is Ok ==> attribute_data_tied(bytes@, pool@, *old(ix) + 6, be32(bytes@, *old(ix) + 2), r->Ok_0.data),
        attribute_fits_at(bytes@, pool@, *old(ix) as int)
            && decoder_for(utf8_at(pool@, index_at(bytes@, *old(ix) as int))->Some_0) == 0
            && !readable(pool@, index_at(bytes@, *old(ix) + 6)) ==> fails_with(r, ErrorKind::BadPoolIndex),
    decreases bytes@.len() - *old(ix), 3nat,
{
    let name = read_cp_utf8(bytes, ix, pool)?;
    let length = read_u4(bytes, ix)? as usize;
    if length > bytes.len() - *ix {
        return Err(ParseError::new(ErrorKind::UnexpectedEnd));
    }
    let expected_end = *ix + length;
    let data = read_attribute_data(bytes, ix, pool, opts, name.as_str(), length)?;
    if *ix != expected_end {
        return Err(ParseError::new(ErrorKind::LengthMismatch));
    }
    Ok(AttributeInfo { name, data })
}

/// Reads a u16-counted attribute list. Each attribute's name selects its decoder,
/// and its payload must use exactly the declared length.
pub fn read_attributes(bytes: &[u8], ix: &mut usize, pool: &[ConstantPoolEntry], opts: &ParseOptions) -> (r: Result<Vec<AttributeInfo>, ParseError>)
    ensures
        r is Ok ==> attribute_list_ok(bytes@, pool@, *old(ix) as int, r->Ok_0@),
        r is Ok ==> *final(ix) == attribute_pos(bytes@, *old(ix) as int, be16(bytes@, *old(ix) as int) as nat)
            && *old(ix) + 2 <= *final(ix) <= bytes@.len(),
        r is Ok ==> forall|k: int| 0 <= k < r->Ok_0@.len() && !is_known_attribute((#[trigger] r->Ok_0@[k]).name@) ==> ({
            let p = attribute_pos(bytes@, *old(ix) as int, k as nat);
            r->Ok_0@[k].data matches AttributeData::Other(v) && v@ == bytes@.subrange(p + 6, p + 6 + be32(bytes@, p + 2))
        }),
        !can_read(bytes@, *old(ix) as int, 2) ==> fails_with(r, ErrorKind::UnexpectedEnd),
        attributes_decode(bytes@, pool@, *old(ix) as int) ==> r is Ok,
        r is Ok ==> forall|k: int| 0 <= k < r->Ok_0@.len() && decoder_for((#[trigger] r->Ok_0@[k]).name@) == 0 ==>
            (r->Ok_0@[k].data matches AttributeData::ConstantValue(l) && literal_matches(pool@,
                index_at(bytes@, attribute_pos(bytes@, *old(ix) as int, k as nat) + 6), l)),
        forall|k: nat| k < be16(bytes@, *old(ix) as int) && can_read(bytes@, *old(ix) as int, 2)
            && attributes_ok_before(bytes@, pool@, *old(ix) as int, k)
            && attribute_cut_at(bytes@, pool@, #[trigger] attribute_pos(bytes@, *old(ix) as int, k)) ==>
            fails_with(r, ErrorKind::UnexpectedEnd) && r->Err_0.context@.last() == Frame::Attribute(k as u16),
        forall|k: nat| k < be16(bytes@, *old(ix) as int) && can_read(bytes@, *old(ix) as int, 2)
            && attributes_ok_before(bytes@, pool@, *old(ix) as int, k)
            && attribute_mismatch_at(bytes@, pool@, #[trigger] attribute_pos(bytes@, *old(ix) as int, k)) ==>
            fails_with(r, ErrorKind::LengthMismatch) && r->Err_0.context@.last() == Frame::Attribute(k as u16),
        forall|k: nat| k < be16(bytes@, *old(ix) as int) && can_read(bytes@, *old(ix) as int, 2)
            && attributes_ok_before(bytes@, pool@, *old(ix) as int, k)
            && constant_value_bad_at(bytes@, pool@, #[trigger] attribute_pos(bytes@, *old(ix) as int, k)) ==>
            fails_with(r, ErrorKind::BadPoolIndex) && r->Err_0.context@.last() == Frame::Attribute(k as u16),
    decreases bytes@.len() - *old(ix), 4nat,
{
    if *ix > bytes.len() {
        return Err(ParseError::new(ErrorKind::UnexpectedEnd));
    }
    let ghost o = *old(ix) as int;
    let count = read_u2(bytes, ix)?;
    let mut attributes: Vec<AttributeInfo> = Vec::new();
    let mut i: u16 = 0;
    while i < count
        invariant
            o == *old(ix) as int,
            can_read(bytes@, o, 2),
            count == be16(bytes@, o),
            i <= count,
            attributes@.len() == i,
            *ix == attribute_pos(bytes@, o, i as nat),
            o + 2 <= *ix <= bytes@.len(),
            forall|j: nat| j < i ==> attribute_fits_at(bytes@, pool@, #[trigger] attribute_pos(bytes@, o, j)),
            forall|j: nat| j < i ==> constant_value_ok_or_other(bytes@, pool@, #[trigger] attribute_pos(bytes@, o, j)),
            forall|k: int| 0 <= k < i ==> attribute_data_tied(bytes@, pool@, attribute_pos(bytes@, o, k as nat) + 6,
                be32(bytes@, attribute_pos(bytes@, o, k as nat) + 2), (#[trigger] attributes@[k]).data),
            forall|k: int| 0 <= k < i ==> attribute_data_valid(#[trigger] attributes@[k].data),
            forall|k: int| 0 <= k < i ==> attribute_variant_matches((#[trigger] attributes@[k]).name@, attributes@[k].data),
            forall|k: int| 0 <= k < i ==>
                Some((#[trigger] attributes@[k]).name@) == utf8_at(pool@, index_at(bytes@, attribute_pos(bytes@, o, k as nat))),
            forall|k: int| 0 <= k < i && decoder_for((#[trigger] attributes@[k]).name@) == 0 ==>
                (attributes@[k].data matches AttributeData::ConstantValue(l) && literal_matches(pool@,
                    index_at(bytes@, attribute_pos(bytes@, o, k as nat) + 6), l)),
            forall|k: int| 0 <= k < i && !is_known_attribute((#[trigger] attributes@[k]).name@) ==> ({
                let p = attribute_pos(bytes@, o, k as nat);
                attributes@[k].data matches AttributeData::Other(v) && v@ == bytes@.subrange(p + 6, p + 6 + be32(bytes@, p + 2))
            }),
        decreases count - i,
    {
        let ghost p = *ix as int;
        let ghost before = attributes@;
        match read_one_attribute(bytes, ix, pool, opts) {
            Ok(a) => {
                attributes.push(a);
            },
            Err(e) => {
                let out = e.wrap(Frame::Attribute(i));
                proof {
                    assert(!attribute_ok(bytes@, pool@, o, i as nat));
                    assert forall|k: nat| k < count && attributes_ok_before(bytes@, pool@, o, k)
                        && attribute_cut_at(bytes@, pool@, #[trigger] attribute_pos(bytes@, o, k)) implies
                        out.kind == ErrorKind::UnexpectedEnd && out.context@.last() == Frame::Attribute(k as u16) by {
                        if k < i {
                            assert(attribute_fits_at(bytes@, pool@, attribute_pos(bytes@, o, k)));
                        } else if k > i {
                            assert(attribute_ok(bytes@, pool@, o, i as nat));
                        }
                    }
                    assert forall|k: nat| k < count && attributes_ok_before(bytes@, pool@, o, k)
                        && attribute_mismatch_at(bytes@, pool@, #[trigger] attribute_pos(bytes@, o, k)) implies
                        out.kind == ErrorKind::LengthMismatch && out.context@.last() == Frame::Attribute(k as u16) by {
                        if k < i {
                            assert(attribute_fits_at(bytes@, pool@, attribute_pos(bytes@, o, k)));
                        } else if k > i {
                            assert(attribute_ok(bytes@, pool@, o, i as nat));
                        }
                    }
                    assert forall|k: nat| k < count && attributes_ok_before(bytes@, pool@, o, k)
                        && constant_value_bad_at(bytes@, pool@, #[trigger] attribute_pos(bytes@, o, k)) implies
                        out.kind == ErrorKind::BadPoolIndex && out.context@.last() == Frame::Attribute(k as u16) by {
                        if k < i {
                            assert(constant_value_ok_or_other(bytes@, pool@, attribute_pos(bytes@, o, k)));
                        } else if k > i {
                            assert(attribute_ok(bytes@, pool@, o, i as nat));
                        }
                    }
                    if attributes_decode(bytes@, pool@, o) {
                        assert(attribute_ok(bytes@, pool@, o, i as nat));
                    }
                }
                return Err(out);
            },
        }
        assert(attribute_pos(bytes@, o, (i + 1) as nat) == p + 6 + be32(bytes@, p + 2));
        assert forall|k: int| 0 <= k < i + 1 implies attribute_data_tied(bytes@, pool@, attribute_pos(bytes@, o, k as nat) + 6,
            be32(bytes@, attribute_pos(bytes@, o, k as nat) + 2), (#[trigger] attributes@[k]).data) by {
            if k < i {
                assert(attributes@[k] == before[k]);
            }
        }
        assert forall|k: int| 0 <= k < i + 1 implies
            Some((#[trigger] attributes@[k]).name@) == utf8_at(pool@, index_at(bytes@, attribute_pos(bytes@, o, k as nat))) by {
            if k < i {
                assert(attributes@[k] == before[k]);
            }
        }
        i = i + 1;
    }
    proof {
        assert forall|k: nat| k < count && attributes_ok_before(bytes@, pool@, o, k)
            && attribute_cut_at(bytes@, pool@, #[trigger] attribute_pos(bytes@, o, k)) implies false by {
            assert(attribute_fits_at(bytes@, pool@, attribute_pos(bytes@, o, k)));
        }
        assert forall|k: nat| k < count && attributes_ok_before(bytes@, pool@, o, k)
            && attribute_mismatch_at(bytes@, pool@, #[trigger] attribute_pos(bytes@, o, k)) implies false by {
            assert(attribute_fits_at(bytes@, pool@, attribute_pos(bytes@, o, k)));
        }
        assert forall|k: nat| k < count && attributes_ok_before(bytes@, pool@, o, k)
            && constant_value_bad_at(bytes@, pool@, #[trigger] attribute_pos(bytes@, o, k)) implies false by {
            assert(constant_value_ok_or_other(bytes@, pool@, attribute_pos(bytes@, o, k)));
        }
    }
    Ok(attributes)
}

} // verus!
