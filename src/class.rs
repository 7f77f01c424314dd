use vstd::prelude::*;
use crate::attributes::{
    AttributeInfo, ParseOptions, attribute_list_ok, attribute_pos, attributes_decode, attributes_valid, read_attributes,
    read_reference_list, ref_list_end, ref_list_matches,
};
use crate::constant_pool::{
    ConstantPoolEntry, class_at, index_at, parse_constant_pool, pool_entries_end, pool_ok, pool_read_from, read_cp_classinfo,
    read_cp_utf8, utf8_at,
};
use crate::cursor::{be16, be32, can_read, read_u2, read_u4};
use crate::error::{ErrorKind, Frame, ParseError, fails_with, in_context};
use crate::names::{
    is_field_descriptor, is_method_descriptor, is_unqualified_name, spec_is_field_descriptor,
    spec_is_method_descriptor, spec_is_unqualified_name, str_equals,
};

verus! {

pub const CLASS_MAGIC: u32 = 0xCAFEBABE;

/// A field or a method.
#[derive(Debug)]
pub struct MemberInfo {
    pub access_flags: u16,
    pub name: String,
    pub descriptor: String,
    pub attributes: Vec<AttributeInfo>,
}

/// What follows the constant pool in a class file.
#[derive(Debug)]
pub struct ClassBody {
    pub access_flags: u16,
    pub this_class: String,
    pub super_class: Option<String>,
    pub interfaces: Vec<String>,
    pub fields: Vec<MemberInfo>,
    pub methods: Vec<MemberInfo>,
    pub attributes: Vec<AttributeInfo>,
}

/// A parsed class file.
#[derive(Debug)]
pub struct Class {
    pub magic: u32,
    pub minor_version: u16,
    pub major_version: u16,
    pub constant_pool: Vec<ConstantPoolEntry>,
    pub access_flags: u16,
    pub this_class: String,
    pub super_class: Option<String>,
    pub interfaces: Vec<String>,
    pub fields: Vec<MemberInfo>,
    pub methods: Vec<MemberInfo>,
    pub attributes: Vec<AttributeInfo>,
}

/// A field's name is an unqualified name, its descriptor a field descriptor, and
/// its attributes valid; for a method (`method` set) `<init>` and `<clinit>` are
/// allowed and the descriptor is a method descriptor.
pub open spec fn member_valid(m: MemberInfo, method: bool) -> bool {
    &&& spec_is_unqualified_name(m.name@, method, method)
    &&& if method { spec_is_method_descriptor(m.descriptor@) } else { spec_is_field_descriptor(m.descriptor@) }
    &&& attributes_valid(m.attributes@)
}

pub open spec fn object_class_name() -> Seq<char> {
    "java/lang/Object"@
}

/// End of the field or method at `q`, where its name and descriptor are valid and
/// its attributes decode.
pub open spec fn member_end(b: Seq<u8>, pool: Seq<ConstantPoolEntry>, q: int, method: bool) -> Option<int> {
    let name = utf8_at(pool, index_at(b, q + 2));
    let desc = utf8_at(pool, index_at(b, q + 4));
    if can_read(b, q, 6) && name is Some && spec_is_unqualified_name(name->Some_0, method, method) && desc is Some
        && (if method { spec_is_method_descriptor(desc->Some_0) } else { spec_is_field_descriptor(desc->Some_0) })
        && attributes_decode(b, pool, q + 6) {
        Some(attribute_pos(b, q + 6, be16(b, q + 6) as nat))
    } else {
        None
    }
}

pub open spec fn members_end(b: Seq<u8>, pool: Seq<ConstantPoolEntry>, p: int, n: nat, method: bool) -> Option<int>
    decreases n,
{
    if n == 0 { Some(p) } else {
        match members_end(b, pool, p, (n - 1) as nat, method) {
            Some(q) => member_end(b, pool, q, method),
            None => None,
        }
    }
}

proof fn lemma_members_end_prefix(b: Seq<u8>, pool: Seq<ConstantPoolEntry>, p: int, j: nat, n: nat, method: bool)
    requires
        j <= n,
        members_end(b, pool, p, n, method) is Some,
    ensures
        members_end(b, pool, p, j, method) is Some,
    decreases n - j,
{
    if j < n {
        lemma_members_end_prefix(b, pool, p, j, (n - 1) as nat, method);
    }
}

/// The class body at `p` decodes: this and super classes resolve (super 0 only
/// for `java/lang/Object`), the interfaces resolve, and every field, method and
/// class attribute decodes.
pub open spec fn body_decodes(b: Seq<u8>, pool: Seq<ConstantPoolEntry>, p: int) -> bool {
    let this_name = class_at(pool, index_at(b, p + 2));
    let super_index = index_at(b, p + 4);
    let q1 = ref_list_end(b, pool, p + 6, 0);
    let q2 = members_end(b, pool, q1->Some_0 + 2, be16(b, q1->Some_0) as nat, false);
    let q3 = members_end(b, pool, q2->Some_0 + 2, be16(b, q2->Some_0) as nat, true);
    &&& can_read(b, p, 6)
    &&& this_name is Some
    &&& super_index == 0 ==> this_name->Some_0 == object_class_name()
    &&& super_index != 0 ==> class_at(pool, super_index) is Some
    &&& q1 is Some && can_read(b, q1->Some_0, 2)
    &&& q2 is Some && can_read(b, q2->Some_0, 2)
    &&& q3 is Some && attributes_decode(b, pool, q3->Some_0)
}

/// Reads one field (`method` false) or method.
fn read_member(bytes: &[u8], ix: &mut usize, pool: &[ConstantPoolEntry], opts: &ParseOptions, method: bool)
    -> (r: Result<MemberInfo, ParseError>)
    requires
        *old(ix) <= bytes@.len(),
    ensures
        r is Ok ==> *old(ix) + 8 <= *final(ix) <= bytes@.len(),
        r is Ok ==> ({
            let o = *old(ix) as int;
            &&& r->Ok_0.access_flags == be16(bytes@, o)
            &&& Some(r->Ok_0.name@) == utf8_at(pool@, index_at(bytes@, o + 2))
            &&& Some(r->Ok_0.descriptor@) == utf8_at(pool@, index_at(bytes@, o + 4))
            &&& member_valid(r->Ok_0, method)
            &&& attribute_list_ok(bytes@, pool@, o + 6, r->Ok_0.attributes@)
        }),
        member_end(bytes@, pool@, *old(ix) as int, method) is Some ==>
            r is Ok && *final(ix) == member_end(bytes@, pool@, *old(ix) as int, method)->Some_0,
{
    let access_flags = read_u2(bytes, ix)?;
    let name = read_cp_utf8(bytes, ix, pool)?;
    if !is_unqualified_name(name.as_str(), method, method) {
        return Err(ParseError::new(ErrorKind::InvalidName));
    }
    let descriptor = read_cp_utf8(bytes, ix, pool)?;
    let ok = if method { is_method_descriptor(descriptor.as_str()) } else { is_field_descriptor(descriptor.as_str()) };
    if !ok {
        return Err(ParseError::new(ErrorKind::InvalidDescriptor));
    }
    let attributes = read_attributes(bytes, ix, pool, opts)?;
    Ok(MemberInfo { access_flags, name, descriptor, attributes })
}

/// Reads a u16-counted list of fields (`method` false) or methods.
fn read_members(bytes: &[u8], ix: &mut usize, pool: &[ConstantPoolEntry], opts: &ParseOptions, method: bool)
    -> (r: Result<Vec<MemberInfo>, ParseError>)
    requires
        *old(ix) <= bytes@.len(),
    ensures
        r is Ok ==> *old(ix) + 2 <= *final(ix) <= bytes@.len()
            && r->Ok_0@.len() == be16(bytes@, *old(ix) as int)
            && forall|k: int| 0 <= k < r->Ok_0@.len() ==> member_valid(#[trigger] r->Ok_0@[k], method),
        can_read(bytes@, *old(ix) as int, 2)
            && members_end(bytes@, pool@, *old(ix) + 2, be16(bytes@, *old(ix) as int) as nat, method) is Some ==>
            r is Ok && *final(ix) == members_end(bytes@, pool@, *old(ix) + 2, be16(bytes@, *old(ix) as int) as nat, method)->Some_0,
{
    let ghost o = *old(ix) as int;
    let count = read_u2(bytes, ix)?;
    let ghost whole = members_end(bytes@, pool@, o + 2, count as nat, method) is Some;
    let mut members: Vec<MemberInfo> = Vec::new();
    let mut i: u16 = 0;
    while i < count
        invariant
            o == *old(ix) as int,
            can_read(bytes@, o, 2),
            count == be16(bytes@, o),
            whole == (members_end(bytes@, pool@, o + 2, count as nat, method) is Some),
            i <= count,
            o + 2 <= *ix <= bytes@.len(),
            members@.len() == i,
            whole ==> members_end(bytes@, pool@, o + 2, i as nat, method) == Some(*ix as int),
            forall|k: int| 0 <= k < i ==> member_valid(#[trigger] members@[k], method),
        decreases count - i,
    {
        proof {
            if whole {
                lemma_members_end_prefix(bytes@, pool@, o + 2, (i + 1) as nat, count as nat, method);
            }
        }
        let m = match read_member(bytes, ix, pool, opts, method) {
            Ok(m) => m,
            Err(e) => {
                let frame = if method { Frame::Method(i) } else { Frame::Field(i) };
                return Err(e.wrap(frame));
            },
        };
        members.push(m);
        i = i + 1;
    }
    Ok(members)
}

/// Reads everything after the constant pool: flags, this and super class,
/// interfaces, fields, methods and class attributes.
pub fn read_class_body(bytes: &[u8], ix: &mut usize, pool: &[ConstantPoolEntry], opts: &ParseOptions)
    -> (r: Result<ClassBody, ParseError>)
    ensures
        body_decodes(bytes@, pool@, *old(ix) as int) ==> r is Ok,
        r is Ok ==> ({
            let c = r->Ok_0;
            let o = *old(ix) as int;
            &&& c.access_flags == be16(bytes@, o)
            &&& Some(c.this_class@) == class_at(pool@, index_at(bytes@, o + 2))
            &&& c.super_class is None <==> index_at(bytes@, o + 4) == 0
            &&& c.super_class is None ==> c.this_class@ == object_class_name()
            &&& c.super_class is Some ==> Some(c.super_class->Some_0@) == class_at(pool@, index_at(bytes@, o + 4))
            &&& ref_list_matches(bytes@, pool@, o + 6, 0, c.interfaces@)
            &&& forall|k: int| 0 <= k < c.fields@.len() ==> member_valid(#[trigger] c.fields@[k], false)
            &&& forall|k: int| 0 <= k < c.methods@.len() ==> member_valid(#[trigger] c.methods@[k], true)
            &&& attributes_valid(c.attributes@)
        }),
        !can_read(bytes@, *old(ix) as int, 2) ==> fails_with(r, ErrorKind::UnexpectedEnd),
{
    if *ix > bytes.len() {
        return Err(ParseError::new(ErrorKind::UnexpectedEnd));
    }
    let ghost o = *old(ix) as int;
    let access_flags = in_context(read_u2(bytes, ix), Frame::Header)?;
    let this_class = in_context(read_cp_classinfo(bytes, ix, pool), Frame::Header)?;
    let super_index = in_context(read_u2(bytes, ix), Frame::Header)?;
    let super_class = if super_index == 0 {
        proof {
            reveal_strlit("java/lang/Object");
        }
        if !str_equals(this_class.as_str(), "java/lang/Object") {
            return Err(ParseError::new(ErrorKind::BadPoolIndex).wrap(Frame::Header));
        }
        None
    } else {
        *ix = *ix - 2;
        Some(in_context(read_cp_classinfo(bytes, ix, pool), Frame::Header)?)
    };
    let interfaces = in_context(read_reference_list(bytes, ix, pool, 0), Frame::Header)?;
    let fields = read_members(bytes, ix, pool, opts, false)?;
    let methods = read_members(bytes, ix, pool, opts, true)?;
    let attributes = read_attributes(bytes, ix, pool, opts)?;
    Ok(ClassBody { access_flags, this_class, super_class, interfaces, fields, methods, attributes })
}

/// The whole class file decodes: the magic, a pool that pass one reads, and for
/// the pool so read, pass two and the body.
pub open spec fn class_decodes(b: Seq<u8>) -> bool {
    let end = pool_entries_end(b, 10, 1, be16(b, 8));
    &&& can_read(b, 0, 10)
    &&& be32(b, 0) == CLASS_MAGIC
    &&& end is Some
    &&& forall|pool: Seq<ConstantPoolEntry>| #[trigger] pool_read_from(b, 8, pool) ==>
            pool_ok(pool) && body_decodes(b, pool, end->Some_0)
}

/// Parses one class file held whole in `bytes`: header, constant pool (both
/// passes), then the body as `read_class_body` reads it against that pool.
pub fn parse(bytes: &[u8], opts: &ParseOptions) -> (r: Result<Class, ParseError>)
    ensures
        !can_read(bytes@, 0, 4) ==> fails_with(r, ErrorKind::UnexpectedEnd),
        can_read(bytes@, 0, 4) && be32(bytes@, 0) != CLASS_MAGIC ==> fails_with(r, ErrorKind::InvalidMagic),
        r is Ok ==> ({
            let c = r->Ok_0;
            &&& c.magic == CLASS_MAGIC && be32(bytes@, 0) == CLASS_MAGIC
            &&& c.minor_version == be16(bytes@, 4)
            &&& c.major_version == be16(bytes@, 6)
            &&& pool_ok(c.constant_pool@)
            &&& c.super_class is None ==> c.this_class@ == object_class_name()
            &&& forall|k: int| 0 <= k < c.fields@.len() ==> member_valid(#[trigger] c.fields@[k], false)
            &&& forall|k: int| 0 <= k < c.methods@.len() ==> member_valid(#[trigger] c.methods@[k], true)
            &&& attributes_valid(c.attributes@)
            &&& pool_read_from(bytes@, 8, c.constant_pool@)
            &&& ({
                let end = pool_entries_end(bytes@, 10, 1, be16(bytes@, 8))->Some_0;
                &&& c.access_flags == be16(bytes@, end)
                &&& Some(c.this_class@) == class_at(c.constant_pool@, index_at(bytes@, end + 2))
                &&& c.super_class is None <==> index_at(bytes@, end + 4) == 0
                &&& c.super_class is Some ==> Some(c.super_class->Some_0@) == class_at(c.constant_pool@, index_at(bytes@, end + 4))
                &&& ref_list_matches(bytes@, c.constant_pool@, end + 6, 0, c.interfaces@)
            })
        }),
        class_decodes(bytes@) ==> r is Ok,
{
    let mut ix: usize = 0;
    let magic = in_context(read_u4(bytes, &mut ix), Frame::Header)?;
    if magic != CLASS_MAGIC {
        return Err(ParseError::new(ErrorKind::InvalidMagic).wrap(Frame::Header));
    }
    let minor_version = in_context(read_u2(bytes, &mut ix), Frame::Header)?;
    let major_version = in_context(read_u2(bytes, &mut ix), Frame::Header)?;
    let constant_pool = parse_constant_pool(bytes, &mut ix)?;
    let body = read_class_body(bytes, &mut ix, constant_pool.as_slice(), opts)?;
    Ok(Class {
        magic,
        minor_version,
        major_version,
        constant_pool,
        access_flags: body.access_flags,
        this_class: body.this_class,
        super_class: body.super_class,
        interfaces: body.interfaces,
        fields: body.fields,
        methods: body.methods,
        attributes: body.attributes,
    })
}

/// Parses a class file with the default options (bytecode left undecoded).
pub fn parse_class(bytes: &[u8]) -> (r: Result<Class, ParseError>)
    ensures
        !can_read(bytes@, 0, 4) ==> fails_with(r, ErrorKind::UnexpectedEnd),
        can_read(bytes@, 0, 4) && be32(bytes@, 0) != CLASS_MAGIC ==> fails_with(r, ErrorKind::InvalidMagic),
        r is Ok ==> be32(bytes@, 0) == CLASS_MAGIC && pool_ok(r->Ok_0.constant_pool@),
        class_decodes(bytes@) ==> r is Ok,
{
    parse(bytes, &ParseOptions { parse_bytecode: false })
}

} // verus!
