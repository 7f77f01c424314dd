use vstd::prelude::*;
use vstd::utf8::{valid_utf8, decode_utf8};
use crate::cursor::{be16, be32, be64, can_read, read_u1, read_u2, read_u4, read_u8, read_bytes};
use crate::error::{ErrorKind, Frame, ParseError, fails_with};

verus! {

/// One slot of the constant pool, with its references still as raw indices.
/// Floating-point constants are kept as their IEEE 754 bit patterns.
#[derive(Debug)]
pub enum ConstantPoolEntry {
    Utf8(String),
    Integer(i32),
    Float(u32),
    Long(i64),
    Double(u64),
    ClassInfo(u16),
    StringRef(u16),
    FieldRef { class_index: u16, name_and_type_index: u16 },
    MethodRef { class_index: u16, name_and_type_index: u16 },
    InterfaceMethodRef { class_index: u16, name_and_type_index: u16 },
    NameAndType { name_index: u16, descriptor_index: u16 },
    MethodHandle { kind: u8, reference_index: u16 },
    MethodType(u16),
    Dynamic { bootstrap_method_attr_index: u16, name_and_type_index: u16 },
    InvokeDynamic { bootstrap_method_attr_index: u16, name_and_type_index: u16 },
    ModuleInfo(u16),
    PackageInfo(u16),
    /// Slot 0, and the slot after a Long or a Double: never readable.
    Placeholder,
}

/// What Java's modified UTF-8 decoding makes of `b`, where it succeeds.
pub uninterp spec fn java_utf8_text(b: Seq<u8>) -> Option<Seq<char>>;

/// Relies on cesu8::from_java_cesu8: decodes modified UTF-8 (CESU-8 with nul as
/// `C0 80`), depending on the bytes alone; input that is already valid UTF-8
/// comes back unchanged.
#[verifier::external_body]
fn decode_modified_utf8(b: &[u8]) -> (r: Option<String>)
    ensures
        r is Some <==> java_utf8_text(b@) is Some,
        r is Some ==> r->Some_0@ == java_utf8_text(b@)->Some_0,
        valid_utf8(b@) ==> r is Some && r->Some_0@ == decode_utf8(b@),
{
    match cesu8::from_java_cesu8(b) {
        Ok(s) => Some(s.into_owned()),
        Err(_) => None,
    }
}

/// Decodes a modified UTF-8 byte string; fails with `ModifiedUtf8Decode`.
pub fn decode_java_utf8(b: &[u8]) -> (r: Result<String, ParseError>)
    ensures
        r is Ok <==> java_utf8_text(b@) is Some,
        r is Ok ==> r->Ok_0@ == java_utf8_text(b@)->Some_0,
        r is Err ==> fails_with(r, ErrorKind::ModifiedUtf8Decode),
{
    match decode_modified_utf8(b) {
        Some(s) => Ok(s),
        None => Err(ParseError::new(ErrorKind::ModifiedUtf8Decode)),
    }
}

/// Long and Double entries take two pool slots.
pub open spec fn is_wide(e: ConstantPoolEntry) -> bool {
    e is Long || e is Double
}

/// The fixed-size payload that follows `tag` at `p`, read as an entry; `None`
/// for tags that are unknown or variable-size (Utf8).
pub open spec fn fixed_entry(b: Seq<u8>, tag: u8, p: int) -> Option<(ConstantPoolEntry, int)> {
    let u = be16(b, p) as u16;
    let v = be16(b, p + 2) as u16;
    if tag == 3 { Some((ConstantPoolEntry::Integer(be32(b, p) as i32), 4)) }
    else if tag == 4 { Some((ConstantPoolEntry::Float(be32(b, p) as u32), 4)) }
    else if tag == 5 { Some((ConstantPoolEntry::Long(be64(b, p) as i64), 8)) }
    else if tag == 6 { Some((ConstantPoolEntry::Double(be64(b, p) as u64), 8)) }
    else if tag == 7 { Some((ConstantPoolEntry::ClassInfo(u), 2)) }
    else if tag == 8 { Some((ConstantPoolEntry::StringRef(u), 2)) }
    else if tag == 9 { Some((ConstantPoolEntry::FieldRef { class_index: u, name_and_type_index: v }, 4)) }
    else if tag == 10 { Some((ConstantPoolEntry::MethodRef { class_index: u, name_and_type_index: v }, 4)) }
    else if tag == 11 { Some((ConstantPoolEntry::InterfaceMethodRef { class_index: u, name_and_type_index: v }, 4)) }
    else if tag == 12 { Some((ConstantPoolEntry::NameAndType { name_index: u, descriptor_index: v }, 4)) }
    else if tag == 15 { Some((ConstantPoolEntry::MethodHandle { kind: b[p], reference_index: be16(b, p + 1) as u16 }, 3)) }
    else if tag == 16 { Some((ConstantPoolEntry::MethodType(u), 2)) }
    else if tag == 17 { Some((ConstantPoolEntry::Dynamic { bootstrap_method_attr_index: u, name_and_type_index: v }, 4)) }
    else if tag == 18 { Some((ConstantPoolEntry::InvokeDynamic { bootstrap_method_attr_index: u, name_and_type_index: v }, 4)) }
    else if tag == 19 { Some((ConstantPoolEntry::ModuleInfo(u), 2)) }
    else if tag == 20 { Some((ConstantPoolEntry::PackageInfo(u), 2)) }
    else { None }
}

/// Reads one tagged entry (pass one: references stay raw indices).
pub fn read_pool_entry(bytes: &[u8], ix: &mut usize) -> (r: Result<ConstantPoolEntry, ParseError>)
    ensures
        r is Ok ==> *final(ix) > *old(ix) && !(r->Ok_0 is Placeholder),
        r is Ok && bytes@[*old(ix) as int] != 1 ==> ({
            let f = fixed_entry(bytes@, bytes@[*old(ix) as int], *old(ix) + 1);
            &&& f is Some
            &&& can_read(bytes@, *old(ix) + 1, f->Some_0.1)
            &&& r->Ok_0 == f->Some_0.0
            &&& *final(ix) == *old(ix) + 1 + f->Some_0.1
        }),
        r is Ok && bytes@[*old(ix) as int] == 1 ==> ({
            let n = be16(bytes@, *old(ix) + 1);
            let text = java_utf8_text(bytes@.subrange(*old(ix) + 3, *old(ix) + 3 + n));
            &&& can_read(bytes@, *old(ix) + 3, n)
            &&& text is Some
            &&& r->Ok_0 matches ConstantPoolEntry::Utf8(s) && s@ == text->Some_0
            &&& *final(ix) == *old(ix) + 3 + n
        }),
        r is Err && can_read(bytes@, *old(ix) as int, 1) && bytes@[*old(ix) as int] != 1
            && fixed_entry(bytes@, bytes@[*old(ix) as int], *old(ix) + 1) is Some ==>
            fails_with(r, ErrorKind::UnexpectedEnd),
        can_read(bytes@, *old(ix) as int, 1) && bytes@[*old(ix) as int] != 1
            && fixed_entry(bytes@, bytes@[*old(ix) as int], *old(ix) + 1) is None ==>
            fails_with(r, ErrorKind::UnrecognizedDiscriminant),
        !can_read(bytes@, *old(ix) as int, 1) ==> fails_with(r, ErrorKind::UnexpectedEnd),
        can_read(bytes@, *old(ix) as int, 1) && bytes@[*old(ix) as int] != 1 ==> ({
            let f = fixed_entry(bytes@, bytes@[*old(ix) as int], *old(ix) + 1);
            f is Some ==> (r is Ok <==> can_read(bytes@, *old(ix) + 1, f->Some_0.1))
        }),
        can_read(bytes@, *old(ix) as int, 1) && bytes@[*old(ix) as int] == 1 ==> (r is Ok <==> ({
            let n = be16(bytes@, *old(ix) + 1);
            &&& can_read(bytes@, *old(ix) + 1, 2)
            &&& can_read(bytes@, *old(ix) + 3, n)
            &&& java_utf8_text(bytes@.subrange(*old(ix) + 3, *old(ix) + 3 + n)) is Some
        })),
{
    let start = *ix;
    let tag = read_u1(bytes, ix)?;
    let p = *ix;
    let e = match tag {
        1 => {
            let n = read_u2(bytes, ix)?;
            let raw = read_bytes(bytes, ix, n as usize)?;
            let s = decode_java_utf8(raw.as_slice())?;
            ConstantPoolEntry::Utf8(s)
        },
        3 => ConstantPoolEntry::Integer(read_u4(bytes, ix)? as i32),
        4 => ConstantPoolEntry::Float(read_u4(bytes, ix)?),
        5 => ConstantPoolEntry::Long(read_u8(bytes, ix)? as i64),
        6 => ConstantPoolEntry::Double(read_u8(bytes, ix)?),
        7 => ConstantPoolEntry::ClassInfo(read_u2(bytes, ix)?),
        8 => ConstantPoolEntry::StringRef(read_u2(bytes, ix)?),
        9 | 10 | 11 | 12 | 17 | 18 => {
            let u = read_u2(bytes, ix)?;
            let v = read_u2(bytes, ix)?;
            if tag == 9 {
                ConstantPoolEntry::FieldRef { class_index: u, name_and_type_index: v }
            } else if tag == 10 {
                ConstantPoolEntry::MethodRef { class_index: u, name_and_type_index: v }
            } else if tag == 11 {
                ConstantPoolEntry::InterfaceMethodRef { class_index: u, name_and_type_index: v }
            } else if tag == 12 {
                ConstantPoolEntry::NameAndType { name_index: u, descriptor_index: v }
            } else if tag == 17 {
                ConstantPoolEntry::Dynamic { bootstrap_method_attr_index: u, name_and_type_index: v }
            } else {
                ConstantPoolEntry::InvokeDynamic { bootstrap_method_attr_index: u, name_and_type_index: v }
            }
        },
        15 => {
            let kind = read_u1(bytes, ix)?;
            let reference_index = read_u2(bytes, ix)?;
            ConstantPoolEntry::MethodHandle { kind, reference_index }
        },
        16 => ConstantPoolEntry::MethodType(read_u2(bytes, ix)?),
        19 => ConstantPoolEntry::ModuleInfo(read_u2(bytes, ix)?),
        20 => ConstantPoolEntry::PackageInfo(read_u2(bytes, ix)?),
        _ => {
            return Err(ParseError::new(ErrorKind::UnrecognizedDiscriminant));
        },
    };
    assert(p == start + 1);
    Ok(e)
}

/// Slot 0 is reserved, each Long and Double is followed by a Placeholder, and
/// Placeholders stand nowhere else.
pub open spec fn layout_ok(pool: Seq<ConstantPoolEntry>) -> bool {
    &&& pool.len() >= 1
    &&& pool[0] is Placeholder
    &&& forall|k: int| 0 < k < pool.len() && is_wide(#[trigger] pool[k]) ==>
            k + 1 < pool.len() && pool[k + 1] is Placeholder
    &&& forall|k: int| 0 < k < pool.len() && (#[trigger] pool[k]) is Placeholder ==>
            is_wide(pool[k - 1])
}

/// Size in bytes of the entry at `p`, tag included, where it reads and decodes.
pub open spec fn entry_size(b: Seq<u8>, p: int) -> Option<int> {
    if !can_read(b, p, 1) { None }
    else if b[p] == 1 {
        let n = be16(b, p + 1);
        if can_read(b, p + 1, 2) && can_read(b, p + 3, n) && java_utf8_text(b.subrange(p + 3, p + 3 + n)) is Some {
            Some(3 + n)
        } else { None }
    } else {
        let f = fixed_entry(b, b[p], p + 1);
        if f is Some && can_read(b, p + 1, f->Some_0.1) { Some(1 + f->Some_0.1) } else { None }
    }
}

/// The entry at `p` is a Long or a Double, taking two slots.
pub open spec fn entry_is_wide(b: Seq<u8>, p: int) -> bool {
    b[p] == 5 || b[p] == 6
}

/// End of the entries for slots `slot` up to `count - 1`, starting at byte `p`.
pub open spec fn pool_entries_end(b: Seq<u8>, p: int, slot: int, count: int) -> Option<int>
    decreases count - slot,
{
    if slot >= count { Some(p) } else {
        match entry_size(b, p) {
            Some(sz) => if entry_is_wide(b, p) {
                if slot + 1 >= count { None } else { pool_entries_end(b, p + sz, slot + 2, count) }
            } else {
                pool_entries_end(b, p + sz, slot + 1, count)
            },
            None => None,
        }
    }
}

/// `e` is the entry encoded at `p` (tag included), as pass one decodes it.
pub open spec fn entry_decodes_to(b: Seq<u8>, p: int, e: ConstantPoolEntry) -> bool {
    if b[p] == 1 {
        e is Utf8 && Some(e->Utf8_0@) == java_utf8_text(b.subrange(p + 3, p + 3 + be16(b, p + 1)))
    } else {
        fixed_entry(b, b[p], p + 1) is Some && e == fixed_entry(b, b[p], p + 1)->Some_0.0
    }
}

/// From byte `p` and slot `slot` up to `count - 1`, `pool` holds what the bytes encode.
pub open spec fn pool_walk(b: Seq<u8>, p: int, slot: int, count: int, pool: Seq<ConstantPoolEntry>) -> bool
    decreases count - slot,
{
    if slot >= count { true } else {
        match entry_size(b, p) {
            Some(sz) => 0 <= slot < pool.len() && entry_decodes_to(b, p, pool[slot]) && if entry_is_wide(b, p) {
                slot + 1 < count && slot + 1 < pool.len() && pool[slot + 1] is Placeholder
                    && pool_walk(b, p + sz, slot + 2, count, pool)
            } else {
                pool_walk(b, p + sz, slot + 1, count, pool)
            },
            None => false,
        }
    }
}

/// `pool` is the pool that pass one reads from the count and entries at `o`.
pub open spec fn pool_read_from(b: Seq<u8>, o: int, pool: Seq<ConstantPoolEntry>) -> bool {
    &&& can_read(b, o, 2)
    &&& pool.len() == if be16(b, o) >= 1 { be16(b, o) } else { 1 }
    &&& pool[0] is Placeholder
    &&& pool_walk(b, o + 2, 1, be16(b, o), pool)
}

/// Any pool that agrees with `prefix` on its first `slot` slots and holds what the
/// bytes from `p` encode from slot `slot` on holds what they encode from the first entry.
#[verifier::opaque]
pub open spec fn walk_linked(b: Seq<u8>, o: int, count: int, p: int, slot: int, prefix: Seq<ConstantPoolEntry>) -> bool {
    forall|q: Seq<ConstantPoolEntry>| #[trigger] pool_walk(b, p, slot, count, q)
        && q.len() >= slot && q.subrange(0, slot) == prefix ==> pool_walk(b, o + 2, 1, count, q)
}

proof fn lemma_walk_linked_start(b: Seq<u8>, o: int, count: int, prefix: Seq<ConstantPoolEntry>)
    ensures
        walk_linked(b, o, count, o + 2, 1, prefix),
{
    reveal(walk_linked);
}

proof fn lemma_walk_linked_end(b: Seq<u8>, o: int, count: int, p: int, slot: int, pool: Seq<ConstantPoolEntry>)
    requires
        walk_linked(b, o, count, p, slot, pool),
        slot >= count,
        pool.len() == slot,
    ensures
        pool_walk(b, o + 2, 1, count, pool),
{
    reveal(walk_linked);
    assert(pool.subrange(0, slot) =~= pool);
    assert(pool_walk(b, p, slot, count, pool));
}

/// One step of pass one keeps the link between the walk from where the loop
/// stands and the walk from the first entry.
proof fn lemma_pool_walk_step(b: Seq<u8>, o: int, count: int, p: int, np: int, oi: int, ni: int,
    before: Seq<ConstantPoolEntry>, after: Seq<ConstantPoolEntry>)
    requires
        walk_linked(b, o, count, p, oi, before),
        oi < count,
        before.len() == oi,
        after.len() == ni,
        after.subrange(0, oi) == before,
        entry_size(b, p) == Some(np - p),
        entry_decodes_to(b, p, after[oi]),
        entry_is_wide(b, p) ==> ni == oi + 2 && oi + 1 < count && after[oi + 1] is Placeholder,
        !entry_is_wide(b, p) ==> ni == oi + 1,
    ensures
        walk_linked(b, o, count, np, ni, after),
{
    reveal(walk_linked);
    assert forall|q: Seq<ConstantPoolEntry>| #[trigger] pool_walk(b, np, ni, count, q)
        && q.len() >= ni && q.subrange(0, ni) == after implies pool_walk(b, o + 2, 1, count, q) by {
        assert(q[oi] == after[oi]);
        if entry_is_wide(b, p) {
            assert(q[oi + 1] == after[oi + 1]);
        }
        assert(q.subrange(0, oi) =~= before) by {
            assert(q.subrange(0, oi) =~= after.subrange(0, oi)) by {
                assert(q.subrange(0, oi) =~= q.subrange(0, ni).subrange(0, oi));
            }
        }
        assert(pool_walk(b, p, oi, count, q));
    }
}

/// Pass one: reads `constant_pool_count` and the entries after it.
#[verifier::rlimit(100)]
pub fn read_constant_pool(bytes: &[u8], ix: &mut usize) -> (r: Result<Vec<ConstantPoolEntry>, ParseError>)
    ensures
        r is Ok ==> layout_ok(r->Ok_0@) && *final(ix) >= *old(ix) + 2,
        r is Ok && be16(bytes@, *old(ix) as int) >= 1 ==> r->Ok_0@.len() == be16(bytes@, *old(ix) as int),
        !can_read(bytes@, *old(ix) as int, 2) ==> fails_with(r, ErrorKind::UnexpectedEnd),
        r is Ok <==> can_read(bytes@, *old(ix) as int, 2)
            && pool_entries_end(bytes@, *old(ix) + 2, 1, be16(bytes@, *old(ix) as int)) is Some,
        r is Ok ==> *final(ix) == pool_entries_end(bytes@, *old(ix) + 2, 1, be16(bytes@, *old(ix) as int))->Some_0,
        r is Ok ==> pool_read_from(bytes@, *old(ix) as int, r->Ok_0@),
{
    let ghost o = *old(ix) as int;
    let count = read_u2(bytes, ix)?;
    let mut pool: Vec<ConstantPoolEntry> = Vec::new();
    pool.push(ConstantPoolEntry::Placeholder);
    proof {
        lemma_walk_linked_start(bytes@, o, count as int, pool@);
    }
    let mut i: u16 = 1;
    while i < count
        invariant
            pool@.len() == i as int,
            1 <= i,
            i <= count || count == 0,
            count == 0 ==> i == 1,
            layout_ok(pool@.push(ConstantPoolEntry::Integer(0))),
            pool@[i - 1] is Placeholder ==> i == 1 || is_wide(pool@[i - 2]),
            is_wide(pool@[i - 1]) ==> false,
            *ix >= *old(ix) + 2,
            o == *old(ix) as int,
            can_read(bytes@, o, 2),
            count == be16(bytes@, o),
            pool_entries_end(bytes@, o + 2, 1, count as int) == pool_entries_end(bytes@, *ix as int, i as int, count as int),
            pool@[0] is Placeholder,
            walk_linked(bytes@, o, count as int, *ix as int, i as int, pool@),
        decreases count - i,
    {
        let ghost p = *ix as int;
        let e = match read_pool_entry(bytes, ix) {
            Ok(e) => e,
            Err(err) => {
                return Err(err.wrap(Frame::PoolEntry(i)));
            },
        };
        let wide = matches!(e, ConstantPoolEntry::Long(_) | ConstantPoolEntry::Double(_));
        assert(wide == is_wide(e));
        assert(entry_size(bytes@, p) == Some(*ix - p));
        assert(wide == entry_is_wide(bytes@, p));
        let ghost before = pool@;
        let ghost old_i = i as int;
        pool.push(e);
        if wide {
            if i + 1 >= count {
                return Err(ParseError::new(ErrorKind::BadPoolIndex).wrap(Frame::PoolEntry(i)));
            }
            pool.push(ConstantPoolEntry::Placeholder);
            i = i + 2;
        } else {
            i = i + 1;
        }
        proof {
            assert(entry_decodes_to(bytes@, p, pool@[old_i]));
            assert(pool@.subrange(0, old_i) =~= before);
            lemma_pool_walk_step(bytes@, o, count as int, p, *ix as int, old_i, i as int, before, pool@);
        }
        assert(layout_ok(pool@.push(ConstantPoolEntry::Integer(0)))) by {
            let p = pool@.push(ConstantPoolEntry::Integer(0));
            let q = before.push(ConstantPoolEntry::Integer(0));
            assert forall|k: int| 0 < k < p.len() && is_wide(#[trigger] p[k]) implies
                k + 1 < p.len() && p[k + 1] is Placeholder by {
                if k < before.len() {
                    assert(p[k] == q[k]);
                }
            }
            assert forall|k: int| 0 < k < p.len() && (#[trigger] p[k]) is Placeholder implies
                is_wide(p[k - 1]) by {
                if k < before.len() {
                    assert(p[k] == q[k]);
                    assert(p[k - 1] == q[k - 1]);
                }
            }
        }
    }
    assert(pool@ =~= pool@.push(ConstantPoolEntry::Integer(0)).drop_last());
    assert(layout_ok(pool@)) by {
        let p = pool@.push(ConstantPoolEntry::Integer(0));
        assert forall|k: int| 0 < k < pool@.len() && is_wide(#[trigger] pool@[k]) implies
            k + 1 < pool@.len() && pool@[k + 1] is Placeholder by {
            assert(p[k] == pool@[k]);
        }
        assert forall|k: int| 0 < k < pool@.len() && (#[trigger] pool@[k]) is Placeholder implies
            is_wide(pool@[k - 1]) by {
            assert(p[k] == pool@[k]);
            assert(p[k - 1] == pool@[k - 1]);
        }
    }
    proof {
        lemma_walk_linked_end(bytes@, o, count as int, *ix as int, i as int, pool@);
        assert(pool@.len() == if be16(bytes@, o) >= 1 { be16(bytes@, o) } else { 1 });
    }
    Ok(pool)
}

/// Index `i` names a readable slot: in range, not 0, not a Placeholder.
pub open spec fn readable(pool: Seq<ConstantPoolEntry>, i: int) -> bool {
    0 < i < pool.len() && !(pool[i] is Placeholder)
}

pub open spec fn is_utf8_at(pool: Seq<ConstantPoolEntry>, i: int) -> bool {
    readable(pool, i) && pool[i] is Utf8
}

pub open spec fn is_class_at(pool: Seq<ConstantPoolEntry>, i: int) -> bool {
    readable(pool, i) && pool[i] is ClassInfo
}

pub open spec fn is_name_and_type_at(pool: Seq<ConstantPoolEntry>, i: int) -> bool {
    readable(pool, i) && pool[i] is NameAndType
}

/// The member reference kinds that a method handle of `kind` may point to.
pub open spec fn handle_target_ok(kind: u8, e: ConstantPoolEntry) -> bool {
    if 1 <= kind <= 4 {
        e is FieldRef
    } else if kind == 5 || kind == 8 {
        e is MethodRef
    } else if kind == 6 || kind == 7 {
        e is MethodRef || e is InterfaceMethodRef
    } else if kind == 9 {
        e is InterfaceMethodRef
    } else {
        false
    }
}

/// Every pool index that `e` holds points to a slot of the kind it needs.
pub open spec fn refs_ok(pool: Seq<ConstantPoolEntry>, e: ConstantPoolEntry) -> bool {
    match e {
        ConstantPoolEntry::ClassInfo(j) => is_utf8_at(pool, j as int),
        ConstantPoolEntry::StringRef(j) => is_utf8_at(pool, j as int),
        ConstantPoolEntry::MethodType(j) => is_utf8_at(pool, j as int),
        ConstantPoolEntry::ModuleInfo(j) => is_utf8_at(pool, j as int),
        ConstantPoolEntry::PackageInfo(j) => is_utf8_at(pool, j as int),
        ConstantPoolEntry::FieldRef { class_index, name_and_type_index } =>
            is_class_at(pool, class_index as int) && is_name_and_type_at(pool, name_and_type_index as int),
        ConstantPoolEntry::MethodRef { class_index, name_and_type_index } =>
            is_class_at(pool, class_index as int) && is_name_and_type_at(pool, name_and_type_index as int),
        ConstantPoolEntry::InterfaceMethodRef { class_index, name_and_type_index } =>
            is_class_at(pool, class_index as int) && is_name_and_type_at(pool, name_and_type_index as int),
        ConstantPoolEntry::NameAndType { name_index, descriptor_index } =>
            is_utf8_at(pool, name_index as int) && is_utf8_at(pool, descriptor_index as int),
        ConstantPoolEntry::MethodHandle { kind, reference_index } =>
            readable(pool, reference_index as int) && handle_target_ok(kind, pool[reference_index as int]),
        ConstantPoolEntry::Dynamic { name_and_type_index, .. } => is_name_and_type_at(pool, name_and_type_index as int),
        ConstantPoolEntry::InvokeDynamic { name_and_type_index, .. } => is_name_and_type_at(pool, name_and_type_index as int),
        _ => true,
    }
}

/// A pool whose layout is sound and whose references all resolve.
pub open spec fn pool_ok(pool: Seq<ConstantPoolEntry>) -> bool {
    layout_ok(pool) && forall|k: int| 0 < k < pool.len() ==> refs_ok(pool, #[trigger] pool[k])
}

/// The error for a reference to `i` where a slot of another kind was needed.
pub open spec fn slot_error(pool: Seq<ConstantPoolEntry>, i: int) -> ErrorKind {
    if readable(pool, i) { ErrorKind::PoolKindMismatch } else { ErrorKind::BadPoolIndex }
}

fn check_slot(pool: &[ConstantPoolEntry], i: u16) -> (r: Result<(), ParseError>)
    ensures
        r is Ok <==> readable(pool@, i as int),
        r is Err ==> fails_with(r, ErrorKind::BadPoolIndex),
{
    if i == 0 || i as usize >= pool.len() {
        return Err(ParseError::new(ErrorKind::BadPoolIndex));
    }
    match &pool[i as usize] {
        ConstantPoolEntry::Placeholder => Err(ParseError::new(ErrorKind::BadPoolIndex)),
        _ => Ok(()),
    }
}

fn expect_utf8(pool: &[ConstantPoolEntry], i: u16) -> (r: Result<(), ParseError>)
    ensures
        r is Ok <==> is_utf8_at(pool@, i as int),
        r is Err ==> fails_with(r, slot_error(pool@, i as int)),
{
    check_slot(pool, i)?;
    match &pool[i as usize] {
        ConstantPoolEntry::Utf8(_) => Ok(()),
        _ => Err(ParseError::new(ErrorKind::PoolKindMismatch)),
    }
}

fn expect_class(pool: &[ConstantPoolEntry], i: u16) -> (r: Result<(), ParseError>)
    ensures
        r is Ok <==> is_class_at(pool@, i as int),
        r is Err ==> fails_with(r, slot_error(pool@, i as int)),
{
    check_slot(pool, i)?;
    match &pool[i as usize] {
        ConstantPoolEntry::ClassInfo(_) => Ok(()),
        _ => Err(ParseError::new(ErrorKind::PoolKindMismatch)),
    }
}

fn expect_name_and_type(pool: &[ConstantPoolEntry], i: u16) -> (r: Result<(), ParseError>)
    ensures
        r is Ok <==> is_name_and_type_at(pool@, i as int),
        r is Err ==> fails_with(r, slot_error(pool@, i as int)),
{
    check_slot(pool, i)?;
    match &pool[i as usize] {
        ConstantPoolEntry::NameAndType { .. } => Ok(()),
        _ => Err(ParseError::new(ErrorKind::PoolKindMismatch)),
    }
}

/// Checks the references of one entry.
pub fn check_entry(pool: &[ConstantPoolEntry], e: &ConstantPoolEntry) -> (r: Result<(), ParseError>)
    ensures
        r is Ok <==> refs_ok(pool@, *e),
{
    match e {
        ConstantPoolEntry::ClassInfo(j) => expect_utf8(pool, *j),
        ConstantPoolEntry::StringRef(j) => expect_utf8(pool, *j),
        ConstantPoolEntry::MethodType(j) => expect_utf8(pool, *j),
        ConstantPoolEntry::ModuleInfo(j) => expect_utf8(pool, *j),
        ConstantPoolEntry::PackageInfo(j) => expect_utf8(pool, *j),
        ConstantPoolEntry::FieldRef { class_index, name_and_type_index }
        | ConstantPoolEntry::MethodRef { class_index, name_and_type_index }
        | ConstantPoolEntry::InterfaceMethodRef { class_index, name_and_type_index } => {
            expect_class(pool, *class_index)?;
            expect_name_and_type(pool, *name_and_type_index)
        },
        ConstantPoolEntry::NameAndType { name_index, descriptor_index } => {
            expect_utf8(pool, *name_index)?;
            expect_utf8(pool, *descriptor_index)
        },
        ConstantPoolEntry::MethodHandle { kind, reference_index } => {
            if *kind < 1 || *kind > 9 {
                return Err(ParseError::new(ErrorKind::UnrecognizedDiscriminant));
            }
            check_slot(pool, *reference_index)?;
            let ok = match &pool[*reference_index as usize] {
                ConstantPoolEntry::FieldRef { .. } => *kind <= 4,
                ConstantPoolEntry::MethodRef { .. } => 5 <= *kind && *kind <= 8,
                ConstantPoolEntry::InterfaceMethodRef { .. } => *kind == 6 || *kind == 7 || *kind == 9,
                _ => false,
            };
            if ok {
                Ok(())
            } else {
                Err(ParseError::new(ErrorKind::PoolKindMismatch))
            }
        },
        ConstantPoolEntry::Dynamic { name_and_type_index, .. }
        | ConstantPoolEntry::InvokeDynamic { name_and_type_index, .. } => expect_name_and_type(pool, *name_and_type_index),
        _ => Ok(()),
    }
}

/// Pass two: checks that every reference in the pool resolves to the right kind.
pub fn check_pool(pool: &[ConstantPoolEntry]) -> (r: Result<(), ParseError>)
    ensures
        r is Ok <==> forall|k: int| 0 < k < pool@.len() ==> refs_ok(pool@, #[trigger] pool@[k]),
        layout_ok(pool@) ==> (r is Ok <==> pool_ok(pool@)),
{
    if pool.len() == 0 {
        return Ok(());
    }
    let mut k: usize = 1;
    while k < pool.len()
        invariant
            1 <= k <= pool@.len(),
            forall|m: int| 0 < m < k ==> refs_ok(pool@, #[trigger] pool@[m]),
        decreases pool@.len() - k,
    {
        match check_entry(pool, &pool[k]) {
            Ok(()) => {},
            Err(e) => {
                let at: u16 = if k <= 0xffff { k as u16 } else { 0xffff };
                return Err(e.wrap(Frame::PoolEntry(at)));
            },
        }
        k = k + 1;
    }
    Ok(())
}

/// Reads the constant pool and checks its references (both passes).
pub fn parse_constant_pool(bytes: &[u8], ix: &mut usize) -> (r: Result<Vec<ConstantPoolEntry>, ParseError>)
    ensures
        r is Ok ==> pool_ok(r->Ok_0@) && *final(ix) >= *old(ix) + 2,
        r is Ok && be16(bytes@, *old(ix) as int) >= 1 ==> r->Ok_0@.len() == be16(bytes@, *old(ix) as int),
        !can_read(bytes@, *old(ix) as int, 2) ==> fails_with(r, ErrorKind::UnexpectedEnd),
        r is Ok ==> *final(ix) == pool_entries_end(bytes@, *old(ix) + 2, 1, be16(bytes@, *old(ix) as int))->Some_0,
        !(can_read(bytes@, *old(ix) as int, 2)
            && pool_entries_end(bytes@, *old(ix) + 2, 1, be16(bytes@, *old(ix) as int)) is Some) ==> r is Err,
        r is Ok ==> pool_read_from(bytes@, *old(ix) as int, r->Ok_0@),
        (can_read(bytes@, *old(ix) as int, 2)
            && pool_entries_end(bytes@, *old(ix) + 2, 1, be16(bytes@, *old(ix) as int)) is Some
            && (forall|pool: Seq<ConstantPoolEntry>| #[trigger] pool_read_from(bytes@, *old(ix) as int, pool) ==> pool_ok(pool)))
            ==> r is Ok,
{
    let pool = read_constant_pool(bytes, ix)?;
    check_pool(pool.as_slice())?;
    Ok(pool)
}

/// Every reference in a checked pool avoids slot 0, slots out of range, and the
/// Placeholder slot after each Long or Double.
pub proof fn lemma_no_reference_to_placeholder(pool: Seq<ConstantPoolEntry>, k: int, j: int)
    requires
        pool_ok(pool),
        0 < k < pool.len(),
        refers_to(pool[k], j),
    ensures
        readable(pool, j),
{
}

/// `e` holds `j` as a pool index.
pub open spec fn refers_to(e: ConstantPoolEntry, j: int) -> bool {
    match e {
        ConstantPoolEntry::ClassInfo(i) => i == j,
        ConstantPoolEntry::StringRef(i) => i == j,
        ConstantPoolEntry::MethodType(i) => i == j,
        ConstantPoolEntry::ModuleInfo(i) => i == j,
        ConstantPoolEntry::PackageInfo(i) => i == j,
        ConstantPoolEntry::FieldRef { class_index, name_and_type_index } => class_index == j || name_and_type_index == j,
        ConstantPoolEntry::MethodRef { class_index, name_and_type_index } => class_index == j || name_and_type_index == j,
        ConstantPoolEntry::InterfaceMethodRef { class_index, name_and_type_index } => class_index == j || name_and_type_index == j,
        ConstantPoolEntry::NameAndType { name_index, descriptor_index } => name_index == j || descriptor_index == j,
        ConstantPoolEntry::MethodHandle { reference_index, .. } => reference_index == j,
        ConstantPoolEntry::Dynamic { name_and_type_index, .. } => name_and_type_index == j,
        ConstantPoolEntry::InvokeDynamic { name_and_type_index, .. } => name_and_type_index == j,
        _ => false,
    }
}

/// In a pool read by pass one, the slot after a Long or Double is a Placeholder,
/// and, once pass two accepts the pool, nothing refers to it.
pub proof fn lemma_wide_entry_slot(pool: Seq<ConstantPoolEntry>, k: int)
    requires
        pool_ok(pool),
        0 < k < pool.len(),
        is_wide(pool[k]),
    ensures
        k + 1 < pool.len(),
        pool[k + 1] is Placeholder,
        forall|m: int| 0 < m < pool.len() ==> !refers_to(#[trigger] pool[m], k + 1),
{
    assert forall|m: int| 0 < m < pool.len() implies !refers_to(#[trigger] pool[m], k + 1) by {
        if refers_to(pool[m], k + 1) {
            lemma_no_reference_to_placeholder(pool, m, k + 1);
        }
    }
}

/// A name and a descriptor, resolved out of the pool.
#[derive(Debug)]
pub struct NameAndType {
    pub name: String,
    pub descriptor: String,
}

#[derive(Clone, Copy, Debug, PartialEq, Eq, Structural)]
pub enum MemberKind {
    Field,
    Method,
    InterfaceMethod,
}

/// A resolved field, method or interface method reference.
#[derive(Debug)]
pub struct MemberRef {
    pub kind: MemberKind,
    pub class_name: String,
    pub name_and_type: NameAndType,
}

/// A resolved method handle: its kind (1 to 9) and the member it points to.
#[derive(Debug)]
pub struct MethodHandle {
    pub kind: u8,
    pub reference: MemberRef,
}

/// A loadable constant. Float and Double hold IEEE 754 bit patterns.
#[derive(Debug)]
pub enum LiteralConstant {
    Integer(i32),
    Float(u32),
    Long(i64),
    Double(u64),
    String(String),
}

/// A static argument to a bootstrap method.
#[derive(Debug)]
pub enum BootstrapArgument {
    Literal(LiteralConstant),
    ClassInfo(String),
    MethodHandle(MethodHandle),
    MethodType(String),
    Dynamic { bootstrap_method_attr_index: u16, name_and_type: NameAndType },
}

pub open spec fn utf8_at(pool: Seq<ConstantPoolEntry>, i: int) -> Option<Seq<char>> {
    if is_utf8_at(pool, i) { Some(pool[i]->Utf8_0@) } else { None }
}

/// The internal-form class name of the ClassInfo at `i`.
pub open spec fn class_at(pool: Seq<ConstantPoolEntry>, i: int) -> Option<Seq<char>> {
    if is_class_at(pool, i) { utf8_at(pool, pool[i]->ClassInfo_0 as int) } else { None }
}

pub open spec fn module_at(pool: Seq<ConstantPoolEntry>, i: int) -> Option<Seq<char>> {
    if readable(pool, i) && pool[i] is ModuleInfo { utf8_at(pool, pool[i]->ModuleInfo_0 as int) } else { None }
}

pub open spec fn package_at(pool: Seq<ConstantPoolEntry>, i: int) -> Option<Seq<char>> {
    if readable(pool, i) && pool[i] is PackageInfo { utf8_at(pool, pool[i]->PackageInfo_0 as int) } else { None }
}

pub open spec fn nat_resolves(pool: Seq<ConstantPoolEntry>, i: int) -> bool {
    is_name_and_type_at(pool, i)
        && utf8_at(pool, pool[i]->NameAndType_name_index as int) is Some
        && utf8_at(pool, pool[i]->NameAndType_descriptor_index as int) is Some
}

pub open spec fn nat_matches(pool: Seq<ConstantPoolEntry>, i: int, v: NameAndType) -> bool {
    &&& nat_resolves(pool, i)
    &&& utf8_at(pool, pool[i]->NameAndType_name_index as int) == Some(v.name@)
    &&& utf8_at(pool, pool[i]->NameAndType_descriptor_index as int) == Some(v.descriptor@)
}

/// The kind, class index and name-and-type index of a member reference entry.
pub open spec fn member_parts(e: ConstantPoolEntry) -> Option<(MemberKind, u16, u16)> {
    match e {
        ConstantPoolEntry::FieldRef { class_index, name_and_type_index } =>
            Some((MemberKind::Field, class_index, name_and_type_index)),
        ConstantPoolEntry::MethodRef { class_index, name_and_type_index } =>
            Some((MemberKind::Method, class_index, name_and_type_index)),
        ConstantPoolEntry::InterfaceMethodRef { class_index, name_and_type_index } =>
            Some((MemberKind::InterfaceMethod, class_index, name_and_type_index)),
        _ => None,
    }
}

pub open spec fn member_resolves(pool: Seq<ConstantPoolEntry>, i: int) -> bool {
    readable(pool, i) && member_parts(pool[i]) is Some && ({
        let (_, c, nt) = member_parts(pool[i])->Some_0;
        class_at(pool, c as int) is Some && nat_resolves(pool, nt as int)
    })
}

pub open spec fn member_matches(pool: Seq<ConstantPoolEntry>, i: int, v: MemberRef) -> bool {
    member_resolves(pool, i) && ({
        let (kind, c, nt) = member_parts(pool[i])->Some_0;
        &&& v.kind == kind
        &&& class_at(pool, c as int) == Some(v.class_name@)
        &&& nat_matches(pool, nt as int, v.name_and_type)
    })
}

pub open spec fn handle_resolves(pool: Seq<ConstantPoolEntry>, i: int) -> bool {
    readable(pool, i) && pool[i] is MethodHandle && ({
        let kind = pool[i]->MethodHandle_kind;
        let r = pool[i]->MethodHandle_reference_index as int;
        member_resolves(pool, r) && handle_target_ok(kind, pool[r])
    })
}

pub open spec fn handle_matches(pool: Seq<ConstantPoolEntry>, i: int, v: MethodHandle) -> bool {
    &&& handle_resolves(pool, i)
    &&& v.kind == pool[i]->MethodHandle_kind
    &&& member_matches(pool, pool[i]->MethodHandle_reference_index as int, v.reference)
}

pub open spec fn literal_resolves(pool: Seq<ConstantPoolEntry>, i: int) -> bool {
    readable(pool, i) && match pool[i] {
        ConstantPoolEntry::Integer(_) | ConstantPoolEntry::Float(_) | ConstantPoolEntry::Long(_)
        | ConstantPoolEntry::Double(_) => true,
        ConstantPoolEntry::StringRef(j) => utf8_at(pool, j as int) is Some,
        _ => false,
    }
}

pub open spec fn literal_matches(pool: Seq<ConstantPoolEntry>, i: int, v: LiteralConstant) -> bool {
    literal_resolves(pool, i) && match pool[i] {
        ConstantPoolEntry::Integer(x) => v == LiteralConstant::Integer(x),
        ConstantPoolEntry::Float(x) => v == LiteralConstant::Float(x),
        ConstantPoolEntry::Long(x) => v == LiteralConstant::Long(x),
        ConstantPoolEntry::Double(x) => v == LiteralConstant::Double(x),
        ConstantPoolEntry::StringRef(j) => v is String && utf8_at(pool, j as int) == Some(v->String_0@),
        _ => false,
    }
}

pub open spec fn bootstrap_argument_resolves(pool: Seq<ConstantPoolEntry>, i: int) -> bool {
    literal_resolves(pool, i) || class_at(pool, i) is Some || handle_resolves(pool, i)
        || (readable(pool, i) && pool[i] is MethodType && utf8_at(pool, pool[i]->MethodType_0 as int) is Some)
        || (readable(pool, i) && pool[i] is Dynamic && nat_resolves(pool, pool[i]->Dynamic_name_and_type_index as int))
}

pub open spec fn bootstrap_argument_matches(pool: Seq<ConstantPoolEntry>, i: int, v: BootstrapArgument) -> bool {
    match v {
        BootstrapArgument::Literal(l) => literal_matches(pool, i, l),
        BootstrapArgument::ClassInfo(s) => class_at(pool, i) == Some(s@),
        BootstrapArgument::MethodHandle(h) => handle_matches(pool, i, h),
        BootstrapArgument::MethodType(s) => readable(pool, i) && pool[i] is MethodType
            && utf8_at(pool, pool[i]->MethodType_0 as int) == Some(s@),
        BootstrapArgument::Dynamic { bootstrap_method_attr_index, name_and_type } =>
            readable(pool, i) && pool[i] is Dynamic
            && bootstrap_method_attr_index == pool[i]->Dynamic_bootstrap_method_attr_index
            && nat_matches(pool, pool[i]->Dynamic_name_and_type_index as int, name_and_type),
    }
}

pub fn resolve_utf8(pool: &[ConstantPoolEntry], i: u16) -> (r: Result<String, ParseError>)
    ensures
        r is Ok <==> utf8_at(pool@, i as int) is Some,
        r is Ok ==> r->Ok_0@ == utf8_at(pool@, i as int)->Some_0,
        r is Err ==> fails_with(r, slot_error(pool@, i as int)),
{
    check_slot(pool, i)?;
    match &pool[i as usize] {
        ConstantPoolEntry::Utf8(s) => Ok(s.clone()),
        _ => Err(ParseError::new(ErrorKind::PoolKindMismatch)),
    }
}

pub fn resolve_class(pool: &[ConstantPoolEntry], i: u16) -> (r: Result<String, ParseError>)
    ensures
        r is Ok <==> class_at(pool@, i as int) is Some,
        r is Ok ==> r->Ok_0@ == class_at(pool@, i as int)->Some_0,
        !readable(pool@, i as int) ==> fails_with(r, ErrorKind::BadPoolIndex),
{
    check_slot(pool, i)?;
    match &pool[i as usize] {
        ConstantPoolEntry::ClassInfo(j) => resolve_utf8(pool, *j),
        _ => Err(ParseError::new(ErrorKind::PoolKindMismatch)),
    }
}

pub fn resolve_name_and_type(pool: &[ConstantPoolEntry], i: u16) -> (r: Result<NameAndType, ParseError>)
    ensures
        r is Ok <==> nat_resolves(pool@, i as int),
        r is Ok ==> nat_matches(pool@, i as int, r->Ok_0),
        !readable(pool@, i as int) ==> fails_with(r, ErrorKind::BadPoolIndex),
{
    check_slot(pool, i)?;
    match &pool[i as usize] {
        ConstantPoolEntry::NameAndType { name_index, descriptor_index } => {
            let name = resolve_utf8(pool, *name_index)?;
            let descriptor = resolve_utf8(pool, *descriptor_index)?;
            Ok(NameAndType { name, descriptor })
        },
        _ => Err(ParseError::new(ErrorKind::PoolKindMismatch)),
    }
}

pub fn resolve_member(pool: &[ConstantPoolEntry], i: u16) -> (r: Result<MemberRef, ParseError>)
    ensures
        r is Ok <==> member_resolves(pool@, i as int),
        r is Ok ==> member_matches(pool@, i as int, r->Ok_0),
        !readable(pool@, i as int) ==> fails_with(r, ErrorKind::BadPoolIndex),
{
    check_slot(pool, i)?;
    let (kind, c, nt) = match &pool[i as usize] {
        ConstantPoolEntry::FieldRef { class_index, name_and_type_index } =>
            (MemberKind::Field, *class_index, *name_and_type_index),
        ConstantPoolEntry::MethodRef { class_index, name_and_type_index } =>
            (MemberKind::Method, *class_index, *name_and_type_index),
        ConstantPoolEntry::InterfaceMethodRef { class_index, name_and_type_index } =>
            (MemberKind::InterfaceMethod, *class_index, *name_and_type_index),
        _ => {
            return Err(ParseError::new(ErrorKind::PoolKindMismatch));
        },
    };
    let class_name = resolve_class(pool, c)?;
    let name_and_type = resolve_name_and_type(pool, nt)?;
    Ok(MemberRef { kind, class_name, name_and_type })
}

pub fn resolve_method_handle(pool: &[ConstantPoolEntry], i: u16) -> (r: Result<MethodHandle, ParseError>)
    ensures
        r is Ok <==> handle_resolves(pool@, i as int),
        r is Ok ==> handle_matches(pool@, i as int, r->Ok_0),
        !readable(pool@, i as int) ==> fails_with(r, ErrorKind::BadPoolIndex),
        readable(pool@, i as int) && !(pool@[i as int] is MethodHandle) ==> fails_with(r, ErrorKind::PoolKindMismatch),
{
    check_slot(pool, i)?;
    let (kind, ri) = match &pool[i as usize] {
        ConstantPoolEntry::MethodHandle { kind, reference_index } => (*kind, *reference_index),
        _ => {
            return Err(ParseError::new(ErrorKind::PoolKindMismatch));
        },
    };
    let reference = resolve_member(pool, ri)?;
    let ok = match reference.kind {
        MemberKind::Field => 1 <= kind && kind <= 4,
        MemberKind::Method => 5 <= kind && kind <= 8,
        MemberKind::InterfaceMethod => kind == 6 || kind == 7 || kind == 9,
    };
    if !ok {
        return Err(ParseError::new(ErrorKind::PoolKindMismatch));
    }
    Ok(MethodHandle { kind, reference })
}

pub fn resolve_literal(pool: &[ConstantPoolEntry], i: u16) -> (r: Result<LiteralConstant, ParseError>)
    ensures
        r is Ok <==> literal_resolves(pool@, i as int),
        r is Ok ==> literal_matches(pool@, i as int, r->Ok_0),
        !readable(pool@, i as int) ==> fails_with(r, ErrorKind::BadPoolIndex),
{
    check_slot(pool, i)?;
    match &pool[i as usize] {
        ConstantPoolEntry::Integer(x) => Ok(LiteralConstant::Integer(*x)),
        ConstantPoolEntry::Float(x) => Ok(LiteralConstant::Float(*x)),
        ConstantPoolEntry::Long(x) => Ok(LiteralConstant::Long(*x)),
        ConstantPoolEntry::Double(x) => Ok(LiteralConstant::Double(*x)),
        ConstantPoolEntry::StringRef(j) => Ok(LiteralConstant::String(resolve_utf8(pool, *j)?)),
        _ => Err(ParseError::new(ErrorKind::PoolKindMismatch)),
    }
}

pub fn resolve_bootstrap_argument(pool: &[ConstantPoolEntry], i: u16) -> (r: Result<BootstrapArgument, ParseError>)
    ensures
        r is Ok <==> bootstrap_argument_resolves(pool@, i as int),
        r is Ok ==> bootstrap_argument_matches(pool@, i as int, r->Ok_0),
        !readable(pool@, i as int) ==> fails_with(r, ErrorKind::BadPoolIndex),
{
    check_slot(pool, i)?;
    match &pool[i as usize] {
        ConstantPoolEntry::Integer(_) | ConstantPoolEntry::Float(_) | ConstantPoolEntry::Long(_)
        | ConstantPoolEntry::Double(_) | ConstantPoolEntry::StringRef(_) =>
            Ok(BootstrapArgument::Literal(resolve_literal(pool, i)?)),
        ConstantPoolEntry::ClassInfo(_) => Ok(BootstrapArgument::ClassInfo(resolve_class(pool, i)?)),
        ConstantPoolEntry::MethodHandle { .. } => Ok(BootstrapArgument::MethodHandle(resolve_method_handle(pool, i)?)),
        ConstantPoolEntry::MethodType(j) => Ok(BootstrapArgument::MethodType(resolve_utf8(pool, *j)?)),
        ConstantPoolEntry::Dynamic { bootstrap_method_attr_index, name_and_type_index } => {
            let name_and_type = resolve_name_and_type(pool, *name_and_type_index)?;
            Ok(BootstrapArgument::Dynamic { bootstrap_method_attr_index: *bootstrap_method_attr_index, name_and_type })
        },
        _ => Err(ParseError::new(ErrorKind::PoolKindMismatch)),
    }
}

pub open spec fn module_or_package_at(pool: Seq<ConstantPoolEntry>, i: int, module: bool) -> Option<Seq<char>> {
    if module { module_at(pool, i) } else { package_at(pool, i) }
}

/// The pool index stored at the cursor.
pub open spec fn index_at(bytes: Seq<u8>, ix: int) -> int {
    be16(bytes, ix)
}

pub fn read_cp_utf8(bytes: &[u8], ix: &mut usize, pool: &[ConstantPoolEntry]) -> (r: Result<String, ParseError>)
    ensures
        !can_read(bytes@, *old(ix) as int, 2) ==> fails_with(r, ErrorKind::UnexpectedEnd),
        can_read(bytes@, *old(ix) as int, 2) ==>
            (r is Ok <==> utf8_at(pool@, index_at(bytes@, *old(ix) as int)) is Some),
        r is Ok ==> *final(ix) == *old(ix) + 2
            && r->Ok_0@ == utf8_at(pool@, index_at(bytes@, *old(ix) as int))->Some_0,
{
    let i = read_u2(bytes, ix)?;
    resolve_utf8(pool, i)
}

/// As `read_cp_utf8`, with index 0 read as absent.
pub fn read_cp_utf8_opt(bytes: &[u8], ix: &mut usize, pool: &[ConstantPoolEntry]) -> (r: Result<Option<String>, ParseError>)
    ensures
        !can_read(bytes@, *old(ix) as int, 2) ==> fails_with(r, ErrorKind::UnexpectedEnd),
        can_read(bytes@, *old(ix) as int, 2) ==> (r is Ok <==> (index_at(bytes@, *old(ix) as int) == 0
            || utf8_at(pool@, index_at(bytes@, *old(ix) as int)) is Some)),
        r is Ok ==> *final(ix) == *old(ix) + 2,
        r is Ok && index_at(bytes@, *old(ix) as int) == 0 ==> r->Ok_0 is None,
        r is Ok && index_at(bytes@, *old(ix) as int) != 0 ==> r->Ok_0 is Some
            && r->Ok_0->Some_0@ == utf8_at(pool@, index_at(bytes@, *old(ix) as int))->Some_0,
{
    let i = read_u2(bytes, ix)?;
    if i == 0 {
        Ok(None)
    } else {
        Ok(Some(resolve_utf8(pool, i)?))
    }
}

pub fn read_cp_classinfo(bytes: &[u8], ix: &mut usize, pool: &[ConstantPoolEntry]) -> (r: Result<String, ParseError>)
    ensures
        !can_read(bytes@, *old(ix) as int, 2) ==> fails_with(r, ErrorKind::UnexpectedEnd),
        can_read(bytes@, *old(ix) as int, 2) ==>
            (r is Ok <==> class_at(pool@, index_at(bytes@, *old(ix) as int)) is Some),
        r is Ok ==> *final(ix) == *old(ix) + 2
            && r->Ok_0@ == class_at(pool@, index_at(bytes@, *old(ix) as int))->Some_0,
        can_read(bytes@, *old(ix) as int, 2) && !readable(pool@, index_at(bytes@, *old(ix) as int)) ==>
            fails_with(r, ErrorKind::BadPoolIndex),
{
    let i = read_u2(bytes, ix)?;
    resolve_class(pool, i)
}

/// As `read_cp_classinfo`, with index 0 read as absent.
pub fn read_cp_classinfo_opt(bytes: &[u8], ix: &mut usize, pool: &[ConstantPoolEntry]) -> (r: Result<Option<String>, ParseError>)
    ensures
        !can_read(bytes@, *old(ix) as int, 2) ==> fails_with(r, ErrorKind::UnexpectedEnd),
        can_read(bytes@, *old(ix) as int, 2) ==> (r is Ok <==> (index_at(bytes@, *old(ix) as int) == 0
            || class_at(pool@, index_at(bytes@, *old(ix) as int)) is Some)),
        r is Ok ==> *final(ix) == *old(ix) + 2,
        r is Ok && index_at(bytes@, *old(ix) as int) == 0 ==> r->Ok_0 is None,
        r is Ok && index_at(bytes@, *old(ix) as int) != 0 ==> r->Ok_0 is Some
            && r->Ok_0->Some_0@ == class_at(pool@, index_at(bytes@, *old(ix) as int))->Some_0,
{
    let i = read_u2(bytes, ix)?;
    if i == 0 {
        Ok(None)
    } else {
        Ok(Some(resolve_class(pool, i)?))
    }
}

/// Reads a NameAndType reference, with index 0 read as absent.
pub fn read_cp_nameandtype_opt(bytes: &[u8], ix: &mut usize, pool: &[ConstantPoolEntry]) -> (r: Result<Option<NameAndType>, ParseError>)
    ensures
        !can_read(bytes@, *old(ix) as int, 2) ==> fails_with(r, ErrorKind::UnexpectedEnd),
        can_read(bytes@, *old(ix) as int, 2) ==> (r is Ok <==> (index_at(bytes@, *old(ix) as int) == 0
            || nat_resolves(pool@, index_at(bytes@, *old(ix) as int)))),
        r is Ok ==> *final(ix) == *old(ix) + 2,
        r is Ok && index_at(bytes@, *old(ix) as int) == 0 ==> r->Ok_0 is None,
        r is Ok && index_at(bytes@, *old(ix) as int) != 0 ==> r->Ok_0 is Some
            && nat_matches(pool@, index_at(bytes@, *old(ix) as int), r->Ok_0->Some_0),
{
    let i = read_u2(bytes, ix)?;
    if i == 0 {
        Ok(None)
    } else {
        Ok(Some(resolve_name_and_type(pool, i)?))
    }
}

pub fn read_cp_literalconstant(bytes: &[u8], ix: &mut usize, pool: &[ConstantPoolEntry]) -> (r: Result<LiteralConstant, ParseError>)
    ensures
        !can_read(bytes@, *old(ix) as int, 2) ==> fails_with(r, ErrorKind::UnexpectedEnd),
        can_read(bytes@, *old(ix) as int, 2) ==>
            (r is Ok <==> literal_resolves(pool@, index_at(bytes@, *old(ix) as int))),
        r is Ok ==> *final(ix) == *old(ix) + 2
            && literal_matches(pool@, index_at(bytes@, *old(ix) as int), r->Ok_0),
        can_read(bytes@, *old(ix) as int, 2) && !readable(pool@, index_at(bytes@, *old(ix) as int)) ==>
            fails_with(r, ErrorKind::BadPoolIndex),
{
    let i = read_u2(bytes, ix)?;
    resolve_literal(pool, i)
}

pub fn read_cp_integer(bytes: &[u8], ix: &mut usize, pool: &[ConstantPoolEntry]) -> (r: Result<i32, ParseError>)
    ensures
        !can_read(bytes@, *old(ix) as int, 2) ==> fails_with(r, ErrorKind::UnexpectedEnd),
        can_read(bytes@, *old(ix) as int, 2) ==> (r is Ok <==> ({
            let i = index_at(bytes@, *old(ix) as int);
            readable(pool@, i) && pool@[i] is Integer
        })),
        r is Ok ==> *final(ix) == *old(ix) + 2
            && pool@[index_at(bytes@, *old(ix) as int)] == ConstantPoolEntry::Integer(r->Ok_0),
{
    let i = read_u2(bytes, ix)?;
    check_slot(pool, i)?;
    match &pool[i as usize] {
        ConstantPoolEntry::Integer(x) => Ok(*x),
        _ => Err(ParseError::new(ErrorKind::PoolKindMismatch)),
    }
}

/// Reads a Float reference; the value is its IEEE 754 bit pattern.
pub fn read_cp_float(bytes: &[u8], ix: &mut usize, pool: &[ConstantPoolEntry]) -> (r: Result<u32, ParseError>)
    ensures
        !can_read(bytes@, *old(ix) as int, 2) ==> fails_with(r, ErrorKind::UnexpectedEnd),
        can_read(bytes@, *old(ix) as int, 2) ==> (r is Ok <==> ({
            let i = index_at(bytes@, *old(ix) as int);
            readable(pool@, i) && pool@[i] is Float
        })),
        r is Ok ==> *final(ix) == *old(ix) + 2
            && pool@[index_at(bytes@, *old(ix) as int)] == ConstantPoolEntry::Float(r->Ok_0),
{
    let i = read_u2(bytes, ix)?;
    check_slot(pool, i)?;
    match &pool[i as usize] {
        ConstantPoolEntry::Float(x) => Ok(*x),
        _ => Err(ParseError::new(ErrorKind::PoolKindMismatch)),
    }
}

pub fn read_cp_long(bytes: &[u8], ix: &mut usize, pool: &[ConstantPoolEntry]) -> (r: Result<i64, ParseError>)
    ensures
        !can_read(bytes@, *old(ix) as int, 2) ==> fails_with(r, ErrorKind::UnexpectedEnd),
        can_read(bytes@, *old(ix) as int, 2) ==> (r is Ok <==> ({
            let i = index_at(bytes@, *old(ix) as int);
            readable(pool@, i) && pool@[i] is Long
        })),
        r is Ok ==> *final(ix) == *old(ix) + 2
            && pool@[index_at(bytes@, *old(ix) as int)] == ConstantPoolEntry::Long(r->Ok_0),
{
    let i = read_u2(bytes, ix)?;
    check_slot(pool, i)?;
    match &pool[i as usize] {
        ConstantPoolEntry::Long(x) => Ok(*x),
        _ => Err(ParseError::new(ErrorKind::PoolKindMismatch)),
    }
}

/// Reads a Double reference; the value is its IEEE 754 bit pattern.
pub fn read_cp_double(bytes: &[u8], ix: &mut usize, pool: &[ConstantPoolEntry]) -> (r: Result<u64, ParseError>)
    ensures
        !can_read(bytes@, *old(ix) as int, 2) ==> fails_with(r, ErrorKind::UnexpectedEnd),
        can_read(bytes@, *old(ix) as int, 2) ==> (r is Ok <==> ({
            let i = index_at(bytes@, *old(ix) as int);
            readable(pool@, i) && pool@[i] is Double
        })),
        r is Ok ==> *final(ix) == *old(ix) + 2
            && pool@[index_at(bytes@, *old(ix) as int)] == ConstantPoolEntry::Double(r->Ok_0),
{
    let i = read_u2(bytes, ix)?;
    check_slot(pool, i)?;
    match &pool[i as usize] {
        ConstantPoolEntry::Double(x) => Ok(*x),
        _ => Err(ParseError::new(ErrorKind::PoolKindMismatch)),
    }
}

pub fn read_cp_methodhandle(bytes: &[u8], ix: &mut usize, pool: &[ConstantPoolEntry]) -> (r: Result<MethodHandle, ParseError>)
    ensures
        !can_read(bytes@, *old(ix) as int, 2) ==> fails_with(r, ErrorKind::UnexpectedEnd),
        can_read(bytes@, *old(ix) as int, 2) ==>
            (r is Ok <==> handle_resolves(pool@, index_at(bytes@, *old(ix) as int))),
        r is Ok ==> *final(ix) == *old(ix) + 2
            && handle_matches(pool@, index_at(bytes@, *old(ix) as int), r->Ok_0),
        can_read(bytes@, *old(ix) as int, 2) && !readable(pool@, index_at(bytes@, *old(ix) as int)) ==>
            fails_with(r, ErrorKind::BadPoolIndex),
        can_read(bytes@, *old(ix) as int, 2) && readable(pool@, index_at(bytes@, *old(ix) as int))
            && !(pool@[index_at(bytes@, *old(ix) as int)] is MethodHandle) ==> fails_with(r, ErrorKind::PoolKindMismatch),
{
    let i = read_u2(bytes, ix)?;
    resolve_method_handle(pool, i)
}

pub fn read_cp_bootstrap_argument(bytes: &[u8], ix: &mut usize, pool: &[ConstantPoolEntry]) -> (r: Result<BootstrapArgument, ParseError>)
    ensures
        !can_read(bytes@, *old(ix) as int, 2) ==> fails_with(r, ErrorKind::UnexpectedEnd),
        can_read(bytes@, *old(ix) as int, 2) ==>
            (r is Ok <==> bootstrap_argument_resolves(pool@, index_at(bytes@, *old(ix) as int))),
        r is Ok ==> *final(ix) == *old(ix) + 2
            && bootstrap_argument_matches(pool@, index_at(bytes@, *old(ix) as int), r->Ok_0),
{
    let i = read_u2(bytes, ix)?;
    resolve_bootstrap_argument(pool, i)
}

fn resolve_module_or_package(pool: &[ConstantPoolEntry], i: u16, module: bool) -> (r: Result<String, ParseError>)
    ensures
        r is Ok <==> module_or_package_at(pool@, i as int, module) is Some,
        r is Ok ==> r->Ok_0@ == module_or_package_at(pool@, i as int, module)->Some_0,
{
    check_slot(pool, i)?;
    match &pool[i as usize] {
        ConstantPoolEntry::ModuleInfo(j) if module => resolve_utf8(pool, *j),
        ConstantPoolEntry::PackageInfo(j) if !module => resolve_utf8(pool, *j),
        _ => Err(ParseError::new(ErrorKind::PoolKindMismatch)),
    }
}

pub fn read_cp_moduleinfo(bytes: &[u8], ix: &mut usize, pool: &[ConstantPoolEntry]) -> (r: Result<String, ParseError>)
    ensures
        !can_read(bytes@, *old(ix) as int, 2) ==> fails_with(r, ErrorKind::UnexpectedEnd),
        can_read(bytes@, *old(ix) as int, 2) ==>
            (r is Ok <==> module_at(pool@, index_at(bytes@, *old(ix) as int)) is Some),
        r is Ok ==> *final(ix) == *old(ix) + 2
            && r->Ok_0@ == module_at(pool@, index_at(bytes@, *old(ix) as int))->Some_0,
{
    let i = read_u2(bytes, ix)?;
    resolve_module_or_package(pool, i, true)
}

pub fn read_cp_packageinfo(bytes: &[u8], ix: &mut usize, pool: &[ConstantPoolEntry]) -> (r: Result<String, ParseError>)
    ensures
        !can_read(bytes@, *old(ix) as int, 2) ==> fails_with(r, ErrorKind::UnexpectedEnd),
        can_read(bytes@, *old(ix) as int, 2) ==>
            (r is Ok <==> package_at(pool@, index_at(bytes@, *old(ix) as int)) is Some),
        r is Ok ==> *final(ix) == *old(ix) + 2
            && r->Ok_0@ == package_at(pool@, index_at(bytes@, *old(ix) as int))->Some_0,
{
    let i = read_u2(bytes, ix)?;
    resolve_module_or_package(pool, i, false)
}

} // verus!
