use vstd::prelude::*;
use crate::error::{ErrorKind, ParseError, fails_with};

verus! {

/// The big-endian 16-bit value at `i`.
pub open spec fn be16(b: Seq<u8>, i: int) -> int {
    b[i] as int * 256 + b[i + 1] as int
}

/// The big-endian 32-bit value at `i`.
pub open spec fn be32(b: Seq<u8>, i: int) -> int {
    be16(b, i) * 65536 + be16(b, i + 2)
}

/// The big-endian 64-bit value at `i`, unsigned.
pub open spec fn be64(b: Seq<u8>, i: int) -> int {
    be32(b, i) * 0x1_0000_0000 + be32(b, i + 4)
}

/// `n` more bytes can be read at `ix`.
pub open spec fn can_read(b: Seq<u8>, ix: int, n: int) -> bool {
    0 <= ix && ix + n <= b.len()
}

pub fn read_u1(bytes: &[u8], ix: &mut usize) -> (r: Result<u8, ParseError>)
    ensures
        r is Ok <==> can_read(bytes@, *old(ix) as int, 1),
        r is Ok ==> r->Ok_0 == bytes@[*old(ix) as int] && *final(ix) == *old(ix) + 1,
        r is Err ==> fails_with(r, ErrorKind::UnexpectedEnd) && *final(ix) == *old(ix),
{
    if *ix < bytes.len() {
        let v = bytes[*ix];
        *ix = *ix + 1;
        Ok(v)
    } else {
        Err(ParseError::new(ErrorKind::UnexpectedEnd))
    }
}

pub fn read_u2(bytes: &[u8], ix: &mut usize) -> (r: Result<u16, ParseError>)
    ensures
        r is Ok <==> can_read(bytes@, *old(ix) as int, 2),
        r is Ok ==> r->Ok_0 as int == be16(bytes@, *old(ix) as int) && *final(ix) == *old(ix) + 2,
        r is Err ==> fails_with(r, ErrorKind::UnexpectedEnd) && *final(ix) == *old(ix),
{
    if bytes.len() >= 2 && *ix <= bytes.len() - 2 {
        let v = (bytes[*ix] as u16) * 256 + bytes[*ix + 1] as u16;
        *ix = *ix + 2;
        Ok(v)
    } else {
        Err(ParseError::new(ErrorKind::UnexpectedEnd))
    }
}

pub fn read_u4(bytes: &[u8], ix: &mut usize) -> (r: Result<u32, ParseError>)
    ensures
        r is Ok <==> can_read(bytes@, *old(ix) as int, 4),
        r is Ok ==> r->Ok_0 as int == be32(bytes@, *old(ix) as int) && *final(ix) == *old(ix) + 4,
        r is Err ==> fails_with(r, ErrorKind::UnexpectedEnd) && *final(ix) == *old(ix),
{
    if bytes.len() >= 4 && *ix <= bytes.len() - 4 {
        let i = *ix;
        let hi = (bytes[i] as u32) * 256 + bytes[i + 1] as u32;
        let lo = (bytes[i + 2] as u32) * 256 + bytes[i + 3] as u32;
        *ix = i + 4;
        Ok(hi * 65536 + lo)
    } else {
        Err(ParseError::new(ErrorKind::UnexpectedEnd))
    }
}

pub fn read_u8(bytes: &[u8], ix: &mut usize) -> (r: Result<u64, ParseError>)
    ensures
        r is Ok <==> can_read(bytes@, *old(ix) as int, 8),
        r is Ok ==> r->Ok_0 as int == be64(bytes@, *old(ix) as int) && *final(ix) == *old(ix) + 8,
        r is Err ==> fails_with(r, ErrorKind::UnexpectedEnd) && *final(ix) == *old(ix),
{
    if bytes.len() >= 8 && *ix <= bytes.len() - 8 {
        let hi = read_u4(bytes, ix).unwrap();
        let lo = read_u4(bytes, ix).unwrap();
        Ok((hi as u64) * 0x1_0000_0000 + lo as u64)
    } else {
        Err(ParseError::new(ErrorKind::UnexpectedEnd))
    }
}

/// Copies `n` bytes at the cursor and advances past them.
pub fn read_bytes(bytes: &[u8], ix: &mut usize, n: usize) -> (r: Result<Vec<u8>, ParseError>)
    ensures
        r is Ok <==> can_read(bytes@, *old(ix) as int, n as int),
        r is Ok ==> r->Ok_0@ == bytes@.subrange(*old(ix) as int, *old(ix) + n)
            && *final(ix) == *old(ix) + n,
        r is Err ==> fails_with(r, ErrorKind::UnexpectedEnd) && *final(ix) == *old(ix),
{
    if *ix <= bytes.len() && n <= bytes.len() - *ix {
        let start = *ix;
        let mut out: Vec<u8> = Vec::with_capacity(n);
        let mut k: usize = 0;
        while k < n
            invariant
                start + n <= bytes.len(),
                k <= n,
                out@ == bytes@.subrange(start as int, start + k),
            decreases n - k,
        {
            out.push(bytes[start + k]);
            k = k + 1;
            assert(out@ =~= bytes@.subrange(start as int, start + k));
        }
        *ix = start + n;
        Ok(out)
    } else {
        Err(ParseError::new(ErrorKind::UnexpectedEnd))
    }
}

} // verus!
