//! Unsigned integers as bytes, most significant byte first.

use vstd::prelude::*;

verus! {

/// The number that the two bytes at `at` denote.
pub open spec fn be16(b: Seq<u8>, at: int) -> int {
    b[at] as int * 256 + b[at + 1] as int
}

/// The number that the four bytes at `at` denote.
pub open spec fn be32(b: Seq<u8>, at: int) -> int {
    be16(b, at) * 65536 + be16(b, at + 2)
}

/// The number that the eight bytes at `at` denote.
pub open spec fn be64(b: Seq<u8>, at: int) -> int {
    be32(b, at) * 4294967296 + be32(b, at + 4)
}

/// The two bytes of a number below 2^16.
pub open spec fn bytes16(x: int) -> Seq<u8> {
    seq![(x / 256) as u8, (x % 256) as u8]
}

/// The four bytes of a number below 2^32.
pub open spec fn bytes32(x: int) -> Seq<u8> {
    bytes16(x / 65536) + bytes16(x % 65536)
}

/// The eight bytes of a number below 2^64.
pub open spec fn bytes64(x: int) -> Seq<u8> {
    bytes32(x / 4294967296) + bytes32(x % 4294967296)
}

/// Two bytes that were written for a number below 2^16 denote that number.
pub proof fn lemma_read16(b: Seq<u8>, at: int, x: int)
    requires
        0 <= x < 65536,
        0 <= at,
        at + 2 <= b.len(),
        b.subrange(at, at + 2) == bytes16(x),
    ensures
        be16(b, at) == x,
{
    let part = b.subrange(at, at + 2);
    assert(part[0] == b[at]);
    assert(part[1] == b[at + 1]);
    assert(bytes16(x)[0] == (x / 256) as u8);
    assert(bytes16(x)[1] == (x % 256) as u8);
}

/// Four bytes that were written for a number below 2^32 denote that number.
pub proof fn lemma_read32(b: Seq<u8>, at: int, x: int)
    requires
        0 <= x < 4294967296,
        0 <= at,
        at + 4 <= b.len(),
        b.subrange(at, at + 4) == bytes32(x),
    ensures
        be32(b, at) == x,
{
    let part = b.subrange(at, at + 4);
    assert(b.subrange(at, at + 2) =~= part.subrange(0, 2));
    assert(b.subrange(at + 2, at + 4) =~= part.subrange(2, 4));
    assert(bytes32(x).subrange(0, 2) =~= bytes16(x / 65536));
    assert(bytes32(x).subrange(2, 4) =~= bytes16(x % 65536));
    lemma_read16(b, at, x / 65536);
    lemma_read16(b, at + 2, x % 65536);
}

/// Eight bytes that were written for a number below 2^64 denote that
/// number.
pub proof fn lemma_read64(b: Seq<u8>, at: int, x: int)
    requires
        0 <= x < 18446744073709551616,
        0 <= at,
        at + 8 <= b.len(),
        b.subrange(at, at + 8) == bytes64(x),
    ensures
        be64(b, at) == x,
{
    let part = b.subrange(at, at + 8);
    assert(b.subrange(at, at + 4) =~= part.subrange(0, 4));
    assert(b.subrange(at + 4, at + 8) =~= part.subrange(4, 8));
    assert(bytes64(x).subrange(0, 4) =~= bytes32(x / 4294967296));
    assert(bytes64(x).subrange(4, 8) =~= bytes32(x % 4294967296));
    lemma_read32(b, at, x / 4294967296);
    lemma_read32(b, at + 4, x % 4294967296);
}

/// Where bytes without a zero stand before a zero byte, the search for a
/// zero byte from their beginning ends at that byte.
pub proof fn lemma_zero_after(b: Seq<u8>, from: int, to: int)
    requires
        0 <= from <= to < b.len(),
        forall|k: int| from <= k < to ==> b[k] != 0,
        b[to] == 0,
    ensures
        zero_from(b, from) == to,
    decreases to - from,
{
    if from < to {
        lemma_zero_after(b, from + 1, to);
    }
}

/// Reads two bytes as a number.
pub fn read_u16(b: &Vec<u8>, at: usize) -> (r: u16)
    requires
        at + 2 <= b.len(),
    ensures
        r as int == be16(b@, at as int),
{
    let high: u16 = b[at] as u16;
    let low: u16 = b[at + 1] as u16;
    high * 256 + low
}

/// Reads four bytes as a number.
pub fn read_u32(b: &Vec<u8>, at: usize) -> (r: u32)
    requires
        at + 4 <= b.len(),
    ensures
        r as int == be32(b@, at as int),
{
    let high: u32 = read_u16(b, at) as u32;
    let low: u32 = read_u16(b, at + 2) as u32;
    high * 65536 + low
}

/// Reads eight bytes as a number.
pub fn read_u64(b: &Vec<u8>, at: usize) -> (r: u64)
    requires
        at + 8 <= b.len(),
    ensures
        r as int == be64(b@, at as int),
{
    let high: u64 = read_u32(b, at) as u64;
    let low: u64 = read_u32(b, at + 4) as u64;
    high * 4294967296 + low
}

/// Appends the two bytes of a number.
pub fn push_u16(out: &mut Vec<u8>, x: u16)
    ensures
        final(out)@ == old(out)@ + bytes16(x as int),
{
    out.push((x / 256) as u8);
    out.push((x % 256) as u8);
    assert(out@ =~= old(out)@ + bytes16(x as int));
}

/// Appends the four bytes of a number.
pub fn push_u32(out: &mut Vec<u8>, x: u32)
    ensures
        final(out)@ == old(out)@ + bytes32(x as int),
{
    push_u16(out, (x / 65536) as u16);
    push_u16(out, (x % 65536) as u16);
    assert(out@ =~= old(out)@ + bytes32(x as int));
}

/// Appends the eight bytes of a number.
pub fn push_u64(out: &mut Vec<u8>, x: u64)
    ensures
        final(out)@ == old(out)@ + bytes64(x as int),
{
    push_u32(out, (x / 4294967296) as u32);
    push_u32(out, (x % 4294967296) as u32);
    assert(out@ =~= old(out)@ + bytes64(x as int));
}

/// Appends bytes to bytes.
pub fn append_bytes(out: &mut Vec<u8>, src: &Vec<u8>)
    ensures
        final(out)@ == old(out)@ + src@,
{
    let mut i: usize = 0;
    while i < src.len()
        invariant
            i <= src.len(),
            out@ == old(out)@ + src@.subrange(0, i as int),
        decreases src.len() - i,
    {
        out.push(src[i]);
        assert(src@.subrange(0, i as int).push(src@[i as int]) == src@.subrange(0, i + 1));
        i += 1;
    }
    assert(src@.subrange(0, src.len() as int) == src@);
}

/// Copies the bytes between `lo` and `hi`.
pub fn slice_bytes(s: &Vec<u8>, lo: usize, hi: usize) -> (r: Vec<u8>)
    requires
        lo <= hi <= s.len(),
    ensures
        r@ == s@.subrange(lo as int, hi as int),
{
    let mut r: Vec<u8> = Vec::new();
    let mut i: usize = lo;
    while i < hi
        invariant
            lo <= i <= hi <= s.len(),
            r@ == s@.subrange(lo as int, i as int),
        decreases hi - i,
    {
        r.push(s[i]);
        assert(s@.subrange(lo as int, i as int).push(s@[i as int]) == s@.subrange(
            lo as int,
            i + 1,
        ));
        i += 1;
    }
    r
}

/// The first position at or after `from` where a zero byte stands, or the
/// length of `b` where none does.
pub open spec fn zero_from(b: Seq<u8>, from: int) -> int
    decreases b.len() - from,
{
    if from >= b.len() {
        b.len() as int
    } else if b[from] == 0 {
        from
    } else {
        zero_from(b, from + 1)
    }
}

/// Searches for a zero byte from `from` on.
pub fn find_zero(b: &Vec<u8>, from: usize) -> (r: usize)
    requires
        from <= b.len(),
    ensures
        r as int == zero_from(b@, from as int),
        from <= r <= b.len(),
{
    let mut i: usize = from;
    while i < b.len()
        invariant
            from <= i <= b.len(),
            zero_from(b@, from as int) == zero_from(b@, i as int),
        decreases b.len() - i,
    {
        if b[i] == 0 {
            return i;
        }
        i += 1;
    }
    i
}

} // verus!
