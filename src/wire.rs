use vstd::prelude::*;

verus! {

/// The big-endian 16-bit number at `p`.
pub open spec fn be16(b: Seq<u8>, p: int) -> int {
    b[p] * 256 + b[p + 1]
}

/// The big-endian 32-bit number at `p`.
pub open spec fn be32(b: Seq<u8>, p: int) -> int {
    b[p] * 16777216 + b[p + 1] * 65536 + b[p + 2] * 256 + b[p + 3]
}

/// The big-endian 64-bit number at `p`.
pub open spec fn be64(b: Seq<u8>, p: int) -> int {
    be32(b, p) * 4294967296 + be32(b, p + 4)
}

/// The two big-endian bytes of `n`.
pub open spec fn be16_bytes(n: u16) -> Seq<u8> {
    seq![(n / 256) as u8, (n % 256) as u8]
}

/// The four big-endian bytes of `n`.
pub open spec fn be32_bytes(n: u32) -> Seq<u8> {
    seq![(n / 16777216) as u8, ((n / 65536) % 256) as u8, ((n / 256) % 256) as u8, (n % 256) as u8]
}

/// The eight big-endian bytes of `n`.
pub open spec fn be64_bytes(n: u64) -> Seq<u8> {
    be32_bytes((n / 4294967296) as u32) + be32_bytes((n % 4294967296) as u32)
}

pub(crate) fn push_u16(out: &mut Vec<u8>, n: u16)
    ensures
        final(out)@ == old(out)@ + be16_bytes(n),
{
    out.push((n / 256) as u8);
    out.push((n % 256) as u8);
    assert(out@ =~= old(out)@ + be16_bytes(n));
}

pub(crate) fn push_u32(out: &mut Vec<u8>, n: u32)
    ensures
        final(out)@ == old(out)@ + be32_bytes(n),
{
    out.push((n / 16777216) as u8);
    out.push(((n / 65536) % 256) as u8);
    out.push(((n / 256) % 256) as u8);
    out.push((n % 256) as u8);
    assert(out@ =~= old(out)@ + be32_bytes(n));
}

pub(crate) fn push_u64(out: &mut Vec<u8>, n: u64)
    ensures
        final(out)@ == old(out)@ + be64_bytes(n),
{
    push_u32(out, (n / 4294967296) as u32);
    push_u32(out, (n % 4294967296) as u32);
    assert(out@ =~= old(out)@ + be64_bytes(n));
}

pub(crate) fn push_bytes(out: &mut Vec<u8>, b: &[u8])
    ensures
        final(out)@ == old(out)@ + b@,
{
    crate::encoder::push_all(out, b);
}

pub(crate) fn read_u16_at(d: &[u8], p: usize) -> (r: u16)
    requires
        p + 2 <= d@.len(),
    ensures
        r as int == be16(d@, p as int),
{
    (d[p] as u16) * 256 + (d[p + 1] as u16)
}

pub(crate) fn read_u32_at(d: &[u8], p: usize) -> (r: u32)
    requires
        p + 4 <= d@.len(),
    ensures
        r as int == be32(d@, p as int),
{
    (d[p] as u32) * 16777216 + (d[p + 1] as u32) * 65536 + (d[p + 2] as u32) * 256 + (d[p + 3] as u32)
}

pub(crate) fn read_u64_at(d: &[u8], p: usize) -> (r: u64)
    requires
        p + 8 <= d@.len(),
    ensures
        r as int == be64(d@, p as int),
{
    let len = d.len();
    assert(p + 4 <= len);
    let hi = read_u32_at(d, p) as u64;
    let lo = read_u32_at(d, p + 4) as u64;
    assert(hi * 4294967296 + lo <= 0xffff_ffff_ffff_ffff) by (nonlinear_arith)
        requires
            hi <= 0xffff_ffff,
            lo <= 0xffff_ffff,
    ;
    hi * 4294967296 + lo
}

} // verus!
