//! The fixed-width big-endian encoding of integers in hashed byte strings.

use vstd::prelude::*;

verus! {

/// The eight bytes of `value`, most significant first.
pub open spec fn u64_be_bytes(value: u64) -> Seq<u8> {
    seq![
        (value / 0x100_0000_0000_0000) as u8,
        (value / 0x1_0000_0000_0000 % 0x100) as u8,
        (value / 0x100_0000_0000 % 0x100) as u8,
        (value / 0x1_0000_0000 % 0x100) as u8,
        (value / 0x100_0000 % 0x100) as u8,
        (value / 0x1_0000 % 0x100) as u8,
        (value / 0x100 % 0x100) as u8,
        (value % 0x100) as u8,
    ]
}

/// The value whose first eight bytes, least significant first, are those of
/// `bytes`.
pub open spec fn u64_from_le_bytes(bytes: Seq<u8>) -> u64
    recommends
        bytes.len() >= 8,
{
    (bytes[0] as u64 + bytes[1] as u64 * 0x100 + bytes[2] as u64 * 0x1_0000 + bytes[3] as u64
        * 0x100_0000 + bytes[4] as u64 * 0x1_0000_0000 + bytes[5] as u64 * 0x100_0000_0000
        + bytes[6] as u64 * 0x1_0000_0000_0000 + bytes[7] as u64 * 0x100_0000_0000_0000) as u64
}

/// The eight bytes of `value`, least significant first.
pub open spec fn u64_le_bytes(value: u64) -> Seq<u8> {
    u64_be_bytes(value).reverse()
}

/// The value whose eight bytes, most significant first, are those of `bytes`.
pub open spec fn u64_from_be_bytes(bytes: Seq<u8>) -> int
    recommends
        bytes.len() >= 8,
{
    bytes[0] * 0x100_0000_0000_0000 + bytes[1] * 0x1_0000_0000_0000 + bytes[2] * 0x100_0000_0000
        + bytes[3] * 0x1_0000_0000 + bytes[4] * 0x100_0000 + bytes[5] * 0x1_0000 + bytes[6] * 0x100
        + bytes[7]
}

/// Reading the big-endian bytes of a value gives the value back.
pub proof fn lemma_u64_be_bytes_round_trip(value: u64)
    ensures
        u64_from_be_bytes(u64_be_bytes(value)) == value,
{
    assert(value == (value / 0x100_0000_0000_0000) * 0x100_0000_0000_0000 + (value
        / 0x1_0000_0000_0000 % 0x100) * 0x1_0000_0000_0000 + (value / 0x100_0000_0000 % 0x100)
        * 0x100_0000_0000 + (value / 0x1_0000_0000 % 0x100) * 0x1_0000_0000 + (value / 0x100_0000
        % 0x100) * 0x100_0000 + (value / 0x1_0000 % 0x100) * 0x1_0000 + (value / 0x100 % 0x100)
        * 0x100 + (value % 0x100)) by (bit_vector);
    assert(value / 0x100_0000_0000_0000 < 0x100) by (bit_vector);
}

/// Two values with the same big-endian bytes are the same value.
pub proof fn lemma_u64_be_bytes_injective(a: u64, b: u64)
    requires
        u64_be_bytes(a) == u64_be_bytes(b),
    ensures
        a == b,
{
    lemma_u64_be_bytes_round_trip(a);
    lemma_u64_be_bytes_round_trip(b);
}

/// Appends the big-endian bytes of `value` to `out`.
pub fn push_u64_be(out: &mut Vec<u8>, value: u64)
    ensures
        final(out)@ == old(out)@ + u64_be_bytes(value),
{
    out.push((value / 0x100_0000_0000_0000) as u8);
    out.push((value / 0x1_0000_0000_0000 % 0x100) as u8);
    out.push((value / 0x100_0000_0000 % 0x100) as u8);
    out.push((value / 0x1_0000_0000 % 0x100) as u8);
    out.push((value / 0x100_0000 % 0x100) as u8);
    out.push((value / 0x1_0000 % 0x100) as u8);
    out.push((value / 0x100 % 0x100) as u8);
    out.push((value % 0x100) as u8);
    assert(out@ =~= old(out)@ + u64_be_bytes(value));
}

/// Appends the little-endian bytes of `value` to `out`.
pub fn push_u64_le(out: &mut Vec<u8>, value: u64)
    ensures
        final(out)@ == old(out)@ + u64_le_bytes(value),
{
    out.push((value % 0x100) as u8);
    out.push((value / 0x100 % 0x100) as u8);
    out.push((value / 0x1_0000 % 0x100) as u8);
    out.push((value / 0x100_0000 % 0x100) as u8);
    out.push((value / 0x1_0000_0000 % 0x100) as u8);
    out.push((value / 0x100_0000_0000 % 0x100) as u8);
    out.push((value / 0x1_0000_0000_0000 % 0x100) as u8);
    out.push((value / 0x100_0000_0000_0000) as u8);
    assert(out@ =~= old(out)@ + u64_le_bytes(value));
}

/// Reads the first eight bytes of `bytes` as a little-endian integer.
pub fn read_u64_le(bytes: &[u8]) -> (value: u64)
    requires
        bytes@.len() >= 8,
    ensures
        value == u64_from_le_bytes(bytes@),
{
    let low: u64 = bytes[0] as u64 + bytes[1] as u64 * 0x100 + bytes[2] as u64 * 0x1_0000
        + bytes[3] as u64 * 0x100_0000;
    let high: u64 = bytes[4] as u64 + bytes[5] as u64 * 0x100 + bytes[6] as u64 * 0x1_0000
        + bytes[7] as u64 * 0x100_0000;
    low + high * 0x1_0000_0000
}

/// Appends `bytes` to `out`.
pub fn append_bytes(out: &mut Vec<u8>, bytes: &[u8])
    ensures
        final(out)@ == old(out)@ + bytes@,
{
    let mut at: usize = 0;
    while at < bytes.len()
        invariant
            at <= bytes@.len(),
            out@ == old(out)@ + bytes@.take(at as int),
        decreases bytes@.len() - at,
    {
        out.push(bytes[at]);
        at = at + 1;
        assert(out@ =~= old(out)@ + bytes@.take(at as int));
    }
    assert(bytes@.take(at as int) =~= bytes@);
}

} // verus!
