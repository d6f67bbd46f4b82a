use vstd::prelude::*;

verus! {

/// Little-endian wire form of a `u16`, least significant byte first.
pub open spec fn u16_le(x: u16) -> Seq<u8> {
    seq![(x & 0xff) as u8, ((x >> 8) & 0xff) as u8]
}

/// Value read back from a 2-byte little-endian wire form.
pub open spec fn u16_of_le(s: Seq<u8>) -> u16 {
    ((s[0] as u16) | ((s[1] as u16) << 8)) as u16
}

/// Little-endian wire form of a `u32`, least significant byte first.
pub open spec fn u32_le(x: u32) -> Seq<u8> {
    seq![
        (x & 0xff) as u8,
        ((x >> 8) & 0xff) as u8,
        ((x >> 16) & 0xff) as u8,
        ((x >> 24) & 0xff) as u8,
    ]
}

/// Value read back from a 4-byte little-endian wire form.
pub open spec fn u32_of_le(s: Seq<u8>) -> u32 {
    ((s[0] as u32) | ((s[1] as u32) << 8) | ((s[2] as u32) << 16) | ((s[3] as u32) << 24)) as u32
}

/// Little-endian wire form of a `u64`, least significant byte first.
pub open spec fn u64_le(x: u64) -> Seq<u8> {
    seq![
        (x & 0xff) as u8,
        ((x >> 8) & 0xff) as u8,
        ((x >> 16) & 0xff) as u8,
        ((x >> 24) & 0xff) as u8,
        ((x >> 32) & 0xff) as u8,
        ((x >> 40) & 0xff) as u8,
        ((x >> 48) & 0xff) as u8,
        ((x >> 56) & 0xff) as u8,
    ]
}

/// Value read back from an 8-byte little-endian wire form.
pub open spec fn u64_of_le(s: Seq<u8>) -> u64 {
    ((s[0] as u64) | ((s[1] as u64) << 8) | ((s[2] as u64) << 16) | ((s[3] as u64) << 24)
        | ((s[4] as u64) << 32) | ((s[5] as u64) << 40) | ((s[6] as u64) << 48)
        | ((s[7] as u64) << 56)) as u64
}

/// Decoding a little-endian `u16` wire form restores the value.
pub proof fn lemma_u16_le_inverse(x: u16)
    ensures
        u16_of_le(u16_le(x)) == x,
{
    assert((((x & 0xff) as u8 as u16) | ((((x >> 8) & 0xff) as u8 as u16) << 8)) as u16 == x)
        by (bit_vector);
}

/// Decoding a little-endian `u32` wire form restores the value.
pub proof fn lemma_u32_le_inverse(x: u32)
    ensures
        u32_of_le(u32_le(x)) == x,
{
    assert((((x & 0xff) as u8 as u32) | ((((x >> 8) & 0xff) as u8 as u32) << 8)
        | ((((x >> 16) & 0xff) as u8 as u32) << 16) | ((((x >> 24) & 0xff) as u8 as u32) << 24))
        as u32 == x) by (bit_vector);
}

/// Decoding a little-endian `u64` wire form restores the value.
pub proof fn lemma_u64_le_inverse(x: u64)
    ensures
        u64_of_le(u64_le(x)) == x,
{
    assert((((x & 0xff) as u8 as u64) | ((((x >> 8) & 0xff) as u8 as u64) << 8)
        | ((((x >> 16) & 0xff) as u8 as u64) << 16) | ((((x >> 24) & 0xff) as u8 as u64) << 24)
        | ((((x >> 32) & 0xff) as u8 as u64) << 32) | ((((x >> 40) & 0xff) as u8 as u64) << 40)
        | ((((x >> 48) & 0xff) as u8 as u64) << 48) | ((((x >> 56) & 0xff) as u8 as u64) << 56))
        as u64 == x) by (bit_vector);
}

/// Appends the 2-byte little-endian form of `x` to `out`.
pub fn push_u16_le(out: &mut Vec<u8>, x: u16)
    ensures
        final(out)@ == old(out)@ + u16_le(x),
{
    out.push((x & 0xff) as u8);
    out.push(((x >> 8) & 0xff) as u8);
    assert(out@ =~= old(out)@ + u16_le(x));
}

/// Appends the 4-byte little-endian form of `x` to `out`.
pub fn push_u32_le(out: &mut Vec<u8>, x: u32)
    ensures
        final(out)@ == old(out)@ + u32_le(x),
{
    out.push((x & 0xff) as u8);
    out.push(((x >> 8) & 0xff) as u8);
    out.push(((x >> 16) & 0xff) as u8);
    out.push(((x >> 24) & 0xff) as u8);
    assert(out@ =~= old(out)@ + u32_le(x));
}

/// Appends the 8-byte little-endian form of `x` to `out`.
pub fn push_u64_le(out: &mut Vec<u8>, x: u64)
    ensures
        final(out)@ == old(out)@ + u64_le(x),
{
    out.push((x & 0xff) as u8);
    out.push(((x >> 8) & 0xff) as u8);
    out.push(((x >> 16) & 0xff) as u8);
    out.push(((x >> 24) & 0xff) as u8);
    out.push(((x >> 32) & 0xff) as u8);
    out.push(((x >> 40) & 0xff) as u8);
    out.push(((x >> 48) & 0xff) as u8);
    out.push(((x >> 56) & 0xff) as u8);
    assert(out@ =~= old(out)@ + u64_le(x));
}

/// Appends the 4-byte little-endian form of `x`, each byte XORed with
/// `salt`.
pub fn push_u32_le_xored(out: &mut Vec<u8>, x: u32, salt: u8)
    ensures
        final(out)@ == old(out)@ + crate::obfuscate::xor_seq(u32_le(x), salt),
{
    out.push(((x & 0xff) as u8) ^ salt);
    out.push((((x >> 8) & 0xff) as u8) ^ salt);
    out.push((((x >> 16) & 0xff) as u8) ^ salt);
    out.push((((x >> 24) & 0xff) as u8) ^ salt);
    assert(out@ =~= old(out)@ + crate::obfuscate::xor_seq(u32_le(x), salt));
}

/// Appends the 8-byte little-endian form of `x`, each byte XORed with
/// `salt`.
pub fn push_u64_le_xored(out: &mut Vec<u8>, x: u64, salt: u8)
    ensures
        final(out)@ == old(out)@ + crate::obfuscate::xor_seq(u64_le(x), salt),
{
    out.push(((x & 0xff) as u8) ^ salt);
    out.push((((x >> 8) & 0xff) as u8) ^ salt);
    out.push((((x >> 16) & 0xff) as u8) ^ salt);
    out.push((((x >> 24) & 0xff) as u8) ^ salt);
    out.push((((x >> 32) & 0xff) as u8) ^ salt);
    out.push((((x >> 40) & 0xff) as u8) ^ salt);
    out.push((((x >> 48) & 0xff) as u8) ^ salt);
    out.push((((x >> 56) & 0xff) as u8) ^ salt);
    assert(out@ =~= old(out)@ + crate::obfuscate::xor_seq(u64_le(x), salt));
}

/// Reads a little-endian `u16` from two bytes.
pub fn read_u16_le(b0: u8, b1: u8) -> (x: u16)
    ensures
        x == u16_of_le(seq![b0, b1]),
{
    (b0 as u16) | ((b1 as u16) << 8)
}

/// Reads an 8-byte little-endian `u64` starting at `off`.
pub fn read_u64_le(bytes: &[u8], off: usize) -> (x: u64)
    requires
        off + 8 <= bytes@.len(),
    ensures
        x == u64_of_le(bytes@.subrange(off as int, off as int + 8)),
{
    let b0 = bytes[off];
    let b1 = bytes[off + 1];
    let b2 = bytes[off + 2];
    let b3 = bytes[off + 3];
    let b4 = bytes[off + 4];
    let b5 = bytes[off + 5];
    let b6 = bytes[off + 6];
    let b7 = bytes[off + 7];
    let x = (b0 as u64) | ((b1 as u64) << 8) | ((b2 as u64) << 16) | ((b3 as u64) << 24)
        | ((b4 as u64) << 32) | ((b5 as u64) << 40) | ((b6 as u64) << 48) | ((b7 as u64) << 56);
    proof {
        let s = bytes@.subrange(off as int, off as int + 8);
        assert(s[0] == b0 && s[1] == b1 && s[2] == b2 && s[3] == b3 && s[4] == b4 && s[5] == b5
            && s[6] == b6 && s[7] == b7);
    }
    x
}

/// Reads, starting at `off`, an 8-byte little-endian `u64` whose bytes are
/// first de-obfuscated by XOR with `salt`.
pub fn read_u64_le_xored(bytes: &[u8], off: usize, salt: u8) -> (x: u64)
    requires
        off + 8 <= bytes@.len(),
    ensures
        x == u64_of_le(crate::obfuscate::xor_seq(bytes@.subrange(off as int, off as int + 8), salt)),
{
    let b0 = bytes[off] ^ salt;
    let b1 = bytes[off + 1] ^ salt;
    let b2 = bytes[off + 2] ^ salt;
    let b3 = bytes[off + 3] ^ salt;
    let b4 = bytes[off + 4] ^ salt;
    let b5 = bytes[off + 5] ^ salt;
    let b6 = bytes[off + 6] ^ salt;
    let b7 = bytes[off + 7] ^ salt;
    let x = (b0 as u64) | ((b1 as u64) << 8) | ((b2 as u64) << 16) | ((b3 as u64) << 24)
        | ((b4 as u64) << 32) | ((b5 as u64) << 40) | ((b6 as u64) << 48) | ((b7 as u64) << 56);
    proof {
        let s = crate::obfuscate::xor_seq(bytes@.subrange(off as int, off as int + 8), salt);
        assert(s[0] == b0 && s[1] == b1 && s[2] == b2 && s[3] == b3 && s[4] == b4 && s[5] == b5
            && s[6] == b6 && s[7] == b7);
    }
    x
}

/// Reads, starting at `off`, a 4-byte little-endian `u32` whose bytes are
/// first de-obfuscated by XOR with `salt`.
pub fn read_u32_le_xored(bytes: &[u8], off: usize, salt: u8) -> (x: u32)
    requires
        off + 4 <= bytes@.len(),
    ensures
        x == u32_of_le(crate::obfuscate::xor_seq(bytes@.subrange(off as int, off as int + 4), salt)),
{
    let b0 = bytes[off] ^ salt;
    let b1 = bytes[off + 1] ^ salt;
    let b2 = bytes[off + 2] ^ salt;
    let b3 = bytes[off + 3] ^ salt;
    let x = (b0 as u32) | ((b1 as u32) << 8) | ((b2 as u32) << 16) | ((b3 as u32) << 24);
    proof {
        let s = crate::obfuscate::xor_seq(bytes@.subrange(off as int, off as int + 4), salt);
        assert(s[0] == b0 && s[1] == b1 && s[2] == b2 && s[3] == b3);
    }
    x
}

} // verus!
