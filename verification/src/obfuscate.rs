use vstd::prelude::*;
use vstd::assert_seqs_equal;

verus! {

/// The single-byte repeating XOR pass used to obscure header fields, names,
/// and compressed payload bytes: every byte is XORed with the salt,
/// independently, with no chaining.
pub open spec fn xor_seq(s: Seq<u8>, salt: u8) -> Seq<u8> {
    s.map(|i: int, b: u8| b ^ salt)
}

/// Obfuscation invertibility for a single byte: XORing twice with the same
/// salt restores the original byte, for every salt in the valid range.
pub proof fn lemma_xor_byte_involution(b: u8, salt: u8)
    requires
        1 <= salt <= 255,
    ensures
        (b ^ salt) ^ salt == b,
{
    assert((b ^ salt) ^ salt == b) by (bit_vector);
}

/// Obfuscation invertibility lifted to whole byte sequences: de-obfuscating
/// an obfuscated sequence yields the original, byte for byte.
pub proof fn lemma_xor_seq_involution(s: Seq<u8>, salt: u8)
    ensures
        xor_seq(xor_seq(s, salt), salt) == s,
{
    assert forall|i: int| 0 <= i < s.len() implies xor_seq(xor_seq(s, salt), salt)[i] == s[i] by {
        let b = s[i];
        assert((b ^ salt) ^ salt == b) by (bit_vector);
    }
    assert_seqs_equal!(xor_seq(xor_seq(s, salt), salt) == s);
}

/// Applies the XOR obfuscation pass to a byte vector, producing the
/// obfuscated (or, applied again, de-obfuscated) copy.
pub fn xor_bytes(data: &Vec<u8>, salt: u8) -> (r: Vec<u8>)
    ensures
        r@ == xor_seq(data@, salt),
{
    let mut out: Vec<u8> = Vec::new();
    let mut i: usize = 0;
    while i < data.len()
        invariant
            i <= data@.len(),
            out@ == xor_seq(data@, salt).take(i as int),
        decreases data@.len() - i,
    {
        out.push(data[i] ^ salt);
        assert(out@ =~= xor_seq(data@, salt).take(i + 1));
        i += 1;
    }
    assert(out@ =~= xor_seq(data@, salt));
    out
}

} // verus!
