use vstd::prelude::*;

verus! {

/// A UTF-8 continuation byte.
pub open spec fn is_cont(b: u8) -> bool {
    0x80 <= b <= 0xBF
}

/// The remainder of `s` from position `i` is a sequence of well-formed
/// UTF-8 encoded scalar values: one-byte ASCII, or a two-, three- or
/// four-byte sequence with the lead-dependent ranges that exclude overlong
/// forms, surrogates, and values beyond the last scalar value.
pub open spec fn is_utf8_from(s: Seq<u8>, i: int) -> bool
    decreases s.len() - i,
{
    if i >= s.len() {
        true
    } else {
        let b0 = s[i];
        if b0 < 0x80 {
            is_utf8_from(s, i + 1)
        } else if 0xC2 <= b0 && b0 <= 0xDF {
            i + 2 <= s.len() && is_cont(s[i + 1]) && is_utf8_from(s, i + 2)
        } else if b0 == 0xE0 {
            i + 3 <= s.len() && 0xA0 <= s[i + 1] && s[i + 1] <= 0xBF && is_cont(s[i + 2])
                && is_utf8_from(s, i + 3)
        } else if (0xE1 <= b0 && b0 <= 0xEC) || b0 == 0xEE || b0 == 0xEF {
            i + 3 <= s.len() && is_cont(s[i + 1]) && is_cont(s[i + 2]) && is_utf8_from(s, i + 3)
        } else if b0 == 0xED {
            i + 3 <= s.len() && 0x80 <= s[i + 1] && s[i + 1] <= 0x9F && is_cont(s[i + 2])
                && is_utf8_from(s, i + 3)
        } else if b0 == 0xF0 {
            i + 4 <= s.len() && 0x90 <= s[i + 1] && s[i + 1] <= 0xBF && is_cont(s[i + 2])
                && is_cont(s[i + 3]) && is_utf8_from(s, i + 4)
        } else if 0xF1 <= b0 && b0 <= 0xF3 {
            i + 4 <= s.len() && is_cont(s[i + 1]) && is_cont(s[i + 2]) && is_cont(s[i + 3])
                && is_utf8_from(s, i + 4)
        } else if b0 == 0xF4 {
            i + 4 <= s.len() && 0x80 <= s[i + 1] && s[i + 1] <= 0x8F && is_cont(s[i + 2])
                && is_cont(s[i + 3]) && is_utf8_from(s, i + 4)
        } else {
            false
        }
    }
}

/// `s` is well-formed UTF-8 text.
pub open spec fn is_utf8(s: Seq<u8>) -> bool {
    is_utf8_from(s, 0)
}

/// Checks whether a byte sequence is well-formed UTF-8 text.
#[verifier::loop_isolation(false)]
pub fn check_utf8(s: &Vec<u8>) -> (r: bool)
    ensures
        r == is_utf8(s@),
{
    let mut i: usize = 0;
    while i < s.len()
        invariant
            i <= s@.len(),
            is_utf8(s@) == is_utf8_from(s@, i as int),
        decreases s@.len() - i,
    {
        let b0 = s[i];
        if b0 < 0x80 {
            i += 1;
        } else if 0xC2 <= b0 && b0 <= 0xDF {
            if s.len() - i < 2 || !(0x80 <= s[i + 1] && s[i + 1] <= 0xBF) {
                return false;
            }
            i += 2;
        } else if b0 == 0xE0 {
            if s.len() - i < 3 || !(0xA0 <= s[i + 1] && s[i + 1] <= 0xBF)
                || !(0x80 <= s[i + 2] && s[i + 2] <= 0xBF) {
                return false;
            }
            i += 3;
        } else if (0xE1 <= b0 && b0 <= 0xEC) || b0 == 0xEE || b0 == 0xEF {
            if s.len() - i < 3 || !(0x80 <= s[i + 1] && s[i + 1] <= 0xBF)
                || !(0x80 <= s[i + 2] && s[i + 2] <= 0xBF) {
                return false;
            }
            i += 3;
        } else if b0 == 0xED {
            if s.len() - i < 3 || !(0x80 <= s[i + 1] && s[i + 1] <= 0x9F)
                || !(0x80 <= s[i + 2] && s[i + 2] <= 0xBF) {
                return false;
            }
            i += 3;
        } else if b0 == 0xF0 {
            if s.len() - i < 4 || !(0x90 <= s[i + 1] && s[i + 1] <= 0xBF)
                || !(0x80 <= s[i + 2] && s[i + 2] <= 0xBF)
                || !(0x80 <= s[i + 3] && s[i + 3] <= 0xBF) {
                return false;
            }
            i += 4;
        } else if 0xF1 <= b0 && b0 <= 0xF3 {
            if s.len() - i < 4 || !(0x80 <= s[i + 1] && s[i + 1] <= 0xBF)
                || !(0x80 <= s[i + 2] && s[i + 2] <= 0xBF)
                || !(0x80 <= s[i + 3] && s[i + 3] <= 0xBF) {
                return false;
            }
            i += 4;
        } else if b0 == 0xF4 {
            if s.len() - i < 4 || !(0x80 <= s[i + 1] && s[i + 1] <= 0x8F)
                || !(0x80 <= s[i + 2] && s[i + 2] <= 0xBF)
                || !(0x80 <= s[i + 3] && s[i + 3] <= 0xBF) {
                return false;
            }
            i += 4;
        } else {
            return false;
        }
    }
    true
}

} // verus!
