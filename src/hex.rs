//! Upper-case hexadecimal text of bytes.
use vstd::prelude::*;
use crate::wire::string_from_utf8;

verus! {

/// The `i`-th four-bit digit of `b`, most significant first within each byte.
pub open spec fn nibble(b: Seq<u8>, i: int) -> u8 {
    if i % 2 == 0 {
        b[i / 2] / 16
    } else {
        b[i / 2] % 16
    }
}

/// The ASCII code of an upper-case hexadecimal digit.
pub open spec fn hex_code(d: u8) -> u8 {
    if d < 10 {
        (d + 48) as u8
    } else {
        (d + 55) as u8
    }
}

/// Two upper-case hexadecimal digits for each byte.
pub open spec fn hex_upper(b: Seq<u8>) -> Seq<char> {
    Seq::new(2 * b.len(), |i: int| hex_code(nibble(b, i)) as char)
}

/// Writes `v` as upper-case hexadecimal, two digits per byte.
pub fn to_hex_string(v: &[u8]) -> (r: String)
    requires
        v@.len() <= usize::MAX / 2,
    ensures
        r@ == hex_upper(v@),
{
    let mut codes: Vec<u8> = Vec::new();
    let mut i: usize = 0;
    while i < v.len()
        invariant
            i <= v@.len(),
            v@.len() <= usize::MAX / 2,
            codes@ =~= Seq::new(2 * i as nat, |k: int| hex_code(nibble(v@, k))),
        decreases v@.len() - i,
    {
        let b = v[i];
        let hi = b / 16;
        let lo = b % 16;
        codes.push(if hi < 10 { hi + 48 } else { hi + 55 });
        codes.push(if lo < 10 { lo + 48 } else { lo + 55 });
        proof {
            assert(nibble(v@, 2 * i as int) == hi);
            assert(nibble(v@, 2 * i + 1) == lo);
        }
        i = i + 1;
    }
    let ghost chars = hex_upper(v@);
    proof {
        assert(vstd::utf8::is_ascii_chars(chars));
        vstd::utf8::is_ascii_chars_encode_utf8(chars);
        assert(codes@ =~= vstd::utf8::encode_utf8(chars));
        vstd::utf8::encode_utf8_valid_utf8(chars);
        vstd::utf8::encode_utf8_decode_utf8(chars);
    }
    match string_from_utf8(codes) {
        Some(s) => s,
        None => String::new(),
    }
}

} // verus!
