//! Fixed-width, zero-padded names.
use crate::error::ElmaError;
use vstd::prelude::*;
use vstd::slice::{slice_subrange, slice_to_vec};
use vstd::utf8::{
    decode_utf8, encode_scalar, encode_utf8, encode_utf8_decode_utf8, encode_utf8_valid_utf8,
    char_u32_cast, valid_utf8,
};

verus! {

/// The bytes of `b` before its first zero byte (all of `b` if it has none).
pub open spec fn until_nul(b: Seq<u8>) -> Seq<u8>
    decreases b.len(),
{
    if b.len() == 0 {
        b
    } else if b[0] == 0 {
        Seq::empty()
    } else {
        seq![b[0]] + until_nul(b.drop_first())
    }
}

/// The name held by a zero-padded field, or `None` where the bytes before
/// the first zero are not valid UTF-8.
pub open spec fn trim_spec(b: Seq<u8>) -> Option<Seq<char>> {
    let p = until_nul(b);
    if valid_utf8(p) {
        Some(decode_utf8(p))
    } else {
        None
    }
}

/// The field of `pad` bytes that holds `s`: its UTF-8 bytes, then zeros;
/// an error where `s` takes more than `pad` bytes.
pub open spec fn pad_spec(s: Seq<char>, pad: nat) -> Result<Seq<u8>, ElmaError> {
    let b = encode_utf8(s);
    if b.len() > pad {
        Err(ElmaError::PaddingTooShort((b.len() - pad) as usize))
    } else {
        Ok(b + Seq::new((pad - b.len()) as nat, |i: int| 0u8))
    }
}

/// A name fits a field of `pad` bytes: its UTF-8 bytes are no more than
/// `pad`, and it holds no character zero, which would end it early.
pub open spec fn fits_field(s: Seq<char>, pad: nat) -> bool {
    &&& encode_utf8(s).len() <= pad
    &&& !s.contains('\0')
}

/// The UTF-8 bytes of a name without the character zero hold no zero byte.
pub proof fn lemma_no_zero_byte(s: Seq<char>)
    requires
        !s.contains('\0'),
    ensures
        !encode_utf8(s).contains(0u8),
    decreases s.len(),
{
    if s.len() > 0 {
        let rest = s.drop_first();
        assert(!rest.contains('\0')) by {
            if rest.contains('\0') {
                let k = choose|k: int| 0 <= k < rest.len() && rest[k] == '\0';
                assert(s[k + 1] == '\0');
            }
        }
        lemma_no_zero_byte(rest);
        let c = s[0];
        assert(s.contains(c));
        let v = c as u32;
        assert(v != 0) by {
            if v == 0 {
                char_u32_cast(c, v);
                char_u32_cast('\0', 0u32);
                assert(c == '\0');
            }
        }
        let e = encode_scalar(v);
        assert forall|j: int| 0 <= j < e.len() implies e[j] != 0u8 by {
            if 1 <= v <= 0x7F {
                assert((v & 0x7F) as u8 != 0u8) by (bit_vector)
                    requires
                        1 <= v <= 0x7F,
                ;
            } else {
                assert(0xC0u8 | ((v >> 6) & 0x1F) as u8 != 0u8) by (bit_vector);
                assert(0xE0u8 | ((v >> 12) & 0x0F) as u8 != 0u8) by (bit_vector);
                assert(0xF0u8 | ((v >> 18) & 0x7) as u8 != 0u8) by (bit_vector);
                assert(0x80u8 | (v & 0x3F) as u8 != 0u8) by (bit_vector);
                assert(0x80u8 | ((v >> 6) & 0x3F) as u8 != 0u8) by (bit_vector);
                assert(0x80u8 | ((v >> 12) & 0x3F) as u8 != 0u8) by (bit_vector);
            }
        }
        let all = encode_utf8(s);
        assert(all == e + encode_utf8(rest));
        assert forall|j: int| 0 <= j < all.len() implies all[j] != 0u8 by {
            if j >= e.len() {
                let r = encode_utf8(rest);
                assert(all[j] == r[j - e.len()]);
                assert(r.contains(r[j - e.len()]));
            }
        }
    }
}

/// The spec value of a byte-vector result.
pub open spec fn bytes_result(r: Result<Vec<u8>, ElmaError>) -> Result<Seq<u8>, ElmaError> {
    match r {
        Ok(v) => Ok(v@),
        Err(e) => Err(e),
    }
}

/// Where the first `k` bytes hold no zero and byte `k` is zero or the end,
/// the part before the first zero is those `k` bytes.
pub proof fn lemma_until_nul(b: Seq<u8>, k: int)
    requires
        0 <= k <= b.len(),
        forall|j: int| 0 <= j < k ==> b[j] != 0,
        k == b.len() || b[k] == 0,
    ensures
        until_nul(b) == b.take(k),
    decreases k,
{
    if k == 0 {
        assert(b.take(0) =~= Seq::<u8>::empty());
    } else {
        lemma_until_nul(b.drop_first(), k - 1);
        assert(b.take(k) =~= seq![b[0]] + b.drop_first().take(k - 1));
    }
}

/// `String::from_utf8` of std: a string exactly when the bytes are valid
/// UTF-8, holding the characters they encode.
#[verifier::external_body]
fn utf8_string(bytes: Vec<u8>) -> (r: Option<String>)
    ensures
        r is Some <==> valid_utf8(bytes@),
        r matches Some(s) ==> s@ == decode_utf8(bytes@),
{
    match String::from_utf8(bytes) {
        Ok(s) => Some(s),
        Err(_) => None,
    }
}

/// Reads the name in a zero-padded field: the bytes up to the first zero,
/// as UTF-8.
pub fn trim_string(data: &[u8]) -> (r: Result<String, ElmaError>)
    ensures
        match r {
            Ok(s) => trim_spec(data@) == Some(s@),
            Err(e) => trim_spec(data@) is None && e == ElmaError::InvalidUtf8,
        },
{
    let mut k: usize = 0;
    while k < data.len() && data[k] != 0
        invariant
            k <= data.len(),
            forall|j: int| 0 <= j < k ==> data@[j] != 0,
        decreases data.len() - k,
    {
        k += 1;
    }
    proof {
        lemma_until_nul(data@, k as int);
    }
    let bytes = slice_to_vec(slice_subrange(data, 0, k));
    match utf8_string(bytes) {
        Some(s) => Ok(s),
        None => Err(ElmaError::InvalidUtf8),
    }
}

/// Writes `name` into a field of `pad` bytes, padded with zeros.
pub fn string_null_pad(name: &str, pad: usize) -> (r: Result<Vec<u8>, ElmaError>)
    ensures
        bytes_result(r) == pad_spec(name@, pad as nat),
{
    let bytes = name.as_bytes();
    if bytes.len() > pad {
        return Err(ElmaError::PaddingTooShort(bytes.len() - pad));
    }
    let mut v = slice_to_vec(bytes);
    while v.len() < pad
        invariant
            bytes@.len() <= v@.len() <= pad,
            v@.subrange(0, bytes@.len() as int) == bytes@,
            forall|i: int| bytes@.len() <= i < v@.len() ==> v@[i] == 0u8,
        decreases pad - v.len(),
    {
        v.push(0u8);
    }
    assert(v@ =~= encode_utf8(name@) + Seq::new((pad - bytes@.len()) as nat, |i: int| 0u8));
    Ok(v)
}

/// A name that fits its field is read back unchanged from the padded field.
pub proof fn lemma_pad_then_trim(s: Seq<char>, pad: nat)
    requires
        fits_field(s, pad),
    ensures
        pad_spec(s, pad) matches Ok(b) && b.len() == pad && trim_spec(b) == Some(s),
{
    let b = encode_utf8(s);
    let f = b + Seq::new((pad - b.len()) as nat, |i: int| 0u8);
    lemma_no_zero_byte(s);
    assert forall|j: int| 0 <= j < b.len() implies f[j] != 0 by {
        assert(b.contains(b[j]) ==> b[j] != 0u8);
    }
    lemma_until_nul(f, b.len() as int);
    assert(f.take(b.len() as int) =~= b);
    encode_utf8_valid_utf8(s);
    encode_utf8_decode_utf8(s);
}

} // verus!
