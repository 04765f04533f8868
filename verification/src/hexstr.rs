//! Lowercase hex encoding and decoding for digests at the API boundary.
//!
//! Proof siblings travel as hex strings; verification decodes them and must
//! reject any malformed sibling. Both directions are specified exactly, and
//! decoding accepts upper- and lowercase digits while encoding always emits
//! lowercase.

use vstd::prelude::*;

verus! {

use vstd::string::StringSliceAdditionalSpecFns;

/// True for the ASCII code of a hex digit (`0-9`, `a-f`, `A-F`).
pub open spec fn is_hex_digit(b: u8) -> bool {
    (48 <= b && b <= 57) || (97 <= b && b <= 102) || (65 <= b && b <= 70)
}

/// The numeric value of a hex digit's ASCII code.
pub open spec fn hex_digit_val(b: u8) -> u8
    recommends
        is_hex_digit(b),
{
    if 48 <= b && b <= 57 {
        (b - 48) as u8
    } else if 97 <= b && b <= 102 {
        (b - 97 + 10) as u8
    } else {
        (b - 65 + 10) as u8
    }
}

/// The lowercase ASCII code for a nibble.
pub open spec fn hex_char_of(nib: u8) -> u8
    recommends
        nib < 16,
{
    if nib < 10 {
        (48 + nib) as u8
    } else {
        (97 + nib - 10) as u8
    }
}

/// The ASCII bytes of the lowercase hex encoding of `data`.
pub open spec fn hex_encode_bytes(data: Seq<u8>) -> Seq<u8> {
    Seq::new(
        2 * data.len(),
        |i: int| if i % 2 == 0 { hex_char_of(data[i / 2] / 16) } else { hex_char_of(data[i / 2] % 16) },
    )
}

/// The characters of the lowercase hex encoding of `data`.
pub open spec fn hex_chars_of(data: Seq<u8>) -> Seq<char> {
    Seq::new(2 * data.len(), |i: int| hex_encode_bytes(data)[i] as char)
}

/// True when `s` (as ASCII bytes) is a well-formed hex string: even length,
/// hex digits throughout.
pub open spec fn hex_valid(s: Seq<u8>) -> bool {
    s.len() % 2 == 0 && (forall|i: int| 0 <= i < s.len() ==> is_hex_digit(#[trigger] s[i]))
}

/// The bytes denoted by a well-formed hex string `s` (as ASCII bytes).
pub open spec fn hex_decode_bytes(s: Seq<u8>) -> Seq<u8>
    recommends
        hex_valid(s),
{
    Seq::new(s.len() / 2, |i: int| (hex_digit_val(s[2 * i]) * 16 + hex_digit_val(s[2 * i + 1])) as u8)
}

/// Relies on `String::from_utf8`: a vector of ASCII bytes becomes the string
/// whose characters are exactly those bytes.
#[verifier::external_body]
fn ascii_to_string(bytes: Vec<u8>) -> (r: String)
    requires
        forall|i: int| 0 <= i < bytes@.len() ==> bytes@[i] < 128,
    ensures
        r@.len() == bytes@.len(),
        forall|i: int| 0 <= i < bytes@.len() ==> r@[i] == bytes@[i] as char,
{
    String::from_utf8(bytes).unwrap_or_default()
}

/// Encodes `data` as a lowercase hex string of twice its length.
pub fn encode_hex(data: &[u8]) -> (r: String)
    ensures
        r@ == hex_chars_of(data@),
        r@.len() == 2 * data@.len(),
{
    let mut buf: Vec<u8> = Vec::new();
    let mut i: usize = 0;
    while i < data.len()
        invariant
            i <= data@.len(),
            buf@ =~= hex_encode_bytes(data@.subrange(0, i as int)),
        decreases data@.len() - i,
    {
        let b = data[i];
        let hi = b / 16;
        let lo = b % 16;
        buf.push(if hi < 10 { 48 + hi } else { 97 + hi - 10 });
        buf.push(if lo < 10 { 48 + lo } else { 97 + lo - 10 });
        i = i + 1;
        proof {
            let pre = data@.subrange(0, i as int);
            assert forall|j: int| 0 <= j < 2 * i implies buf@[j] == hex_encode_bytes(pre)[j] by {
                assert(pre[j / 2] == data@[j / 2]);
            }
            assert(buf@ =~= hex_encode_bytes(pre));
        }
    }
    proof {
        assert(data@.subrange(0, data@.len() as int) =~= data@);
        assert forall|j: int| 0 <= j < buf@.len() implies buf@[j] < 128 by {
            assert(buf@[j] == hex_encode_bytes(data@)[j]);
        }
    }
    let r = ascii_to_string(buf);
    proof {
        assert(r@ =~= hex_chars_of(data@));
    }
    r
}

/// The value of one hex digit's ASCII code, or `None` when it is no digit.
fn hex_val(b: u8) -> (r: Option<u8>)
    ensures
        is_hex_digit(b) ==> r == Some(hex_digit_val(b)),
        !is_hex_digit(b) ==> r is None,
        r matches Some(v) ==> v < 16,
{
    if 48 <= b && b <= 57 {
        Some(b - 48)
    } else if 97 <= b && b <= 102 {
        Some(b - 97 + 10)
    } else if 65 <= b && b <= 70 {
        Some(b - 65 + 10)
    } else {
        None
    }
}

/// Decodes a hex string, or returns `None` when it is malformed (odd length
/// or any non-digit character).
pub fn decode_hex(s: &str) -> (r: Option<Vec<u8>>)
    ensures
        hex_valid(s.spec_bytes()) ==> (r matches Some(v) && v@ == hex_decode_bytes(s.spec_bytes())),
        !hex_valid(s.spec_bytes()) ==> r is None,
{
    let bytes = s.as_bytes();
    let n = bytes.len();
    if n % 2 != 0 {
        return None;
    }
    let mut out: Vec<u8> = Vec::new();
    let mut i: usize = 0;
    while i < n / 2
        invariant
            bytes@ == s.spec_bytes(),
            n == bytes@.len(),
            n % 2 == 0,
            i <= n / 2,
            forall|j: int| 0 <= j < 2 * i ==> is_hex_digit(#[trigger] bytes@[j]),
            out@.len() == i,
            forall|k: int| 0 <= k < i ==> #[trigger] out@[k] == (hex_digit_val(bytes@[2 * k]) * 16
                + hex_digit_val(bytes@[2 * k + 1])) as u8,
        decreases n / 2 - i,
    {
        let hi = match hex_val(bytes[2 * i]) {
            Some(v) => v,
            None => {
                return None;
            },
        };
        let lo = match hex_val(bytes[2 * i + 1]) {
            Some(v) => v,
            None => {
                return None;
            },
        };
        out.push(hi * 16 + lo);
        i = i + 1;
    }
    proof {
        assert(out@ =~= hex_decode_bytes(s.spec_bytes()));
    }
    Some(out)
}

/// Encoding yields a well-formed hex string that decodes to the original
/// bytes.
pub proof fn lemma_hex_round_trip(data: Seq<u8>)
    ensures
        vstd::utf8::is_ascii_chars(hex_chars_of(data)),
        vstd::utf8::encode_utf8(hex_chars_of(data)) == hex_encode_bytes(data),
        hex_valid(hex_encode_bytes(data)),
        hex_decode_bytes(hex_encode_bytes(data)) == data,
{
    let chars = hex_chars_of(data);
    let enc = hex_encode_bytes(data);
    assert forall|i: int| 0 <= i < enc.len() implies is_hex_digit(#[trigger] enc[i]) && enc[i]
        < 128 by {
        let b = data[i / 2];
        assert(b / 16 < 16 && b % 16 < 16);
    }
    assert(vstd::utf8::is_ascii_chars(chars)) by {
        assert forall|i: int| 0 <= i < chars.len() implies '\0' <= #[trigger] chars[i]
            <= '\u{7f}' by {
            assert(enc[i] < 128);
        }
    }
    vstd::utf8::is_ascii_chars_encode_utf8(chars);
    assert(vstd::utf8::encode_utf8(chars) =~= enc);
    assert(hex_decode_bytes(enc) =~= data) by {
        assert forall|k: int| 0 <= k < data.len() implies #[trigger] hex_decode_bytes(enc)[k]
            == data[k] by {
            let b = data[k];
            assert(enc[2 * k] == hex_char_of(b / 16));
            assert(enc[2 * k + 1] == hex_char_of(b % 16));
            assert(hex_digit_val(hex_char_of(b / 16)) == b / 16);
            assert(hex_digit_val(hex_char_of(b % 16)) == b % 16);
            assert(b / 16 * 16 + b % 16 == b) by (nonlinear_arith);
        }
    }
}

} // verus!
