//! Turning bytes into text: UTF-8 (strict and lossy), GB18030, and
//! conversions between strings and their characters.

use vstd::prelude::*;
use vstd::utf8::{
    decode_utf8, valid_utf8, encode_utf8, encode_scalar, has_width_1_encoding, has_width_2_encoding,
    has_width_3_encoding, has_width_4_encoding, char_is_scalar, is_ascii_chars,
    is_ascii_chars_encode_utf8, encode_utf8_valid_utf8, encode_utf8_decode_utf8,
};
use vstd::string::StringSliceAdditionalSpecFns;
use encoding::Encoding;

verus! {

/// The text that `String::from_utf8_lossy` makes of `b`.
pub uninterp spec fn lossy_utf8(b: Seq<u8>) -> Seq<char>;

/// The text that a strict GB18030 decoder makes of `b`, if `b` is valid GB18030.
pub uninterp spec fn gb18030_decode(b: Seq<u8>) -> Option<Seq<char>>;

/// Wraps `std::str::from_utf8`: `Some` exactly when `b` is valid UTF-8, holding
/// the decoded text.
#[verifier::external_body]
pub(crate) fn utf8_str(b: &[u8]) -> (r: Option<&str>)
    ensures
        r.is_some() == valid_utf8(b@),
        r matches Some(s) ==> s@ == decode_utf8(b@),
{
    std::str::from_utf8(b).ok()
}

/// Wraps `simdutf8::basic::from_utf8`, which accepts exactly the valid UTF-8
/// byte sequences (as `std::str::from_utf8` does).
#[verifier::external_body]
pub(crate) fn simd_utf8_valid(b: &[u8]) -> (r: bool)
    ensures
        r == valid_utf8(b@),
{
    simdutf8::basic::from_utf8(b).is_ok()
}

/// Wraps `String::from_utf8_lossy`: invalid sequences become U+FFFD; valid
/// UTF-8 is decoded unchanged.
#[verifier::external_body]
pub(crate) fn lossy_string(b: &[u8]) -> (r: String)
    ensures
        r@ == lossy_utf8(b@),
        valid_utf8(b@) ==> r@ == decode_utf8(b@),
{
    String::from_utf8_lossy(b).into_owned()
}

/// Wraps `encoding::all::GB18030.decode(b, DecoderTrap::Strict)`: `Some` with the
/// decoded text when `b` is valid GB18030, `None` otherwise.
#[verifier::external_body]
pub(crate) fn gb18030_strict(b: &[u8]) -> (r: Option<String>)
    ensures
        r.is_some() == gb18030_decode(b@).is_some(),
        r matches Some(s) ==> gb18030_decode(b@) == Some(s@),
{
    encoding::all::GB18030.decode(b, encoding::DecoderTrap::Strict).ok()
}

/// Wraps `str::chars` collected into a vector: the characters of `s`.
#[verifier::external_body]
pub(crate) fn str_chars(s: &str) -> (r: Vec<char>)
    ensures
        r@ == s@,
{
    s.chars().collect()
}

/// Wraps `String::from_iter` over characters: the string made of `c`.
#[verifier::external_body]
pub(crate) fn string_from_chars(c: &[char]) -> (r: String)
    ensures
        r@ == c@,
{
    c.iter().collect()
}

/// Characters `c[a..b]` as a string.
pub fn chars_to_string(c: &[char], a: usize, b: usize) -> (r: String)
    requires
        a <= b <= c@.len(),
    ensures
        r@ == c@.subrange(a as int, b as int),
{
    string_from_chars(&c[a..b])
}

/// The characters whose codes are the bytes of `b` (meant for ASCII bytes).
pub open spec fn ascii_chars(b: Seq<u8>) -> Seq<char> {
    Seq::new(b.len(), |i: int| b[i] as char)
}

/// ASCII bytes are valid UTF-8 and decode to the characters with their codes.
pub proof fn lemma_ascii_utf8(b: Seq<u8>)
    requires
        forall|i: int| 0 <= i < b.len() ==> b[i] < 128,
    ensures
        valid_utf8(b),
        decode_utf8(b) == ascii_chars(b),
{
    let c = ascii_chars(b);
    assert forall|i: int| 0 <= i < c.len() implies '\0' <= #[trigger] c[i] <= '\u{7f}' by {
        assert(b[i] < 128);
    }
    assert(is_ascii_chars(c));
    is_ascii_chars_encode_utf8(c);
    assert forall|i: int| 0 <= i < b.len() implies encode_utf8(c)[i] == b[i] by {
        assert(c[i] as u8 == encode_utf8(c)[i]);
        assert(b[i] < 128);
        assert((b[i] as char) as u8 == b[i]);
    }
    assert(encode_utf8(c) =~= b);
    encode_utf8_valid_utf8(c);
    encode_utf8_decode_utf8(c);
}

/// ASCII bytes as a string.
pub fn ascii_to_string(b: &[u8]) -> (r: String)
    requires
        forall|i: int| 0 <= i < b@.len() ==> b@[i] < 128,
    ensures
        r@ == ascii_chars(b@),
{
    proof {
        lemma_ascii_utf8(b@);
    }
    lossy_string(b)
}

proof fn lemma_leading_byte_high(s: u32)
    by (bit_vector)
    requires
        0x80 <= s <= 0x10FFFF,
    ensures
        (0xC0u8 | ((s >> 6) & 0x1F) as u8) >= 0x80,
        (0xE0u8 | ((s >> 12) & 0x0F) as u8) >= 0x80,
        (0xF0u8 | ((s >> 18) & 0x7) as u8) >= 0x80,
{
}

proof fn lemma_low_byte(s: u32)
    by (bit_vector)
    requires
        s <= 0x7F,
    ensures
        ((s & 0x7F) as u8) as u32 == s,
{
}

/// Where the UTF-8 encoding of `c` begins with `k` ASCII bytes, `c` begins with
/// the `k` characters of those bytes.
pub proof fn lemma_ascii_prefix(c: Seq<char>, k: int)
    requires
        0 <= k <= encode_utf8(c).len(),
        forall|i: int| 0 <= i < k ==> encode_utf8(c)[i] < 128,
    ensures
        k <= c.len(),
        forall|i: int| 0 <= i < k ==> c[i] as u32 == encode_utf8(c)[i] as u32,
    decreases k,
{
    if k > 0 {
        let b = encode_utf8(c);
        assert(c.len() > 0);
        let s = c[0] as u32;
        char_is_scalar(c[0]);
        let e = encode_scalar(s);
        assert(b =~= e + encode_utf8(c.drop_first()));
        if !has_width_1_encoding(s) {
            lemma_leading_byte_high(s);
            assert(e[0] >= 0x80);
            assert(b[0] == e[0]);
            assert(false);
        }
        lemma_low_byte(s);
        assert(e.len() == 1);
        let rest = encode_utf8(c.drop_first());
        assert(rest =~= b.drop_first());
        lemma_ascii_prefix(c.drop_first(), k - 1);
        assert forall|i: int| 0 <= i < k implies c[i] as u32 == b[i] as u32 by {
            if i > 0 {
                assert(c[i] == c.drop_first()[i - 1]);
                assert(b[i] == rest[i - 1]);
            }
        }
    }
}

/// Whether two strings are equal.
pub fn str_eq(a: &str, b: &str) -> (r: bool)
    ensures
        r == (a@ == b@),
{
    let r = crate::scan::bytes_eq(a.as_bytes(), b.as_bytes());
    proof {
        encode_utf8_decode_utf8(a@);
        encode_utf8_decode_utf8(b@);
        if r {
            assert(a.spec_bytes() =~= b.spec_bytes());
        }
    }
    r
}

} // verus!
