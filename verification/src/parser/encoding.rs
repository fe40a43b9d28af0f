//! The character encoding of a log file, and decoding bytes by it.

use vstd::prelude::*;
use vstd::utf8::{valid_utf8, decode_utf8, encode_utf8};
use crate::text::{lossy_utf8, gb18030_decode, utf8_str, lossy_string, gb18030_strict, simd_utf8_valid};

verus! {

/// The character encoding of a log file.
#[derive(Copy, Clone, Debug, PartialEq, Eq, Structural, Default)]
pub enum FileEncodingHint {
    /// Detect it (the default).
    #[default]
    Auto,
    /// UTF-8.
    Utf8,
    /// GB18030.
    Gb18030,
}

/// The text of `b` under `hint`: lossy UTF-8 for `Utf8`; UTF-8, then strict
/// GB18030, then lossy UTF-8 for `Auto`; strict GB18030, then lossy UTF-8
/// for `Gb18030`.
pub open spec fn decode_text(hint: FileEncodingHint, b: Seq<u8>) -> Seq<char> {
    match hint {
        FileEncodingHint::Utf8 => lossy_utf8(b),
        FileEncodingHint::Auto => if valid_utf8(b) {
            decode_utf8(b)
        } else {
            match gb18030_decode(b) {
                Some(t) => t,
                None => lossy_utf8(b),
            }
        },
        FileEncodingHint::Gb18030 => match gb18030_decode(b) {
            Some(t) => t,
            None => lossy_utf8(b),
        },
    }
}

/// The UTF-8 bytes the meta fields are read from: `b` itself for `Utf8`, and
/// for `Auto` when `b` is valid UTF-8; otherwise the UTF-8 encoding of its
/// strict GB18030 decoding, or of its lossy UTF-8 decoding.
pub open spec fn meta_input(hint: FileEncodingHint, b: Seq<u8>) -> Seq<u8> {
    match hint {
        FileEncodingHint::Utf8 => b,
        _ => if hint == FileEncodingHint::Auto && valid_utf8(b) {
            b
        } else {
            match gb18030_decode(b) {
                Some(t) => encode_utf8(t),
                None => encode_utf8(lossy_utf8(b)),
            }
        },
    }
}

/// The text of a tag under `hint`, when it decodes: strict UTF-8 for `Utf8`;
/// strict UTF-8, then strict GB18030 for `Auto`; strict GB18030, then strict
/// UTF-8 for `Gb18030`.
pub open spec fn decode_tag(hint: FileEncodingHint, b: Seq<u8>) -> Option<Seq<char>> {
    let utf8 = if valid_utf8(b) { Some(decode_utf8(b)) } else { None };
    match hint {
        FileEncodingHint::Utf8 => utf8,
        FileEncodingHint::Auto => if utf8 is Some { utf8 } else { gb18030_decode(b) },
        FileEncodingHint::Gb18030 => if gb18030_decode(b) is Some { gb18030_decode(b) } else { utf8 },
    }
}

/// Each hint decodes what it names: bytes that decode strictly as GB18030
/// are read as that text under `Gb18030` (for SQL text, lazily parsed
/// content, meta fields and tags alike), and under `Auto` when they are not
/// UTF-8; valid UTF-8 is read as UTF-8 under `Utf8` and `Auto`.
pub proof fn lemma_hints_decode_what_they_name(b: Seq<u8>, t: Seq<char>)
    ensures
        gb18030_decode(b) == Some(t) ==> {
            &&& decode_text(FileEncodingHint::Gb18030, b) == t
            &&& decode_content(FileEncodingHint::Gb18030, b) == t
            &&& meta_input(FileEncodingHint::Gb18030, b) == encode_utf8(t)
            &&& decode_tag(FileEncodingHint::Gb18030, b) == Some(t)
        },
        !valid_utf8(b) && gb18030_decode(b) == Some(t) ==> {
            &&& decode_text(FileEncodingHint::Auto, b) == t
            &&& meta_input(FileEncodingHint::Auto, b) == encode_utf8(t)
            &&& decode_tag(FileEncodingHint::Auto, b) == Some(t)
        },
        valid_utf8(b) ==> {
            &&& decode_text(FileEncodingHint::Auto, b) == decode_utf8(b)
            &&& decode_content(FileEncodingHint::Auto, b) == decode_utf8(b)
            &&& meta_input(FileEncodingHint::Auto, b) == b
            &&& meta_input(FileEncodingHint::Utf8, b) == b
            &&& decode_tag(FileEncodingHint::Auto, b) == Some(decode_utf8(b))
            &&& decode_tag(FileEncodingHint::Utf8, b) == Some(decode_utf8(b))
        },
{
}

/// Decodes `b` by `hint` (see [`decode_text`]).
pub fn decode_with_hint(hint: FileEncodingHint, b: &[u8]) -> (r: String)
    ensures
        r@ == decode_text(hint, b@),
        hint != FileEncodingHint::Gb18030 && valid_utf8(b@) ==> r@ == decode_utf8(b@),
        hint == FileEncodingHint::Gb18030 && gb18030_decode(b@) is Some ==> gb18030_decode(b@) == Some(r@),
        hint == FileEncodingHint::Auto && !valid_utf8(b@) && gb18030_decode(b@) is Some ==> gb18030_decode(b@)
            == Some(r@),
{
    match hint {
        FileEncodingHint::Utf8 => lossy_string(b),
        FileEncodingHint::Auto => match utf8_str(b) {
            Some(s) => s.to_owned(),
            None => match gb18030_strict(b) {
                Some(t) => t,
                None => lossy_string(b),
            },
        },
        FileEncodingHint::Gb18030 => match gb18030_strict(b) {
            Some(t) => t,
            None => lossy_string(b),
        },
    }
}

/// Decodes a tag by `hint` (see [`decode_tag`]).
pub fn decode_tag_with_hint(hint: FileEncodingHint, b: &[u8]) -> (r: Option<String>)
    ensures
        match decode_tag(hint, b@) {
            Some(t) => r matches Some(s) && s@ == t,
            None => r is None,
        },
{
    match hint {
        FileEncodingHint::Utf8 => match utf8_str(b) {
            Some(s) => Some(s.to_owned()),
            None => None,
        },
        FileEncodingHint::Auto => match utf8_str(b) {
            Some(s) => Some(s.to_owned()),
            None => gb18030_strict(b),
        },
        FileEncodingHint::Gb18030 => match gb18030_strict(b) {
            Some(t) => Some(t),
            None => match utf8_str(b) {
                Some(s) => Some(s.to_owned()),
                None => None,
            },
        },
    }
}

/// Decodes the content of a record by `hint` as the lazily parsed records
/// do: `Utf8` content is taken as UTF-8 (lossily where it is not); `Auto`
/// content is checked by SIMD UTF-8 validation, then decoded lossily when
/// invalid; `Gb18030` content is decoded strictly, then lossily as UTF-8.
pub open spec fn decode_content(hint: FileEncodingHint, b: Seq<u8>) -> Seq<char> {
    match hint {
        FileEncodingHint::Gb18030 => match gb18030_decode(b) {
            Some(t) => t,
            None => lossy_utf8(b),
        },
        FileEncodingHint::Auto => if valid_utf8(b) { decode_utf8(b) } else { lossy_utf8(b) },
        FileEncodingHint::Utf8 => lossy_utf8(b),
    }
}

/// Decodes the content of a record by `hint` (see [`decode_content`]).
pub fn decode_content_bytes(b: &[u8], hint: FileEncodingHint) -> (r: String)
    ensures
        r@ == decode_content(hint, b@),
        hint != FileEncodingHint::Gb18030 && valid_utf8(b@) ==> r@ == decode_utf8(b@),
        hint == FileEncodingHint::Gb18030 && gb18030_decode(b@) is Some ==> gb18030_decode(b@) == Some(r@),
{
    match hint {
        FileEncodingHint::Utf8 => lossy_string(b),
        FileEncodingHint::Auto => {
            if simd_utf8_valid(b) {
                match utf8_str(b) {
                    Some(s) => s.to_owned(),
                    None => lossy_string(b),
                }
            } else {
                lossy_string(b)
            }
        },
        FileEncodingHint::Gb18030 => match gb18030_strict(b) {
            Some(t) => t,
            None => lossy_string(b),
        },
    }
}

} // verus!
