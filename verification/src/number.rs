//! Numbers written in decimal text: the integer syntax of `str::parse`,
//! the prefix syntax of the `atoi` crate, and the float literal grammar.

use vstd::prelude::*;
use crate::scan::{first_byte2, find_byte, find_byte2};

verus! {

broadcast use crate::scan::group_scan;

pub open spec fn is_digit(b: u8) -> bool {
    48 <= b <= 57
}

pub open spec fn all_digits(s: Seq<u8>) -> bool {
    forall|i: int| 0 <= i < s.len() ==> #[trigger] is_digit(s[i])
}

/// Value of a run of decimal digits.
pub open spec fn digits_value(s: Seq<u8>) -> nat
    decreases s.len(),
{
    if s.len() == 0 {
        0
    } else {
        digits_value(s.drop_last()) * 10 + (s.last() - 48) as nat
    }
}

/// Number of leading decimal digits of `s`.
pub open spec fn leading_digits(s: Seq<u8>) -> nat
    decreases s.len(),
{
    if s.len() > 0 && is_digit(s[0]) {
        1 + leading_digits(s.drop_first())
    } else {
        0
    }
}

/// `s` without a leading `+`.
pub open spec fn skip_plus(s: Seq<u8>) -> Seq<u8> {
    if s.len() > 0 && s[0] == 43u8 {
        s.drop_first()
    } else {
        s
    }
}

/// What `str::parse` gives for an unsigned integer type whose largest value is `max`:
/// an optional `+`, then one or more digits, the value at most `max`.
pub open spec fn std_unsigned(s: Seq<u8>, max: int) -> Option<int> {
    let d = skip_plus(s);
    if d.len() > 0 && all_digits(d) && digits_value(d) <= max {
        Some(digits_value(d) as int)
    } else {
        None
    }
}

/// What `str::parse` gives for a signed integer type with range `min..=max`:
/// an optional sign, then one or more digits, the value in range.
pub open spec fn std_signed(s: Seq<u8>, min: int, max: int) -> Option<int> {
    if s.len() > 0 && s[0] == 45u8 {
        let d = s.drop_first();
        if d.len() > 0 && all_digits(d) && -(digits_value(d) as int) >= min {
            Some(-(digits_value(d) as int))
        } else {
            None
        }
    } else {
        std_unsigned(s, max)
    }
}

/// What `atoi::atoi` gives for an integer type with range `min..=max`: an optional
/// sign, then the longest run of digits (possibly empty); `None` when neither a
/// sign nor a digit starts the text, or when the value is out of range.
pub open spec fn atoi_spec(s: Seq<u8>, min: int, max: int) -> Option<int> {
    let signed = s.len() > 0 && (s[0] == 43u8 || s[0] == 45u8);
    let off: int = if signed { 1 } else { 0 };
    let n = leading_digits(s.subrange(off, s.len() as int)) as int;
    let mag = digits_value(s.subrange(off, off + n)) as int;
    let v = if s.len() > 0 && s[0] == 45u8 { -mag } else { mag };
    if off + n == 0 || v < min || v > max {
        None
    } else {
        Some(v)
    }
}

pub proof fn lemma_digits_value_step(s: Seq<u8>, i: int)
    requires
        0 <= i < s.len(),
    ensures
        digits_value(s.subrange(0, i + 1)) == digits_value(s.subrange(0, i)) * 10 + (s[i] - 48) as nat,
{
    assert(s.subrange(0, i + 1).drop_last() =~= s.subrange(0, i));
}

pub proof fn lemma_digits_value_mono(s: Seq<u8>, i: int, j: int)
    requires
        0 <= i <= j <= s.len(),
        all_digits(s),
    ensures
        digits_value(s.subrange(0, i)) <= digits_value(s.subrange(0, j)),
    decreases j - i,
{
    if i < j {
        lemma_digits_value_mono(s, i, j - 1);
        lemma_digits_value_step(s, j - 1);
        assert(is_digit(s[j - 1]));
    }
}

/// Parses `s[start..]` as one or more digits whose value is at most `max`.
pub fn parse_digits(s: &[u8], start: usize, max: u64) -> (r: Option<u64>)
    requires
        start <= s@.len(),
    ensures
        ({
            let d = s@.subrange(start as int, s@.len() as int);
            match r {
                Some(v) => d.len() > 0 && all_digits(d) && v == digits_value(d) && v <= max,
                None => !(d.len() > 0 && all_digits(d) && digits_value(d) <= max),
            }
        }),
{
    let ghost d = s@.subrange(start as int, s@.len() as int);
    if start == s.len() {
        return None;
    }
    let mut i: usize = start;
    let mut v: u64 = 0;
    while i < s.len()
        invariant
            start <= i <= s@.len(),
            d == s@.subrange(start as int, s@.len() as int),
            all_digits(d.subrange(0, i - start)),
            v == digits_value(d.subrange(0, i - start)),
            v <= max,
        decreases s@.len() - i,
    {
        let b = s[i];
        if b < 48 || b > 57 {
            assert(!is_digit(d[i - start]));
            return None;
        }
        proof {
            lemma_digits_value_step(d, i - start);
        }
        let dig = (b - 48) as u64;
        let next = match v.checked_mul(10) {
            Some(m) => m.checked_add(dig),
            None => None,
        };
        match next {
            Some(n) if n <= max => {
                v = n;
            },
            _ => {
                proof {
                    if all_digits(d) {
                        lemma_digits_value_mono(d, i - start + 1, d.len() as int);
                        assert(d.subrange(0, d.len() as int) =~= d);
                    }
                }
                return None;
            },
        }
        i = i + 1;
        assert(all_digits(d.subrange(0, i - start))) by {
            assert forall|k: int| 0 <= k < i - start implies #[trigger] is_digit(d.subrange(0, i - start)[k]) by {
                if k < i - start - 1 {
                    assert(d.subrange(0, i - start)[k] == d.subrange(0, i - start - 1)[k]);
                }
            }
        }
    }
    assert(d.subrange(0, i - start) =~= d);
    Some(v)
}

fn std_parse_unsigned(s: &[u8], max: u64) -> (r: Option<u64>)
    ensures
        match std_unsigned(s@, max as int) {
            Some(v) => r == Some(v as u64),
            None => r is None,
        },
{
    let start: usize = if s.len() > 0 && s[0] == 43 { 1 } else { 0 };
    assert(skip_plus(s@) =~= s@.subrange(start as int, s@.len() as int));
    parse_digits(s, start, max)
}

/// `str::parse::<u8>` on the bytes of a string.
pub fn parse_u8_text(s: &[u8]) -> (r: Option<u8>)
    ensures
        match std_unsigned(s@, 255) {
            Some(v) => r == Some(v as u8),
            None => r is None,
        },
{
    match std_parse_unsigned(s, 255) {
        Some(v) => Some(v as u8),
        None => None,
    }
}

/// `str::parse::<u32>` on the bytes of a string.
pub fn parse_u32_text(s: &[u8]) -> (r: Option<u32>)
    ensures
        match std_unsigned(s@, u32::MAX as int) {
            Some(v) => r == Some(v as u32),
            None => r is None,
        },
{
    match std_parse_unsigned(s, 0xffff_ffff) {
        Some(v) => Some(v as u32),
        None => None,
    }
}

/// `str::parse::<i64>` on the bytes of a string.
pub fn parse_i64_text(s: &[u8]) -> (r: Option<i64>)
    ensures
        match std_signed(s@, i64::MIN as int, i64::MAX as int) {
            Some(v) => r == Some(v as i64),
            None => r is None,
        },
{
    if s.len() > 0 && s[0] == 45 {
        assert(s@.drop_first() =~= s@.subrange(1, s@.len() as int));
        match parse_digits(s, 1, 0x8000_0000_0000_0000) {
            Some(m) => {
                if m == 0x8000_0000_0000_0000 {
                    Some(i64::MIN)
                } else {
                    Some(-(m as i64))
                }
            },
            None => None,
        }
    } else {
        match std_parse_unsigned(s, 0x7fff_ffff_ffff_ffff) {
            Some(v) => Some(v as i64),
            None => None,
        }
    }
}

/// Wraps `atoi::atoi::<u8>`: an optional sign, then the leading digits of
/// `text`, as [`atoi_spec`] states it; `None` without sign or digit, or when
/// the value does not fit.
#[verifier::external_body]
pub(crate) fn atoi_u8(text: &[u8]) -> (r: Option<u8>)
    ensures
        match atoi_spec(text@, 0, 255) {
            Some(v) => r == Some(v as u8),
            None => r is None,
        },
{
    atoi::atoi::<u8>(text)
}

/// Wraps `atoi::atoi::<u32>`: an optional sign, then the leading digits of
/// `text`, as [`atoi_spec`] states it; `None` without sign or digit, or when
/// the value does not fit.
#[verifier::external_body]
pub(crate) fn atoi_u32(text: &[u8]) -> (r: Option<u32>)
    ensures
        match atoi_spec(text@, 0, u32::MAX as int) {
            Some(v) => r == Some(v as u32),
            None => r is None,
        },
{
    atoi::atoi::<u32>(text)
}

/// Wraps `atoi::atoi::<u64>`: an optional sign, then the leading digits of
/// `text`, as [`atoi_spec`] states it; `None` without sign or digit, or when
/// the value does not fit.
#[verifier::external_body]
pub(crate) fn atoi_u64(text: &[u8]) -> (r: Option<u64>)
    ensures
        match atoi_spec(text@, 0, u64::MAX as int) {
            Some(v) => r == Some(v as u64),
            None => r is None,
        },
{
    atoi::atoi::<u64>(text)
}

/// Wraps `atoi::atoi::<i64>`: an optional sign, then the leading digits of
/// `text`, as [`atoi_spec`] states it; `None` without sign or digit, or when
/// the value does not fit.
#[verifier::external_body]
pub(crate) fn atoi_i64(text: &[u8]) -> (r: Option<i64>)
    ensures
        match atoi_spec(text@, i64::MIN as int, i64::MAX as int) {
            Some(v) => r == Some(v as i64),
            None => r is None,
        },
{
    atoi::atoi::<i64>(text)
}

// ── Float literals ─────────────────────────────────────────────────────────

pub open spec fn is_sign(b: u8) -> bool {
    b == 43u8 || b == 45u8
}

pub open spec fn ascii_lower(b: u8) -> u8 {
    if 65 <= b <= 90 {
        (b + 32) as u8
    } else {
        b
    }
}

/// `s` equals the lower-case ASCII word `w`, ignoring ASCII case.
pub open spec fn eq_ignore_case(s: Seq<u8>, w: Seq<u8>) -> bool {
    s.len() == w.len() && forall|i: int| 0 <= i < s.len() ==> #[trigger] ascii_lower(s[i]) == w[i]
}

pub open spec fn word_inf() -> Seq<u8> {
    seq![105u8, 110u8, 102u8]
}

pub open spec fn word_infinity() -> Seq<u8> {
    seq![105u8, 110u8, 102u8, 105u8, 110u8, 105u8, 116u8, 121u8]
}

pub open spec fn word_nan() -> Seq<u8> {
    seq![110u8, 97u8, 110u8]
}

pub open spec fn is_special_float(r: Seq<u8>) -> bool {
    eq_ignore_case(r, word_inf()) || eq_ignore_case(r, word_infinity()) || eq_ignore_case(r, word_nan())
}

/// `Digit+ | Digit+ '.' Digit* | Digit* '.' Digit+`
pub open spec fn valid_mantissa(m: Seq<u8>) -> bool {
    ||| m.len() > 0 && all_digits(m)
    ||| exists|d: int|
        0 <= d < m.len() && #[trigger] m[d] == 46u8 && all_digits(m.subrange(0, d))
            && all_digits(m.subrange(d + 1, m.len() as int)) && m.len() >= 2
}

/// `Sign? Digit+` (what follows the exponent mark).
pub open spec fn valid_exponent(x: Seq<u8>) -> bool {
    let y = if x.len() > 0 && is_sign(x[0]) { x.drop_first() } else { x };
    y.len() > 0 && all_digits(y)
}

/// `Number ::= Mantissa Exp?` where the exponent mark is `e` or `E`.
pub open spec fn valid_number(r: Seq<u8>) -> bool {
    match first_byte2(r, 101u8, 69u8) {
        None => valid_mantissa(r),
        Some(e) => valid_mantissa(r.subrange(0, e)) && valid_exponent(r.subrange(e + 1, r.len() as int)),
    }
}

/// The float literal grammar of `f32::from_str`, applied to lower-cased text:
/// `Sign? ( 'inf' | 'infinity' | 'nan' | Number )`.
pub open spec fn float_literal(s: Seq<u8>) -> bool {
    let r = if s.len() > 0 && is_sign(s[0]) { s.drop_first() } else { s };
    is_special_float(r) || valid_number(r)
}

/// The part of a float literal after its sign.
pub open spec fn unsigned_part(s: Seq<u8>) -> Seq<u8> {
    if s.len() > 0 && is_sign(s[0]) { s.drop_first() } else { s }
}

/// The part of an unsigned float literal before its exponent mark.
pub open spec fn mantissa_part(r: Seq<u8>) -> Seq<u8> {
    match first_byte2(r, 101u8, 69u8) {
        None => r,
        Some(e) => r.subrange(0, e),
    }
}

fn is_digit_byte(b: u8) -> (r: bool)
    ensures
        r == is_digit(b),
{
    b >= 48 && b <= 57
}

/// Whether `s[a..b]` holds only digits.
fn digits_only(s: &[u8], a: usize, b: usize) -> (r: bool)
    requires
        a <= b <= s@.len(),
    ensures
        r == all_digits(s@.subrange(a as int, b as int)),
{
    let mut i = a;
    while i < b
        invariant
            a <= i <= b <= s@.len(),
            forall|k: int| a <= k < i ==> is_digit(s@[k]),
        decreases b - i,
    {
        if !is_digit_byte(s[i]) {
            assert(!is_digit(s@.subrange(a as int, b as int)[i - a]));
            return false;
        }
        i = i + 1;
    }
    assert forall|k: int| 0 <= k < b - a implies #[trigger] is_digit(s@.subrange(a as int, b as int)[k]) by {
        assert(s@.subrange(a as int, b as int)[k] == s@[a + k]);
    }
    true
}

fn lower_byte(b: u8) -> (r: u8)
    ensures
        r == ascii_lower(b),
{
    if b >= 65 && b <= 90 {
        b + 32
    } else {
        b
    }
}

/// Whether `s[a..]` equals the lower-case word `w`, ignoring ASCII case.
pub(crate) fn matches_word(s: &[u8], a: usize, w: &[u8]) -> (r: bool)
    requires
        a <= s@.len(),
    ensures
        r == eq_ignore_case(s@.subrange(a as int, s@.len() as int), w@),
{
    let ghost t = s@.subrange(a as int, s@.len() as int);
    if s.len() - a != w.len() {
        return false;
    }
    let mut i: usize = 0;
    while i < w.len()
        invariant
            a <= s@.len(),
            a + w@.len() == s@.len(),
            t == s@.subrange(a as int, s@.len() as int),
            t.len() == w@.len(),
            i <= w@.len(),
            forall|k: int| 0 <= k < i ==> #[trigger] ascii_lower(t[k]) == w@[k],
        decreases w@.len() - i,
    {
        assert(a + i < s.len());
        if lower_byte(s[a + i]) != w[i] {
            assert(t[i as int] == s@[a + i]);
            return false;
        }
        i = i + 1;
    }
    true
}

/// Whether `s[a..b]` is a valid mantissa.
fn mantissa_ok(s: &[u8], a: usize, b: usize) -> (r: bool)
    requires
        a <= b <= s@.len(),
    ensures
        r == valid_mantissa(s@.subrange(a as int, b as int)),
{
    let ghost m = s@.subrange(a as int, b as int);
    let part = &s[a..b];
    let dot = find_byte(46, part);
    assert(part@ == m);
    match dot {
        None => {
            let r = b > a && digits_only(s, a, b);
            assert(!(exists|d: int| 0 <= d < m.len() && #[trigger] m[d] == 46u8));
            r
        },
        Some(d) => {
            let before = digits_only(s, a, a + d);
            let after = digits_only(s, a + d + 1, b);
            assert(m.subrange(0, d as int) =~= s@.subrange(a as int, a + d));
            assert(m.subrange(d + 1, m.len() as int) =~= s@.subrange(a + d + 1, b as int));
            assert(!is_digit(m[d as int]));
            if before && after && b - a >= 2 {
                true
            } else {
                assert forall|e: int|
                    0 <= e < m.len() && #[trigger] m[e] == 46u8 && all_digits(m.subrange(0, e))
                        && all_digits(m.subrange(e + 1, m.len() as int)) && m.len() >= 2 implies false by {
                    if e > d {
                        assert(m.subrange(0, e)[d as int] == m[d as int]);
                    } else if e < d {
                        assert(m[e] != 46u8);
                    }
                }
                false
            }
        },
    }
}

/// Whether `s[a..b]` is a valid exponent (after the exponent mark).
fn exponent_ok(s: &[u8], a: usize, b: usize) -> (r: bool)
    requires
        a <= b <= s@.len(),
    ensures
        r == valid_exponent(s@.subrange(a as int, b as int)),
{
    let ghost x = s@.subrange(a as int, b as int);
    if a < b && (s[a] == 43 || s[a] == 45) {
        assert(x.drop_first() =~= s@.subrange(a + 1, b as int));
        b > a + 1 && digits_only(s, a + 1, b)
    } else {
        b > a && digits_only(s, a, b)
    }
}

/// Whether `s` is a float literal that `f32::from_str` accepts.
pub fn is_float_literal(s: &[u8]) -> (r: bool)
    ensures
        r == float_literal(s@),
{
    let start: usize = if s.len() > 0 && (s[0] == 43 || s[0] == 45) { 1 } else { 0 };
    let ghost rr = if s@.len() > 0 && is_sign(s@[0]) { s@.drop_first() } else { s@ };
    assert(rr =~= s@.subrange(start as int, s@.len() as int));
    let inf: Vec<u8> = vec![105u8, 110, 102];
    let infinity: Vec<u8> = vec![105u8, 110, 102, 105, 110, 105, 116, 121];
    let nan: Vec<u8> = vec![110u8, 97, 110];
    assert(inf@ =~= word_inf());
    assert(infinity@ =~= word_infinity());
    assert(nan@ =~= word_nan());
    if matches_word(s, start, inf.as_slice()) || matches_word(s, start, infinity.as_slice())
        || matches_word(s, start, nan.as_slice()) {
        return true;
    }
    let rest = &s[start..s.len()];
    assert(rest@ == rr);
    let e = find_byte2(101, 69, rest);
    let ok = match e {
        None => mantissa_ok(s, start, s.len()),
        Some(e) => {
            assert(rr.subrange(0, e as int) =~= s@.subrange(start as int, start + e));
            assert(rr.subrange(e + 1, rr.len() as int) =~= s@.subrange(start + e + 1, s@.len() as int));
            mantissa_ok(s, start, start + e) && exponent_ok(s, start + e + 1, s.len())
        },
    };
    ok
}


/// A float literal is written in ASCII.
pub proof fn lemma_float_literal_ascii(s: Seq<u8>)
    requires
        float_literal(s),
    ensures
        forall|i: int| 0 <= i < s.len() ==> s[i] < 128,
{
    let off: int = if s.len() > 0 && is_sign(s[0]) { 1 } else { 0 };
    let r = if s.len() > 0 && is_sign(s[0]) { s.drop_first() } else { s };
    assert(r =~= s.subrange(off, s.len() as int));
    assert forall|i: int| 0 <= i < r.len() implies r[i] < 128 by {
        if is_special_float(r) {
            assert(ascii_lower(r[i]) < 128);
        } else {
            match first_byte2(r, 101u8, 69u8) {
                None => lemma_mantissa_ascii(r, i),
                Some(e) => {
                    let m = r.subrange(0, e);
                    let x = r.subrange(e + 1, r.len() as int);
                    if i < e {
                        lemma_mantissa_ascii(m, i);
                        assert(m[i] == r[i]);
                    } else if i > e {
                        let y = if x.len() > 0 && is_sign(x[0]) { x.drop_first() } else { x };
                        assert(x[i - e - 1] == r[i]);
                        if x.len() > 0 && is_sign(x[0]) && i - e - 1 > 0 {
                            assert(y[i - e - 2] == x[i - e - 1]);
                            assert(is_digit(y[i - e - 2]));
                        } else if !(x.len() > 0 && is_sign(x[0])) {
                            assert(is_digit(y[i - e - 1]));
                        }
                    }
                },
            }
        }
    }
    assert forall|i: int| 0 <= i < s.len() implies s[i] < 128 by {
        if i >= off {
            assert(s[i] == r[i - off]);
        }
    }
}

proof fn lemma_mantissa_ascii(m: Seq<u8>, i: int)
    requires
        valid_mantissa(m),
        0 <= i < m.len(),
    ensures
        m[i] < 128,
{
    if !(m.len() > 0 && all_digits(m)) {
        let d = choose|d: int|
            0 <= d < m.len() && #[trigger] m[d] == 46u8 && all_digits(m.subrange(0, d))
                && all_digits(m.subrange(d + 1, m.len() as int)) && m.len() >= 2;
        if i < d {
            assert(m.subrange(0, d)[i] == m[i]);
            assert(is_digit(m.subrange(0, d)[i]));
        } else if i > d {
            assert(m.subrange(d + 1, m.len() as int)[i - d - 1] == m[i]);
            assert(is_digit(m.subrange(d + 1, m.len() as int)[i - d - 1]));
        }
    } else {
        assert(is_digit(m[i]));
    }
}

} // verus!
