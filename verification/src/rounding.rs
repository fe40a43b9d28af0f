//! Whether a decimal float literal reads as zero in `f32`: exactly when its
//! value is at most 2^-150, half the smallest positive `f32` (a tie rounds
//! to the even neighbour, zero).

use vstd::prelude::*;
use vstd::arithmetic::power::{pow, lemma_pow_adds, lemma_pow_positive, lemma_pow_distributes,
    lemma_pow_increases, lemma_pow0};
use crate::number::{all_digits, digits_value, is_digit, float_literal, is_special_float, unsigned_part,
    mantissa_part, valid_mantissa, valid_exponent, valid_number, matches_word};
use crate::scan::{first_byte, first_byte2, find_byte, find_byte2};

verus! {

broadcast use crate::scan::group_scan;

pub open spec fn half_min_chunk0() -> Seq<u8> {
    seq![55u8, 48, 48, 54, 52, 57, 50, 51, 50, 49, 54, 50, 52, 48, 56]
}

pub open spec fn half_min_chunk1() -> Seq<u8> {
    seq![53u8, 51, 53, 52, 54, 49, 56, 54, 52, 55, 57, 49, 54, 52, 52]
}

pub open spec fn half_min_chunk2() -> Seq<u8> {
    seq![57u8, 53, 56, 48, 54, 53, 54, 52, 48, 49, 51, 48, 57, 55, 48]
}

pub open spec fn half_min_chunk3() -> Seq<u8> {
    seq![57u8, 51, 56, 50, 53, 55, 56, 56, 53, 56, 55, 56, 53, 51, 52]
}

pub open spec fn half_min_chunk4() -> Seq<u8> {
    seq![49u8, 52, 49, 57, 52, 52, 56, 57, 53, 53, 52, 49, 51, 52, 50]
}

pub open spec fn half_min_chunk5() -> Seq<u8> {
    seq![57u8, 51, 48, 51, 48, 48, 55, 52, 51, 51, 49, 57, 48, 57, 52]
}

pub open spec fn half_min_chunk6() -> Seq<u8> {
    seq![49u8, 56, 49, 48, 54, 48, 55, 57, 49, 48, 49, 53, 54, 50, 53]
}

/// The decimal digits of 5^150: 2^-150 is `0.` followed by 45 zeros and these.
pub open spec fn half_min_digits() -> Seq<u8> {
    half_min_chunk0() + half_min_chunk1() + half_min_chunk2() + half_min_chunk3() + half_min_chunk4() + half_min_chunk5() + half_min_chunk6()
}

/// The value of `a` followed by `b` is that of `a` shifted by the length of
/// `b`, plus that of `b`.
pub proof fn lemma_dv_concat(a: Seq<u8>, b: Seq<u8>)
    ensures
        digits_value(a + b) == digits_value(a) * pow(10, b.len()) + digits_value(b),
    decreases b.len(),
{
    if b.len() == 0 {
        assert(a + b =~= a);
        lemma_pow0(10);
    } else {
        let b1 = b.drop_last();
        assert((a + b).drop_last() =~= a + b1);
        assert((a + b).last() == b.last());
        lemma_dv_concat(a, b1);
        lemma_pow_adds(10, b1.len(), 1);
        assert(pow(10, 1) == 10) by {
            reveal_with_fuel(pow, 2);
        }
        let x = digits_value(a);
        let p = pow(10, b1.len());
        let y = digits_value(b1);
        let l = (b.last() - 48) as nat;
        assert((x * p + y) * 10 + l == x * (p * 10) + (y * 10 + l)) by (nonlinear_arith);
    }
}

proof fn lemma_constants()
    ensures
        pow(2, 150) == 1427247692705959881058285969449495136382746624int,
        pow(5, 150) == 700649232162408535461864791644958065640130970938257885878534141944895541342930300743319094181060791015625int,
        pow(10, 45) == 1000000000000000000000000000000000000000000000int,
        pow(10, 46) == 10000000000000000000000000000000000000000000000int,
        pow(10, 105) == pow(10, 45) * pow(10, 45) * pow(10, 15),
        pow(2, 150) * pow(5, 150) == pow(10, 105) * pow(10, 45),
        digits_value(half_min_digits()) == pow(5, 150),
        half_min_digits().len() == 105,
{
    assert(pow(2, 10) == 1024) by {
        reveal_with_fuel(pow, 11);
    }
    lemma_pow_adds(2, 10, 10);
    assert(pow(2, 20) == 1048576int);
    lemma_pow_adds(2, 20, 20);
    assert(pow(2, 40) == 1099511627776int);
    lemma_pow_adds(2, 40, 40);
    assert(pow(2, 80) == 1208925819614629174706176int);
    lemma_pow_adds(2, 80, 40);
    assert(pow(2, 120) == 1329227995784915872903807060280344576int);
    lemma_pow_adds(2, 120, 20);
    assert(pow(2, 140) == 1393796574908163946345982392040522594123776int);
    lemma_pow_adds(2, 140, 10);
    assert(pow(5, 10) == 9765625int) by {
        reveal_with_fuel(pow, 11);
    }
    lemma_pow_adds(5, 10, 10);
    assert(pow(5, 20) == 95367431640625int);
    lemma_pow_adds(5, 20, 20);
    assert(pow(5, 40) == 9094947017729282379150390625int);
    lemma_pow_adds(5, 40, 40);
    assert(pow(5, 80) == 82718061255302767487140869206996285356581211090087890625int);
    lemma_pow_adds(5, 80, 40);
    assert(pow(5, 120) == 752316384526264005099991383822237233803945956334136013765601092018187046051025390625int);
    lemma_pow_adds(5, 120, 20);
    assert(pow(5, 140) == 71746481373430634031294954664443705921549411424077607513961896135157303433516062796115875244140625int);
    lemma_pow_adds(5, 140, 10);
    assert(pow(10, 15) == 1000000000000000int) by {
        reveal_with_fuel(pow, 16);
    }
    lemma_pow_adds(10, 15, 15);
    assert(pow(10, 30) == 1000000000000000000000000000000int);
    lemma_pow_adds(10, 30, 15);
    assert(pow(10, 45) == 1000000000000000000000000000000000000000000000int);
    lemma_pow_adds(10, 45, 1);
    assert(pow(10, 1) == 10) by {
        reveal_with_fuel(pow, 2);
    }
    lemma_pow_adds(10, 45, 45);
    lemma_pow_adds(10, 90, 15);
    lemma_pow_distributes(2, 5, 150);
    lemma_pow_adds(10, 105, 45);
    assert(digits_value(half_min_chunk0()) == 700649232162408nat) by {
        reveal_with_fuel(digits_value, 16);
    }
    assert(digits_value(half_min_chunk1()) == 535461864791644nat) by {
        reveal_with_fuel(digits_value, 16);
    }
    assert(digits_value(half_min_chunk2()) == 958065640130970nat) by {
        reveal_with_fuel(digits_value, 16);
    }
    assert(digits_value(half_min_chunk3()) == 938257885878534nat) by {
        reveal_with_fuel(digits_value, 16);
    }
    assert(digits_value(half_min_chunk4()) == 141944895541342nat) by {
        reveal_with_fuel(digits_value, 16);
    }
    assert(digits_value(half_min_chunk5()) == 930300743319094nat) by {
        reveal_with_fuel(digits_value, 16);
    }
    assert(digits_value(half_min_chunk6()) == 181060791015625nat) by {
        reveal_with_fuel(digits_value, 16);
    }
    lemma_dv_concat(half_min_chunk0(), half_min_chunk1());
    assert(digits_value(half_min_chunk0() + half_min_chunk1()) == 700649232162408535461864791644nat);
    lemma_dv_concat(half_min_chunk0() + half_min_chunk1(), half_min_chunk2());
    assert(digits_value(half_min_chunk0() + half_min_chunk1() + half_min_chunk2()) == 700649232162408535461864791644958065640130970nat);
    lemma_dv_concat(half_min_chunk0() + half_min_chunk1() + half_min_chunk2(), half_min_chunk3());
    assert(digits_value(half_min_chunk0() + half_min_chunk1() + half_min_chunk2() + half_min_chunk3()) == 700649232162408535461864791644958065640130970938257885878534nat);
    lemma_dv_concat(half_min_chunk0() + half_min_chunk1() + half_min_chunk2() + half_min_chunk3(), half_min_chunk4());
    assert(digits_value(half_min_chunk0() + half_min_chunk1() + half_min_chunk2() + half_min_chunk3() + half_min_chunk4()) == 700649232162408535461864791644958065640130970938257885878534141944895541342nat);
    lemma_dv_concat(half_min_chunk0() + half_min_chunk1() + half_min_chunk2() + half_min_chunk3() + half_min_chunk4(), half_min_chunk5());
    assert(digits_value(half_min_chunk0() + half_min_chunk1() + half_min_chunk2() + half_min_chunk3() + half_min_chunk4() + half_min_chunk5()) == 700649232162408535461864791644958065640130970938257885878534141944895541342930300743319094nat);
    lemma_dv_concat(half_min_chunk0() + half_min_chunk1() + half_min_chunk2() + half_min_chunk3() + half_min_chunk4() + half_min_chunk5(), half_min_chunk6());
    assert(digits_value(half_min_chunk0() + half_min_chunk1() + half_min_chunk2() + half_min_chunk3() + half_min_chunk4() + half_min_chunk5() + half_min_chunk6()) == 700649232162408535461864791644958065640130970938257885878534141944895541342930300743319094181060791015625nat);
}

/// `n` zero digits.
pub open spec fn zeros(n: nat) -> Seq<u8> {
    Seq::new(n, |i: int| 48u8)
}

/// `t` without its leading `0` digits.
pub open spec fn strip_zeros(t: Seq<u8>) -> Seq<u8>
    decreases t.len(),
{
    if t.len() > 0 && t[0] == 48u8 {
        strip_zeros(t.drop_first())
    } else {
        t
    }
}

/// `t` without its `.` characters.
pub open spec fn remove_dots(t: Seq<u8>) -> Seq<u8>
    decreases t.len(),
{
    if t.len() == 0 {
        t
    } else if t.last() == 46u8 {
        remove_dots(t.drop_last())
    } else {
        remove_dots(t.drop_last()).push(t.last())
    }
}

/// `u` comes no later than `v` in dictionary order (compared up to the
/// shorter length).
pub open spec fn lex_le(u: Seq<u8>, v: Seq<u8>) -> bool
    decreases u.len(),
{
    if u.len() == 0 || v.len() == 0 {
        true
    } else if u[0] != v[0] {
        u[0] < v[0]
    } else {
        lex_le(u.drop_first(), v.drop_first())
    }
}

proof fn lemma_pow10_step(n: nat)
    ensures
        pow(10, n + 1) == pow(10, n) * 10,
        pow(10, n) > 0,
{
    lemma_pow_adds(10, n, 1);
    assert(pow(10, 1) == 10) by {
        reveal_with_fuel(pow, 2);
    }
    lemma_pow_positive(10, n);
}

proof fn lemma_dv_bound(a: Seq<u8>)
    requires
        all_digits(a),
    ensures
        digits_value(a) < pow(10, a.len()),
    decreases a.len(),
{
    if a.len() == 0 {
        lemma_pow0(10);
    } else {
        let a1 = a.drop_last();
        assert(all_digits(a1)) by {
            assert forall|i: int| 0 <= i < a1.len() implies #[trigger] is_digit(a1[i]) by {
                assert(a1[i] == a[i]);
            }
        }
        lemma_dv_bound(a1);
        lemma_pow10_step(a1.len());
        assert(is_digit(a[a.len() - 1]));
        let y = digits_value(a1);
        let p = pow(10, a1.len());
        let l = (a.last() - 48) as nat;
        assert(y * 10 + l < p * 10) by (nonlinear_arith)
            requires
                y < p,
                l <= 9,
        ;
    }
}

proof fn lemma_dv_zeros(n: nat)
    ensures
        digits_value(zeros(n)) == 0,
    decreases n,
{
    if n > 0 {
        assert(zeros(n).drop_last() =~= zeros((n - 1) as nat));
        lemma_dv_zeros((n - 1) as nat);
    }
}

proof fn lemma_dv_lower(a: Seq<u8>)
    requires
        all_digits(a),
        a.len() > 0,
        a[0] != 48u8,
    ensures
        digits_value(a) >= pow(10, (a.len() - 1) as nat),
{
    let h = seq![a[0]];
    let t = a.drop_first();
    assert(a =~= h + t);
    lemma_dv_concat(h, t);
    lemma_dv_single(a[0]);
    assert(is_digit(a[0]));
    assert(digits_value(h) >= 1);
    lemma_pow_positive(10, t.len());
    let p = pow(10, t.len());
    let x = digits_value(h);
    assert(x * p >= p) by (nonlinear_arith)
        requires
            x >= 1,
            p > 0,
    ;
}

proof fn lemma_dv_single(x: u8)
    ensures
        digits_value(seq![x]) == (x - 48) as nat,
{
    let s = seq![x];
    assert(s.drop_last() =~= Seq::<u8>::empty());
    assert(digits_value(s.drop_last()) == 0);
    assert(s.last() == x);
}

proof fn lemma_strip_zeros(t: Seq<u8>)
    requires
        all_digits(t),
    ensures
        all_digits(strip_zeros(t)),
        digits_value(strip_zeros(t)) == digits_value(t),
        strip_zeros(t).len() > 0 ==> strip_zeros(t)[0] != 48u8,
        strip_zeros(t).len() <= t.len(),
    decreases t.len(),
{
    if t.len() > 0 && t[0] == 48u8 {
        let r = t.drop_first();
        assert(all_digits(r)) by {
            assert forall|i: int| 0 <= i < r.len() implies #[trigger] is_digit(r[i]) by {
                assert(r[i] == t[i + 1]);
            }
        }
        lemma_strip_zeros(r);
        assert(t =~= seq![48u8] + r);
        lemma_dv_concat(seq![48u8], r);
        lemma_dv_single(48u8);
        assert(digits_value(seq![48u8]) == 0);
        let z = digits_value(seq![48u8]);
        let q = pow(10, r.len());
        assert(z * q == 0) by (nonlinear_arith)
            requires
                z == 0,
        ;
        assert(digits_value(t) == digits_value(r));
    }
}

proof fn lemma_strip_zeros_push(a: Seq<u8>, c: u8)
    ensures
        strip_zeros(a.push(c)) == (if strip_zeros(a).len() == 0 && c == 48u8 {
            Seq::<u8>::empty()
        } else {
            strip_zeros(a).push(c)
        }),
    decreases a.len(),
{
    if a.len() == 0 {
        assert(seq![c].drop_first() =~= Seq::<u8>::empty());
        assert(a.push(c) =~= seq![c]);
        assert(strip_zeros(Seq::<u8>::empty()) == Seq::<u8>::empty());
        assert(a =~= Seq::<u8>::empty());
        assert(Seq::<u8>::empty().push(c) =~= seq![c]);
        if c == 48u8 {
            assert(strip_zeros(seq![c]) == strip_zeros(seq![c].drop_first()));
        }
    } else if a[0] == 48u8 {
        assert(a.push(c).drop_first() =~= a.drop_first().push(c));
        lemma_strip_zeros_push(a.drop_first(), c);
    } else {
        assert(a.push(c)[0] == a[0]);
    }
}

proof fn lemma_remove_dots_push(a: Seq<u8>, c: u8)
    ensures
        remove_dots(a.push(c)) == (if c == 46u8 { remove_dots(a) } else { remove_dots(a).push(c) }),
{
    assert(a.push(c).drop_last() =~= a);
}

proof fn lemma_lex_equal_prefix(u: Seq<u8>, v: Seq<u8>, k: int)
    requires
        0 <= k <= u.len(),
        k <= v.len(),
        forall|j: int| 0 <= j < k ==> u[j] == v[j],
    ensures
        lex_le(u, v) == lex_le(u.subrange(k, u.len() as int), v.subrange(k, v.len() as int)),
    decreases k,
{
    if k == 0 {
        assert(u.subrange(0, u.len() as int) =~= u);
        assert(v.subrange(0, v.len() as int) =~= v);
    } else {
        let u1 = u.drop_first();
        let v1 = v.drop_first();
        assert forall|j: int| 0 <= j < k - 1 implies u1[j] == v1[j] by {
            assert(u[j + 1] == v[j + 1]);
        }
        lemma_lex_equal_prefix(u1, v1, k - 1);
        assert(u1.subrange(k - 1, u1.len() as int) =~= u.subrange(k, u.len() as int));
        assert(v1.subrange(k - 1, v1.len() as int) =~= v.subrange(k, v.len() as int));
    }
}

proof fn lemma_lex_refl(u: Seq<u8>)
    ensures
        lex_le(u, u),
    decreases u.len(),
{
    if u.len() > 0 {
        lemma_lex_refl(u.drop_first());
    }
}

/// For digit strings of equal length, dictionary order is numeric order.
proof fn lemma_lex_value(u: Seq<u8>, v: Seq<u8>)
    requires
        u.len() == v.len(),
        all_digits(u),
        all_digits(v),
    ensures
        lex_le(u, v) == (digits_value(u) <= digits_value(v)),
    decreases u.len(),
{
    if u.len() > 0 {
        let u1 = u.drop_first();
        let v1 = v.drop_first();
        assert(all_digits(u1)) by {
            assert forall|i: int| 0 <= i < u1.len() implies #[trigger] is_digit(u1[i]) by {
                assert(u1[i] == u[i + 1]);
            }
        }
        assert(all_digits(v1)) by {
            assert forall|i: int| 0 <= i < v1.len() implies #[trigger] is_digit(v1[i]) by {
                assert(v1[i] == v[i + 1]);
            }
        }
        assert(u =~= seq![u[0]] + u1);
        assert(v =~= seq![v[0]] + v1);
        lemma_dv_concat(seq![u[0]], u1);
        lemma_dv_concat(seq![v[0]], v1);
        lemma_dv_single(u[0]);
        lemma_dv_single(v[0]);
        assert(is_digit(u[0]) && is_digit(v[0]));
        lemma_dv_bound(u1);
        lemma_dv_bound(v1);
        let p = pow(10, u1.len());
        let a = (u[0] - 48) as nat;
        let b = (v[0] - 48) as nat;
        let x = digits_value(u1);
        let y = digits_value(v1);
        assert(digits_value(seq![u[0]]) == a);
        assert(digits_value(seq![v[0]]) == b);
        if u[0] < v[0] {
            assert(a * p + x < b * p + y) by (nonlinear_arith)
                requires
                    a < b,
                    x < p,
                    y >= 0,
            ;
        } else if u[0] > v[0] {
            assert(b * p + y < a * p + x) by (nonlinear_arith)
                requires
                    b < a,
                    y < p,
                    x >= 0,
            ;
        } else {
            lemma_lex_value(u1, v1);
        }
    }
}

/// A value `m * 10^e` (`m` a natural number) reads as zero in `f32`: it is
/// zero, or at most 2^-150.
pub open spec fn value_rounds_to_zero(m: nat, e: int) -> bool {
    m == 0 || (e < 0 && m * pow(2, 150) <= pow(10, (-e) as nat))
}

proof fn lemma_scale_le(x: int, y: int, k: int)
    requires
        k > 0,
    ensures
        (x <= y) == (x * k <= y * k),
{
    if x <= y {
        assert(x * k <= y * k) by (nonlinear_arith)
            requires
                x <= y,
                k > 0,
        ;
    } else {
        assert(y * k < x * k) by (nonlinear_arith)
            requires
                y < x,
                k > 0,
        ;
    }
}

/// Where the leading digit of `m * 10^e` stands (`d` digits in `m`) decides
/// whether it reads as zero, except at 10^-46, where its digits are compared
/// with those of 2^-150.
proof fn lemma_decide(m: nat, d: nat, e: int)
    requires
        d >= 1,
        pow(10, (d - 1) as nat) <= m < pow(10, d),
    ensures
        d - 1 + e < -46 ==> value_rounds_to_zero(m, e),
        d - 1 + e > -46 ==> !value_rounds_to_zero(m, e),
        d - 1 + e == -46 ==> (value_rounds_to_zero(m, e) == (m * pow(10, 105) <= pow(5, 150) * pow(10, d))),
{
    lemma_constants();
    lemma_pow_positive(10, (d - 1) as nat);
    let p2 = pow(2, 150);
    let p5 = pow(5, 150);
    let td = pow(10, d);
    let t45 = pow(10, 45);
    let t46 = pow(10, 46);
    let t105 = pow(10, 105);
    let tl = pow(10, (d - 1) as nat);
    lemma_pow_positive(10, d);
    if d - 1 + e < -46 {
        let k = (-e) as nat;
        lemma_pow_adds(10, d, 46);
        lemma_pow_increases(10, d + 46, k);
        assert(m * p2 < td * t46) by (nonlinear_arith)
            requires
                m < td,
                p2 < t46,
                m >= 0,
                p2 > 0,
        ;
    } else if d - 1 + e > -46 {
        if e < 0 {
            let k = (-e) as nat;
            lemma_pow_adds(10, (d - 1) as nat, 45);
            assert((d - 1) as nat + 45 == d + 44);
            lemma_pow_increases(10, k, (d + 44) as nat);
            assert(m * p2 >= tl * p2) by (nonlinear_arith)
                requires
                    m >= tl,
                    p2 > 0,
            ;
            assert(tl * p2 > tl * t45) by (nonlinear_arith)
                requires
                    p2 > t45,
                    tl > 0,
            ;
        }
    } else {
        let k = (-e) as nat;
        assert(k == d + 45);
        lemma_pow_adds(10, d, 45);
        lemma_pow_positive(5, 150);
        lemma_pow_positive(10, 45);
        lemma_scale_le(m * p2, td * t45, p5);
        assert(m * p2 * p5 == m * t105 * t45) by (nonlinear_arith)
            requires
                p2 * p5 == t105 * t45,
        ;
        assert(td * t45 * p5 == p5 * td * t45) by (nonlinear_arith);
        lemma_scale_le(m * t105, p5 * td, t45);
        assert(m * t105 * t45 == (m * t105) * t45);
    }
}

/// Number of digits after the `.` of a mantissa (0 without one).
pub open spec fn frac_len(m: Seq<u8>) -> int {
    match first_byte(m, 46u8) {
        None => 0,
        Some(d) => m.len() - d - 1,
    }
}

/// The number written by `x`: an optional sign, then digits.
pub open spec fn signed_digits(x: Seq<u8>) -> int {
    if x.len() > 0 && x[0] == 45u8 {
        -(digits_value(x.drop_first()) as int)
    } else if x.len() > 0 && x[0] == 43u8 {
        digits_value(x.drop_first()) as int
    } else {
        digits_value(x) as int
    }
}

/// The exponent of an unsigned numeric literal `r`: the number after its `e`
/// or `E`, or 0.
pub open spec fn exponent_value(r: Seq<u8>) -> int {
    match first_byte2(r, 101u8, 69u8) {
        None => 0,
        Some(e) => signed_digits(r.subrange(e + 1, r.len() as int)),
    }
}

/// The float literal `s` reads as `0.0` or `-0.0` in `f32`: it is no `inf`
/// or `nan`, and its value, the digits of its mantissa times ten to the power
/// of its exponent less the number of digits after the point, reads as zero
/// (see [`value_rounds_to_zero`]).
pub open spec fn float_literal_is_zero(s: Seq<u8>) -> bool {
    let r = unsigned_part(s);
    let mt = mantissa_part(r);
    !is_special_float(r) && value_rounds_to_zero(digits_value(remove_dots(mt)), exponent_value(r) - frac_len(mt))
}

proof fn lemma_mantissa_chars(m: Seq<u8>)
    requires
        valid_mantissa(m),
    ensures
        forall|i: int| 0 <= i < m.len() ==> is_digit(#[trigger] m[i]) || m[i] == 46u8,
{
    if !(m.len() > 0 && all_digits(m)) {
        let d = choose|d: int|
            0 <= d < m.len() && #[trigger] m[d] == 46u8 && all_digits(m.subrange(0, d))
                && all_digits(m.subrange(d + 1, m.len() as int)) && m.len() >= 2;
        assert forall|i: int| 0 <= i < m.len() implies is_digit(#[trigger] m[i]) || m[i] == 46u8 by {
            if i < d {
                assert(m.subrange(0, d)[i] == m[i]);
            } else if i > d {
                assert(m.subrange(d + 1, m.len() as int)[i - d - 1] == m[i]);
            }
        }
    }
}

proof fn lemma_remove_dots_digits(t: Seq<u8>)
    requires
        forall|i: int| 0 <= i < t.len() ==> is_digit(#[trigger] t[i]) || t[i] == 46u8,
    ensures
        all_digits(remove_dots(t)),
    decreases t.len(),
{
    if t.len() > 0 {
        let t1 = t.drop_last();
        assert forall|i: int| 0 <= i < t1.len() implies is_digit(#[trigger] t1[i]) || t1[i] == 46u8 by {
            assert(t1[i] == t[i]);
        }
        lemma_remove_dots_digits(t1);
        assert(is_digit(t[t.len() - 1]) || t[t.len() - 1] == 46u8);
        if t.last() != 46u8 {
            let r = remove_dots(t1).push(t.last());
            assert forall|i: int| 0 <= i < r.len() implies #[trigger] is_digit(r[i]) by {
                if i < r.len() - 1 {
                    assert(r[i] == remove_dots(t1)[i]);
                }
            }
        }
    }
}

/// Exponents at least this large decide a literal by their sign alone.
pub const EXPONENT_CLAMP: u128 = 0x4_0000_0000_0000_0000;

/// The exponent `x` (sign and digits), with its magnitude capped at
/// [`EXPONENT_CLAMP`]: whether it is negative, and the capped magnitude.
fn exponent_clamped(x: &[u8]) -> (r: (bool, u128))
    requires
        valid_exponent(x@),
    ensures
        r.1 <= EXPONENT_CLAMP,
        r.1 < EXPONENT_CLAMP ==> signed_digits(x@) == (if r.0 { -(r.1 as int) } else { r.1 as int }),
        r.1 == EXPONENT_CLAMP ==> (if r.0 {
            signed_digits(x@) <= -(EXPONENT_CLAMP as int)
        } else {
            signed_digits(x@) >= EXPONENT_CLAMP
        }),
{
    let signed = x[0] == 43 || x[0] == 45;
    let neg = x[0] == 45;
    let start: usize = if signed { 1 } else { 0 };
    let y = &x[start..x.len()];
    assert(y@ == (if signed { x@.drop_first() } else { x@ }));
    let mut acc: u128 = 0;
    let mut k: usize = 0;
    assert(y@.subrange(0, 0) =~= Seq::<u8>::empty());
    while k < y.len()
        invariant
            k <= y@.len(),
            all_digits(y@),
            acc <= EXPONENT_CLAMP,
            acc < EXPONENT_CLAMP ==> acc == digits_value(y@.subrange(0, k as int)),
            acc == EXPONENT_CLAMP ==> digits_value(y@.subrange(0, k as int)) >= EXPONENT_CLAMP,
        decreases y@.len() - k,
    {
        proof {
            crate::number::lemma_digits_value_step(y@, k as int);
        }
        assert(is_digit(y@[k as int]));
        let dg: u128 = (y[k] - 48) as u128;
        if acc < EXPONENT_CLAMP {
            let nv = acc * 10 + dg;
            acc = if nv > EXPONENT_CLAMP { EXPONENT_CLAMP } else { nv };
        }
        k = k + 1;
    }
    assert(y@.subrange(0, y@.len() as int) =~= y@);
    (neg, acc)
}

/// The digits of 5^150 (see [`half_min_digits`]).
fn half_min_vec() -> (r: Vec<u8>)
    ensures
        r@ == half_min_digits(),
{
    let r: Vec<u8> = vec![55u8, 48, 48, 54, 52, 57, 50, 51, 50, 49, 54, 50, 52, 48, 56, 53, 51, 53, 52, 54, 49, 56, 54, 52, 55, 57, 49, 54, 52, 52, 57, 53, 56, 48, 54, 53, 54, 52, 48, 49, 51, 48, 57, 55, 48, 57, 51, 56, 50, 53, 55, 56, 56, 53, 56, 55, 56, 53, 51, 52, 49, 52, 49, 57, 52, 52, 56, 57, 53, 53, 52, 49, 51, 52, 50, 57, 51, 48, 51, 48, 48, 55, 52, 51, 51, 49, 57, 48, 57, 52, 49, 56, 49, 48, 54, 48, 55, 57, 49, 48, 49, 53, 54, 50, 53];
    assert(r@ =~= half_min_digits());
    r
}

proof fn lemma_half_min_all_digits()
    ensures
        all_digits(half_min_digits()),
{
    let h = half_min_digits();
    assert forall|i: int| 0 <= i < h.len() implies #[trigger] is_digit(h[i]) by {
        if i < 15 {
            assert(h[i] == half_min_chunk0()[i]);
        } else if i < 30 {
            assert(h[i] == half_min_chunk1()[i - 15]);
        } else if i < 45 {
            assert(h[i] == half_min_chunk2()[i - 30]);
        } else if i < 60 {
            assert(h[i] == half_min_chunk3()[i - 45]);
        } else if i < 75 {
            assert(h[i] == half_min_chunk4()[i - 60]);
        } else if i < 90 {
            assert(h[i] == half_min_chunk5()[i - 75]);
        } else {
            assert(h[i] == half_min_chunk6()[i - 90]);
        }
    }
}

/// The digits of `s[a..b]` (digits and dots) without its dots and leading zeros.
fn significant_digits(s: &[u8], a: usize, b: usize) -> (g: Vec<u8>)
    requires
        a <= b <= s@.len(),
        forall|i: int| a <= i < b ==> is_digit(#[trigger] s@[i]) || s@[i] == 46u8,
    ensures
        g@ == strip_zeros(remove_dots(s@.subrange(a as int, b as int))),
{
    let mut g: Vec<u8> = Vec::new();
    let mut i: usize = a;
    assert(s@.subrange(a as int, a as int) =~= Seq::<u8>::empty());
    assert(strip_zeros(remove_dots(Seq::<u8>::empty())) =~= Seq::<u8>::empty());
    while i < b
        invariant
            a <= i <= b <= s@.len(),
            g@ == strip_zeros(remove_dots(s@.subrange(a as int, i as int))),
        decreases b - i,
    {
        let c = s[i];
        let ghost t = s@.subrange(a as int, i as int);
        assert(s@.subrange(a as int, i + 1) =~= t.push(c));
        proof {
            lemma_remove_dots_push(t, c);
            if c != 46u8 {
                lemma_strip_zeros_push(remove_dots(t), c);
            }
        }
        if c != 46 {
            if g.len() > 0 || c != 48 {
                g.push(c);
            }
        }
        i = i + 1;
    }
    g
}

/// Whether `m * 10^105 <= 5^150 * 10^d`, `m` being the value of the `d`
/// digits `g`: the digits of `g` against those of 5^150, in dictionary order.
fn at_most_half_min(g: &Vec<u8>) -> (r: bool)
    requires
        all_digits(g@),
    ensures
        r == (digits_value(g@) * pow(10, 105) <= pow(5, 150) * pow(10, g@.len())),
{
    let dl = g.len();
    let c = half_min_vec();
    proof {
        lemma_constants();
        lemma_half_min_all_digits();
    }
    let n: usize = if dl > 105 { dl } else { 105 };
    let ghost u = g@ + zeros(105);
    let ghost v = c@ + zeros(dl as nat);
    proof {
        lemma_dv_concat(g@, zeros(105));
        lemma_dv_concat(c@, zeros(dl as nat));
        lemma_dv_zeros(105);
        lemma_dv_zeros(dl as nat);
        assert(all_digits(u)) by {
            assert forall|i: int| 0 <= i < u.len() implies #[trigger] is_digit(u[i]) by {
                if i < dl {
                    assert(u[i] == g@[i]);
                }
            }
        }
        assert(all_digits(v)) by {
            assert forall|i: int| 0 <= i < v.len() implies #[trigger] is_digit(v[i]) by {
                if i < 105 {
                    assert(v[i] == c@[i]);
                }
            }
        }
        lemma_lex_value(u, v);
    }
    assert(lex_le(u, v) == (digits_value(g@) * pow(10, 105) <= pow(5, 150) * pow(10, g@.len())));
    let mut k: usize = 0;
    while k < n
        invariant
            k <= n,
            n == (if dl > 105 { dl } else { 105 }),
            dl == g@.len(),
            c@.len() == 105,
            u == g@ + zeros(105),
            v == c@ + zeros(dl as nat),
            lex_le(u, v) == (digits_value(g@) * pow(10, 105) <= pow(5, 150) * pow(10, g@.len())),
            forall|j: int| 0 <= j < k ==> u[j] == v[j],
        decreases n - k,
    {
        let a = if k < dl { g[k] } else { 48u8 };
        let b = if k < 105 { c[k] } else { 48u8 };
        assert(u[k as int] == a);
        assert(v[k as int] == b);
        if a != b {
            proof {
                lemma_lex_equal_prefix(u, v, k as int);
                let us = u.subrange(k as int, u.len() as int);
                let vs = v.subrange(k as int, v.len() as int);
                assert(us[0] == a && vs[0] == b);
            }
            return a < b;
        }
        k = k + 1;
    }
    proof {
        lemma_lex_equal_prefix(u, v, n as int);
        let us = u.subrange(n as int, u.len() as int);
        let vs = v.subrange(n as int, v.len() as int);
        assert(us =~= vs);
        lemma_lex_refl(us);
    }
    true
}

/// Whether the float literal `s` reads as zero in `f32` (see
/// [`float_literal_is_zero`]).
pub fn is_zero_float_literal(s: &[u8]) -> (r: bool)
    requires
        float_literal(s@),
    ensures
        r == float_literal_is_zero(s@),
{
    let start: usize = if s.len() > 0 && (s[0] == 43 || s[0] == 45) { 1 } else { 0 };
    let ghost rr = unsigned_part(s@);
    assert(rr =~= s@.subrange(start as int, s@.len() as int));
    let inf: Vec<u8> = vec![105u8, 110, 102];
    let infinity: Vec<u8> = vec![105u8, 110, 102, 105, 110, 105, 116, 121];
    let nan: Vec<u8> = vec![110u8, 97, 110];
    assert(inf@ =~= crate::number::word_inf());
    assert(infinity@ =~= crate::number::word_infinity());
    assert(nan@ =~= crate::number::word_nan());
    if matches_word(s, start, inf.as_slice()) || matches_word(s, start, infinity.as_slice())
        || matches_word(s, start, nan.as_slice()) {
        return false;
    }
    let rest = &s[start..s.len()];
    assert(rest@ == rr);
    assert(valid_number(rr));
    let mend = match find_byte2(101, 69, rest) {
        None => rest.len(),
        Some(e) => e,
    };
    let ghost mt = rest@.subrange(0, mend as int);
    assert(mt =~= mantissa_part(rr));
    assert(valid_mantissa(mt));
    proof {
        lemma_mantissa_chars(mt);
        lemma_remove_dots_digits(mt);
        lemma_strip_zeros(remove_dots(mt));
    }
    assert forall|i: int| 0 <= i < mend implies is_digit(#[trigger] rest@[i]) || rest@[i] == 46u8 by {
        assert(rest@[i] == mt[i]);
    }
    let g = significant_digits(rest, 0, mend);
    let ghost m = digits_value(remove_dots(mt));
    let ghost e = exponent_value(rr) - frac_len(mt);
    if g.len() == 0 {
        assert(digits_value(g@) == 0);
        return true;
    }
    let mant = &rest[0..mend];
    assert(mant@ == mt);
    let p: usize = match find_byte(46, mant) {
        None => 0,
        Some(d) => mend - d - 1,
    };
    assert(p as int == frac_len(mt));
    let (neg, xc) = if mend < rest.len() {
        let x = &rest[mend + 1..rest.len()];
        assert(x@ =~= rr.subrange(mend + 1, rr.len() as int));
        exponent_clamped(x)
    } else {
        (false, 0u128)
    };
    assert(xc < EXPONENT_CLAMP ==> exponent_value(rr) == (if neg { -(xc as int) } else { xc as int }));
    assert(xc == EXPONENT_CLAMP ==> (if neg {
        exponent_value(rr) <= -(EXPONENT_CLAMP as int)
    } else {
        exponent_value(rr) >= EXPONENT_CLAMP
    }));
    let dl = g.len();
    let base: i128 = dl as i128 - 1 - p as i128 + 46;
    let t: i128 = if neg { base - xc as i128 } else { base + xc as i128 };
    proof {
        lemma_dv_bound(g@);
        lemma_dv_lower(g@);
        lemma_decide(m, dl as nat, e);
    }
    assert(xc < EXPONENT_CLAMP ==> t == dl - 1 + e + 46);
    if t < 0 {
        return true;
    }
    if t > 0 {
        return false;
    }
    assert(dl - 1 + e == -46);
    at_most_half_min(&g)
}

} // verus!
