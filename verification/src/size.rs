//! Sizes as pacman prints them ("5.86 MiB") and as this program prints them.
//!
//! A size is read as `str::parse::<f64>` reads its number, in every
//! notation that it takes (sign, point, exponent, `inf`, `nan`): rounded to
//! the nearest `f64`. That is scaled by its unit; bytes are the floor of
//! that, held between 0 and `u64::MAX`.
use vstd::prelude::*;
use vstd::arithmetic::div_mod::{
    lemma_div_denominator, lemma_div_multiples_vanish_fancy, lemma_fundamental_div_mod,
    lemma_hoist_over_denominator, lemma_div_pos_is_pos, lemma_div_is_ordered,
};
use vstd::arithmetic::mul::{lemma_mul_nonnegative, lemma_mul_is_distributive_add, lemma_mul_is_associative, lemma_mul_is_commutative, lemma_mul_inequality, lemma_mul_strictly_positive};
use crate::text::{chars_of, compare_chars, decimal, digit, digit_char, push_decimal, push_str, string_of, sub_vec, words, word_ranges};

verus! {

// ---------------------------------------------------------------------------
// digits
// ---------------------------------------------------------------------------

/// An ASCII decimal digit.
pub open spec fn is_digit(c: char) -> bool {
    48 <= c as u32 <= 57
}

/// The value of the decimal digit `c`.
pub open spec fn digit_value(c: char) -> nat {
    (c as u32 - 48) as nat
}

/// The number that the decimal digits `d` denote (0 for no digits).
pub open spec fn num(d: Seq<char>) -> nat
    decreases d.len(),
{
    if d.len() == 0 {
        0
    } else {
        num(d.drop_last()) * 10 + digit_value(d.last())
    }
}

/// 10 to the power `n`.
pub open spec fn pow10(n: nat) -> nat
    decreases n,
{
    if n == 0 {
        1
    } else {
        10 * pow10((n - 1) as nat)
    }
}

/// `n` zero digits.
pub open spec fn zeros(n: nat) -> Seq<char> {
    Seq::new(n, |i: int| '0')
}

/// Number of leading decimal digits of `s`.
pub open spec fn digit_run(s: Seq<char>) -> nat
    decreases s.len(),
{
    if s.len() > 0 && is_digit(s[0]) {
        1 + digit_run(s.drop_first())
    } else {
        0
    }
}

pub proof fn lemma_pow10_positive(n: nat)
    ensures
        pow10(n) >= 1,
    decreases n,
{
    if n > 0 {
        lemma_pow10_positive((n - 1) as nat);
    }
}

pub proof fn lemma_pow10_adds(a: nat, b: nat)
    ensures
        pow10(a + b) == pow10(a) * pow10(b),
    decreases b,
{
    if b > 0 {
        let b1 = (b - 1) as nat;
        lemma_pow10_adds(a, b1);
        assert((a + b - 1) as nat == a + b1);
        assert(pow10(a + b) == 10 * pow10(a + b1));
        let pa = pow10(a) as int;
        let pb = pow10(b1) as int;
        assert(10 * (pa * pb) == pa * (10 * pb)) by (nonlinear_arith);
        assert(pow10(b) == 10 * pb);
    } else {
        assert(a + b == a);
        assert(pow10(0) == 1);
    }
}

/// The digits of `a` followed by those of `b` denote `num(a) * 10^|b| + num(b)`.
pub proof fn lemma_num_concat(a: Seq<char>, b: Seq<char>)
    ensures
        num(a + b) == num(a) * pow10(b.len()) + num(b),
    decreases b.len(),
{
    if b.len() == 0 {
        assert(a + b =~= a);
        assert(pow10(0) == 1);
        assert(num(b) == 0);
    } else {
        let c = b.drop_last();
        lemma_num_concat(a, c);
        assert((a + b).drop_last() =~= a + c);
        assert((a + b).last() == b.last());
        assert(pow10(b.len()) == 10 * pow10(c.len()));
        let x = num(a) as int;
        let p = pow10(c.len()) as int;
        let y = num(c) as int;
        let dv = digit_value(b.last()) as int;
        assert(num(a + b) == num(a + c) * 10 + dv);
        assert(num(a + c) == x * p + y);
        assert(num(b) == y * 10 + dv);
        assert((x * p + y) * 10 + dv == x * (10 * p) + (y * 10 + dv)) by (nonlinear_arith);
    }
}

/// Zero digits in front change nothing.
pub proof fn lemma_num_leading_zeros(n: nat, d: Seq<char>)
    ensures
        num(zeros(n) + d) == num(d),
    decreases n,
{
    lemma_num_concat(zeros(n), d);
    lemma_num_zeros(n);
}

pub proof fn lemma_num_zeros(n: nat)
    ensures
        num(zeros(n)) == 0,
    decreases n,
{
    if n > 0 {
        assert(zeros(n).drop_last() =~= zeros((n - 1) as nat));
        lemma_num_zeros((n - 1) as nat);
    }
}

/// `num(d) < 10^|d|`.
pub proof fn lemma_num_bound(d: Seq<char>)
    requires
        forall|i: int| 0 <= i < d.len() ==> is_digit(#[trigger] d[i]),
    ensures
        num(d) < pow10(d.len()),
    decreases d.len(),
{
    if d.len() > 0 {
        lemma_num_bound(d.drop_last());
        assert(is_digit(d[d.len() - 1]));
        assert(num(d.drop_last()) + 1 <= pow10((d.len() - 1) as nat));
        assert(num(d.drop_last()) * 10 + 10 <= pow10((d.len() - 1) as nat) * 10) by (nonlinear_arith)
            requires
                num(d.drop_last()) + 1 <= pow10((d.len() - 1) as nat),
        ;
    }
}

// ---------------------------------------------------------------------------
// the number that a literal denotes
// ---------------------------------------------------------------------------

/// ASCII letters compare without regard to case.
pub open spec fn fold_case(c: char) -> u32 {
    if 65 <= c as u32 <= 90 {
        (c as u32 + 32) as u32
    } else {
        c as u32
    }
}

/// `a` and `b` are equal but for the case of ASCII letters.
pub open spec fn eq_ignore_ascii_case(a: Seq<char>, b: Seq<char>) -> bool {
    a.len() == b.len() && forall|i: int| 0 <= i < a.len() ==> fold_case(#[trigger] a[i])
        == fold_case(b[i])
}

/// What a number literal denotes.
pub enum FloatLiteral {
    /// `±` the number whose decimal digits are `digits`, with the decimal
    /// point after the first `point` of them (`point` may lie outside them).
    Finite { negative: bool, digits: Seq<char>, point: int },
    Infinite { negative: bool },
    NotANumber,
}

/// The digits of a number in front of its decimal point, when the point
/// stands after the first `point` of the digits `d`.
pub open spec fn integer_digits(d: Seq<char>, point: int) -> Seq<char> {
    if point <= 0 {
        Seq::empty()
    } else if point >= d.len() {
        d + zeros((point - d.len()) as nat)
    } else {
        d.take(point)
    }
}

/// The digits of that number after its decimal point.
pub open spec fn fraction_digits(d: Seq<char>, point: int) -> Seq<char> {
    if point <= 0 {
        zeros((-point) as nat) + d
    } else if point >= d.len() {
        Seq::empty()
    } else {
        d.skip(point)
    }
}

/// The exponent written after `e` or `E`: an optional sign and at least one digit.
pub open spec fn exponent_value(r: Seq<char>) -> Option<int> {
    let exp_negative = r.len() > 0 && r[0] == '-';
    let digits = if r.len() > 0 && (r[0] == '+' || r[0] == '-') {
        r.drop_first()
    } else {
        r
    };
    if digits.len() == 0 || digit_run(digits) != digits.len() {
        None
    } else if exp_negative {
        Some(-num(digits))
    } else {
        Some(num(digits) as int)
    }
}

/// Number of digits in front of the point of a decimal literal.
pub open spec fn int_len(body: Seq<char>) -> nat {
    digit_run(body)
}

/// Whether the digits in front are followed by a point.
pub open spec fn has_point(body: Seq<char>) -> bool {
    let after = body.skip(int_len(body) as int);
    after.len() > 0 && after[0] == '.'
}

/// Number of digits after the point.
pub open spec fn frac_len(body: Seq<char>) -> nat {
    if has_point(body) {
        digit_run(body.skip(int_len(body) as int + 1))
    } else {
        0
    }
}

/// What follows the digits (and the point) of a decimal literal.
pub open spec fn after_mantissa(body: Seq<char>) -> Seq<char> {
    if has_point(body) {
        body.skip(int_len(body) as int + 1 + frac_len(body) as int)
    } else {
        body.skip(int_len(body) as int)
    }
}

/// All digits of a decimal literal, in front of and after the point.
pub open spec fn mantissa(body: Seq<char>) -> Seq<char> {
    if has_point(body) {
        body.take(int_len(body) as int) + body.subrange(
            int_len(body) as int + 1,
            int_len(body) as int + 1 + frac_len(body) as int,
        )
    } else {
        body.take(int_len(body) as int)
    }
}

/// A decimal literal without sign: digits, an optional point and digits,
/// an optional exponent; at least one digit before the exponent.
pub open spec fn decimal_literal(negative: bool, body: Seq<char>) -> Option<FloatLiteral> {
    let rest = after_mantissa(body);
    if int_len(body) + frac_len(body) == 0 {
        None
    } else if rest.len() == 0 {
        Some(FloatLiteral::Finite { negative, digits: mantissa(body), point: int_len(body) as int })
    } else if rest[0] == 'e' || rest[0] == 'E' {
        match exponent_value(rest.drop_first()) {
            None => None,
            Some(e) => Some(
                FloatLiteral::Finite { negative, digits: mantissa(body), point: int_len(body) + e },
            ),
        }
    } else {
        None
    }
}

/// What `str::parse::<f64>` reads in `t`, as an exact value; `None` where it fails.
pub open spec fn float_literal(t: Seq<char>) -> Option<FloatLiteral> {
    let negative = t.len() > 0 && t[0] == '-';
    let body = if t.len() > 0 && (t[0] == '+' || t[0] == '-') {
        t.drop_first()
    } else {
        t
    };
    if body.len() == 0 {
        None
    } else if eq_ignore_ascii_case(body, "inf"@) || eq_ignore_ascii_case(body, "infinity"@) {
        Some(FloatLiteral::Infinite { negative })
    } else if eq_ignore_ascii_case(body, "nan"@) {
        Some(FloatLiteral::NotANumber)
    } else {
        decimal_literal(negative, body)
    }
}

/// The factor of a size unit.
pub open spec fn unit_factor(u: Seq<char>) -> Option<nat> {
    if u == "B"@ {
        Some(1)
    } else if u == "KiB"@ {
        Some(1024)
    } else if u == "MiB"@ {
        Some(1048576)
    } else if u == "GiB"@ {
        Some(1073741824)
    } else if u == "TiB"@ {
        Some(1099511627776)
    } else {
        None
    }
}

/// Number of binary digits of `n` (none for 0).
pub open spec fn bit_len(n: nat) -> nat
    decreases n,
{
    if n == 0 {
        0
    } else {
        1 + bit_len(n / 2)
    }
}

/// The floor of the `f64` nearest to `p / q` (`q > 0`), that is, of the
/// number rounded to 53 significant bits, ties to the even significand.
///
/// With `n` the floor of the number: from `2^53` on, the last place of the
/// significand is `2^s`, with `s` the bits of `n` past 53, so the result is
/// `n` rounded at that place; what lies below `n` only breaks a tie. Below
/// `2^53`, the result is `n` or `n + 1`: with `b` the bits of `n`, numbers
/// between `n` and `n + 1` have their last place at `2^(b - 53)`, and the
/// nearest `f64` is `n + 1` when the fraction exceeds `1 - 2^-t` with
/// `t = 54 - b`; at exactly that fraction the tie goes to `n + 1` (whose
/// significand is even) unless `t = 1`, where it goes to the even of `n`
/// and `n + 1`.
pub open spec fn nearest_floor(p: nat, q: nat) -> nat {
    let n = p / q;
    if n >= two_pow(53) {
        let s = (bit_len(n) - 53) as nat;
        let k = n / two_pow(s);
        let r = n % two_pow(s);
        let half = two_pow((s - 1) as nat);
        let up = r > half || (r == half && (p % q != 0 || k % 2 == 1));
        (if up {
            k + 1
        } else {
            k
        }) * two_pow(s)
    } else {
        let t = (54 - bit_len(n)) as nat;
        let low = (p * two_pow(t) / q) % two_pow(t);
        let up = low == two_pow(t) - 1 && ((p * two_pow(t)) % q != 0 || t >= 2 || n % 2 == 1);
        if up {
            n + 1
        } else {
            n
        }
    }
}

/// `(x as f64 * m as f64) as u64` for the non-negative number `x` with
/// decimal digits `d` and its point after `point` of them, `m` a power of
/// two: `x` rounded to the nearest `f64`, times `m` (exact), truncated and
/// held between 0 and `u64::MAX`. Scaling by `m` commutes with the rounding;
/// below `2^-1022`, where an `f64` holds fewer bits, the product is below 1
/// either way.
pub open spec fn rounded_floor(d: Seq<char>, point: int, m: nat) -> u64 {
    let i = integer_digits(d, point);
    let f = fraction_digits(d, point);
    let p = num(i + f) * m;
    let q = pow10(f.len());
    if p / q > u64::MAX {
        u64::MAX
    } else {
        let r = nearest_floor(p, q);
        if r > u64::MAX {
            u64::MAX
        } else {
            r as u64
        }
    }
}

/// Bytes of a size text: its two whitespace-separated words are a number
/// and a unit (B, KiB, MiB, GiB, TiB); anything else gives 0. The number is
/// rounded to the nearest `f64` as `str::parse::<f64>` does, scaled by the
/// unit and truncated. Negative sizes and not-a-number give 0, infinity
/// gives `u64::MAX`.
pub open spec fn size_bytes(s: Seq<char>) -> u64 {
    let w = words(s);
    if w.len() != 2 {
        0
    } else {
        match unit_factor(w[1]) {
            None => 0,
            Some(m) => match float_literal(w[0]) {
                None => 0,
                Some(FloatLiteral::NotANumber) => 0,
                Some(FloatLiteral::Infinite { negative }) => if negative {
                    0
                } else {
                    u64::MAX
                },
                Some(FloatLiteral::Finite { negative, digits, point }) => if negative {
                    0
                } else {
                    rounded_floor(digits, point, m)
                },
            },
        }
    }
}

} // verus!

verus! {

// ---------------------------------------------------------------------------
// scaling a decimal fraction
// ---------------------------------------------------------------------------

/// `floor(0.f * m)` computed digit by digit from the last digit of `f` to the first.
pub open spec fn frac_carry(f: Seq<char>, m: nat) -> nat
    decreases f.len(),
{
    if f.len() == 0 {
        0
    } else {
        (digit_value(f[0]) * m + frac_carry(f.drop_first(), m)) / 10
    }
}

pub proof fn lemma_frac_carry_bound(f: Seq<char>, m: nat)
    requires
        m >= 1,
        forall|i: int| 0 <= i < f.len() ==> is_digit(#[trigger] f[i]),
    ensures
        frac_carry(f, m) < m,
    decreases f.len(),
{
    if f.len() > 0 {
        let g = f.drop_first();
        assert forall|i: int| 0 <= i < g.len() implies is_digit(#[trigger] g[i]) by {
            assert(g[i] == f[i + 1]);
        }
        lemma_frac_carry_bound(g, m);
        assert(is_digit(f[0]));
        let dv = digit_value(f[0]) as int;
        let c = frac_carry(g, m) as int;
        assert(dv * m + c <= 10 * m - 1) by (nonlinear_arith)
            requires
                0 <= dv <= 9,
                0 <= c < m,
        ;
    }
}

/// The carry is the floor of the fraction `0.f` times `m`.
pub proof fn lemma_frac_carry_value(f: Seq<char>, m: nat)
    requires
        forall|i: int| 0 <= i < f.len() ==> is_digit(#[trigger] f[i]),
    ensures
        frac_carry(f, m) == num(f) * m / pow10(f.len()),
    decreases f.len(),
{
    if f.len() == 0 {
        assert(num(f) == 0);
        assert(pow10(0) == 1);
    } else {
        let g = f.drop_first();
        assert forall|i: int| 0 <= i < g.len() implies is_digit(#[trigger] g[i]) by {
            assert(g[i] == f[i + 1]);
        }
        lemma_frac_carry_value(g, m);
        let head = seq![f[0]];
        assert(head + g =~= f);
        lemma_num_concat(head, g);
        assert(head.drop_last() =~= Seq::<char>::empty());
        assert(num(Seq::<char>::empty()) == 0);
        assert(head.last() == f[0]);
        assert(num(head) == num(head.drop_last()) * 10 + digit_value(head.last()));
        assert(num(head) == digit_value(f[0]));
        let n = g.len();
        let big_n = pow10(n) as int;
        lemma_pow10_positive(n);
        let dv = digit_value(f[0]) as int;
        let x = (num(g) * m) as int;
        let q = x / big_n;
        let r = x % big_n;
        lemma_fundamental_div_mod(x, big_n);
        assert(0 <= r < big_n);
        assert(num(f) * m == dv * m * big_n + x) by (nonlinear_arith)
            requires
                num(f) == dv * big_n + num(g),
                x == num(g) * m,
        ;
        assert(num(f) * m == big_n * (dv * m + q) + r) by (nonlinear_arith)
            requires
                num(f) * m == dv * m * big_n + x,
                x == big_n * q + r,
        ;
        assert(pow10(f.len()) == 10 * big_n);
        lemma_mul_nonnegative(dv * m, 1);
        assert(dv * m >= 0) by (nonlinear_arith)
            requires
                dv >= 0,
                m >= 0,
        ;
        lemma_div_pos_is_pos(x, big_n);
        lemma_div_multiples_vanish_fancy(dv * m + q, r, big_n);
        lemma_div_denominator((num(f) * m) as int, big_n, 10);
        assert(big_n * 10 == 10 * big_n);
    }
}

/// Leading zeros of a fraction divide its carry by a power of ten.
pub proof fn lemma_frac_carry_zeros(n: nat, d: Seq<char>, m: nat)
    ensures
        frac_carry(zeros(n) + d, m) == frac_carry(d, m) / pow10(n),
    decreases n,
{
    if n == 0 {
        assert(zeros(0) + d =~= d);
        assert(pow10(0) == 1);
    } else {
        let rest = zeros((n - 1) as nat) + d;
        assert((zeros(n) + d).drop_first() =~= rest);
        assert((zeros(n) + d)[0] == '0');
        assert(digit_value('0') == 0);
        assert(frac_carry(zeros(n) + d, m) == (0 * m + frac_carry(rest, m)) / 10);
        lemma_frac_carry_zeros((n - 1) as nat, d, m);
        lemma_pow10_positive((n - 1) as nat);
        lemma_div_denominator(frac_carry(d, m) as int, pow10((n - 1) as nat) as int, 10);
        assert(pow10(n) == 10 * pow10((n - 1) as nat));
        assert(pow10((n - 1) as nat) * 10 == 10 * pow10((n - 1) as nat));
    }
}

/// Whether `0.f * m` is a whole number, decided digit by digit from the
/// last digit of `f` to the first, as `frac_carry` goes.
pub open spec fn frac_whole(f: Seq<char>, m: nat) -> bool
    decreases f.len(),
{
    if f.len() == 0 {
        true
    } else {
        frac_whole(f.drop_first(), m) && (digit_value(f[0]) * m + frac_carry(f.drop_first(), m))
            % 10 == 0
    }
}

/// `frac_whole` says whether `10^|f|` divides `num(f) * m`.
pub proof fn lemma_frac_whole_value(f: Seq<char>, m: nat)
    requires
        forall|i: int| 0 <= i < f.len() ==> is_digit(#[trigger] f[i]),
    ensures
        frac_whole(f, m) == ((num(f) * m) % pow10(f.len()) == 0),
    decreases f.len(),
{
    if f.len() == 0 {
        assert(num(f) == 0);
        assert(pow10(0) == 1);
    } else {
        let g = f.drop_first();
        assert forall|i: int| 0 <= i < g.len() implies is_digit(#[trigger] g[i]) by {
            assert(g[i] == f[i + 1]);
        }
        lemma_frac_whole_value(g, m);
        lemma_frac_carry_value(g, m);
        let head = seq![f[0]];
        assert(head + g =~= f);
        lemma_num_concat(head, g);
        assert(head.drop_last() =~= Seq::<char>::empty());
        assert(num(Seq::<char>::empty()) == 0);
        assert(head.last() == f[0]);
        assert(num(head) == num(head.drop_last()) * 10 + digit_value(head.last()));
        let big_n = pow10(g.len()) as int;
        lemma_pow10_positive(g.len());
        let dv = digit_value(f[0]) as int;
        let x = (num(g) * m) as int;
        let q = x / big_n;
        let r = x % big_n;
        lemma_fundamental_div_mod(x, big_n);
        let a = dv * m + q;
        assert(dv * m >= 0) by (nonlinear_arith)
            requires
                dv >= 0,
                m >= 0,
        ;
        lemma_div_pos_is_pos(x, big_n);
        let y = (num(f) * m) as int;
        assert(y == big_n * a + r) by (nonlinear_arith)
            requires
                num(f) == dv * big_n + num(g),
                x == num(g) * m,
                x == big_n * q + r,
                y == num(f) * m,
                a == dv * m + q,
        ;
        lemma_div_multiples_vanish_fancy(a, r, big_n);
        vstd::arithmetic::div_mod::lemma_mod_multiples_vanish(a, r, big_n);
        vstd::arithmetic::div_mod::lemma_small_mod(r as nat, big_n as nat);
        vstd::arithmetic::div_mod::lemma_breakdown(y, big_n, 10);
        assert(pow10(f.len()) == 10 * big_n);
        assert(big_n * 10 == 10 * big_n);
        assert(y / big_n == a);
        assert(y % big_n == r);
        let am = a % 10;
        assert(0 <= am < 10);
        assert(big_n * am >= 0) by (nonlinear_arith)
            requires
                big_n > 0,
                am >= 0,
        ;
        assert(big_n * am == 0 <==> am == 0) by (nonlinear_arith)
            requires
                big_n > 0,
                am >= 0,
        ;
    }
}

/// Leading zeros of a fraction: `0.00..0f * m` is whole when `0.f * m` is
/// and its floor is a multiple of the power of ten.
pub proof fn lemma_frac_whole_zeros(n: nat, d: Seq<char>, m: nat)
    ensures
        frac_whole(zeros(n) + d, m) == (frac_whole(d, m) && frac_carry(d, m) % pow10(n) == 0),
    decreases n,
{
    if n == 0 {
        assert(zeros(0) + d =~= d);
        assert(pow10(0) == 1);
    } else {
        let rest = zeros((n - 1) as nat) + d;
        assert((zeros(n) + d).drop_first() =~= rest);
        assert((zeros(n) + d)[0] == '0');
        assert(digit_value('0') == 0);
        lemma_frac_whole_zeros((n - 1) as nat, d, m);
        lemma_frac_carry_zeros((n - 1) as nat, d, m);
        let fc = frac_carry(d, m) as int;
        let pt = pow10((n - 1) as nat) as int;
        lemma_pow10_positive((n - 1) as nat);
        assert(pow10(n) == 10 * pow10((n - 1) as nat));
        assert(pt * 10 == 10 * pt);
        vstd::arithmetic::div_mod::lemma_breakdown(fc, pt, 10);
        let b = (fc / pt) % 10;
        assert(pt * b == 0 <==> b == 0) by (nonlinear_arith)
            requires
                pt > 0,
                b >= 0,
        ;
        assert(pt * b >= 0) by (nonlinear_arith)
            requires
                pt > 0,
                b >= 0,
        ;
        assert((0 * m + frac_carry(rest, m)) == frac_carry(rest, m));
    }
}

/// Whether `num(i + f) * m` is a multiple of `10^|f|` depends on `f` alone.
pub proof fn lemma_whole_parts(i: Seq<char>, f: Seq<char>, m: nat)
    requires
        forall|k: int| 0 <= k < f.len() ==> is_digit(#[trigger] f[k]),
    ensures
        ((num(i + f) * m) % pow10(f.len()) == 0) == frac_whole(f, m),
{
    lemma_num_concat(i, f);
    lemma_frac_whole_value(f, m);
    lemma_pow10_positive(f.len());
    let pf = pow10(f.len()) as int;
    let a = (num(i) * m) as int;
    let b = (num(f) * m) as int;
    assert(num(i + f) * m == pf * a + b) by (nonlinear_arith)
        requires
            num(i + f) == num(i) * pf + num(f),
            a == num(i) * m,
            b == num(f) * m,
    ;
    vstd::arithmetic::div_mod::lemma_mod_multiples_vanish(a, b, pf);
}

/// The number of binary digits of `n` places it between two powers of two.
pub proof fn lemma_bit_len(n: nat)
    ensures
        n < two_pow(bit_len(n)),
        n > 0 ==> two_pow((bit_len(n) - 1) as nat) <= n,
    decreases n,
{
    if n > 0 {
        lemma_bit_len(n / 2);
        assert(two_pow(bit_len(n)) == 2 * two_pow(bit_len(n / 2)));
        if n / 2 > 0 {
            assert(two_pow((bit_len(n) - 1) as nat) == two_pow(bit_len(n / 2)));
            assert(two_pow((bit_len(n / 2) - 1) as nat) * 2 == two_pow(bit_len(n / 2)));
        } else {
            assert(bit_len(n / 2) == 0);
            assert(two_pow(0) == 1);
        }
    }
}

/// A number below half of what it is divided by rounds to 0.
pub proof fn lemma_nearest_small(p: nat, q: nat)
    requires
        q > 0,
        2 * p < q,
    ensures
        p / q == 0,
        nearest_floor(p, q) == 0,
{
    vstd::arithmetic::div_mod::lemma_basic_div(p as int, q as int);
    assert(bit_len(0) == 0);
    lemma_two_pow_big();
    let t = two_pow(54);
    let h = two_pow(53);
    assert(p * t < q * h) by (nonlinear_arith)
        requires
            2 * p < q,
            t == 2 * h,
            h > 0,
    ;
    let w = p * t / q;
    lemma_fundamental_div_mod((p * t) as int, q as int);
    assert(w < h) by (nonlinear_arith)
        requires
            p * t == q * w + (p * t) % q,
            (p * t) % q >= 0,
            p * t < q * h,
            q > 0,
    ;
    vstd::arithmetic::div_mod::lemma_small_mod(w, t);
}

pub proof fn lemma_pow10_monotonic(a: nat, b: nat)
    requires
        a <= b,
    ensures
        pow10(a) <= pow10(b),
    decreases b,
{
    if a < b {
        lemma_pow10_monotonic(a, (b - 1) as nat);
        lemma_pow10_positive((b - 1) as nat);
    }
}

/// The floor of the number times `m`, from its integer and fraction parts.
pub proof fn lemma_scaled_parts(d: Seq<char>, point: int, m: nat)
    requires
        forall|i: int| 0 <= i < d.len() ==> is_digit(#[trigger] d[i]),
    ensures
        num(integer_digits(d, point) + fraction_digits(d, point)) * m / pow10(
            fraction_digits(d, point).len(),
        ) == num(integer_digits(d, point)) * m + frac_carry(fraction_digits(d, point), m),
        forall|i: int|
            0 <= i < fraction_digits(d, point).len() ==> is_digit(
                #[trigger] fraction_digits(d, point)[i],
            ),
{
    let i = integer_digits(d, point);
    let f = fraction_digits(d, point);
    assert forall|j: int| 0 <= j < f.len() implies is_digit(#[trigger] f[j]) by {
        if point <= 0 {
            if j < -point {
                assert(f[j] == '0');
            } else {
                assert(f[j] == d[j + point]);
            }
        } else if point < d.len() {
            assert(f[j] == d[j + point]);
        }
    }
    lemma_num_concat(i, f);
    lemma_frac_carry_value(f, m);
    lemma_pow10_positive(f.len());
    let p = pow10(f.len()) as int;
    let x = num(f) * m;
    assert((num(i) * p + num(f)) * m == x + (num(i) * m) * p) by (nonlinear_arith)
        requires
            x == num(f) * m,
    ;
    lemma_hoist_over_denominator(x as int, (num(i) * m) as int, p as nat);
}

} // verus!

verus! {

/// `x`, held to at most `2^64`.
pub open spec fn cap64(x: nat) -> nat {
    if x > 0x1_0000_0000_0000_0000 {
        0x1_0000_0000_0000_0000
    } else {
        x
    }
}

fn digit_of(c: char) -> (r: u128)
    requires
        is_digit(c),
    ensures
        r == digit_value(c),
        r <= 9,
{
    (c as u32 - 48) as u128
}

/// The parts of the number with digits `d` and its point after `point` of
/// them, times `m`: the integer digits' value held to at most `2^64`, the
/// floor of the fraction times `m`, and whether the fraction times `m` is
/// whole; computed without holding the whole number.
fn parts(d: &Vec<char>, point: i128, m: u128) -> (r: (u128, u128, bool))
    requires
        forall|i: int| 0 <= i < d@.len() ==> is_digit(#[trigger] d@[i]),
        1 <= m <= 0x4000_0000_0000_0000_0000_0000,
        -0x1_0000_0000_0000_0000_0000 <= point <= 0x1_0000_0000_0000_0000_0000,
    ensures
        r.0 == cap64(num(integer_digits(d@, point as int))),
        r.1 == frac_carry(fraction_digits(d@, point as int), m as nat),
        r.1 < m,
        r.2 == frac_whole(fraction_digits(d@, point as int), m as nat),
        forall|i: int|
            0 <= i < fraction_digits(d@, point as int).len() ==> is_digit(
                #[trigger] fraction_digits(d@, point as int)[i],
            ),
{
    let len = d.len();
    let ghost ip = integer_digits(d@, point as int);
    let ghost fp = fraction_digits(d@, point as int);
    let cap: u128 = 0x1_0000_0000_0000_0000;
    let mut a: u128 = 0;
    if point > 0 {
        let upto: usize = if point < len as i128 {
            point as usize
        } else {
            len
        };
        let mut j: usize = 0;
        assert(d@.take(0) =~= Seq::<char>::empty());
        while j < upto
            invariant
                j <= upto <= len == d@.len(),
                forall|i: int| 0 <= i < d@.len() ==> is_digit(#[trigger] d@[i]),
                cap == 0x1_0000_0000_0000_0000,
                a == cap64(num(d@.take(j as int))),
            decreases upto - j,
        {
            let x = a * 10 + digit_of(d[j]);
            proof {
                let t = d@.take(j + 1);
                assert(t.drop_last() =~= d@.take(j as int));
                assert(num(t) == num(d@.take(j as int)) * 10 + digit_value(d@[j as int]));
            }
            a = if x > cap {
                cap
            } else {
                x
            };
            j = j + 1;
        }
        if point > len as i128 {
            let z: i128 = point - len as i128;
            let mut t: i128 = 0;
            assert(upto == len);
            assert(d@.take(len as int) =~= d@);
            assert(a == cap64(num(d@)));
            assert(pow10(0) == 1);
            assert(num(d@) * pow10(0) == num(d@));
            while t < z && a != 0 && a < cap
                invariant
                    0 <= t <= z,
                    cap == 0x1_0000_0000_0000_0000,
                    a == cap64(num(d@) * pow10(t as nat)),
                decreases z - t,
            {
                assert(pow10((t + 1) as nat) == 10 * pow10(t as nat));
                assert(num(d@) * pow10((t + 1) as nat) == 10 * (num(d@) * pow10(t as nat))) by (nonlinear_arith)
                    requires
                        pow10((t + 1) as nat) == 10 * pow10(t as nat),
                ;
                a = if a * 10 > cap {
                    cap
                } else {
                    a * 10
                };
                t = t + 1;
            }
            proof {
                lemma_num_concat(d@, zeros(z as nat));
                lemma_num_zeros(z as nat);
                assert(ip == d@ + zeros(z as nat));
                assert(zeros(z as nat).len() == z);
                assert(num(ip) == num(d@) * pow10(z as nat));
                lemma_pow10_monotonic(t as nat, z as nat);
                let nd = num(d@) as int;
                assert(nd * pow10(t as nat) <= nd * pow10(z as nat)) by (nonlinear_arith)
                    requires
                        nd >= 0,
                        pow10(t as nat) <= pow10(z as nat),
                ;
                if t == z {
                } else if a == 0 {
                    lemma_pow10_positive(t as nat);
                    assert(nd == 0) by (nonlinear_arith)
                        requires
                            nd * pow10(t as nat) == 0,
                            pow10(t as nat) >= 1,
                            nd >= 0,
                    ;
                    assert(nd * pow10(z as nat) == 0) by (nonlinear_arith)
                        requires
                            nd == 0,
                    ;
                    assert(num(ip) == 0);
                } else {
                    assert(a == cap);
                    assert(nd * pow10(t as nat) >= cap);
                    assert(num(ip) >= cap);
                }
                assert(a == cap64(num(ip)));
            }
        } else {
            assert(d@.take(upto as int) =~= ip) by {
                if point >= len as i128 {
                    assert(ip =~= d@ + zeros(0));
                }
            }
        }
    }
    let mut c: u128 = 0;
    let mut whole = true;
    if point < len as i128 {
        let from: usize = if point > 0 {
            point as usize
        } else {
            0
        };
        let mut j = len;
        assert(d@.subrange(len as int, len as int) =~= Seq::<char>::empty());
        while j > from
            invariant
                from <= j <= len == d@.len(),
                forall|i: int| 0 <= i < d@.len() ==> is_digit(#[trigger] d@[i]),
                1 <= m <= 0x4000_0000_0000_0000_0000_0000,
                c == frac_carry(d@.subrange(j as int, len as int), m as nat),
                whole == frac_whole(d@.subrange(j as int, len as int), m as nat),
                c < m,
            decreases j,
        {
            proof {
                let s = d@.subrange(j - 1, len as int);
                assert(s.drop_first() =~= d@.subrange(j as int, len as int));
                assert(s[0] == d@[j - 1]);
                assert forall|i: int| 0 <= i < s.len() implies is_digit(#[trigger] s[i]) by {
                    assert(s[i] == d@[j - 1 + i]);
                }
                lemma_frac_carry_bound(s, m as nat);
            }
            let x = digit_of(d[j - 1]) * m + c;
            whole = whole && x % 10 == 0;
            c = x / 10;
            j = j - 1;
        }
        if point < 0 {
            let z: i128 = -point;
            let mut t: i128 = 0;
            assert(d@.subrange(0, len as int) =~= d@);
            assert(pow10(0) == 1);
            assert(c == frac_carry(d@, m as nat));
            let ghost w0 = whole;
            assert(w0 == frac_whole(d@, m as nat));
            proof {
                vstd::arithmetic::div_mod::lemma_div_basics(c as int);
                vstd::arithmetic::div_mod::lemma_small_mod(0, 1);
                vstd::arithmetic::div_mod::lemma_mod_multiples_vanish(c as int, 0, 1);
            }
            while t < z && c != 0
                invariant
                    0 <= t <= z,
                    c == frac_carry(d@, m as nat) / pow10(t as nat),
                    whole == (w0 && frac_carry(d@, m as nat) % pow10(t as nat) == 0),
                decreases z - t,
            {
                proof {
                    lemma_pow10_positive(t as nat);
                    lemma_div_denominator(frac_carry(d@, m as nat) as int, pow10(t as nat) as int, 10);
                    let pt = pow10(t as nat) as int;
                    vstd::arithmetic::div_mod::lemma_breakdown(frac_carry(d@, m as nat) as int, pt, 10);
                    let b = (frac_carry(d@, m as nat) as int / pt) % 10;
                    assert(pt * b == 0 <==> b == 0) by (nonlinear_arith)
                        requires
                            pt > 0,
                            b >= 0,
                    ;
                    assert(pt * b >= 0) by (nonlinear_arith)
                        requires
                            pt > 0,
                            b >= 0,
                    ;
                }
                assert(pow10((t + 1) as nat) == 10 * pow10(t as nat));
                assert(pow10(t as nat) * 10 == 10 * pow10(t as nat));
                whole = whole && c % 10 == 0;
                c = c / 10;
                t = t + 1;
            }
            proof {
                lemma_frac_whole_zeros(z as nat, d@, m as nat);
                lemma_frac_carry_zeros(z as nat, d@, m as nat);
                assert(fp == zeros(z as nat) + d@);
                if c == 0 && t < z {
                    let fc = frac_carry(d@, m as nat) as int;
                    let pt = pow10(t as nat) as int;
                    lemma_pow10_positive(t as nat);
                    lemma_pow10_monotonic(t as nat, z as nat);
                    lemma_fundamental_div_mod(fc, pt);
                    assert(fc < pt) by (nonlinear_arith)
                        requires
                            fc == pt * (fc / pt) + fc % pt,
                            fc / pt == 0,
                            fc % pt < pt,
                    ;
                    vstd::arithmetic::div_mod::lemma_basic_div(fc, pow10(z as nat) as int);
                    vstd::arithmetic::div_mod::lemma_small_mod(fc as nat, pt as nat);
                    vstd::arithmetic::div_mod::lemma_small_mod(fc as nat, pow10(z as nat));
                }
            }
        } else {
            assert(d@.subrange(from as int, len as int) =~= fp);
        }
    } else {
        assert(fp =~= Seq::<char>::empty());
    }
    proof {
        lemma_scaled_parts(d@, point as int, m as nat);
        lemma_frac_carry_bound(fp, m as nat);
        if point >= len as i128 {
            assert(frac_whole(fp, m as nat));
        }
    }
    (a, c, whole)
}

} // verus!

verus! {

// ---------------------------------------------------------------------------
// far exponents
// ---------------------------------------------------------------------------

/// With the point 20 or more places after the digits, any non-zero number
/// exceeds `u64::MAX`.
pub proof fn lemma_far_right_point(d: Seq<char>, point: int, m: nat)
    requires
        forall|i: int| 0 <= i < d.len() ==> is_digit(#[trigger] d[i]),
        point >= d.len() + 20,
        m >= 1,
    ensures
        rounded_floor(d, point, m) == (if num(d) == 0 {
            0
        } else {
            u64::MAX
        }),
{
    let z = (point - d.len()) as nat;
    let ip = integer_digits(d, point);
    let fp = fraction_digits(d, point);
    assert(ip == d + zeros(z));
    assert(fp =~= Seq::<char>::empty());
    assert(ip + fp =~= ip);
    lemma_num_concat(d, zeros(z));
    lemma_num_zeros(z);
    assert(zeros(z).len() == z);
    assert(pow10(0) == 1);
    lemma_pow10_monotonic(20, z);
    reveal_with_fuel(pow10, 21);
    assert(pow10(20) == 100000000000000000000);
    let nd = num(d) as int;
    let pz = pow10(z) as int;
    assert(num(ip + fp) * m == nd * pz * m);
    if nd == 0 {
        assert(nd * pz * m == 0) by (nonlinear_arith)
            requires
                nd == 0,
        ;
        lemma_nearest_small(0, 1);
    } else {
        assert(nd * pz * m >= 100000000000000000000) by (nonlinear_arith)
            requires
                nd >= 1,
                pz >= 100000000000000000000,
                m >= 1,
        ;
    }
}

/// With the point 14 or more places before the digits, a factor of at most
/// `2^40` leaves less than 1.
pub proof fn lemma_far_left_point(d: Seq<char>, point: int, m: nat)
    requires
        forall|i: int| 0 <= i < d.len() ==> is_digit(#[trigger] d[i]),
        point <= -14,
        m <= 1099511627776,
    ensures
        rounded_floor(d, point, m) == 0,
{
    let z = (-point) as nat;
    let ip = integer_digits(d, point);
    let fp = fraction_digits(d, point);
    assert(ip =~= Seq::<char>::empty());
    assert(ip + fp =~= fp);
    assert(fp == zeros(z) + d);
    lemma_num_leading_zeros(z, d);
    lemma_num_bound(d);
    assert(fp.len() == d.len() + z);
    lemma_pow10_adds(d.len(), z);
    lemma_pow10_monotonic(14, z);
    reveal_with_fuel(pow10, 15);
    assert(pow10(14) == 100000000000000);
    let nd = num(d) as int;
    let pl = pow10(d.len()) as int;
    let pz = pow10(z) as int;
    assert(2 * (nd * m) < pl * pz) by (nonlinear_arith)
        requires
            0 <= nd < pl,
            0 <= m <= 1099511627776,
            pz >= 100000000000000,
    ;
    lemma_pow10_positive(fp.len());
    lemma_nearest_small(num(ip + fp) * m, pow10(fp.len()));
}

} // verus!

verus! {

// ---------------------------------------------------------------------------
// reading a literal
// ---------------------------------------------------------------------------

/// The exponent cap: exponents this large or larger all give the same result.
pub open spec fn cap_exponent(x: nat) -> nat {
    if x > 0x40_0000_0000_0000_0000 {
        0x40_0000_0000_0000_0000
    } else {
        x
    }
}

fn is_ascii_digit(c: char) -> (b: bool)
    ensures
        b == is_digit(c),
{
    let u = c as u32;
    48 <= u && u <= 57
}

/// `digit_run(v[i..hi])`.
fn digit_run_at(v: &Vec<char>, i: usize, hi: usize) -> (n: usize)
    requires
        i <= hi <= v@.len(),
    ensures
        i + n <= hi,
        n == digit_run(v@.subrange(i as int, hi as int)),
        forall|j: int| i <= j < i + n ==> is_digit(#[trigger] v@[j]),
{
    let mut k = i;
    while k < hi && is_ascii_digit(v[k])
        invariant
            i <= k <= hi <= v@.len(),
            digit_run(v@.subrange(i as int, hi as int)) == (k - i) + digit_run(
                v@.subrange(k as int, hi as int),
            ),
            forall|j: int| i <= j < k ==> is_digit(#[trigger] v@[j]),
        decreases hi - k,
    {
        assert(v@.subrange(k as int, hi as int).drop_first() =~= v@.subrange(k + 1, hi as int));
        k = k + 1;
    }
    assert(digit_run(v@.subrange(k as int, hi as int)) == 0);
    k - i
}

fn fold_case_exec(c: char) -> (u: u32)
    ensures
        u == fold_case(c),
{
    let u = c as u32;
    if 65 <= u && u <= 90 {
        u + 32
    } else {
        u
    }
}

/// `eq_ignore_ascii_case(v[lo..hi], word)`.
fn matches_ignore_case(v: &Vec<char>, lo: usize, hi: usize, word: &str) -> (b: bool)
    requires
        lo <= hi <= v@.len(),
    ensures
        b == eq_ignore_ascii_case(v@.subrange(lo as int, hi as int), word@),
{
    let w = chars_of(word);
    if hi - lo != w.len() {
        return false;
    }
    let mut k: usize = 0;
    while k < w.len()
        invariant
            w@ == word@,
            lo <= hi <= v@.len(),
            hi - lo == w@.len(),
            k <= w@.len(),
            forall|j: int| 0 <= j < k ==> fold_case(#[trigger] v@[lo + j]) == fold_case(w@[j]),
        decreases w@.len() - k,
    {
        if fold_case_exec(v[lo + k]) != fold_case_exec(w[k]) {
            assert(v@.subrange(lo as int, hi as int)[k as int] == v@[lo + k]);
            return false;
        }
        k = k + 1;
    }
    assert forall|j: int| 0 <= j < w@.len() implies fold_case(
        #[trigger] v@.subrange(lo as int, hi as int)[j],
    ) == fold_case(word@[j]) by {
        assert(v@.subrange(lo as int, hi as int)[j] == v@[lo + j]);
    }
    true
}

/// `cap_exponent(num(v[lo..hi]))` for a run of digits.
fn capped_num(v: &Vec<char>, lo: usize, hi: usize) -> (e: u128)
    requires
        lo <= hi <= v@.len(),
        forall|j: int| lo <= j < hi ==> is_digit(#[trigger] v@[j]),
    ensures
        e == cap_exponent(num(v@.subrange(lo as int, hi as int))),
{
    let cap: u128 = 0x40_0000_0000_0000_0000;
    let mut e: u128 = 0;
    let mut k = lo;
    assert(v@.subrange(lo as int, lo as int) =~= Seq::<char>::empty());
    while k < hi
        invariant
            lo <= k <= hi <= v@.len(),
            forall|j: int| lo <= j < hi ==> is_digit(#[trigger] v@[j]),
            cap == 0x40_0000_0000_0000_0000,
            e == cap_exponent(num(v@.subrange(lo as int, k as int))),
        decreases hi - k,
    {
        assert(is_digit(v@[k as int]));
        let dv = (v[k] as u32 - 48) as u128;
        proof {
            let s = v@.subrange(lo as int, k + 1);
            assert(s.drop_last() =~= v@.subrange(lo as int, k as int));
            assert(s.last() == v@[k as int]);
        }
        let x = e * 10 + dv;
        e = if x > cap {
            cap
        } else {
            x
        };
        k = k + 1;
    }
    e
}

/// What a number word reads as.
pub enum Literal {
    Invalid,
    NotANumber,
    Infinite(bool),
    /// Sign, digits, and the place of the point after them (a far
    /// exponent is held at a bound past which nothing changes).
    Finite(bool, Vec<char>, i128),
}

} // verus!

verus! {

/// `bit_len(n)`.
fn bit_len_exec(n: u64) -> (b: u32)
    ensures
        b == bit_len(n as nat),
        b <= 64,
{
    proof {
        lemma_bit_len(n as nat);
        lemma_two_pow_big();
        if bit_len(n as nat) > 64 {
            lemma_two_pow_monotonic(64, (bit_len(n as nat) - 1) as nat);
        }
    }
    let mut x = n;
    let mut b: u32 = 0;
    while x > 0
        invariant
            bit_len(n as nat) == b + bit_len(x as nat),
            b + bit_len(x as nat) <= 64,
        decreases x,
    {
        assert(bit_len(x as nat) == 1 + bit_len((x / 2) as nat));
        x = x / 2;
        b = b + 1;
    }
    b
}

/// `two_pow(k)`.
fn two_pow_exec(k: u32) -> (r: u128)
    requires
        k <= 94,
    ensures
        r == two_pow(k as nat),
{
    let mut r: u128 = 1;
    let mut i: u32 = 0;
    while i < k
        invariant
            i <= k <= 94,
            r == two_pow(i as nat),
        decreases k - i,
    {
        proof {
            lemma_two_pow_big();
            lemma_two_pow_monotonic(i as nat, 93);
            assert(two_pow(94) == 2 * two_pow(93));
        }
        r = r * 2;
        i = i + 1;
    }
    r
}

/// `rounded_floor(d, point, m)`, computed without holding the whole number.
fn rounded(d: &Vec<char>, point: i128, m: u128) -> (r: u64)
    requires
        forall|i: int| 0 <= i < d@.len() ==> is_digit(#[trigger] d@[i]),
        1 <= m <= 1099511627776,
        -0x1_0000_0000_0000_0000_0000 <= point <= 0x1_0000_0000_0000_0000_0000,
    ensures
        r == rounded_floor(d@, point as int, m as nat),
{
    let ghost ip = integer_digits(d@, point as int);
    let ghost fp = fraction_digits(d@, point as int);
    let ghost q = pow10(fp.len());
    let ghost p: nat = num(ip + fp) * (m as nat);
    let (a, c, whole) = parts(d, point, m);
    proof {
        lemma_two_pow_big();
        lemma_scaled_parts(d@, point as int, m as nat);
        lemma_whole_parts(ip, fp, m as nat);
        lemma_pow10_positive(fp.len());
    }
    let cap: u128 = 0x1_0000_0000_0000_0000;
    assert(a * m <= cap * 1099511627776) by (nonlinear_arith)
        requires
            a <= cap,
            m <= 1099511627776,
    ;
    let total = a * m + c;
    if total > u64::MAX as u128 {
        proof {
            if num(ip) >= cap {
                assert(num(ip) * m >= cap) by (nonlinear_arith)
                    requires
                        num(ip) >= cap,
                        m >= 1,
                ;
            }
        }
        return u64::MAX;
    }
    assert(a == num(ip)) by {
        if num(ip) >= cap {
            assert(a * m >= cap) by (nonlinear_arith)
                requires
                    a == cap,
                    m >= 1,
            ;
        }
    }
    assert(p / q == total);
    assert(whole == (p % q == 0));
    let n = total as u64;
    let bl = bit_len_exec(n);
    proof {
        lemma_bit_len(n as nat);
    }
    if n >= 0x20_0000_0000_0000 {
        proof {
            if bl < 54 {
                lemma_two_pow_monotonic(bl as nat, 53);
            }
        }
        let s = bl - 53;
        let pw = two_pow_exec(s);
        let half = two_pow_exec(s - 1);
        proof {
            lemma_two_pow_monotonic(s as nat, 11);
            reveal_with_fuel(two_pow, 12);
            assert(two_pow(s as nat) == 2 * two_pow((s - 1) as nat));
        }
        let nn = n as u128;
        let k = nn / pw;
        let rr = nn % pw;
        let up = rr > half || (rr == half && (!whole || k % 2 == 1));
        let kk: u128 = if up {
            k + 1
        } else {
            k
        };
        assert(k <= nn);
        assert(kk * pw <= (nn + 1) * 2048) by (nonlinear_arith)
            requires
                kk <= nn + 1,
                pw <= 2048,
        ;
        let v = kk * pw;
        if v > u64::MAX as u128 {
            u64::MAX
        } else {
            v as u64
        }
    } else {
        proof {
            if bl > 53 {
                lemma_two_pow_monotonic(53, (bl - 1) as nat);
            }
        }
        let t = 54 - bl;
        let pt = two_pow_exec(t);
        proof {
            lemma_two_pow_monotonic(t as nat, 54);
            lemma_two_pow_positive(t as nat);
        }
        assert(m * pt <= 1099511627776 * 0x40_0000_0000_0000) by (nonlinear_arith)
            requires
                m <= 1099511627776,
                pt <= 0x40_0000_0000_0000,
        ;
        let big_m = m * pt;
        assert(big_m >= 1) by (nonlinear_arith)
            requires
                m >= 1,
                pt >= 1,
                big_m == m * pt,
        ;
        let (a2, c2, whole2) = parts(d, point, big_m);
        proof {
            lemma_scaled_parts(d@, point as int, big_m as nat);
            lemma_whole_parts(ip, fp, big_m as nat);
            assert(p * pt == num(ip + fp) * big_m) by (nonlinear_arith)
                requires
                    p == num(ip + fp) * m,
                    big_m == m * pt,
            ;
        }
        assert(a2 == a);
        assert(a * big_m < 0x20_0000_0000_0000 * 0x40_0000_0000_0000) by (nonlinear_arith)
            requires
                a * m < 0x20_0000_0000_0000,
                big_m == m * pt,
                pt <= 0x40_0000_0000_0000,
        ;
        let w = a2 * big_m + c2;
        let low = w % pt;
        let up = low == pt - 1 && (!whole2 || t >= 2 || n % 2 == 1);
        if up {
            n + 1
        } else {
            n
        }
    }
}

/// Reads the exponent `v[lo..hi]` that follows an `e` or `E`.
fn read_exponent(v: &Vec<char>, lo: usize, hi: usize) -> (r: Option<(bool, u128)>)
    requires
        lo <= hi <= v@.len(),
    ensures
        r is None <==> exponent_value(v@.subrange(lo as int, hi as int)) is None,
        r matches Some((neg, ev)) ==> exponent_value(v@.subrange(lo as int, hi as int)) matches Some(e)
            && (if neg {
            e <= 0 && ev == cap_exponent((-e) as nat)
        } else {
            e >= 0 && ev == cap_exponent(e as nat)
        }),
{
    let ghost s = v@.subrange(lo as int, hi as int);
    let neg = lo < hi && v[lo] == '-';
    let d0 = if lo < hi && (v[lo] == '+' || v[lo] == '-') {
        lo + 1
    } else {
        lo
    };
    proof {
        if lo < hi && (v@[lo as int] == '+' || v@[lo as int] == '-') {
            assert(s.drop_first() =~= v@.subrange(d0 as int, hi as int));
        } else {
            assert(s =~= v@.subrange(d0 as int, hi as int));
        }
    }
    if d0 == hi {
        return None;
    }
    let n = digit_run_at(v, d0, hi);
    if n != hi - d0 {
        return None;
    }
    let ev = capped_num(v, d0, hi);
    Some((neg, ev))
}

/// A point that a far exponent placed may be moved to the cap without changing the result.
proof fn lemma_capped_point(d: Seq<char>, i: int, e: int, pc: int, m: nat)
    requires
        forall|j: int| 0 <= j < d.len() ==> is_digit(#[trigger] d[j]),
        0 <= i <= d.len() < 0x1_0000_0000_0000_0000,
        1 <= m <= 1099511627776,
        e <= 0 ==> pc == i - cap_exponent((-e) as nat),
        e >= 0 ==> pc == i + cap_exponent(e as nat),
    ensures
        rounded_floor(d, pc, m) == rounded_floor(d, i + e, m),
{
    if e > 0x40_0000_0000_0000_0000 {
        lemma_far_right_point(d, pc, m);
        lemma_far_right_point(d, i + e, m);
    } else if e < -0x40_0000_0000_0000_0000 {
        lemma_far_left_point(d, pc, m);
        lemma_far_left_point(d, i + e, m);
    }
}

/// The digits of the decimal literal `v[bs..b]` and where its mantissa ends.
fn read_mantissa(v: &Vec<char>, bs: usize, b: usize) -> (r: (Vec<char>, usize, usize))
    requires
        bs <= b <= v@.len(),
    ensures
        ({
            let body = v@.subrange(bs as int, b as int);
            &&& r.0@ == mantissa(body)
            &&& r.1 == int_len(body)
            &&& r.0@.len() == int_len(body) + frac_len(body)
            &&& bs <= r.2 <= b
            &&& v@.subrange(r.2 as int, b as int) == after_mantissa(body)
            &&& forall|i: int| 0 <= i < r.0@.len() ==> is_digit(#[trigger] r.0@[i])
        }),
{
    let ghost body = v@.subrange(bs as int, b as int);
    let i = digit_run_at(v, bs, b);
    let p0 = bs + i;
    assert(body.skip(i as int) =~= v@.subrange(p0 as int, b as int));
    let point = p0 < b && v[p0] == '.';
    assert(point == has_point(body));
    let mut digits = sub_vec(v, bs, p0);
    assert(body.take(i as int) =~= v@.subrange(bs as int, p0 as int));
    if point {
        let f = digit_run_at(v, p0 + 1, b);
        assert(body.skip(i + 1) =~= v@.subrange(p0 + 1, b as int));
        let mut frac = sub_vec(v, p0 + 1, p0 + 1 + f);
        assert(body.subrange(i + 1, i + 1 + f) =~= v@.subrange(p0 + 1, p0 + 1 + f));
        digits.append(&mut frac);
        assert(body.skip(i + 1 + f) =~= v@.subrange(p0 + 1 + f, b as int));
        assert forall|j: int| 0 <= j < digits@.len() implies is_digit(#[trigger] digits@[j]) by {
            if j < i {
                assert(digits@[j] == v@[bs + j]);
            } else {
                assert(digits@[j] == v@[p0 + 1 + (j - i)]);
            }
        }
        (digits, i, p0 + 1 + f)
    } else {
        assert forall|j: int| 0 <= j < digits@.len() implies is_digit(#[trigger] digits@[j]) by {
            assert(digits@[j] == v@[bs + j]);
        }
        (digits, i, p0)
    }
}

/// The decimal part of a number word, `v[bs..b]`, after its sign.
fn parse_decimal(v: &Vec<char>, bs: usize, b: usize, negative: bool) -> (r: Literal)
    requires
        bs <= b <= v@.len(),
    ensures
        ({
            let body = v@.subrange(bs as int, b as int);
            match r {
                Literal::Finite(n, d, pc) => {
                    &&& decimal_literal(negative, body) matches Some(
                        FloatLiteral::Finite { negative: sn, digits, point },
                    )
                    &&& sn == n
                    &&& digits == d@
                    &&& forall|i: int| 0 <= i < d@.len() ==> is_digit(#[trigger] d@[i])
                    &&& -0x1_0000_0000_0000_0000_0000 <= pc <= 0x1_0000_0000_0000_0000_0000
                    &&& forall|m: nat|
                        1 <= m <= 1099511627776 ==> #[trigger] rounded_floor(d@, pc as int, m)
                            == rounded_floor(digits, point, m)
                },
                _ => r is Invalid && decimal_literal(negative, body) is None,
            }
        }),
{
    let ghost body = v@.subrange(bs as int, b as int);
    let (digits, i, rest) = read_mantissa(v, bs, b);
    let ghost rest_s = v@.subrange(rest as int, b as int);
    if digits.len() == 0 {
        return Literal::Invalid;
    }
    if rest == b {
        assert(rest_s.len() == 0);
        return Literal::Finite(negative, digits, i as i128);
    }
    if v[rest] != 'e' && v[rest] != 'E' {
        assert(rest_s[0] == v@[rest as int]);
        return Literal::Invalid;
    }
    assert(rest_s[0] == v@[rest as int]);
    assert(rest_s.drop_first() =~= v@.subrange(rest + 1, b as int));
    match read_exponent(v, rest + 1, b) {
        None => Literal::Invalid,
        Some((neg, ev)) => {
            let pc: i128 = if neg {
                i as i128 - ev as i128
            } else {
                i as i128 + ev as i128
            };
            proof {
                let e = exponent_value(rest_s.drop_first())->0;
                assert forall|m: nat| 1 <= m <= 1099511627776 implies #[trigger] rounded_floor(
                    digits@,
                    pc as int,
                    m,
                ) == rounded_floor(mantissa(body), i + e, m) by {
                    lemma_capped_point(digits@, i as int, e, pc as int, m);
                }
            }
            Literal::Finite(negative, digits, pc)
        },
    }
}

} // verus!

verus! {

/// Reads the number word `v[a..b]` as `str::parse::<f64>` does, before rounding.
fn parse_literal(v: &Vec<char>, a: usize, b: usize) -> (r: Literal)
    requires
        a <= b <= v@.len(),
    ensures
        ({
            let t = v@.subrange(a as int, b as int);
            match r {
                Literal::Invalid => float_literal(t) is None,
                Literal::NotANumber => float_literal(t) == Some(FloatLiteral::NotANumber),
                Literal::Infinite(n) => float_literal(t) == Some(
                    FloatLiteral::Infinite { negative: n },
                ),
                Literal::Finite(n, d, pc) => {
                    &&& float_literal(t) matches Some(
                        FloatLiteral::Finite { negative, digits, point },
                    )
                    &&& negative == n
                    &&& digits == d@
                    &&& forall|i: int| 0 <= i < d@.len() ==> is_digit(#[trigger] d@[i])
                    &&& -0x1_0000_0000_0000_0000_0000 <= pc <= 0x1_0000_0000_0000_0000_0000
                    &&& forall|m: nat|
                        1 <= m <= 1099511627776 ==> #[trigger] rounded_floor(d@, pc as int, m)
                            == rounded_floor(digits, point, m)
                },
            }
        }),
{
    let ghost t = v@.subrange(a as int, b as int);
    let negative = b > a && v[a] == '-';
    let bs = if b > a && (v[a] == '+' || v[a] == '-') {
        a + 1
    } else {
        a
    };
    proof {
        let body = v@.subrange(bs as int, b as int);
        if b > a && (v@[a as int] == '+' || v@[a as int] == '-') {
            assert(t.drop_first() =~= body);
        } else {
            assert(t =~= body);
        }
    }
    if bs == b {
        return Literal::Invalid;
    }
    if matches_ignore_case(v, bs, b, "inf") || matches_ignore_case(v, bs, b, "infinity") {
        return Literal::Infinite(negative);
    }
    if matches_ignore_case(v, bs, b, "nan") {
        return Literal::NotANumber;
    }
    parse_decimal(v, bs, b, negative)
}

/// The factor of the unit word `v[a..b]`.
fn unit_factor_of(v: &Vec<char>, a: usize, b: usize) -> (r: Option<u128>)
    requires
        a <= b <= v@.len(),
    ensures
        r matches Some(m) ==> unit_factor(v@.subrange(a as int, b as int)) == Some(m as nat),
        r is None ==> unit_factor(v@.subrange(a as int, b as int)) is None,
{
    let u = sub_vec(v, a, b);
    if equal_to(&u, "B") {
        Some(1)
    } else if equal_to(&u, "KiB") {
        Some(1024)
    } else if equal_to(&u, "MiB") {
        Some(1048576)
    } else if equal_to(&u, "GiB") {
        Some(1073741824)
    } else if equal_to(&u, "TiB") {
        Some(1099511627776)
    } else {
        None
    }
}

/// Whether the characters `u` are those of `word`.
fn equal_to(u: &Vec<char>, word: &str) -> (b: bool)
    ensures
        b == (u@ == word@),
{
    let w = chars_of(word);
    compare_chars(u, &w) == 0
}

/// Parses a size such as "5.86 MiB" to bytes.
///
/// The number is read as `str::parse::<f64>` reads it, rounded to the
/// nearest `f64`, in every notation that it accepts; a text that is not a
/// number and a unit gives 0.
pub fn parse_size_to_bytes(size_str: &str) -> (r: u64)
    ensures
        r == size_bytes(size_str@),
{
    let v = chars_of(size_str);
    let w = word_ranges(&v, 0, v.len());
    assert(v@.subrange(0, v@.len() as int) =~= v@);
    if w.len() != 2 {
        return 0;
    }
    let (na, nb) = w[0];
    let (ua, ub) = w[1];
    let m = match unit_factor_of(&v, ua, ub) {
        None => {
            return 0;
        },
        Some(m) => m,
    };
    match parse_literal(&v, na, nb) {
        Literal::Invalid => 0,
        Literal::NotANumber => 0,
        Literal::Infinite(negative) => if negative {
            0
        } else {
            u64::MAX
        },
        Literal::Finite(negative, digits, pc) => {
            if negative {
                0
            } else {
                rounded(&digits, pc, m)
            }
        },
    }
}

} // verus!

verus! {

// ---------------------------------------------------------------------------
// printing a size
// ---------------------------------------------------------------------------

/// 2 to the power `n`.
pub open spec fn two_pow(n: nat) -> nat
    decreases n,
{
    if n == 0 {
        1
    } else {
        2 * two_pow((n - 1) as nat)
    }
}

/// `n / d` rounded to the nearest integer, ties to the even one.
pub open spec fn div_round_even(n: nat, d: nat) -> nat {
    let q = n / d;
    let r = n % d;
    if 2 * r > d || (2 * r == d && q % 2 == 1) {
        q + 1
    } else {
        q
    }
}

/// How many low bits of `b` a 53-bit significand cannot hold.
pub open spec fn f64_shift(b: nat) -> nat
    decreases b,
{
    if b < 0x20_0000_0000_0000 {
        0
    } else {
        1 + f64_shift(b / 2)
    }
}

/// The value of `b as f64`: `b` rounded to 53 significant bits, ties to even.
pub open spec fn f64_value(b: nat) -> nat {
    div_round_even(b, two_pow(f64_shift(b))) * two_pow(f64_shift(b))
}

/// `b / 2^s` printed with two decimals, as `{:.2}` prints that quotient of floats.
pub open spec fn two_decimals(b: u64, s: nat) -> Seq<char> {
    let h = div_round_even(f64_value(b as nat) * 100, two_pow(s));
    decimal(h / 100) + seq!['.', digit_char((h % 100) / 10), digit_char(h % 10)]
}

/// What `format_bytes` prints for `bytes`.
pub open spec fn bytes_text(bytes: u64) -> Seq<char> {
    if bytes >= 1073741824 {
        two_decimals(bytes, 30) + " GiB"@
    } else if bytes >= 1048576 {
        two_decimals(bytes, 20) + " MiB"@
    } else if bytes >= 1024 {
        two_decimals(bytes, 10) + " KiB"@
    } else {
        decimal(bytes as nat) + " B"@
    }
}

pub proof fn lemma_two_pow_positive(n: nat)
    ensures
        two_pow(n) >= 1,
    decreases n,
{
    if n > 0 {
        lemma_two_pow_positive((n - 1) as nat);
    }
}

pub proof fn lemma_two_pow_monotonic(a: nat, b: nat)
    requires
        a <= b,
    ensures
        two_pow(a) <= two_pow(b),
    decreases b,
{
    if a < b {
        lemma_two_pow_monotonic(a, (b - 1) as nat);
        lemma_two_pow_positive((b - 1) as nat);
    }
}

/// `div_round_even(n, d)` for machine integers.
fn div_round_even_exec(n: u128, d: u128) -> (r: u128)
    requires
        0 < d < 0x1_0000_0000_0000_0000_0000_0000,
        n < 0x1_0000_0000_0000_0000_0000_0000_0000,
    ensures
        r == div_round_even(n as nat, d as nat),
        r <= n / d + 1,
{
    let q = n / d;
    let rem = n % d;
    if 2 * rem > d || (2 * rem == d && q % 2 == 1) {
        q + 1
    } else {
        q
    }
}

/// `f64_value(b)`.
fn f64_value_exec(b: u64) -> (x: u128)
    ensures
        x == f64_value(b as nat),
        x <= 0x2_0000_0000_0000_0000,
{
    let mut d: u128 = 1;
    let ghost mut e: nat = 0;
    assert(two_pow(0) == 1);
    while (b as u128) / d >= 0x20_0000_0000_0000
        invariant
            d == two_pow(e),
            d >= 1,
            d <= 0x1000,
            e <= 12,
            f64_shift(b as nat) == e + f64_shift((b as nat) / (d as nat)),
        decreases 64 - e,
    {
        proof {
            lemma_div_denominator(b as int, d as int, 2);
            assert(d * 2 == 2 * d);
            assert(two_pow(e + 1) == 2 * two_pow(e));
            lemma_fundamental_div_mod(b as int, d as int);
            let qq = (b as int) / (d as int);
            assert(d < 0x800) by (nonlinear_arith)
                requires
                    qq >= 0x20_0000_0000_0000,
                    (b as int) == d * qq + (b as int) % (d as int),
                    (b as int) % (d as int) >= 0,
                    (b as int) < 0x1_0000_0000_0000_0000,
                    d >= 1,
            ;
            if e >= 11 {
                lemma_two_pow_positive(e);
                assert(two_pow(11) == 2048) by {
                    reveal_with_fuel(two_pow, 12);
                }
                lemma_two_pow_monotonic(11, e);
            }
        }
        d = d * 2;
        proof {
            e = e + 1;
        }
    }
    let q = (b as u128) / d;
    let rem = (b as u128) % d;
    let rq = if 2 * rem > d || (2 * rem == d && q % 2 == 1) {
        q + 1
    } else {
        q
    };
    proof {
        assert(f64_shift((b as nat) / (d as nat)) == 0);
        lemma_fundamental_div_mod(b as int, d as int);
        assert(rq * d <= 0x2_0000_0000_0000_0000) by (nonlinear_arith)
            requires
                rq <= q + 1,
                (b as int) == d * q + rem,
                0 <= rem < d,
                (b as int) < 0x1_0000_0000_0000_0000,
                d <= 0x1000,
        ;
    }
    rq * d
}

} // verus!

verus! {

pub proof fn lemma_two_pow_big()
    ensures
        two_pow(53) == 0x20_0000_0000_0000,
        two_pow(54) == 0x40_0000_0000_0000,
        two_pow(64) == 0x1_0000_0000_0000_0000,
        two_pow(94) == 0x4000_0000_0000_0000_0000_0000,
{
    reveal_with_fuel(two_pow, 95);
}

proof fn lemma_two_pow_values()
    ensures
        two_pow(10) == 1024,
        two_pow(30) == 0x4000_0000,
{
    reveal_with_fuel(two_pow, 31);
}

/// Appends `two_decimals(b, shift)`.
fn push_two_decimals(out: &mut Vec<char>, b: u64, shift: u32)
    requires
        10 <= shift <= 30,
    ensures
        final(out)@ == old(out)@ + two_decimals(b, shift as nat),
{
    let mut d: u128 = 1;
    let mut i: u32 = 0;
    assert(two_pow(0) == 1);
    while i < shift
        invariant
            i <= shift <= 30,
            d == two_pow(i as nat),
            1 <= d <= 0x4000_0000,
        decreases shift - i,
    {
        assert(two_pow((i + 1) as nat) == 2 * two_pow(i as nat));
        proof {
            lemma_two_pow_monotonic((i + 1) as nat, 30);
            lemma_two_pow_values();
        }
        d = d * 2;
        i = i + 1;
    }
    proof {
        lemma_two_pow_monotonic(10, shift as nat);
        lemma_two_pow_values();
    }
    let x = f64_value_exec(b);
    let h = div_round_even_exec(x * 100, d);
    proof {
        let xi = (x * 100) as int;
        let di = d as int;
        lemma_div_is_ordered(xi, 0x2_0000_0000_0000_0000int * 100, di);
        vstd::arithmetic::div_mod::lemma_div_is_ordered_by_denominator(0x2_0000_0000_0000_0000int * 100, 1024, di);
        assert(0x2_0000_0000_0000_0000 * 100 / 1024 == 3602879701896396800);
    }
    push_decimal(out, (h / 100) as u64);
    out.push('.');
    out.push(digit(((h % 100) / 10) as u64));
    out.push(digit((h % 10) as u64));
    proof {
        let hn = h as nat;
        assert(old(out)@ + two_decimals(b, shift as nat) =~= old(out)@ + decimal(hn / 100) + seq![
            '.',
            digit_char((hn % 100) / 10),
            digit_char(hn % 10),
        ]);
    }
}

/// Formats a byte count for reading: whole bytes below 1 KiB, else two
/// decimals of KiB, MiB or GiB (such as "5.86 MiB").
pub fn format_bytes(bytes: u64) -> (s: String)
    ensures
        s@ == bytes_text(bytes),
{
    let mut out: Vec<char> = Vec::new();
    if bytes >= 1073741824 {
        push_two_decimals(&mut out, bytes, 30);
        push_str(&mut out, " GiB");
    } else if bytes >= 1048576 {
        push_two_decimals(&mut out, bytes, 20);
        push_str(&mut out, " MiB");
    } else if bytes >= 1024 {
        push_two_decimals(&mut out, bytes, 10);
        push_str(&mut out, " KiB");
    } else {
        push_decimal(&mut out, bytes);
        push_str(&mut out, " B");
    }
    assert(out@.subrange(0, out@.len() as int) =~= out@);
    string_of(out.as_slice())
}

} // verus!
