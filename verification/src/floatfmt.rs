//! Formatting IEEE-754 binary floating-point values, held as their bit
//! patterns, with exact decimal arithmetic: C's `%.Ng` as ncdump prints it.
//!
//! A finite value is `(-1)^sign * m * 2^e`. Its exact decimal expansion is
//! `m * 5^-e` shifted `-e` places when `e < 0`, and the integer `m * 2^e`
//! otherwise; rounding to `N` significant digits is then a matter of the
//! digits alone (ties go to the even digit, as Rust's exact formatting
//! does).

use vstd::prelude::*;
use crate::decimal::{
    all_digits, canonical, increment_digits, le_digits, le_from_u64, le_mul_small, le_to_dec,
    le_value, lemma_canonical_is_dec, lemma_digits_append_zeros, lemma_digits_split,
    lemma_digits_value_bound, lemma_digits_zero, pow10, pow2, pow5, trim_zeros, zeros,
};
use crate::text::{dec, digit_value, digits_value, is_digit, push_char, push_dec_wide, push_str};
use vstd::arithmetic::div_mod::lemma_fundamental_div_mod_converse;

verus! {


/// The integer part of the exact decimal expansion of `m * 2^e`:
/// `m * 2^e == exact_int(m, e) * 10^exact_scale(e)`.
pub open spec fn exact_int(m: nat, e: int) -> nat {
    if e >= 0 {
        m * pow2(e as nat)
    } else {
        m * pow5((-e) as nat)
    }
}

/// The power of ten that scales `exact_int` back to `m * 2^e`.
pub open spec fn exact_scale(e: int) -> int {
    if e >= 0 {
        0
    } else {
        e
    }
}

/// The decimal numeral of `exact_int(m, e)`.
pub fn exact_digits(m: u64, e: i32) -> (r: Vec<char>)
    ensures
        r@ == dec(exact_int(m as nat, e as int)),
{
    let mut acc = le_from_u64(m);
    if e >= 0 {
        let mut i: i32 = 0;
        assert(pow2(0) == 1);
        assert(m * pow2(0) == m * 1);
        while i < e
            invariant
                0 <= i <= e,
                le_digits(acc@),
                le_value(acc@) == m * pow2(i as nat),
            decreases e - i,
        {
            acc = le_mul_small(&acc, 2);
            proof {
                let x = pow2(i as nat);
                assert(pow2((i + 1) as nat) == 2 * x);
                assert(2 * (m * x) == m * (2 * x)) by (nonlinear_arith);
            }
            i = i + 1;
        }
    } else {
        let n: i64 = -(e as i64);
        let mut i: i64 = 0;
        assert(pow5(0) == 1);
        assert(m * pow5(0) == m * 1);
        while i < n
            invariant
                0 <= i <= n,
                n == -(e as int),
                le_digits(acc@),
                le_value(acc@) == m * pow5(i as nat),
            decreases n - i,
        {
            acc = le_mul_small(&acc, 5);
            proof {
                let x = pow5(i as nat);
                assert(pow5((i + 1) as nat) == 5 * x);
                assert(5 * (m * x) == m * (5 * x)) by (nonlinear_arith);
            }
            i = i + 1;
        }
    }
    le_to_dec(&acc)
}

/// `i` rounded to `p` significant digits, as an integer of `p` digits: the
/// leading `p` digits, plus one when the rest is more than half a unit of
/// the last kept digit, or exactly half and the last kept digit is odd.
/// (A short `i` is padded with zeros instead.) The result is `10^p` when
/// rounding carries into a new digit.
pub open spec fn round_sig(i: nat, p: nat) -> nat {
    let l = dec(i).len();
    if l <= p {
        i * pow10((p - l) as nat)
    } else {
        let j = (l - p) as nat;
        let q = i / pow10(j);
        let r = i % pow10(j);
        if 2 * r > pow10(j) || (2 * r == pow10(j) && q % 2 == 1) {
            q + 1
        } else {
            q
        }
    }
}

/// Does rounding `i` to `p` significant digits carry into a new digit?
pub open spec fn sig_carry(i: nat, p: nat) -> bool {
    round_sig(i, p) == pow10(p)
}

/// The `p` significant digits of `i`, rounded.
pub open spec fn sig_digits(i: nat, p: nat) -> Seq<char> {
    if sig_carry(i, p) {
        dec(pow10((p - 1) as nat))
    } else {
        dec(round_sig(i, p))
    }
}

/// The decimal exponent of the first significant digit of
/// `i * 10^scale` after rounding to `p` digits.
pub open spec fn sig_exponent(i: nat, p: nat, scale: int) -> int {
    dec(i).len() - 1 + scale + if sig_carry(i, p) { 1int } else { 0int }
}

/// The two-or-more digit exponent of `%e`.
pub open spec fn exp_digits(n: nat) -> Seq<char> {
    if n < 10 {
        seq!['0'] + dec(n)
    } else {
        dec(n)
    }
}

/// `%.{p}g` layout of significant digits `ds` with decimal exponent `x`,
/// trailing zeros of the fraction removed, the decimal point kept.
pub open spec fn g_layout(ds: Seq<char>, x: int, p: nat) -> Seq<char> {
    if x < -4 || x >= p {
        seq![ds[0], '.'] + trim_zeros(ds.skip(1)) + seq!['e', if x < 0 { '-' } else { '+' }]
            + exp_digits(if x < 0 { (-x) as nat } else { x as nat })
    } else if x >= 0 {
        ds.take(x + 1) + seq!['.'] + trim_zeros(ds.skip(x + 1))
    } else {
        seq!['0', '.'] + trim_zeros(zeros((-x - 1) as nat) + ds)
    }
}

/// ncdump's `%.{precision}g` (with trailing zeros trimmed, the point kept)
/// of the value `(-1)^neg * m * 2^e`; a precision of 0 counts as 1.
pub open spec fn fmt_g_parts(neg: bool, m: nat, e: int, precision: nat) -> Seq<char> {
    let p = if precision == 0 { 1 } else { precision };
    let sign = if neg { seq!['-'] } else { Seq::<char>::empty() };
    if m == 0 {
        sign + seq!['0', '.']
    } else {
        let i = exact_int(m, e);
        sign + g_layout(sig_digits(i, p), sig_exponent(i, p, exact_scale(e)), p)
    }
}

/// `true` when trimming the zeros of `a + b` leaves `a` alone.
pub proof fn lemma_trim_concat(a: Seq<char>, b: Seq<char>)
    requires
        b.len() >= 1,
        b[0] != '0',
    ensures
        trim_zeros(a + b) == a + trim_zeros(b),
    decreases b.len(),
{
    if b.last() == '0' {
        assert(b.len() >= 2);
        assert((a + b).drop_last() == a + b.drop_last());
        assert(b.drop_last()[0] == b[0]);
        lemma_trim_concat(a, b.drop_last());
    } else {
        assert((a + b).last() == b.last());
    }
}

/// Rounds the canonical numeral `s` of a positive number to `p`
/// significant digits; also says whether rounding carried into a new digit.
pub fn round_digits(s: &Vec<char>, p: usize) -> (r: (Vec<char>, bool))
    requires
        canonical(s@),
        s@[0] != '0',
        p >= 1,
    ensures
        r.0@ == sig_digits(digits_value(s@), p as nat),
        r.1 == sig_carry(digits_value(s@), p as nat),
        r.0@.len() == p,
        r.0@[0] != '0',
{
    let ghost i = digits_value(s@);
    proof {
        lemma_canonical_is_dec(s@);
    }
    let l = s.len();
    if l <= p {
        let mut ds: Vec<char> = s.clone();
        assert(ds@ == s@);
        while ds.len() < p
            invariant
                l <= ds.len() <= p,
                l == s.len(),
                ds@ == s@ + zeros((ds.len() - l) as nat),
            decreases p - ds.len(),
        {
            let ghost before = ds@;
            ds.push('0');
            assert(s@ + zeros((ds.len() - l) as nat) == before.push('0'));
        }
        proof {
            let z = (p - l) as nat;
            lemma_digits_append_zeros(s@, z);
            assert(ds@[0] == s@[0]);
            assert(all_digits(ds@)) by {
                assert forall|j: int| 0 <= j < ds@.len() implies is_digit(#[trigger] ds@[j]) by {
                    if j < l {
                        assert(ds@[j] == s@[j]);
                    } else {
                        assert(ds@[j] == '0');
                    }
                }
            }
            lemma_canonical_is_dec(ds@);
            lemma_digits_value_bound(ds@);
            assert(round_sig(i, p as nat) == i * pow10(z));
        }
        return (ds, false);
    }
    let j: usize = l - p;
    let mut top: Vec<char> = Vec::new();
    let mut k: usize = 0;
    while k < p
        invariant
            k <= p < l == s.len(),
            top@ == s@.take(k as int),
        decreases p - k,
    {
        top.push(s[k]);
        assert(s@.take(k + 1) == s@.take(k as int).push(s@[k as int]));
        k = k + 1;
    }
    let first = s[p];
    let f: u32 = first as u32 - '0' as u32;
    let mut rest_zero = true;
    let mut t: usize = p + 1;
    while t < l
        invariant
            p + 1 <= t <= l == s.len(),
            rest_zero == (forall|x: int| p + 1 <= x < t ==> #[trigger] s@[x] == '0'),
        decreases l - t,
    {
        if s[t] != '0' {
            rest_zero = false;
        }
        t = t + 1;
    }
    let last = top[p - 1];
    let last_odd: bool = (last as u32 - '0' as u32) % 2 == 1;
    let up: bool = f > 5 || (f == 5 && (!rest_zero || last_odd));
    let ghost top_s = s@.take(p as int);
    let ghost low = s@.skip(p as int);
    let ghost rest = low.skip(1);
    proof {
        assert(top@ == top_s);
        assert(all_digits(top_s)) by {
            assert forall|x: int| 0 <= x < top_s.len() implies is_digit(#[trigger] top_s[x]) by {
                assert(top_s[x] == s@[x]);
            }
        }
        assert(all_digits(low)) by {
            assert forall|x: int| 0 <= x < low.len() implies is_digit(#[trigger] low[x]) by {
                assert(low[x] == s@[x + p]);
            }
        }
        assert(all_digits(rest)) by {
            assert forall|x: int| 0 <= x < rest.len() implies is_digit(#[trigger] rest[x]) by {
                assert(rest[x] == s@[x + p + 1]);
            }
        }
        lemma_digits_split(s@, p as int);
        lemma_digits_value_bound(low);
        let q = digits_value(top_s);
        let r = digits_value(low);
        let pj = pow10(j as nat);
        lemma_fundamental_div_mod_converse(i as int, pj as int, q as int, r as int);
        assert(q == i / pj && r == i % pj);
        // the first dropped digit and the rest
        lemma_digits_split(low, 1);
        assert(low.take(1).drop_last().len() == 0);
        assert(low.take(1).last() == first);
        assert(digits_value(low.take(1).drop_last()) == 0);
        assert(digits_value(low.take(1)) == 0 * 10 + digit_value(first));
        assert(is_digit(low[0]));
        assert(f == digit_value(first) && f < 10);
        lemma_digits_value_bound(rest);
        lemma_digits_zero(rest);
        assert(rest_zero == (forall|x: int| 0 <= x < rest.len() ==> #[trigger] rest[x] == '0')) by {
            if rest_zero {
                assert forall|x: int| 0 <= x < rest.len() implies #[trigger] rest[x] == '0' by {
                    assert(rest[x] == s@[x + p + 1]);
                }
            } else {
                let w = choose|x: int| p + 1 <= x < l && #[trigger] s@[x] != '0';
                assert(rest[w - p - 1] == s@[w]);
            }
        }
        let rr = digits_value(rest);
        let pj1 = pow10((j - 1) as nat);
        assert(pj == 10 * pj1);
        assert(r == f * pj1 + rr);
        assert((2 * r > pj) == (f > 5 || (f == 5 && rr > 0))) by (nonlinear_arith)
            requires r == f * pj1 + rr, rr < pj1, pj == 10 * pj1, f < 10;
        assert((2 * r == pj) == (f == 5 && rr == 0)) by (nonlinear_arith)
            requires r == f * pj1 + rr, rr < pj1, pj == 10 * pj1, f < 10;
        // parity of q is the parity of its last digit
        assert(top_s.last() == last);
        assert(is_digit(top_s[p - 1]));
        let dl = digit_value(last);
        let qa = digits_value(top_s.drop_last());
        assert(q == qa * 10 + dl);
        assert((q % 2 == 1) == (dl % 2 == 1)) by (nonlinear_arith)
            requires q == qa * 10 + dl;
        assert(up == (2 * r > pj || (2 * r == pj && q % 2 == 1)));
        assert(round_sig(i, p as nat) == if up { q + 1 } else { q });
        assert(top_s[0] == s@[0]);
        lemma_digits_value_bound(top_s);
    }
    if up {
        match increment_digits(&top) {
            Some(inc) => {
                proof {
                    assert(canonical(inc@));
                    lemma_canonical_is_dec(inc@);
                    lemma_digits_value_bound(inc@);
                }
                (inc, false)
            },
            None => {
                let mut ds: Vec<char> = vec!['1'];
                let ghost one = ds@;
                while ds.len() < p
                    invariant
                        1 <= ds.len() <= p,
                        ds@ == one + zeros((ds.len() - 1) as nat),
                        one == seq!['1'],
                    decreases p - ds.len(),
                {
                    let ghost before = ds@;
                    ds.push('0');
                    assert(one + zeros((ds.len() - 1) as nat) == before.push('0'));
                }
                proof {
                    let z = (p - 1) as nat;
                    lemma_digits_append_zeros(one, z);
                    assert(one.drop_last().len() == 0);
                    assert(digits_value(one.drop_last()) == 0);
                    assert(one.last() == '1');
                    assert(digit_value('1') == 1);
                    assert(digits_value(one) == 0 * 10 + digit_value('1'));
                    assert(ds@[0] == '1');
                    assert(all_digits(ds@)) by {
                        assert forall|x: int| 0 <= x < ds@.len() implies is_digit(#[trigger] ds@[x]) by {
                            if x > 0 {
                                assert(ds@[x] == '0');
                            }
                        }
                    }
                    lemma_canonical_is_dec(ds@);
                    assert(ds@ == one + zeros(z));
                    assert(1 * pow10(z) == pow10(z));
                    assert(digits_value(ds@) == pow10(z));
                }
                (ds, true)
            },
        }
    } else {
        proof {
            assert(canonical(top@));
            lemma_canonical_is_dec(top@);
        }
        (top, false)
    }
}

/// `2^n` and `5^n` are positive.
pub proof fn lemma_pow25_pos(n: nat)
    ensures
        pow2(n) >= 1,
        pow5(n) >= 1,
    decreases n,
{
    if n > 0 {
        lemma_pow25_pos((n - 1) as nat);
    }
}

/// Appends `s[from..to]`.
fn push_range(out: &mut String, s: &Vec<char>, from: usize, to: usize)
    requires
        from <= to <= s.len(),
    ensures
        final(out)@ == old(out)@ + s@.subrange(from as int, to as int),
{
    let ghost start = out@;
    let mut k: usize = from;
    while k < to
        invariant
            from <= k <= to <= s.len(),
            out@ == start + s@.subrange(from as int, k as int),
        decreases to - k,
    {
        push_char(out, s[k]);
        assert(s@.subrange(from as int, k + 1) == s@.subrange(from as int, k as int).push(s@[k as int]));
        k = k + 1;
    }
}

/// Appends `s[from..]` without its trailing zeros.
fn push_trimmed(out: &mut String, s: &Vec<char>, from: usize)
    requires
        from <= s.len(),
    ensures
        final(out)@ == old(out)@ + trim_zeros(s@.skip(from as int)),
{
    let mut n: usize = s.len();
    assert(s@.subrange(from as int, n as int) == s@.skip(from as int));
    while n > from && s[n - 1] == '0'
        invariant
            from <= n <= s.len(),
            trim_zeros(s@.subrange(from as int, n as int)) == trim_zeros(s@.skip(from as int)),
        decreases n,
    {
        assert(s@.subrange(from as int, n as int).drop_last() == s@.subrange(from as int, n - 1));
        n = n - 1;
    }
    push_range(out, s, from, n);
}

/// Appends `g_layout(ds, x, p)`.
fn push_layout(out: &mut String, ds: &Vec<char>, x: i128, p: usize)
    requires
        ds@.len() == p >= 1,
        ds@[0] != '0',
        -0x1_0000_0000_0000 < x,
    ensures
        final(out)@ == old(out)@ + g_layout(ds@, x as int, p as nat),
{
    let ghost start = out@;
    if x < -4 || x >= p as i128 {
        push_char(out, ds[0]);
        push_char(out, '.');
        push_trimmed(out, ds, 1);
        push_char(out, 'e');
        push_char(out, if x < 0 { '-' } else { '+' });
        let n: u128 = if x < 0 { (-x) as u128 } else { x as u128 };
        let ghost before_exp = out@;
        if n < 10 {
            push_char(out, '0');
        }
        push_dec_wide(out, n);
        proof {
            assert(out@ == before_exp + exp_digits(n as nat));
            assert(out@ =~= start + g_layout(ds@, x as int, p as nat));
        }
    } else if x >= 0 {
        push_range(out, ds, 0, (x + 1) as usize);
        push_char(out, '.');
        push_trimmed(out, ds, (x + 1) as usize);
        proof {
            assert(ds@.subrange(0, x + 1) == ds@.take(x + 1));
            assert(out@ =~= start + g_layout(ds@, x as int, p as nat));
        }
    } else {
        push_char(out, '0');
        push_char(out, '.');
        let nz: i128 = -x - 1;
        let mut k: i128 = 0;
        let ghost mid = out@;
        while k < nz
            invariant
                0 <= k <= nz,
                out@ == mid + zeros(k as nat),
            decreases nz - k,
        {
            push_char(out, '0');
            assert(zeros((k + 1) as nat) == zeros(k as nat).push('0'));
            k = k + 1;
        }
        push_trimmed(out, ds, 0);
        proof {
            assert(ds@.skip(0) == ds@);
            lemma_trim_concat(zeros(nz as nat), ds@);
            assert(out@ =~= start + g_layout(ds@, x as int, p as nat));
        }
    }
}

/// `fmt_g_parts` computed.
pub fn format_g(neg: bool, m: u64, e: i32, precision: usize) -> (r: String)
    ensures
        r@ == fmt_g_parts(neg, m as nat, e as int, precision as nat),
{
    let p: usize = if precision == 0 { 1 } else { precision };
    let mut out = String::new();
    if neg {
        push_char(&mut out, '-');
    }
    let ghost sign = out@;
    assert(sign == if neg { seq!['-'] } else { Seq::<char>::empty() });
    if m == 0 {
        push_char(&mut out, '0');
        push_char(&mut out, '.');
        assert(out@ =~= fmt_g_parts(neg, m as nat, e as int, precision as nat));
        return out;
    }
    let s = exact_digits(m, e);
    let ghost i = exact_int(m as nat, e as int);
    proof {
        lemma_pow25_pos(if e >= 0 { e as nat } else { (-e) as nat });
        if e >= 0 {
            assert(m * pow2(e as nat) >= 1) by (nonlinear_arith)
                requires m >= 1, pow2(e as nat) >= 1;
        } else {
            assert(m * pow5((-e) as nat) >= 1) by (nonlinear_arith)
                requires m >= 1, pow5((-e) as nat) >= 1;
        }
        assert(i >= 1);
        crate::decimal::lemma_dec_canonical(i);
        if s@.len() == 1 && s@[0] == '0' {
            assert(s@.drop_last().len() == 0);
            assert(digits_value(s@.drop_last()) == 0);
            assert(s@.last() == '0');
            assert(digit_value('0') == 0);
            assert(digits_value(s@) == 0 * 10 + digit_value('0'));
        }
    }
    let (ds, carry) = round_digits(&s, p);
    let scale: i128 = if e >= 0 { 0 } else { e as i128 };
    let bump: i128 = if carry { 1 } else { 0 };
    let x: i128 = s.len() as i128 - 1 + scale + bump;
    assert(x == sig_exponent(i, p as nat, exact_scale(e as int)));
    push_layout(&mut out, &ds, x, p);
    assert(out@ =~= fmt_g_parts(neg, m as nat, e as int, precision as nat));
    out
}

/// Is the sign bit of a binary64 set?
pub open spec fn f64_negative(bits: u64) -> bool {
    bits >= 0x8000_0000_0000_0000
}

/// The biased exponent field of a binary64.
pub open spec fn f64_exp_field(bits: u64) -> nat {
    ((bits % 0x8000_0000_0000_0000) / 0x10_0000_0000_0000) as nat
}

/// The fraction field of a binary64.
pub open spec fn f64_fraction(bits: u64) -> nat {
    (bits % 0x10_0000_0000_0000) as nat
}

/// Neither infinite nor NaN.
pub open spec fn f64_finite(bits: u64) -> bool {
    f64_exp_field(bits) != 2047
}

/// The integer significand `m` of a finite binary64 `(-1)^s * m * 2^e`.
pub open spec fn f64_mantissa(bits: u64) -> nat {
    if f64_exp_field(bits) == 0 {
        f64_fraction(bits)
    } else {
        f64_fraction(bits) + 0x10_0000_0000_0000
    }
}

/// The exponent `e` of a finite binary64 `(-1)^s * m * 2^e`.
pub open spec fn f64_exponent(bits: u64) -> int {
    if f64_exp_field(bits) == 0 {
        -1074
    } else {
        f64_exp_field(bits) - 1075
    }
}

/// Is the sign bit of a binary32 set?
pub open spec fn f32_negative(bits: u32) -> bool {
    bits >= 0x8000_0000
}

/// The biased exponent field of a binary32.
pub open spec fn f32_exp_field(bits: u32) -> nat {
    ((bits % 0x8000_0000) / 0x80_0000) as nat
}

/// The fraction field of a binary32.
pub open spec fn f32_fraction(bits: u32) -> nat {
    (bits % 0x80_0000) as nat
}

/// The integer significand of a finite binary32.
pub open spec fn f32_mantissa(bits: u32) -> nat {
    if f32_exp_field(bits) == 0 {
        f32_fraction(bits)
    } else {
        f32_fraction(bits) + 0x80_0000
    }
}

/// The exponent of a finite binary32.
pub open spec fn f32_exponent(bits: u32) -> int {
    if f32_exp_field(bits) == 0 {
        -149
    } else {
        f32_exp_field(bits) - 150
    }
}

/// `%.{precision}g`, ncdump style, of the binary64 with bit pattern `bits`.
pub open spec fn spec_fmt_g(bits: u64, precision: nat) -> Seq<char> {
    fmt_g_parts(f64_negative(bits), f64_mantissa(bits), f64_exponent(bits), precision)
}

/// Emulates C's `%.Ng` followed by ncdump's trailing-zero trim for the
/// finite binary64 whose bits are `bits`: `N` significant digits (at least
/// one), scientific notation when the decimal exponent is below -4 or at
/// least `N`, trailing zeros of the fraction removed, the point kept.
pub fn fmt_g(bits: u64, precision: usize) -> (r: String)
    requires
        f64_finite(bits),
    ensures
        r@ == spec_fmt_g(bits, precision as nat),
{
    let neg = bits >= 0x8000_0000_0000_0000;
    let field: u64 = (bits % 0x8000_0000_0000_0000) / 0x10_0000_0000_0000;
    let frac: u64 = bits % 0x10_0000_0000_0000;
    let (m, e): (u64, i32) = if field == 0 {
        (frac, -1074)
    } else {
        (frac + 0x10_0000_0000_0000, field as i32 - 1075)
    };
    format_g(neg, m, e, precision)
}

/// A binary64 as ncdump prints it: `fmt_g` plus the suffix, or `NaN`,
/// `Infinity`, `-Infinity` plus the suffix when not finite.
pub open spec fn spec_float_literal(bits: u64, digits: nat, suffix: Seq<char>) -> Seq<char> {
    if f64_exp_field(bits) == 2047 {
        if f64_fraction(bits) != 0 {
            "NaN"@ + suffix
        } else if f64_negative(bits) {
            "-Infinity"@ + suffix
        } else {
            "Infinity"@ + suffix
        }
    } else {
        spec_fmt_g(bits, digits) + suffix
    }
}

/// A binary32 widened to binary64, as ncdump prints it.
pub open spec fn spec_float32_literal(bits: u32, digits: nat, suffix: Seq<char>) -> Seq<char> {
    if f32_exp_field(bits) == 255 {
        if f32_fraction(bits) != 0 {
            "NaN"@ + suffix
        } else if f32_negative(bits) {
            "-Infinity"@ + suffix
        } else {
            "Infinity"@ + suffix
        }
    } else {
        fmt_g_parts(f32_negative(bits), f32_mantissa(bits), f32_exponent(bits), digits) + suffix
    }
}

/// A binary64 the way ncdump prints it: `%.{significant_digits}g` with
/// trailing zeros trimmed (keeping the decimal point) plus `suffix`;
/// `NaN`/`Infinity`/`-Infinity` (plus `suffix`) when not finite.
pub fn float_literal(bits: u64, significant_digits: usize, suffix: &str) -> (r: String)
    ensures
        r@ == spec_float_literal(bits, significant_digits as nat, suffix@),
{
    let field: u64 = (bits % 0x8000_0000_0000_0000) / 0x10_0000_0000_0000;
    let frac: u64 = bits % 0x10_0000_0000_0000;
    let mut out = if field == 2047 {
        let mut t = String::new();
        if frac != 0 {
            push_str(&mut t, "NaN");
        } else if bits >= 0x8000_0000_0000_0000 {
            push_str(&mut t, "-Infinity");
        } else {
            push_str(&mut t, "Infinity");
        }
        t
    } else {
        fmt_g(bits, significant_digits)
    };
    push_str(&mut out, suffix);
    out
}

/// A binary32 (widened exactly to binary64) the way ncdump prints it.
pub fn float32_literal(bits: u32, significant_digits: usize, suffix: &str) -> (r: String)
    ensures
        r@ == spec_float32_literal(bits, significant_digits as nat, suffix@),
{
    let field: u32 = (bits % 0x8000_0000) / 0x80_0000;
    let frac: u32 = bits % 0x80_0000;
    let mut out = if field == 255 {
        let mut t = String::new();
        if frac != 0 {
            push_str(&mut t, "NaN");
        } else if bits >= 0x8000_0000 {
            push_str(&mut t, "-Infinity");
        } else {
            push_str(&mut t, "Infinity");
        }
        t
    } else {
        let (m, e): (u64, i32) = if field == 0 {
            (frac as u64, -149)
        } else {
            ((frac + 0x80_0000) as u64, field as i32 - 150)
        };
        format_g(bits >= 0x8000_0000, m, e, significant_digits)
    };
    push_str(&mut out, suffix);
    out
}

} // verus!
