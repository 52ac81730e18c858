//! Exact decimal arithmetic on digit strings: the facts that tie a string of
//! decimal digits to the number it spells, and the handful of operations
//! (multiplying by a small factor, splitting, incrementing, trimming) that
//! the float formatters build on.

use vstd::prelude::*;
use crate::text::{dec, digit, digit_char, digit_value, digits_value, is_digit};

verus! {

/// `10^n`.
pub open spec fn pow10(n: nat) -> nat
    decreases n,
{
    if n == 0 {
        1
    } else {
        10 * pow10((n - 1) as nat)
    }
}

/// `2^n`.
pub open spec fn pow2(n: nat) -> nat
    decreases n,
{
    if n == 0 {
        1
    } else {
        2 * pow2((n - 1) as nat)
    }
}

/// `5^n`.
pub open spec fn pow5(n: nat) -> nat
    decreases n,
{
    if n == 0 {
        1
    } else {
        5 * pow5((n - 1) as nat)
    }
}

/// `n` copies of the digit `0`.
pub open spec fn zeros(n: nat) -> Seq<char> {
    Seq::new(n, |i: int| '0')
}

/// Every element is a decimal digit.
pub open spec fn all_digits(s: Seq<char>) -> bool {
    forall|i: int| 0 <= i < s.len() ==> is_digit(#[trigger] s[i])
}

/// A numeral as `dec` writes it: digits only, at least one, and no leading
/// zero unless the numeral is `0` itself.
pub open spec fn canonical(s: Seq<char>) -> bool {
    &&& s.len() >= 1
    &&& all_digits(s)
    &&& (s[0] != '0' || s.len() == 1)
}

/// The value of little-endian decimal digits (least significant first).
pub open spec fn le_value(s: Seq<u8>) -> nat
    decreases s.len(),
{
    if s.len() == 0 {
        0
    } else {
        s[0] as nat + 10 * le_value(s.drop_first())
    }
}

/// Every element of a little-endian digit vector is below ten.
pub open spec fn le_digits(s: Seq<u8>) -> bool {
    forall|i: int| 0 <= i < s.len() ==> #[trigger] s[i] < 10
}

pub proof fn lemma_pow10_pos(n: nat)
    ensures
        pow10(n) >= 1,
    decreases n,
{
    if n > 0 {
        lemma_pow10_pos((n - 1) as nat);
    }
}

pub proof fn lemma_pow10_add(a: nat, b: nat)
    ensures
        pow10(a + b) == pow10(a) * pow10(b),
    decreases a,
{
    if a > 0 {
        let a1 = (a - 1) as nat;
        lemma_pow10_add(a1, b);
        let x = pow10(a1);
        let y = pow10(b);
        assert(pow10(a1 + b) == x * y);
        assert(pow10(a + b) == 10 * pow10(a1 + b));
        assert(pow10(a) == 10 * x);
        assert(10 * (x * y) == (10 * x) * y) by (nonlinear_arith);
        assert(pow10(a) * pow10(b) == (10 * x) * y);
        assert(pow10(a + b) == 10 * (x * y));
    } else {
        assert(pow10(0) == 1);
        assert(a + b == b);
        assert(1 * pow10(b) == pow10(b));
    }
}

pub proof fn lemma_pow10_mono(a: nat, b: nat)
    requires
        a <= b,
    ensures
        pow10(a) <= pow10(b),
    decreases b,
{
    if a < b {
        lemma_pow10_mono(a, (b - 1) as nat);
        lemma_pow10_pos((b - 1) as nat);
    }
}

/// `10^n == 2^n * 5^n`.
pub proof fn lemma_pow10_split(n: nat)
    ensures
        pow10(n) == pow2(n) * pow5(n),
    decreases n,
{
    if n > 0 {
        let n1 = (n - 1) as nat;
        lemma_pow10_split(n1);
        let a = pow2(n1);
        let b = pow5(n1);
        assert(pow10(n1) == a * b);
        assert(pow10(n) == 10 * pow10(n1));
        assert(pow2(n) == 2 * a);
        assert(pow5(n) == 5 * b);
        assert((2 * a) * (5 * b) == 10 * (a * b)) by (nonlinear_arith);
        assert(pow2(n) * pow5(n) == (2 * a) * (5 * b));
        assert(pow10(n) == pow2(n) * pow5(n));
    } else {
        assert(pow10(0) == 1 && pow2(0) == 1 && pow5(0) == 1);
        assert(pow2(n) * pow5(n) == 1 * 1);
    }
}

/// The value of a digit string is below `10^len`.
pub proof fn lemma_digits_value_bound(s: Seq<char>)
    requires
        all_digits(s),
    ensures
        digits_value(s) < pow10(s.len()),
    decreases s.len(),
{
    if s.len() > 0 {
        let t = s.drop_last();
        assert(all_digits(t)) by {
            assert forall|i: int| 0 <= i < t.len() implies is_digit(#[trigger] t[i]) by {
                assert(t[i] == s[i]);
            }
        }
        lemma_digits_value_bound(t);
        assert(is_digit(s[s.len() - 1]));
        let a = digits_value(t);
        let d = digit_value(s.last());
        let p = pow10(t.len());
        assert(a * 10 + d < 10 * p) by (nonlinear_arith)
            requires a < p, d < 10;
    }
}

/// A digit string that does not start with `0` is at least `10^(len-1)`.
pub proof fn lemma_digits_value_lower(s: Seq<char>)
    requires
        all_digits(s),
        s.len() >= 1,
        s[0] != '0',
    ensures
        digits_value(s) >= pow10((s.len() - 1) as nat),
    decreases s.len(),
{
    if s.len() == 1 {
        assert(s.drop_last().len() == 0);
        assert(is_digit(s[0]));
    } else {
        let t = s.drop_last();
        assert(all_digits(t)) by {
            assert forall|i: int| 0 <= i < t.len() implies is_digit(#[trigger] t[i]) by {
                assert(t[i] == s[i]);
            }
        }
        assert(t[0] == s[0]);
        lemma_digits_value_lower(t);
    }
}

/// Splitting a digit string after `j` digits splits its value.
pub proof fn lemma_digits_split(s: Seq<char>, j: int)
    requires
        0 <= j <= s.len(),
    ensures
        digits_value(s) == digits_value(s.take(j)) * pow10((s.len() - j) as nat)
            + digits_value(s.skip(j)),
    decreases s.len() - j,
{
    if j == s.len() {
        assert(s.take(j) == s);
        assert(s.skip(j).len() == 0);
        assert(pow10(0) == 1);
        assert(digits_value(s.take(j)) * 1 == digits_value(s));
    } else {
        lemma_digits_split(s.drop_last(), j);
        let t = s.drop_last();
        assert(t.take(j) == s.take(j));
        assert(s.skip(j).drop_last() == t.skip(j));
        assert(s.skip(j).last() == s.last());
        let a = digits_value(s.take(j));
        let p = pow10((t.len() - j) as nat);
        let b = digits_value(t.skip(j));
        let d = digit_value(s.last());
        assert(digits_value(t) == a * p + b);
        assert(digits_value(s) == digits_value(t) * 10 + d);
        assert(digits_value(s.skip(j)) == b * 10 + d);
        assert(pow10((s.len() - j) as nat) == 10 * p);
        assert((a * p + b) * 10 + d == a * (10 * p) + (b * 10 + d)) by (nonlinear_arith);
    }
}

/// Appending `n` zeros multiplies the value by `10^n`.
pub proof fn lemma_digits_append_zeros(s: Seq<char>, n: nat)
    ensures
        digits_value(s + zeros(n)) == digits_value(s) * pow10(n),
    decreases n,
{
    if n == 0 {
        assert(s + zeros(0) == s);
        assert(pow10(0) == 1);
        assert(digits_value(s) * 1 == digits_value(s));
    } else {
        lemma_digits_append_zeros(s, (n - 1) as nat);
        let u = s + zeros(n);
        assert(u.drop_last() == s + zeros((n - 1) as nat));
        assert(u.last() == '0');
        let a = digits_value(s);
        let p = pow10((n - 1) as nat);
        assert(digits_value(s + zeros((n - 1) as nat)) == a * p);
        assert(digits_value(u) == digits_value(u.drop_last()) * 10 + digit_value(u.last()));
        assert(digit_value('0') == 0);
        assert(pow10(n) == 10 * p);
        assert((a * p) * 10 == a * (10 * p)) by (nonlinear_arith);
    }
}

/// A digit string is worth zero exactly when all its digits are `0`.
pub proof fn lemma_digits_zero(s: Seq<char>)
    requires
        all_digits(s),
    ensures
        (digits_value(s) == 0) == (forall|i: int| 0 <= i < s.len() ==> #[trigger] s[i] == '0'),
    decreases s.len(),
{
    if s.len() > 0 {
        let t = s.drop_last();
        assert(all_digits(t)) by {
            assert forall|i: int| 0 <= i < t.len() implies is_digit(#[trigger] t[i]) by {
                assert(t[i] == s[i]);
            }
        }
        lemma_digits_zero(t);
        assert(is_digit(s[s.len() - 1]));
        if digits_value(s) == 0 {
            assert forall|i: int| 0 <= i < s.len() implies #[trigger] s[i] == '0' by {
                if i < s.len() - 1 {
                    assert(t[i] == s[i]);
                }
            }
        }
        if forall|i: int| 0 <= i < s.len() ==> #[trigger] s[i] == '0' {
            assert forall|i: int| 0 <= i < t.len() implies #[trigger] t[i] == '0' by {
                assert(t[i] == s[i]);
            }
            assert(s[s.len() - 1] == '0');
        }
    }
}

/// `dec` writes canonical numerals and they spell the number back.
pub proof fn lemma_dec_canonical(n: nat)
    ensures
        canonical(dec(n)),
        digits_value(dec(n)) == n,
    decreases n,
{
    if n < 10 {
        assert(dec(n) == seq![digit_char(n)]);
        assert(dec(n).drop_last().len() == 0);
        assert(digits_value(dec(n).drop_last()) == 0);
        assert(dec(n).last() == digit_char(n));
        assert(digit_value(digit_char(n)) == n);
        assert(digits_value(dec(n)) == 0 * 10 + digit_value(digit_char(n)));
    } else {
        lemma_dec_canonical(n / 10);
        let t = dec(n / 10);
        assert(digit_value(digit_char(n % 10)) == n % 10);
        assert(dec(n).last() == digit_char(n % 10));
        assert(digits_value(dec(n)) == digits_value(dec(n).drop_last()) * 10 + digit_value(dec(n).last()));
        assert(n == (n / 10) * 10 + n % 10);
        assert(dec(n).drop_last() == t);
        assert(dec(n)[0] == t[0]);
        assert(t.len() >= 1);
        if t.len() == 1 {
            assert(t[0] != '0') by {
                assert(n / 10 >= 1);
                assert(digits_value(t) == digits_value(t.drop_last()) * 10 + digit_value(t[0]));
                assert(t.drop_last().len() == 0);
            }
        }
    }
}

/// A digit character is the character of its value.
pub proof fn lemma_digit_roundtrip(c: char)
    requires
        is_digit(c),
    ensures
        digit_value(c) < 10,
        digit_char(digit_value(c)) == c,
{
    assert(c == '0' || c == '1' || c == '2' || c == '3' || c == '4' || c == '5' || c == '6'
        || c == '7' || c == '8' || c == '9');
}

/// A canonical numeral is `dec` of its value.
pub proof fn lemma_canonical_is_dec(s: Seq<char>)
    requires
        canonical(s),
    ensures
        dec(digits_value(s)) == s,
    decreases s.len(),
{
    let n = digits_value(s);
    if s.len() == 1 {
        assert(s.drop_last().len() == 0);
        assert(is_digit(s[0]));
        lemma_digit_roundtrip(s[0]);
        assert(digits_value(s.drop_last()) == 0);
        assert(s.last() == s[0]);
        assert(n == digit_value(s[0]));
        assert(dec(n) == seq![digit_char(n)]);
        assert(dec(n) =~= s);
    } else {
        let t = s.drop_last();
        assert(all_digits(t)) by {
            assert forall|i: int| 0 <= i < t.len() implies is_digit(#[trigger] t[i]) by {
                assert(t[i] == s[i]);
            }
        }
        assert(t[0] == s[0]);
        lemma_canonical_is_dec(t);
        lemma_digits_value_lower(t);
        lemma_pow10_pos((t.len() - 1) as nat);
        assert(is_digit(s[s.len() - 1]));
        let d = digit_value(s.last());
        let a = digits_value(t);
        assert(n == a * 10 + d);
        assert(n / 10 == a && n % 10 == d) by (nonlinear_arith)
            requires n == a * 10 + d, d < 10;
        assert(n >= 10);
        lemma_digit_roundtrip(s.last());
        assert(digit_char(d) == s.last());
        assert(dec(n) =~= s);
    }
}

/// Pushing a digit on the most significant end of little-endian digits.
pub proof fn lemma_le_push(s: Seq<u8>, d: u8)
    ensures
        le_value(s.push(d)) == le_value(s) + d * pow10(s.len()),
    decreases s.len(),
{
    if s.len() == 0 {
        assert(s.push(d).drop_first().len() == 0);
        assert(pow10(0) == 1);
        assert(le_value(s) == 0);
        assert(le_value(s.push(d)) == d as nat + 10 * le_value(s.push(d).drop_first()));
        assert(d * 1 == d);
    } else {
        assert(s.push(d).drop_first() == s.drop_first().push(d));
        lemma_le_push(s.drop_first(), d);
        let a = le_value(s.drop_first());
        let p = pow10(s.drop_first().len());
        assert(le_value(s.drop_first().push(d)) == a + d * p);
        assert(le_value(s.push(d)) == s[0] as nat + 10 * le_value(s.push(d).drop_first()));
        assert(le_value(s) == s[0] as nat + 10 * a);
        assert(pow10(s.len()) == 10 * p);
        assert(10 * (a + d * p) == 10 * a + d * (10 * p)) by (nonlinear_arith);
    }
}

/// The characters of little-endian digits, most significant first.
pub open spec fn le_to_chars(s: Seq<u8>) -> Seq<char> {
    Seq::new(s.len(), |i: int| digit_char(s[s.len() - 1 - i] as nat))
}

pub proof fn lemma_le_to_chars(s: Seq<u8>)
    requires
        le_digits(s),
    ensures
        all_digits(le_to_chars(s)),
        digits_value(le_to_chars(s)) == le_value(s),
    decreases s.len(),
{
    let c = le_to_chars(s);
    assert forall|i: int| 0 <= i < c.len() implies is_digit(#[trigger] c[i]) by {
        assert(s[s.len() - 1 - i] < 10);
    }
    if s.len() > 0 {
        let t = s.drop_first();
        assert(le_digits(t)) by {
            assert forall|i: int| 0 <= i < t.len() implies #[trigger] t[i] < 10 by {
                assert(t[i] == s[i + 1]);
            }
        }
        lemma_le_to_chars(t);
        assert(c.drop_last() =~= le_to_chars(t));
        assert(s[0] < 10);
        assert(digit_value(c.last()) == s[0]);
    }
}

/// Zeros on the most significant end do not change the value.
pub proof fn lemma_le_push_zero(s: Seq<u8>)
    ensures
        le_value(s.push(0)) == le_value(s),
{
    lemma_le_push(s, 0);
    assert(0 * pow10(s.len()) == 0);
}

/// The little-endian digits of `m`.
pub fn le_from_u64(m: u64) -> (r: Vec<u8>)
    ensures
        le_digits(r@),
        le_value(r@) == m,
{
    let mut r: Vec<u8> = Vec::new();
    let mut x: u64 = m;
    assert(le_value(r@) == 0);
    assert(pow10(0) == 1);
    assert(1 * m == m);
    while x > 0
        invariant
            le_digits(r@),
            le_value(r@) + pow10(r@.len()) * x == m,
        decreases x,
    {
        let d: u8 = (x % 10) as u8;
        proof {
            lemma_le_push(r@, d);
            let p = pow10(r@.len());
            assert(pow10(r@.push(d).len()) == 10 * p);
            assert(p * x == d * p + (10 * p) * (x / 10)) by (nonlinear_arith)
                requires d == x % 10;
        }
        r.push(d);
        x = x / 10;
    }
    proof {
        assert(pow10(r@.len()) * 0 == 0);
    }
    r
}

/// `k` times the number spelled by little-endian digits `a`.
pub fn le_mul_small(a: &Vec<u8>, k: u8) -> (r: Vec<u8>)
    requires
        le_digits(a@),
        k <= 9,
    ensures
        le_digits(r@),
        le_value(r@) == k * le_value(a@),
{
    let mut r: Vec<u8> = Vec::new();
    let mut carry: u8 = 0;
    let mut i: usize = 0;
    assert(le_value(a@.take(0)) == 0);
    assert(le_value(r@) == 0);
    assert(k * 0 == 0);
    assert(0 * pow10(0) == 0);
    while i < a.len()
        invariant
            i <= a.len(),
            r@.len() == i,
            le_digits(a@),
            le_digits(r@),
            k <= 9,
            carry <= 9,
            le_value(r@) + carry * pow10(i as nat) == k * le_value(a@.take(i as int)),
        decreases a.len() - i,
    {
        let ai: u8 = a[i];
        assert(ai == a@[i as int] && ai < 10);
        assert(k * ai <= 81) by (nonlinear_arith)
            requires k <= 9, ai < 10;
        let x: u8 = k * ai + carry;
        let d: u8 = x % 10;
        let c: u8 = x / 10;
        proof {
            lemma_le_push(r@, d);
            lemma_le_push(a@.take(i as int), a@[i as int]);
            assert(a@.take(i as int).push(a@[i as int]) == a@.take(i + 1));
            let p = pow10(i as nat);
            assert(pow10((i + 1) as nat) == 10 * p);
            let v = le_value(a@.take(i as int));
            let w = le_value(r@);
            assert(w + d * p + c * (10 * p) == k * (v + a@[i as int] * p)) by (nonlinear_arith)
                requires
                    w + carry * p == k * v,
                    x == k * a@[i as int] + carry,
                    d == x % 10,
                    c == x / 10;
        }
        r.push(d);
        carry = c;
        i = i + 1;
    }
    assert(a@.take(a.len() as int) == a@);
    if carry > 0 {
        proof {
            lemma_le_push(r@, carry);
        }
        r.push(carry);
    } else {
        assert(0 * pow10(i as nat) == 0);
    }
    r
}

/// The decimal numeral of the number spelled by little-endian digits.
pub fn le_to_dec(a: &Vec<u8>) -> (r: Vec<char>)
    requires
        le_digits(a@),
    ensures
        r@ == dec(le_value(a@)),
{
    let mut n: usize = a.len();
    assert(a@.take(n as int) == a@);
    while n > 1 && a[n - 1] == 0
        invariant
            n <= a.len(),
            a.len() > 0 ==> n >= 1,
            le_value(a@.take(n as int)) == le_value(a@),
        decreases n,
    {
        proof {
            assert(a@.take(n as int) == a@.take(n - 1).push(0));
            lemma_le_push_zero(a@.take(n - 1));
        }
        n = n - 1;
    }
    if n == 0 {
        assert(a@.len() == 0);
        assert(le_value(a@) == 0);
        let r = vec!['0'];
        assert(r@ == dec(0));
        return r;
    }
    let ghost t = a@.take(n as int);
    let mut r: Vec<char> = Vec::new();
    let mut i: usize = n;
    while i > 0
        invariant
            i <= n <= a.len(),
            t == a@.take(n as int),
            le_digits(a@),
            r@ == le_to_chars(t).take(n - i),
        decreases i,
    {
        let c = digit(a[i - 1] as u64);
        proof {
            assert(le_to_chars(t).take(n - i + 1) == le_to_chars(t).take(n - i).push(c));
        }
        r.push(c);
        i = i - 1;
    }
    proof {
        assert(le_digits(t)) by {
            assert forall|j: int| 0 <= j < t.len() implies #[trigger] t[j] < 10 by {
                assert(t[j] == a@[j]);
            }
        }
        lemma_le_to_chars(t);
        assert(le_to_chars(t).take(n as int) == le_to_chars(t));
        if n > 1 {
            assert(a@[n - 1] != 0);
            assert(a@[n - 1] < 10);
            assert(r@[0] == digit_char(a@[n - 1] as nat));
            assert(r@[0] != '0');
        }
        assert(canonical(r@));
        lemma_canonical_is_dec(r@);
    }
    r
}

/// A string of nines is one less than a power of ten.
pub proof fn lemma_nines(s: Seq<char>)
    requires
        forall|i: int| 0 <= i < s.len() ==> #[trigger] s[i] == '9',
    ensures
        digits_value(s) + 1 == pow10(s.len()),
    decreases s.len(),
{
    if s.len() == 0 {
        assert(pow10(0) == 1);
    } else {
        let t = s.drop_last();
        assert forall|i: int| 0 <= i < t.len() implies #[trigger] t[i] == '9' by {
            assert(t[i] == s[i]);
        }
        lemma_nines(t);
        assert(s.last() == '9');
        assert(digit_value('9') == 9);
        assert(pow10(s.len()) == 10 * pow10(t.len()));
    }
}

/// The digits of `s` plus one, or `None` when `s` is all nines (and the
/// sum needs one digit more: `digits_value(s) + 1 == 10^len`).
pub fn increment_digits(s: &Vec<char>) -> (r: Option<Vec<char>>)
    requires
        all_digits(s@),
        s.len() >= 1,
    ensures
        match r {
            Some(t) => {
                &&& t@.len() == s@.len()
                &&& all_digits(t@)
                &&& digits_value(t@) == digits_value(s@) + 1
                &&& (s@[0] != '0' ==> t@[0] != '0')
            },
            None => digits_value(s@) + 1 == pow10(s@.len()),
        },
{
    let n = s.len();
    let mut k: usize = n;
    while k > 0 && s[k - 1] == '9'
        invariant
            k <= n == s.len(),
            forall|i: int| k <= i < n ==> #[trigger] s@[i] == '9',
        decreases k,
    {
        k = k - 1;
    }
    if k == 0 {
        proof {
            assert(s@.skip(0) == s@);
            lemma_nines(s@);
        }
        return None;
    }
    let c = s[k - 1];
    assert(is_digit(s@[k - 1]));
    let d: u64 = (c as u32 - '0' as u32) as u64;
    assert(d == digit_value(c) && d < 9);
    let mut t: Vec<char> = Vec::new();
    let mut i: usize = 0;
    while i < k - 1
        invariant
            i <= k - 1,
            k <= n == s.len(),
            t@ == s@.take(i as int),
        decreases k - 1 - i,
    {
        t.push(s[i]);
        assert(s@.take(i + 1) == s@.take(i as int).push(s@[i as int]));
        i = i + 1;
    }
    let up = digit(d + 1);
    t.push(up);
    let ghost head = t@;
    while i < n - 1
        invariant
            k - 1 <= i <= n - 1,
            n == s.len(),
            t@ == head + zeros((i - (k - 1)) as nat),
            head.len() == k,
        decreases n - 1 - i,
    {
        t.push('0');
        assert(head + zeros((i + 1 - (k - 1)) as nat) == (head + zeros((i - (k - 1)) as nat)).push('0'));
        i = i + 1;
    }
    proof {
        let tail_len = (n - k) as nat;
        assert(t@ == head + zeros(tail_len));
        assert(head == s@.take(k - 1).push(digit_char((d + 1) as nat)));
        assert(head.drop_last() == s@.take(k - 1));
        assert(all_digits(s@.take(k - 1))) by {
            assert forall|j: int| 0 <= j < k - 1 implies is_digit(#[trigger] s@.take(k - 1)[j]) by {
                assert(s@.take(k - 1)[j] == s@[j]);
            }
        }
        assert(digit_value(digit_char((d + 1) as nat)) == d + 1);
        let a = digits_value(s@.take(k - 1));
        assert(digits_value(head) == a * 10 + d + 1);
        lemma_digits_append_zeros(head, tail_len);
        // s = s[..k] ++ nines
        lemma_digits_split(s@, k as int);
        assert(s@.take(k as int).drop_last() == s@.take(k - 1));
        assert(s@.take(k as int).last() == c);
        assert(digits_value(s@.take(k as int)) == a * 10 + d);
        assert forall|j: int| 0 <= j < s@.skip(k as int).len() implies #[trigger] s@.skip(k as int)[j] == '9' by {
            assert(s@.skip(k as int)[j] == s@[j + k]);
        }
        lemma_nines(s@.skip(k as int));
        let p = pow10(tail_len);
        assert(digits_value(s@.skip(k as int)) + 1 == p);
        assert(digits_value(t@) == (a * 10 + d + 1) * p);
        assert(digits_value(s@) == (a * 10 + d) * p + (p - 1));
        assert((a * 10 + d + 1) * p == (a * 10 + d) * p + p) by (nonlinear_arith);
        assert forall|j: int| 0 <= j < t@.len() implies is_digit(#[trigger] t@[j]) by {
            if j < k - 1 {
                assert(t@[j] == s@[j]);
            } else if j == k - 1 {
                assert(t@[j] == digit_char((d + 1) as nat));
            } else {
                assert(t@[j] == '0');
            }
        }
        if s@[0] != '0' {
            if k == 1 {
                assert(t@[0] == digit_char((d + 1) as nat));
            } else {
                assert(t@[0] == s@[0]);
            }
        }
    }
    Some(t)
}

/// `s` without its trailing zeros.
pub open spec fn trim_zeros(s: Seq<char>) -> Seq<char>
    decreases s.len(),
{
    if s.len() > 0 && s.last() == '0' {
        trim_zeros(s.drop_last())
    } else {
        s
    }
}

} // verus!
