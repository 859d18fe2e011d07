//! Arithmetic on doubles: the exact result, rounded to the nearest double (or single) with ties
//! to even.

use vstd::arithmetic::power2::{lemma_pow2_adds, lemma_pow2_pos, lemma_pow2_strictly_increases, lemma_pow2_unfold, pow2};
use vstd::prelude::*;

use crate::double::{
    exponent, finite, fraction, is_finite, is_nan, lemma_fields, magnitude, nan, negative, one, single_exponent,
    single_fraction, single_magnitude, units, unsigned, widens_to, FRACTION_SPAN, INFINITY_BITS, NAN_BITS, SIGN_WEIGHT, SINGLE_SPAN,
};

verus! {

/// A binary interchange format.
#[derive(Clone, Copy)]
pub enum Format {
    Double,
    Single,
}

impl Format {
    /// How many digits a number has.
    pub open spec fn digits(self) -> int {
        match self {
            Format::Double => 53,
            Format::Single => 24,
        }
    }

    /// `2^(digits - 1)`: one more than the largest fraction field.
    pub open spec fn span(self) -> int {
        match self {
            Format::Double => 0x10_0000_0000_0000,
            Format::Single => 0x80_0000,
        }
    }

    /// The exponent field of infinity.
    pub open spec fn special(self) -> int {
        match self {
            Format::Double => 2047,
            Format::Single => 255,
        }
    }

    /// The digits, the span and the special exponent.
    fn parameters(self) -> (r: (i32, u64, u64))
        ensures
            r.0 == self.digits(),
            r.1 == self.span(),
            r.2 == self.special(),
    {
        match self {
            Format::Double => (53, 0x10_0000_0000_0000, 2047),
            Format::Single => (24, 0x80_0000, 255),
        }
    }
}

/// The absolute value of an unsigned pattern of a format, counted in the smallest positive number
/// of that format.
pub open spec fn worth(fmt: Format, s: int) -> int {
    let e = s / fmt.span();
    let f = s % fmt.span();
    if e == 0 {
        f
    } else {
        (f + fmt.span()) * pow2((e - 1) as nat)
    }
}

/// The pattern of infinity.
pub open spec fn ceiling(fmt: Format) -> int {
    fmt.special() * fmt.span()
}

/// How far the pattern `s` is from `p / d`, in `1 / d`.
pub open spec fn gap(fmt: Format, p: int, d: int, s: int) -> int {
    let diff = worth(fmt, s) * d - p;
    if diff < 0 {
        -diff
    } else {
        diff
    }
}

/// `r` is the unsigned pattern nearest to `p / d`, with ties to the even pattern. Infinity counts
/// as the power of two after the largest finite number.
pub open spec fn nearest(fmt: Format, p: int, d: int, r: int) -> bool {
    &&& 0 <= r <= ceiling(fmt)
    &&& forall|s: int|
        #![trigger gap(fmt, p, d, s)]
        0 <= s <= ceiling(fmt) ==> gap(fmt, p, d, r) <= gap(fmt, p, d, s) && (s != r && gap(fmt, p, d, s) == gap(
            fmt,
            p,
            d,
            r,
        ) ==> r % 2 == 0)
}

/// Larger patterns are worth more.
pub proof fn lemma_worth_orders(fmt: Format, a: int, b: int)
    requires
        0 <= a < b,
    ensures
        0 <= worth(fmt, a) < worth(fmt, b),
{
    let n = fmt.span();
    let (ea, fa) = (a / n, a % n);
    let (eb, fb) = (b / n, b % n);
    vstd::arithmetic::div_mod::lemma_fundamental_div_mod(a, n);
    vstd::arithmetic::div_mod::lemma_fundamental_div_mod(b, n);
    vstd::arithmetic::div_mod::lemma_div_is_ordered(a, b, n);
    vstd::arithmetic::div_mod::lemma_div_pos_is_pos(a, n);
    if ea > 0 {
        lemma_pow2_pos((ea - 1) as nat);
        let p = pow2((ea - 1) as nat) as int;
        assert((fa + n) * p >= 0) by (nonlinear_arith)
            requires
                fa >= 0,
                n > 0,
                p > 0,
        ;
    }
    if ea == eb {
        assert(fa < fb);
        if ea > 0 {
            let p = pow2((ea - 1) as nat) as int;
            assert((fa + n) * p < (fb + n) * p) by (nonlinear_arith)
                requires
                    fa < fb,
                    p > 0,
            ;
        }
    } else {
        let q = pow2((eb - 1) as nat) as int;
        lemma_pow2_pos((eb - 1) as nat);
        assert((fb + n) * q >= n * q) by (nonlinear_arith)
            requires
                fb >= 0,
                q > 0,
        ;
        if ea == 0 {
            assert(n * q >= n) by (nonlinear_arith)
                requires
                    q > 0,
                    n > 0,
            ;
        } else {
            let p = pow2((ea - 1) as nat) as int;
            lemma_pow2_unfold(ea as nat);
            if ea < eb - 1 {
                lemma_pow2_strictly_increases(ea as nat, (eb - 1) as nat);
            }
            assert((fa + n) * p < (2 * n) * p) by (nonlinear_arith)
                requires
                    fa < n,
                    p > 0,
            ;
            assert((2 * n) * p <= n * q) by (nonlinear_arith)
                requires
                    2 * p <= q,
                    n > 0,
            ;
        }
    }
}

/// At most one pattern is the nearest.
pub proof fn lemma_nearest_unique(fmt: Format, p: int, d: int, r: int, s: int)
    requires
        d > 0,
        nearest(fmt, p, d, r),
        nearest(fmt, p, d, s),
    ensures
        r == s,
{
    if r != s {
        let (lo, hi) = if r < s { (r, s) } else { (s, r) };
        assert(gap(fmt, p, d, r) == gap(fmt, p, d, s));
        let mid = lo + 1;
        assert(mid < hi);
        lemma_worth_orders(fmt, lo, mid);
        lemma_worth_orders(fmt, mid, hi);
        let (x, y, z) = (worth(fmt, lo), worth(fmt, mid), worth(fmt, hi));
        assert(x * d < y * d < z * d) by (nonlinear_arith)
            requires
                x < y < z,
                d > 0,
        ;
        assert(gap(fmt, p, d, mid) < gap(fmt, p, d, lo));
    }
}

/// What `q * 2^x` looks like as a pattern.
proof fn lemma_pattern(fmt: Format, x: int, q: int)
    requires
        x >= 0,
        (x == 0 && 0 <= q < fmt.span()) || fmt.span() <= q <= 2 * fmt.span(),
    ensures
        worth(fmt, x * fmt.span() + q) == q * pow2(x as nat),
{
    vstd::arithmetic::power2::lemma2_to64();
    let n = fmt.span();
    let s = x * n + q;
    let p = pow2(x as nat) as int;
    if q < n {
        vstd::arithmetic::div_mod::lemma_fundamental_div_mod_converse(s, n, 0, q);
        assert(q * p == q) by (nonlinear_arith)
            requires
                p == 1,
        ;
    } else if q < 2 * n {
        assert(s == n * (x + 1) + (q - n)) by (nonlinear_arith)
            requires
                s == x * n + q,
        ;
        vstd::arithmetic::div_mod::lemma_fundamental_div_mod_converse(s, n, x + 1, q - n);
        assert(worth(fmt, s) == (q - n + n) * pow2((x + 1 - 1) as nat));
    } else {
        assert(s == n * (x + 2) + 0) by (nonlinear_arith)
            requires
                s == x * n + q,
                q == 2 * n,
        ;
        vstd::arithmetic::div_mod::lemma_fundamental_div_mod_converse(s, n, x + 2, 0);
        lemma_pow2_unfold((x + 1) as nat);
        assert(worth(fmt, s) == n * pow2((x + 2 - 1) as nat));
        assert(n * (2 * p) == (2 * n) * p) by (nonlinear_arith);
    }
}

/// Between two neighbouring patterns the nearer one is the nearest of all.
pub proof fn lemma_between(fmt: Format, p: int, d: int, lo: int, r: int)
    requires
        d > 0,
        0 <= lo < ceiling(fmt),
        worth(fmt, lo) * d <= p <= worth(fmt, lo + 1) * d,
        r == lo || r == lo + 1,
        r == lo ==> gap(fmt, p, d, lo) <= gap(fmt, p, d, lo + 1),
        r == lo + 1 ==> gap(fmt, p, d, lo + 1) <= gap(fmt, p, d, lo),
        gap(fmt, p, d, lo) == gap(fmt, p, d, lo + 1) ==> r % 2 == 0,
    ensures
        nearest(fmt, p, d, r),
{
    let hi = lo + 1;
    assert forall|s: int| #![trigger gap(fmt, p, d, s)] 0 <= s <= ceiling(fmt) implies gap(fmt, p, d, r) <= gap(
        fmt,
        p,
        d,
        s,
    ) && (s != r && gap(fmt, p, d, s) == gap(fmt, p, d, r) ==> r % 2 == 0) by {
        let (a, b, c) = (worth(fmt, s), worth(fmt, lo), worth(fmt, hi));
        if s < lo {
            lemma_worth_orders(fmt, s, lo);
            assert(a * d < b * d) by (nonlinear_arith)
                requires
                    a < b,
                    d > 0,
            ;
        } else if s > hi {
            lemma_worth_orders(fmt, hi, s);
            assert(a * d > c * d) by (nonlinear_arith)
                requires
                    a > c,
                    d > 0,
            ;
        }
    }
}

/// Whatever is at least infinity's worth is nearest to infinity.
proof fn lemma_overflow(fmt: Format, p: int, d: int)
    requires
        d > 0,
        p >= worth(fmt, ceiling(fmt)) * d,
    ensures
        nearest(fmt, p, d, ceiling(fmt)),
{
    let top = ceiling(fmt);
    assert(top % 2 == 0) by (nonlinear_arith)
        requires
            top == fmt.special() * fmt.span(),
            fmt.span() % 2 == 0,
    ;
    assert(top >= 0) by (nonlinear_arith)
        requires
            top == fmt.special() * fmt.span(),
    ;
    assert forall|s: int| #![trigger gap(fmt, p, d, s)] 0 <= s <= top implies gap(fmt, p, d, top) <= gap(fmt, p, d, s)
        && (s != top && gap(fmt, p, d, s) == gap(fmt, p, d, top) ==> top % 2 == 0) by {
        if s < top {
            lemma_worth_orders(fmt, s, top);
            let (a, b) = (worth(fmt, s), worth(fmt, top));
            assert(a * d <= b * d) by (nonlinear_arith)
                requires
                    a < b,
                    d > 0,
            ;
        }
    }
}

/// Nearness does not change when both sides of the fraction are scaled.
proof fn lemma_nearest_scales(fmt: Format, p: int, d: int, c: int, r: int)
    requires
        c > 0,
        nearest(fmt, p, d, r),
    ensures
        nearest(fmt, p * c, d * c, r),
{
    assert forall|s: int| #![trigger gap(fmt, p * c, d * c, s)] 0 <= s <= ceiling(fmt) implies gap(
        fmt,
        p * c,
        d * c,
        r,
    ) <= gap(fmt, p * c, d * c, s) && (s != r && gap(fmt, p * c, d * c, s) == gap(fmt, p * c, d * c, r) ==> r % 2
        == 0) by {
        lemma_gap_scales(fmt, p, d, c, r);
        lemma_gap_scales(fmt, p, d, c, s);
        let (x, y) = (gap(fmt, p, d, r), gap(fmt, p, d, s));
        assert(x * c <= y * c) by (nonlinear_arith)
            requires
                x <= y,
                c > 0,
        ;
        assert(x * c == y * c ==> x == y) by (nonlinear_arith)
            requires
                c > 0,
        ;
    }
}

/// A gap grows as both sides of the fraction are scaled.
proof fn lemma_gap_scales(fmt: Format, p: int, d: int, c: int, s: int)
    requires
        c > 0,
    ensures
        gap(fmt, p * c, d * c, s) == gap(fmt, p, d, s) * c,
{
    let m = worth(fmt, s);
    assert(m * (d * c) - p * c == (m * d - p) * c) by (nonlinear_arith);
    let diff = m * d - p;
    assert(diff < 0 ==> diff * c < 0) by (nonlinear_arith)
        requires
            c > 0,
    ;
    assert(diff >= 0 ==> diff * c >= 0) by (nonlinear_arith)
        requires
            c > 0,
    ;
    assert((-diff) * c == -(diff * c)) by (nonlinear_arith);
}

/// `2^k` as an integer.
pub(crate) fn two_to(k: u32) -> (r: u128)
    requires
        k <= 127,
    ensures
        r == pow2(k as nat),
{
    let top: u128 = 0x8000_0000_0000_0000_0000_0000_0000_0000;
    proof {
        vstd::arithmetic::power2::lemma2_to64();
        vstd::arithmetic::power2::lemma2_to64_rest();
        lemma_pow2_adds(63, 64);
        assert(top == pow2(127));
        vstd::bits::lemma_u128_shr_is_div(top, (127 - k) as u128);
        lemma_pow2_adds(k as nat, (127 - k) as nat);
        lemma_pow2_pos((127 - k) as nat);
        vstd::arithmetic::div_mod::lemma_div_multiples_vanish(pow2(k as nat) as int, pow2((127 - k) as nat) as int);
        vstd::arithmetic::mul::lemma_mul_is_commutative(pow2(k as nat) as int, pow2((127 - k) as nat) as int);
    }
    top >> ((127 - k) as u128)
}

/// How many binary digits a positive integer has.
fn bit_length(m: u128) -> (r: u32)
    requires
        m > 0,
    ensures
        1 <= r <= 128,
        pow2((r - 1) as nat) <= m < pow2(r as nat),
{
    let mut t: u128 = m;
    let mut len: u32 = 0;
    proof {
        vstd::arithmetic::power2::lemma2_to64();
    }
    while t >= 0x1_0000_0000
        invariant
            m > 0,
            t >= 1,
            len <= 127,
            t * pow2(len as nat) <= m < (t + 1) * pow2(len as nat),
        decreases t,
    {
        proof {
            vstd::arithmetic::power2::lemma2_to64();
            lemma_fewer_digits(m as int, t as int, len as nat, 32);
        }
        t = t / 0x1_0000_0000;
        len = len + 32;
    }
    while t >= 256
        invariant
            m > 0,
            t >= 1,
            len <= 127,
            t * pow2(len as nat) <= m < (t + 1) * pow2(len as nat),
        decreases t,
    {
        proof {
            vstd::arithmetic::power2::lemma2_to64();
            lemma_fewer_digits(m as int, t as int, len as nat, 8);
        }
        t = t / 256;
        len = len + 8;
    }
    while t >= 2
        invariant
            m > 0,
            t >= 1,
            len <= 127,
            t * pow2(len as nat) <= m < (t + 1) * pow2(len as nat),
        decreases t,
    {
        proof {
            vstd::arithmetic::power2::lemma2_to64();
            lemma_fewer_digits(m as int, t as int, len as nat, 1);
        }
        t = t / 2;
        len = len + 1;
    }
    proof {
        lemma_pow2_unfold((len + 1) as nat);
    }
    len + 1
}

/// Dropping `j` more low digits.
proof fn lemma_fewer_digits(m: int, t: int, len: nat, j: nat)
    requires
        0 < m <= u128::MAX,
        t >= pow2(j),
        t * pow2(len) <= m < (t + 1) * pow2(len),
    ensures
        t / (pow2(j) as int) >= 1,
        (t / (pow2(j) as int)) * pow2(len + j) <= m < (t / (pow2(j) as int) + 1) * pow2(len + j),
        len + j <= 127,
{
    let d = pow2(j) as int;
    let p = pow2(len) as int;
    lemma_pow2_pos(j);
    lemma_pow2_pos(len);
    lemma_pow2_adds(len, j);
    let q = t / d;
    vstd::arithmetic::div_mod::lemma_fundamental_div_mod(t, d);
    vstd::arithmetic::div_mod::lemma_mod_bound(t, d);
    assert(d * q <= t < d * q + d);
    assert(q >= 1) by (nonlinear_arith)
        requires
            d > 0,
            t >= d,
            t < d * q + d,
    ;
    assert(q * (p * d) <= t * p) by (nonlinear_arith)
        requires
            d * q <= t,
            p > 0,
    ;
    assert((t + 1) * p <= (q + 1) * (p * d)) by (nonlinear_arith)
        requires
            t + 1 <= d * q + d,
            p > 0,
    ;
    assert(q * (p * d) >= p * d) by (nonlinear_arith)
        requires
            q >= 1,
            p > 0,
            d > 0,
    ;
    assert(pow2(len + j) <= m);
    if len + j >= 128 {
        if len + j > 128 {
            lemma_pow2_strictly_increases(128, len + j);
        }
        vstd::arithmetic::power2::lemma2_to64();
        lemma_pow2_adds(64, 64);
    }
}

/// The numerator of `m * 2^e`.
pub open spec fn numerator(m: int, e: int) -> int {
    if e >= 0 {
        m * pow2(e as nat)
    } else {
        m
    }
}

/// The denominator of `m * 2^e`.
pub open spec fn denominator(e: int) -> int {
    if e >= 0 {
        1
    } else {
        pow2((-e) as nat) as int
    }
}

/// `m * 2^j` has `j` more digits than `m`.
proof fn lemma_scaled_range(m: int, len: nat, j: nat)
    requires
        len >= 1,
        pow2((len - 1) as nat) <= m < pow2(len),
    ensures
        pow2((len - 1 + j) as nat) <= m * pow2(j) < pow2(len + j),
{
    lemma_pow2_pos(j);
    lemma_pow2_adds((len - 1) as nat, j);
    lemma_pow2_adds(len, j);
    let (a, b, c) = (pow2((len - 1) as nat) as int, pow2(len) as int, pow2(j) as int);
    assert(a * c <= m * c < b * c) by (nonlinear_arith)
        requires
            a <= m < b,
            c > 0,
    ;
}

/// What the two formats have in common.
proof fn lemma_format(fmt: Format)
    ensures
        fmt.span() == pow2((fmt.digits() - 1) as nat),
        2 * fmt.span() == pow2(fmt.digits() as nat),
        24 <= fmt.digits() <= 53,
        255 <= fmt.special() <= 2047,
        fmt.span() % 2 == 0,
{
    vstd::arithmetic::power2::lemma2_to64();
    vstd::arithmetic::power2::lemma2_to64_rest();
}

/// The pattern of `m * 2^e` where no digit is lost.
fn exact_pattern(fmt: Format, m: u128, e: i32, len: u32, x: i32) -> (r: u64)
    requires
        0 < m,
        1 <= len <= 120,
        pow2((len - 1) as nat) <= m < pow2(len as nat),
        x == (if e + len - fmt.digits() < 0 { 0 } else { e + len - fmt.digits() }),
        x <= e <= 3100,
        x <= fmt.special() - 2,
    ensures
        nearest(fmt, numerator(m as int, e as int), denominator(e as int), r as int),
{
    let (_, span, _) = fmt.parameters();
    let j: u32 = (e - x) as u32;
    proof {
        lemma_format(fmt);
        assert(len <= fmt.digits());
        assert(j <= 52);
        lemma_pow2_pos(j as nat);
        lemma_scaled_range(m as int, len as nat, j as nat);
        if len + j < fmt.digits() {
            lemma_pow2_strictly_increases((len + j) as nat, fmt.digits() as nat);
        }
    }
    let q: u64 = (m * two_to(j)) as u64;
    assert(x * fmt.span() + q < fmt.special() * fmt.span()) by (nonlinear_arith)
        requires
            x <= fmt.special() - 2,
            q < 2 * fmt.span(),
    ;
    let r: u64 = x as u64 * span + q;
    proof {
        lemma_pattern(fmt, x as int, q as int);
        lemma_pow2_adds(j as nat, x as nat);
        let (a, b) = (pow2(j as nat) as int, pow2(x as nat) as int);
        assert((m * a) * b == m * (a * b)) by (nonlinear_arith);
        lemma_worth_orders(fmt, r as int, r + 1);
        lemma_between(fmt, numerator(m as int, e as int), 1, r as int, r as int);
    }
    r
}

/// Keeping the digits `q` of `m * 2^e` above `2^x`, and rounding by the rest.
proof fn lemma_round_half_even(fmt: Format, m: int, e: int, x: int, q: int, rem: int, r: int)
    requires
        e < x,
        0 <= x <= fmt.special() - 2,
        m == q * pow2((x - e) as nat) + rem,
        0 <= rem < pow2((x - e) as nat),
        0 <= q < 2 * fmt.span(),
        x > 0 ==> q >= fmt.span(),
        r == x * fmt.span() + q + (if rem * 2 > pow2((x - e) as nat) || (rem * 2 == pow2((x - e) as nat) && q % 2
            == 1) { 1int } else { 0 }),
    ensures
        nearest(fmt, numerator(m, e), denominator(e), r),
{
    let p = numerator(m, e);
    let d = denominator(e);
    let b = pow2(x as nat) as int;
    let n = fmt.span();
    let pw = pow2((x - e) as nat) as int;
    let lo = x * n + q;
    lemma_format(fmt);
    lemma_pattern(fmt, x, q);
    lemma_pattern(fmt, x, q + 1);
    // In units of `c / d`, the two neighbours are `q * pw` and `(q + 1) * pw`, and the number is `m`.
    let c = if e >= 0 { pow2(e as nat) as int } else { 1 };
    if e >= 0 {
        lemma_pow2_pos(e as nat);
        lemma_pow2_adds((x - e) as nat, e as nat);
        assert((x - e) as nat + e as nat == x as nat);
        assert(b * 1 == b);
    } else {
        lemma_pow2_pos((-e) as nat);
        lemma_pow2_adds(x as nat, (-e) as nat);
        assert(x as nat + (-e) as nat == (x - e) as nat);
        assert(pw * 1 == pw);
    }
    assert(b * d == pw * c);
    assert((q * b) * d == (q * pw) * c) by (nonlinear_arith)
        requires
            b * d == pw * c,
    ;
    assert(((q + 1) * b) * d == (q * pw + pw) * c) by (nonlinear_arith)
        requires
            b * d == pw * c,
    ;
    let base = q * pw;
    assert((base + rem) * c - base * c == rem * c) by (nonlinear_arith);
    assert((base + pw) * c - (base + rem) * c == (pw - rem) * c) by (nonlinear_arith);
    assert(rem * c >= 0 && (pw - rem) * c >= 0) by (nonlinear_arith)
        requires
            0 <= rem < pw,
            c > 0,
    ;
    assert(rem * 2 > pw ==> rem * c > (pw - rem) * c) by (nonlinear_arith)
        requires
            c > 0,
    ;
    assert(rem * 2 < pw ==> rem * c < (pw - rem) * c) by (nonlinear_arith)
        requires
            c > 0,
    ;
    assert(rem * 2 == pw ==> rem * c == (pw - rem) * c) by (nonlinear_arith)
        requires
            c > 0,
    ;
    let h = n / 2;
    assert(x * n == 2 * (x * h)) by (nonlinear_arith)
        requires
            n == 2 * h,
    ;
    assert(lo % 2 == q % 2);
    let sp = fmt.special();
    assert(x * n + q < sp * n) by (nonlinear_arith)
        requires
            x <= sp - 2,
            q < 2 * n,
            n > 0,
    ;
    assert(x * n >= 0) by (nonlinear_arith)
        requires
            x >= 0,
            n > 0,
    ;
    assert(lo + 1 == x * n + (q + 1));
    assert(p == m * c) by (nonlinear_arith)
        requires
            p == numerator(m, e),
            numerator(m, e) == m * c,
    ;
    assert(gap(fmt, p, d, lo) == rem * c);
    assert(gap(fmt, p, d, lo + 1) == (pw - rem) * c);
    lemma_between(fmt, p, d, lo, r);
}

/// The pattern of `m * 2^e` where `x - e` low digits are rounded away.
fn rounded_pattern(fmt: Format, m: u128, e: i32, len: u32, x: i32) -> (r: u64)
    requires
        0 < m,
        1 <= len <= 120,
        pow2((len - 1) as nat) <= m < pow2(len as nat),
        x == (if e + len - fmt.digits() < 0 { 0 } else { e + len - fmt.digits() }),
        e < x <= e + 120,
        -3100 <= e <= 3100,
        x <= fmt.special() - 2,
    ensures
        nearest(fmt, numerator(m as int, e as int), denominator(e as int), r as int),
{
    let (_, span, _) = fmt.parameters();
    let k: u32 = (x - e) as u32;
    let pw: u128 = two_to(k);
    let ghost n = fmt.span();
    proof {
        lemma_format(fmt);
        lemma_pow2_pos(k as nat);
        lemma_pow2_strictly_increases(k as nat, 121);
        vstd::arithmetic::power2::lemma2_to64();
        lemma_pow2_adds(61, 60);
        vstd::arithmetic::power2::lemma2_to64_rest();
    }
    let q: u64 = (m / pw) as u64;
    let rem: u128 = m % pw;
    proof {
        vstd::arithmetic::div_mod::lemma_fundamental_div_mod(m as int, pw as int);
        let w = m as int / pw as int;
        // Upper bound on the kept digits.
        assert(len <= k + fmt.digits());
        lemma_pow2_adds(fmt.digits() as nat, k as nat);
        if len < k + fmt.digits() {
            lemma_pow2_strictly_increases(len as nat, (k + fmt.digits()) as nat);
        }
        assert(w < 2 * n) by (nonlinear_arith)
            requires
                pw * w <= m,
                m < (2 * n) * pw,
                pw > 0,
        ;
        // Lower bound on them above the smallest exponent.
        if x > 0 {
            assert(len - 1 == k + fmt.digits() - 1);
            lemma_pow2_adds((fmt.digits() - 1) as nat, k as nat);
            assert(w >= n) by (nonlinear_arith)
                requires
                    pw * w + pw > m,
                    m >= n * pw,
                    pw > 0,
            ;
        }
        assert(w >= 0);
        assert(m == w * pw + rem) by (nonlinear_arith)
            requires
                m == pw * w + rem,
        ;
    }
    assert(x * fmt.span() + q < fmt.special() * fmt.span()) by (nonlinear_arith)
        requires
            x <= fmt.special() - 2,
            q < 2 * fmt.span(),
    ;
    let lo: u64 = x as u64 * span + q;
    let up: bool = rem * 2 > pw || (rem * 2 == pw && q % 2 == 1);
    let r: u64 = if up { lo + 1 } else { lo };
    proof {
        lemma_round_half_even(fmt, m as int, e as int, x as int, q as int, rem as int, r as int);
    }
    r
}

/// The unsigned pattern nearest to `m * 2^e`.
fn round_scaled(fmt: Format, m: u128, e: i32) -> (r: u64)
    requires
        m < 0x0100_0000_0000_0000_0000_0000_0000_0000,
        -3100 <= e <= 3100,
    ensures
        nearest(fmt, numerator(m as int, e as int), denominator(e as int), r as int),
{
    let ghost p = numerator(m as int, e as int);
    let ghost d = denominator(e as int);
    proof {
        lemma_format(fmt);
        vstd::arithmetic::power2::lemma2_to64();
        vstd::arithmetic::power2::lemma2_to64_rest();
        lemma_pow2_adds(60, 60);
        assert(pow2(120) == 0x0100_0000_0000_0000_0000_0000_0000_0000);
        if e < 0 {
            lemma_pow2_pos((-e) as nat);
        }
        assert(d > 0);
        assert(0 * d == 0 && 1 * d == d) by (nonlinear_arith);
        lemma_pattern(fmt, 0, 0);
        lemma_pattern(fmt, 0, 1);
        assert(0 * pow2(0) == 0 && 1 * pow2(0) == 1) by (nonlinear_arith)
            requires
                pow2(0) == 1,
        ;
    }
    if m == 0 {
        proof {
            assert(0 * pow2(e as nat) == 0) by (nonlinear_arith);
            lemma_between(fmt, p, d, 0, 0);
        }
        return 0;
    }
    let len: u32 = bit_length(m);
    proof {
        if len > 120 {
            if len > 121 {
                lemma_pow2_strictly_increases(120, (len - 1) as nat);
            }
            assert(false);
        }
    }
    let (digits, span, special) = fmt.parameters();
    let top: i32 = e + len as i32 - digits;
    if top >= special as i32 - 1 {
        proof {
            let x = fmt.special() - 2;
            lemma_pattern(fmt, x, 2 * fmt.span());
            assert(x * fmt.span() + 2 * fmt.span() == ceiling(fmt)) by (nonlinear_arith)
                requires
                    x == fmt.special() - 2,
                    ceiling(fmt) == fmt.special() * fmt.span(),
            ;
            lemma_pow2_adds(fmt.digits() as nat, x as nat);
            lemma_pow2_adds((len - 1) as nat, e as nat);
            let w = (len - 1 + e) as nat;
            if w > fmt.digits() + x {
                lemma_pow2_strictly_increases((fmt.digits() + x) as nat, w);
            }
            let (a, b) = (pow2((len - 1) as nat) as int, pow2(e as nat) as int);
            assert(m * b >= a * b) by (nonlinear_arith)
                requires
                    m >= a,
                    b >= 0,
            ;
            lemma_overflow(fmt, p, d);
        }
        return special * span;
    }
    let x: i32 = if top < 0 { 0 } else { top };
    let k: i32 = x - e;
    if k <= 0 {
        exact_pattern(fmt, m, e, len, x)
    } else if k > 120 {
        proof {
            lemma_pow2_unfold(k as nat);
            if k > 121 {
                lemma_pow2_strictly_increases(120, (k - 1) as nat);
            }
            assert(x == 0 && e < 0);
            assert(d == pow2(k as nat) && p == m);
            lemma_between(fmt, p, d, 0, 0);
        }
        0
    } else {
        rounded_pattern(fmt, m, e, len, x)
    }
}

/// A pattern without its sign is worth its magnitude.
pub proof fn lemma_worth_of_double(bits: u64)
    ensures
        worth(Format::Double, unsigned(bits)) == magnitude(bits),
        0 <= unsigned(bits) < SIGN_WEIGHT,
{
    lemma_fields(bits);
    let s = unsigned(bits);
    vstd::arithmetic::div_mod::lemma_fundamental_div_mod_converse(
        s,
        FRACTION_SPAN as int,
        exponent(bits),
        fraction(bits),
    );
}

/// The magnitude of a finite double as `m * 2^x`.
pub(crate) fn parts(bits: u64) -> (r: (u64, i32))
    requires
        finite(bits),
    ensures
        r.0 < 2 * FRACTION_SPAN,
        0 <= r.1 <= 2045,
        magnitude(bits) == r.0 * pow2(r.1 as nat),
        unsigned(bits) == r.1 * FRACTION_SPAN + r.0,
        r.1 > 0 ==> r.0 >= FRACTION_SPAN,
{
    proof {
        lemma_fields(bits);
        vstd::arithmetic::power2::lemma2_to64();
    }
    let e: u64 = (bits / FRACTION_SPAN) % 2048;
    let f: u64 = bits % FRACTION_SPAN;
    if e == 0 {
        assert(f * pow2(0) == f) by (nonlinear_arith)
            requires
                pow2(0) == 1,
        ;
        (f, 0)
    } else {
        (f + FRACTION_SPAN, (e - 1) as i32)
    }
}

/// Rounding `m * 2^(x - k)` is rounding the fraction of `m * 2^x` and `2^k`.
proof fn lemma_nearest_shifted(fmt: Format, m: int, x: int, k: int, r: int)
    requires
        x >= 0,
        k >= 0,
        nearest(fmt, numerator(m, x - k), denominator(x - k), r),
    ensures
        nearest(fmt, m * pow2(x as nat), pow2(k as nat) as int, r),
{
    if x >= k {
        let c = pow2(k as nat) as int;
        let a = pow2((x - k) as nat) as int;
        lemma_pow2_pos(k as nat);
        lemma_pow2_adds((x - k) as nat, k as nat);
        assert((x - k) as nat + k as nat == x as nat);
        lemma_nearest_scales(fmt, m * a, 1, c, r);
        assert((m * a) * c == m * (a * c)) by (nonlinear_arith);
        assert(1 * c == c);
    } else {
        let c = pow2(x as nat) as int;
        let a = pow2((k - x) as nat) as int;
        lemma_pow2_pos(x as nat);
        lemma_pow2_adds((k - x) as nat, x as nat);
        assert((k - x) as nat + x as nat == k as nat);
        lemma_nearest_scales(fmt, m, a, c, r);
    }
}

/// `r` is the floating-point product `a * b`.
pub open spec fn product(a: u64, b: u64, r: u64) -> bool {
    if nan(a) || nan(b) || (!finite(a) && magnitude(b) == 0) || (!finite(b) && magnitude(a) == 0) {
        r == NAN_BITS
    } else {
        &&& negative(r) == (negative(a) != negative(b))
        &&& if finite(a) && finite(b) {
            nearest(Format::Double, magnitude(a) * magnitude(b), one(), unsigned(r))
        } else {
            unsigned(r) == INFINITY_BITS
        }
    }
}

/// The floating-point product `a * b`.
pub open spec fn times(a: u64, b: u64) -> u64 {
    choose|r: u64| product(a, b, r)
}

/// Some pattern is worth no more than a quotient, and the next one no less.
proof fn lemma_bracket(fmt: Format, p: int, d: int, hi: int) -> (lo: int)
    requires
        d > 0,
        p >= 0,
        hi > 0,
        p <= worth(fmt, hi) * d,
    ensures
        0 <= lo < hi,
        worth(fmt, lo) * d <= p <= worth(fmt, lo + 1) * d,
    decreases hi,
{
    if hi == 1 {
        lemma_pattern(fmt, 0, 0);
        let zero = worth(fmt, 0);
        assert(zero == 0) by {
            assert(0 * pow2(0) == 0) by (nonlinear_arith);
        }
        assert(zero * d == 0) by (nonlinear_arith)
            requires
                zero == 0,
        ;
        0
    } else if p <= worth(fmt, hi - 1) * d {
        lemma_bracket(fmt, p, d, hi - 1)
    } else {
        hi - 1
    }
}

/// Some pattern is the nearest.
pub proof fn lemma_nearest_exists(fmt: Format, p: int, d: int) -> (r: int)
    requires
        d > 0,
        p >= 0,
    ensures
        nearest(fmt, p, d, r),
{
    let top = ceiling(fmt);
    lemma_format(fmt);
    assert(top > 0) by (nonlinear_arith)
        requires
            top == fmt.special() * fmt.span(),
            fmt.special() > 0,
            fmt.span() > 0,
    ;
    if p >= worth(fmt, top) * d {
        lemma_overflow(fmt, p, d);
        top
    } else {
        let lo = lemma_bracket(fmt, p, d, top);
        let (a, b) = (gap(fmt, p, d, lo), gap(fmt, p, d, lo + 1));
        let r = if a < b || (a == b && lo % 2 == 0) {
            lo
        } else {
            lo + 1
        };
        lemma_between(fmt, p, d, lo, r);
        r
    }
}

/// Any two doubles have a product; that of two finite ones is no NaN.
pub proof fn law_product_exists(a: u64, b: u64)
    ensures
        product(a, b, times(a, b)),
        finite(a) && finite(b) ==> !nan(times(a, b)),
{
    if nan(a) || nan(b) || (!finite(a) && magnitude(b) == 0) || (!finite(b) && magnitude(a) == 0) {
        assert(product(a, b, NAN_BITS));
    } else {
        let sign = if negative(a) != negative(b) {
            SIGN_WEIGHT as int
        } else {
            0
        };
        let low = if finite(a) && finite(b) {
            lemma_zero(a);
            lemma_zero(b);
            lemma_pow2_pos(1074);
            let (x, y) = (magnitude(a), magnitude(b));
            assert(x * y >= 0) by (nonlinear_arith)
                requires
                    x >= 0,
                    y >= 0,
            ;
            lemma_nearest_exists(Format::Double, x * y, one())
        } else {
            INFINITY_BITS as int
        };
        let r = (sign + low) as u64;
        assert(unsigned(r) == low);
        assert(product(a, b, r));
    }
    let r = times(a, b);
    if finite(a) && finite(b) {
        assert(unsigned(r) <= INFINITY_BITS);
        lemma_fields(r);
    }
}

/// Two doubles have one product.
pub proof fn law_product_is_unique(a: u64, b: u64, r: u64)
    requires
        product(a, b, r),
    ensures
        times(a, b) == r,
{
    let s = times(a, b);
    assert(product(a, b, s));
    if finite(a) && finite(b) && !nan(a) && !nan(b) {
        lemma_pow2_pos(1074);
        lemma_nearest_unique(Format::Double, magnitude(a) * magnitude(b), one(), unsigned(r), unsigned(s));
    }
}

/// The magnitude of the product of two finite doubles.
fn finite_product(a: u64, b: u64) -> (low: u64)
    requires
        finite(a),
        finite(b),
    ensures
        nearest(Format::Double, magnitude(a) * magnitude(b), one(), low as int),
        low <= INFINITY_BITS,
{
    let (ma, xa) = parts(a);
    let (mb, xb) = parts(b);
    assert(ma * mb < 0x0100_0000_0000_0000_0000_0000_0000_0000) by (nonlinear_arith)
        requires
            0 <= ma < 0x20_0000_0000_0000,
            0 <= mb < 0x20_0000_0000_0000,
    ;
    let m: u128 = ma as u128 * mb as u128;
    let low: u64 = round_scaled(Format::Double, m, xa + xb - 1074);
    proof {
        let (p, q) = (pow2(xa as nat) as int, pow2(xb as nat) as int);
        lemma_pow2_adds(xa as nat, xb as nat);
        lemma_nearest_shifted(Format::Double, m as int, xa + xb, 1074, low as int);
        assert((ma * p) * (mb * q) == (ma * mb) * (p * q)) by (nonlinear_arith);
        assert((xa + xb) as nat == xa as nat + xb as nat);
    }
    low
}

/// The floating-point product `a * b`.
pub fn multiply(a: u64, b: u64) -> (r: u64)
    ensures
        product(a, b, r),
        r == times(a, b),
{
    let r: u64 = computed_product(a, b);
    proof {
        law_product_is_unique(a, b, r);
    }
    r
}

/// Computes a product.
fn computed_product(a: u64, b: u64) -> (r: u64)
    ensures
        product(a, b, r),
{
    if is_nan(a) || is_nan(b) {
        return NAN_BITS;
    }
    let low: u64;
    if is_finite(a) && is_finite(b) {
        low = finite_product(a, b);
    } else {
        proof {
            lemma_zero(a);
            lemma_zero(b);
        }
        if a % SIGN_WEIGHT == 0 || b % SIGN_WEIGHT == 0 {
            return NAN_BITS;
        }
        low = INFINITY_BITS;
    }
    if (a < SIGN_WEIGHT) == (b < SIGN_WEIGHT) {
        low
    } else {
        SIGN_WEIGHT + low
    }
}

/// Only the two zeros have no magnitude.
proof fn lemma_zero(bits: u64)
    ensures
        (magnitude(bits) == 0) == (unsigned(bits) == 0),
        magnitude(bits) >= 0,
{
    lemma_worth_of_double(bits);
    lemma_pattern(Format::Double, 0, 0);
    assert(0 * pow2(0) == 0) by (nonlinear_arith);
    if unsigned(bits) > 0 {
        lemma_worth_orders(Format::Double, 0, unsigned(bits));
    }
}

/// `r` is the floating-point value of `|a - b|`.
pub open spec fn apart(a: u64, b: u64, r: u64) -> bool {
    if nan(a) || nan(b) || (!finite(a) && !finite(b) && negative(a) == negative(b)) {
        r == NAN_BITS
    } else if finite(a) && finite(b) {
        let diff = units(a) - units(b);
        nearest(Format::Double, if diff < 0 { -diff } else { diff }, 1, r as int)
    } else {
        r == INFINITY_BITS
    }
}

/// A number far below the last digit of another leaves it unchanged.
proof fn lemma_absorbed(x: int, m: int, p: int)
    requires
        0 < x <= 2045,
        FRACTION_SPAN <= m < 2 * FRACTION_SPAN,
        4 * (p - m * pow2(x as nat)) < pow2(x as nat),
        4 * (m * pow2(x as nat) - p) < pow2(x as nat),
    ensures
        nearest(Format::Double, p, 1, x * FRACTION_SPAN + m),
{
    let fmt = Format::Double;
    let n = FRACTION_SPAN as int;
    let h = x * n + m;
    let w = pow2(x as nat) as int;
    lemma_pow2_pos(x as nat);
    lemma_pow2_unfold(x as nat);
    let v = pow2((x - 1) as nat) as int;
    assert(w == 2 * v);
    lemma_pattern(fmt, x, m);
    lemma_pattern(fmt, x, m + 1);
    assert(h + 1 == x * n + (m + 1));
    assert((m + 1) * w == m * w + w) by (nonlinear_arith);
    if m > n {
        lemma_pattern(fmt, x, m - 1);
        assert(h - 1 == x * n + (m - 1));
        assert((m - 1) * w == m * w - w) by (nonlinear_arith);
    } else {
        lemma_pattern(fmt, x - 1, 2 * n - 1);
        assert((x - 1) * n + (2 * n - 1) == h - 1) by (nonlinear_arith)
            requires
                h == x * n + m,
                m == n,
        ;
        assert((2 * n - 1) * v == n * w - v) by (nonlinear_arith)
            requires
                w == 2 * v,
        ;
    }
    assert(worth(fmt, h - 1) <= worth(fmt, h) - v);
    assert(worth(fmt, h + 1) == worth(fmt, h) + w);
    assert(x * n + m < 2047 * n) by (nonlinear_arith)
        requires
            x <= 2045,
            m < 2 * n,
            n > 0,
    ;
    assert(x * n >= 0) by (nonlinear_arith)
        requires
            x > 0,
            n > 0,
    ;
    assert forall|s: int| #![trigger gap(fmt, p, 1, s)] 0 <= s <= ceiling(fmt) implies gap(fmt, p, 1, h) <= gap(fmt, p, 1, s)
        && (s != h && gap(fmt, p, 1, s) == gap(fmt, p, 1, h) ==> h % 2 == 0) by {
        if s < h - 1 {
            lemma_worth_orders(fmt, s, h - 1);
        } else if s > h + 1 {
            lemma_worth_orders(fmt, h + 1, s);
        }
    }
}

/// The floating-point value of `|a - b|`.
pub fn distance(a: u64, b: u64) -> (r: u64)
    ensures
        apart(a, b, r),
{
    if is_nan(a) || is_nan(b) {
        return NAN_BITS;
    }
    let agree: bool = (a < SIGN_WEIGHT) == (b < SIGN_WEIGHT);
    if !is_finite(a) || !is_finite(b) {
        return if !is_finite(a) && !is_finite(b) && agree { NAN_BITS } else { INFINITY_BITS };
    }
    let (ma, xa) = parts(a);
    let (mb, xb) = parts(b);
    if xa >= xb {
        aligned_distance(ma, xa, mb, xb, agree)
    } else {
        aligned_distance(mb, xb, ma, xa, agree)
    }
}

/// `|m * 2^x - n * 2^y|`, or the sum where the signs differ, for `x >= y`.
fn aligned_distance(m: u64, x: i32, n: u64, y: i32, agree: bool) -> (r: u64)
    requires
        m < 2 * FRACTION_SPAN,
        n < 2 * FRACTION_SPAN,
        0 <= y <= x <= 2045,
        x > 0 ==> m >= FRACTION_SPAN,
    ensures
        ({
            let (p, q) = (m * pow2(x as nat), n * pow2(y as nat));
            let v = if !agree {
                p + q
            } else if p < q {
                q - p
            } else {
                p - q
            };
            nearest(Format::Double, v, 1, r as int)
        }),
{
    let shift: i32 = x - y;
    let ghost (p, q) = (m * pow2(x as nat), n * pow2(y as nat));
    let ghost w = pow2(y as nat) as int;
    proof {
        lemma_pow2_pos(y as nat);
        lemma_pow2_adds(shift as nat, y as nat);
        assert(shift as nat + y as nat == x as nat);
        vstd::arithmetic::power2::lemma2_to64();
        vstd::arithmetic::power2::lemma2_to64_rest();
    }
    if shift <= 64 {
        let pw: u128 = two_to(shift as u32);
        proof {
            if shift < 64 {
                lemma_pow2_strictly_increases(shift as nat, 64);
            }
            assert(m * pw < 0x0080_0000_0000_0000_0000_0000_0000_0000) by (nonlinear_arith)
                requires
                    0 <= m < 0x20_0000_0000_0000,
                    0 <= pw <= 0x1_0000_0000_0000_0000,
            ;
            assert((m * pw) * w == m * (pw * w)) by (nonlinear_arith);
        }
        let big: u128 = m as u128 * pw;
        let small: u128 = n as u128;
        let v: u128 = if !agree {
            big + small
        } else if big < small {
            small - big
        } else {
            big - small
        };
        let r: u64 = round_scaled(Format::Double, v, y);
        proof {
            assert((big + small) * w == big * w + small * w) by (nonlinear_arith);
            assert((small - big) * w == small * w - big * w) by (nonlinear_arith);
            assert((big - small) * w == big * w - small * w) by (nonlinear_arith);
            assert(big < small ==> big * w < small * w) by (nonlinear_arith)
                requires
                    w > 0,
            ;
            assert(big >= small ==> big * w >= small * w) by (nonlinear_arith)
                requires
                    w > 0,
            ;
        }
        r
    } else {
        assert(x * FRACTION_SPAN + m < 2047 * FRACTION_SPAN) by (nonlinear_arith)
            requires
                x <= 2045,
                m < 2 * FRACTION_SPAN,
        ;
        let r: u64 = x as u64 * FRACTION_SPAN + m;
        proof {
            let z = pow2(shift as nat) as int;
            lemma_pow2_strictly_increases(64, shift as nat);
            assert(4 * n < z);
            assert(4 * (n * w) < z * w) by (nonlinear_arith)
                requires
                    4 * n < z,
                    w > 0,
            ;
            assert(n * w >= 0) by (nonlinear_arith)
                requires
                    n >= 0,
                    w > 0,
            ;
            let top = pow2(x as nat) as int;
            assert(p >= top) by (nonlinear_arith)
                requires
                    p == m * top,
                    m >= 1,
                    top > 0,
            ;
            lemma_absorbed(x as int, m as int, if agree { p - q } else { p + q });
        }
        r
    }
}

/// `r` is the single that a double narrows to: the same sign, the nearest single, an infinity for
/// an infinity, and for a NaN the quiet NaN with the high part of its payload.
pub open spec fn narrows_to(wide: u64, r: u32) -> bool {
    &&& (r >= 0x8000_0000) == negative(wide)
    &&& if nan(wide) {
        let payload = fraction(wide) / 0x2000_0000;
        r as int % 0x8000_0000 == 255 * SINGLE_SPAN + (if payload < 0x40_0000 {
            payload + 0x40_0000
        } else {
            payload
        })
    } else if finite(wide) {
        nearest(Format::Single, magnitude(wide), pow2(925) as int, r as int % 0x8000_0000)
    } else {
        r as int % 0x8000_0000 == 255 * SINGLE_SPAN
    }
}

/// The single that a double narrows to.
pub open spec fn narrowed(wide: u64) -> u32 {
    choose|r: u32| narrows_to(wide, r)
}

/// A double narrows to one single.
pub proof fn law_narrowing_is_unique(wide: u64, r: u32)
    requires
        narrows_to(wide, r),
    ensures
        narrowed(wide) == r,
{
    let s = narrowed(wide);
    assert(narrows_to(wide, s));
    if finite(wide) && !nan(wide) {
        lemma_pow2_pos(925);
        lemma_nearest_unique(
            Format::Single,
            magnitude(wide),
            pow2(925) as int,
            r as int % 0x8000_0000,
            s as int % 0x8000_0000,
        );
    }
}

/// The single nearest to a double.
pub fn narrow(wide: u64) -> (r: u32)
    ensures
        narrows_to(wide, r),
        r == narrowed(wide),
{
    let r: u32 = computed_narrow(wide);
    proof {
        law_narrowing_is_unique(wide, r);
    }
    r
}

/// Computes the single nearest to a double.
fn computed_narrow(wide: u64) -> (r: u32)
    ensures
        narrows_to(wide, r),
{
    let low: u32 = if is_nan(wide) {
        let payload: u32 = ((wide % FRACTION_SPAN) / 0x2000_0000) as u32;
        255 * SINGLE_SPAN + (if payload < 0x40_0000 { payload + 0x40_0000 } else { payload })
    } else if is_finite(wide) {
        let (m, x) = parts(wide);
        let low: u64 = round_scaled(Format::Single, m as u128, x - 925);
        proof {
            lemma_nearest_shifted(Format::Single, m as int, x as int, 925, low as int);
        }
        low as u32
    } else {
        255 * SINGLE_SPAN
    };
    if wide < SIGN_WEIGHT {
        low
    } else {
        0x8000_0000 + low
    }
}

/// A single that was widened narrows back to itself. (A signalling NaN comes back quiet.)
pub proof fn law_widened_single_narrows_back(bits: u32, wide: u64)
    requires
        widens_to(bits, wide),
        !(single_exponent(bits) == 255 && 0 < single_fraction(bits) < 0x40_0000),
    ensures
        narrowed(wide) == bits,
{
    let u = bits as int % 0x8000_0000;
    let n = SINGLE_SPAN as int;
    let (e, f) = (single_exponent(bits), single_fraction(bits));
    assert(u == e * n + f && 0 <= e < 256 && 0 <= f < n) by {
        let q = bits as int / n;
        assert(bits == n * q + f);
        assert(0 <= q < 512);
        assert(e == if q >= 256 {
            q - 256
        } else {
            q
        });
    }
    if e == 255 {
        lemma_fields(wide);
        if f > 0 {
            assert(fraction(wide) / 0x2000_0000 == f);
        }
    } else {
        let fmt = Format::Single;
        let d = pow2(925) as int;
        let p = magnitude(wide);
        lemma_pow2_pos(925);
        vstd::arithmetic::div_mod::lemma_fundamental_div_mod_converse(u, n, e, f);
        assert(worth(fmt, u) == single_magnitude(bits));
        lemma_worth_orders(fmt, u, u + 1);
        let (a, b) = (worth(fmt, u), worth(fmt, u + 1));
        assert(a * d < b * d) by (nonlinear_arith)
            requires
                a < b,
                d > 0,
        ;
        lemma_between(fmt, p, d, u, u);
        lemma_fields(wide);
    }
    assert(narrows_to(wide, bits));
    law_narrowing_is_unique(wide, bits);
}

} // verus!
