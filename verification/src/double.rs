//! IEEE 754 doubles as bit patterns.
//!
//! Every floating-point quantity of the library travels as the 64-bit pattern of a double. This
//! module says what a pattern is worth, orders patterns by that worth, and makes the patterns of
//! numbers that a double holds exactly. Nothing here rounds.

use vstd::arithmetic::power2::{lemma_pow2_adds, lemma_pow2_pos, lemma_pow2_strictly_increases, lemma_pow2_unfold, pow2};
use vstd::prelude::*;

verus! {

/// `2^52`: one more than the largest fraction field.
pub const FRACTION_SPAN: u64 = 0x10_0000_0000_0000;

/// `2^63`: the weight of the sign bit.
pub const SIGN_WEIGHT: u64 = 0x8000_0000_0000_0000;

/// The exponent field of infinities and NaNs.
pub const EXPONENT_SPECIAL: u64 = 2047;

/// The quiet NaN that stands for a missing value.
pub const NAN_BITS: u64 = 0x7ff8_0000_0000_0000;

/// Positive infinity: the largest pattern without a sign that is no NaN.
pub const INFINITY_BITS: u64 = 0x7ff0_0000_0000_0000;

/// The sign bit.
pub open spec fn negative(bits: u64) -> bool {
    bits >= SIGN_WEIGHT
}

/// The exponent field, `0..=2047`.
pub open spec fn exponent(bits: u64) -> int {
    (bits as int / FRACTION_SPAN as int) % 2048
}

/// The fraction field, `0..2^52`.
pub open spec fn fraction(bits: u64) -> int {
    bits as int % FRACTION_SPAN as int
}

/// Not a number.
pub open spec fn nan(bits: u64) -> bool {
    exponent(bits) == EXPONENT_SPECIAL && fraction(bits) != 0
}

/// Neither infinite nor NaN.
pub open spec fn finite(bits: u64) -> bool {
    exponent(bits) != EXPONENT_SPECIAL
}

/// The absolute value, counted in the smallest positive double (`2^-1074`). Infinity gets the
/// count that the next exponent would have, which is above every finite one.
pub open spec fn magnitude(bits: u64) -> int {
    if exponent(bits) == 0 {
        fraction(bits)
    } else {
        (fraction(bits) + FRACTION_SPAN) * pow2((exponent(bits) - 1) as nat)
    }
}

/// The value, counted in the smallest positive double.
pub open spec fn units(bits: u64) -> int {
    if negative(bits) {
        -magnitude(bits)
    } else {
        magnitude(bits)
    }
}

/// How many units make `1.0`.
pub open spec fn one() -> int {
    pow2(1074) as int
}

/// The comparison `a > b`: false when either is NaN, by value otherwise.
pub open spec fn above(a: u64, b: u64) -> bool {
    !nan(a) && !nan(b) && units(a) > units(b)
}

/// The comparison `a == b`: false when either is NaN, by value otherwise.
pub open spec fn same(a: u64, b: u64) -> bool {
    !nan(a) && !nan(b) && units(a) == units(b)
}

/// The pattern without its sign bit.
pub open spec fn unsigned(bits: u64) -> int {
    bits as int % SIGN_WEIGHT as int
}

/// The pattern without its sign orders like the absolute value.
pub proof fn lemma_magnitude_orders(a: u64, b: u64)
    requires
        unsigned(a) <= unsigned(b),
    ensures
        magnitude(a) <= magnitude(b),
        unsigned(a) < unsigned(b) ==> magnitude(a) < magnitude(b),
        magnitude(a) >= 0,
{
    let (ea, fa) = (exponent(a), fraction(a));
    let (eb, fb) = (exponent(b), fraction(b));
    lemma_fields(a);
    lemma_fields(b);
    if ea > 0 {
        lemma_pow2_pos((ea - 1) as nat);
        assert((fa + FRACTION_SPAN) * pow2((ea - 1) as nat) >= 0) by (nonlinear_arith)
            requires
                fa >= 0,
                pow2((ea - 1) as nat) > 0,
        ;
    }
    if ea == eb {
        if ea > 0 {
            let p = pow2((ea - 1) as nat) as int;
            assert(fa <= fb ==> (fa + FRACTION_SPAN) * p <= (fb + FRACTION_SPAN) * p) by (nonlinear_arith)
                requires
                    p > 0,
            ;
            assert(fa < fb ==> (fa + FRACTION_SPAN) * p < (fb + FRACTION_SPAN) * p) by (nonlinear_arith)
                requires
                    p > 0,
            ;
        }
    } else {
        assert(ea < eb);
        let q = pow2((eb - 1) as nat) as int;
        lemma_pow2_pos((eb - 1) as nat);
        assert((fb + FRACTION_SPAN) * q >= FRACTION_SPAN * q) by (nonlinear_arith)
            requires
                fb >= 0,
                q > 0,
        ;
        if ea == 0 {
            assert(FRACTION_SPAN * q >= FRACTION_SPAN) by (nonlinear_arith)
                requires
                    q > 0,
            ;
        } else {
            let p = pow2((ea - 1) as nat) as int;
            lemma_pow2_unfold(ea as nat);
            assert(pow2(ea as nat) == 2 * p);
            if ea < eb - 1 {
                lemma_pow2_strictly_increases(ea as nat, (eb - 1) as nat);
            }
            assert((fa + FRACTION_SPAN) * p < (2 * FRACTION_SPAN) * p) by (nonlinear_arith)
                requires
                    fa < FRACTION_SPAN,
                    p > 0,
            ;
            assert((2 * FRACTION_SPAN) * p <= FRACTION_SPAN * q) by (nonlinear_arith)
                requires
                    2 * p <= q,
            ;
        }
    }
}

/// A pattern is its three fields.
pub proof fn lemma_fields(bits: u64)
    ensures
        0 <= exponent(bits) <= 2047,
        0 <= fraction(bits) < FRACTION_SPAN,
        unsigned(bits) == exponent(bits) * FRACTION_SPAN + fraction(bits),
        bits == (if negative(bits) { SIGN_WEIGHT as int } else { 0 }) + exponent(bits) * FRACTION_SPAN
            + fraction(bits),
{
    let q = bits as int / FRACTION_SPAN as int;
    assert(SIGN_WEIGHT == 2048 * FRACTION_SPAN);
    assert(bits == q * FRACTION_SPAN + fraction(bits));
    assert(0 <= q < 4096);
    if q >= 2048 {
        assert(q % 2048 == q - 2048);
    } else {
        assert(q % 2048 == q);
    }
}

/// The fields of a pattern that was put together from them.
pub proof fn lemma_compose(sign: bool, e: int, f: int, bits: u64)
    requires
        0 <= e <= 2047,
        0 <= f < FRACTION_SPAN,
        bits == (if sign { SIGN_WEIGHT as int } else { 0 }) + e * FRACTION_SPAN + f,
    ensures
        negative(bits) == sign,
        exponent(bits) == e,
        fraction(bits) == f,
{
    lemma_fields(bits);
    assert(SIGN_WEIGHT == 2048 * FRACTION_SPAN);
    let q = if sign { e + 2048 } else { e };
    assert(bits == q * FRACTION_SPAN + f);
    assert(bits as int / FRACTION_SPAN as int == q);
}

/// Whether the pattern is a NaN.
pub fn is_nan(bits: u64) -> (r: bool)
    ensures
        r == nan(bits),
{
    (bits / FRACTION_SPAN) % 2048 == EXPONENT_SPECIAL && bits % FRACTION_SPAN != 0
}

/// Whether the pattern is a finite number.
pub fn is_finite(bits: u64) -> (r: bool)
    ensures
        r == finite(bits),
{
    (bits / FRACTION_SPAN) % 2048 != EXPONENT_SPECIAL
}

/// The floating-point comparison `a > b`.
pub fn greater(a: u64, b: u64) -> (r: bool)
    ensures
        r == above(a, b),
{
    if is_nan(a) || is_nan(b) {
        return false;
    }
    let ma: u64 = a % SIGN_WEIGHT;
    let mb: u64 = b % SIGN_WEIGHT;
    proof {
        lemma_magnitude_orders(0, a);
        lemma_magnitude_orders(0, b);
        if ma <= mb {
            lemma_magnitude_orders(a, b);
        }
        if mb <= ma {
            lemma_magnitude_orders(b, a);
        }
    }
    if a < SIGN_WEIGHT {
        if b < SIGN_WEIGHT {
            ma > mb
        } else {
            ma != 0 || mb != 0
        }
    } else {
        b >= SIGN_WEIGHT && ma < mb
    }
}

/// The floating-point comparison `a == b`.
pub fn equal(a: u64, b: u64) -> (r: bool)
    ensures
        r == same(a, b),
{
    !is_nan(a) && !is_nan(b) && !greater(a, b) && !greater(b, a)
}

/// The pattern with its sign turned round.
pub fn negated(bits: u64) -> (r: u64)
    ensures
        nan(r) == nan(bits),
        finite(r) == finite(bits),
        units(r) == -units(bits),
{
    proof {
        lemma_fields(bits);
    }
    if bits < SIGN_WEIGHT {
        let r: u64 = bits + SIGN_WEIGHT;
        proof {
            lemma_compose(true, exponent(bits), fraction(bits), r);
        }
        r
    } else {
        let r: u64 = bits - SIGN_WEIGHT;
        proof {
            lemma_compose(false, exponent(bits), fraction(bits), r);
        }
        r
    }
}

/// The double that is exactly `n / 2^k`.
pub fn dyadic(n: i64, k: u32) -> (r: u64)
    requires
        -0x20_0000_0000_0000 < n < 0x20_0000_0000_0000,
        k <= 64,
    ensures
        finite(r),
        negative(r) == (n < 0),
        units(r) * pow2(k as nat) == n * one(),
{
    if n == 0 {
        proof {
            lemma_compose(false, 0, 0, 0);
        }
        return 0;
    }
    let size: u64 = if n < 0 { (-n) as u64 } else { n as u64 };
    let mut m: u64 = size;
    let mut s: u64 = 0;
    proof {
        vstd::arithmetic::power2::lemma2_to64();
        vstd::arithmetic::power2::lemma2_to64_rest();
    }
    while m < FRACTION_SPAN
        invariant
            0 < size <= m < 2 * FRACTION_SPAN,
            m == size * pow2(s as nat),
            pow2(s as nat) <= m,
            s <= 52,
            pow2(52) == FRACTION_SPAN,
        decreases 2 * FRACTION_SPAN - m,
    {
        proof {
            lemma_pow2_unfold((s + 1) as nat);
            assert(size * (2 * pow2(s as nat)) == 2 * (size * pow2(s as nat))) by (nonlinear_arith);
            if s == 52 {
                assert(false);
            }
        }
        m = m * 2;
        s = s + 1;
    }
    let e: u64 = 1075 - s - k as u64;
    let f: u64 = m - FRACTION_SPAN;
    assert(e * FRACTION_SPAN + f < SIGN_WEIGHT) by (nonlinear_arith)
        requires
            e <= 1075,
            f < FRACTION_SPAN,
    ;
    let low: u64 = e * FRACTION_SPAN + f;
    let r: u64 = if n < 0 { SIGN_WEIGHT + low } else { low };
    proof {
        lemma_compose(n < 0, e as int, f as int, r);
        let a = pow2((e - 1) as nat) as int;
        let b = pow2(k as nat) as int;
        let c = pow2(s as nat) as int;
        lemma_pow2_adds((e - 1) as nat, k as nat);
        lemma_pow2_adds((e - 1 + k) as nat, s as nat);
        assert((e - 1 + k + s) as nat == 1074);
        assert(a * b * c == one());
        assert(magnitude(r) == m * a);
        assert((m * a) * b == size * (a * b * c)) by (nonlinear_arith)
            requires
                m == size * c,
        ;
        assert((-(m * a)) * b == -((m * a) * b)) by (nonlinear_arith);
        assert((-(size as int)) * one() == -(size * one())) by (nonlinear_arith);
    }
    r
}

/// `2^23`: one more than the largest fraction field of a single.
pub const SINGLE_SPAN: u32 = 0x80_0000;

/// The exponent field of a single, `0..=255`.
pub open spec fn single_exponent(bits: u32) -> int {
    (bits as int / SINGLE_SPAN as int) % 256
}

/// The fraction field of a single, `0..2^23`.
pub open spec fn single_fraction(bits: u32) -> int {
    bits as int % SINGLE_SPAN as int
}

/// The absolute value of a single, counted in the smallest positive single (`2^-149`).
pub open spec fn single_magnitude(bits: u32) -> int {
    if single_exponent(bits) == 0 {
        single_fraction(bits)
    } else {
        (single_fraction(bits) + SINGLE_SPAN) * pow2((single_exponent(bits) - 1) as nat)
    }
}

/// `wide` is the double that a single widens to: the same sign and the same value, an infinity
/// for an infinity, and for a NaN the quiet NaN that keeps its payload.
pub open spec fn widens_to(bits: u32, wide: u64) -> bool {
    &&& negative(wide) == (bits >= 0x8000_0000)
    &&& if single_exponent(bits) == 255 {
        &&& exponent(wide) == EXPONENT_SPECIAL
        &&& if single_fraction(bits) == 0 {
            fraction(wide) == 0
        } else if single_fraction(bits) < 0x40_0000 {
            fraction(wide) == (single_fraction(bits) + 0x40_0000) * 0x2000_0000
        } else {
            fraction(wide) == single_fraction(bits) * 0x2000_0000
        }
    } else {
        &&& finite(wide)
        &&& magnitude(wide) == single_magnitude(bits) * pow2(925)
    }
}

/// The double that a single widens to.
pub open spec fn widened(bits: u32) -> u64 {
    choose|wide: u64| widens_to(bits, wide)
}

/// A single widens to one double only.
pub proof fn lemma_widens_once(bits: u32, a: u64, b: u64)
    requires
        widens_to(bits, a),
        widens_to(bits, b),
    ensures
        a == b,
{
    lemma_fields(a);
    lemma_fields(b);
    if single_exponent(bits) != 255 {
        if unsigned(a) < unsigned(b) {
            lemma_magnitude_orders(a, b);
        }
        if unsigned(b) < unsigned(a) {
            lemma_magnitude_orders(b, a);
        }
    }
}

/// The double with the value of a single.
pub fn widen(bits: u32) -> (r: u64)
    ensures
        widens_to(bits, r),
        r == widened(bits),
{
    let e: u32 = (bits / SINGLE_SPAN) % 256;
    let f: u32 = bits % SINGLE_SPAN;
    let low: u64;
    let ghost mut we: int = 0;
    let ghost mut wf: int = 0;
    if e == 255 {
        let payload: u32 = if f == 0 || f >= 0x40_0000 { f } else { f + 0x40_0000 };
        low = EXPONENT_SPECIAL * FRACTION_SPAN + payload as u64 * 0x2000_0000;
        proof {
            we = 2047;
            wf = payload * 0x2000_0000;
        }
    } else if e != 0 {
        low = (e as u64 + 896) * FRACTION_SPAN + f as u64 * 0x2000_0000;
        proof {
            we = e + 896;
            wf = f * 0x2000_0000;
            lemma_widened(f as int, (e - 1) as nat);
        }
    } else if f == 0 {
        low = 0;
    } else {
        let mut m: u32 = f;
        let mut s: u32 = 0;
        proof {
            vstd::arithmetic::power2::lemma2_to64();
        }
        while m < SINGLE_SPAN
            invariant
                0 < f <= m < 2 * SINGLE_SPAN,
                m == f * pow2(s as nat),
                pow2(s as nat) <= m,
                s <= 23,
                pow2(23) == SINGLE_SPAN,
            decreases 2 * SINGLE_SPAN - m,
        {
            proof {
                lemma_pow2_unfold((s + 1) as nat);
                assert(f * (2 * pow2(s as nat)) == 2 * (f * pow2(s as nat))) by (nonlinear_arith);
            }
            m = m * 2;
            s = s + 1;
        }
        low = (897 - s as u64) * FRACTION_SPAN + (m - SINGLE_SPAN) as u64 * 0x2000_0000;
        proof {
            we = 897 - s;
            wf = (m - SINGLE_SPAN) * 0x2000_0000;
            let a = pow2((we - 1) as nat) as int;
            let b = pow2(29) as int;
            let c = pow2(s as nat) as int;
            lemma_pow2_adds((we - 1) as nat, 29);
            lemma_pow2_adds((we - 1 + 29) as nat, s as nat);
            assert((we - 1 + 29 + s) as nat == 925);
            assert(a * b * c == pow2(925));
            assert(wf + FRACTION_SPAN == m * b);
            assert((m * b) * a == f * (a * b * c)) by (nonlinear_arith)
                requires
                    m == f * c,
            ;
        }
    }
    let r: u64 = if bits >= 0x8000_0000 { SIGN_WEIGHT + low } else { low };
    proof {
        lemma_compose(bits >= 0x8000_0000, we, wf, r);
        assert(0 * pow2(925) == 0) by (nonlinear_arith);
        assert(widens_to(bits, r));
        lemma_widens_once(bits, r, widened(bits));
    }
    r
}

/// A normal single keeps its value when its fraction gains 29 low bits.
proof fn lemma_widened(f: int, p: nat)
    ensures
        (f * 0x2000_0000 + FRACTION_SPAN) * pow2(p + 896) == ((f + SINGLE_SPAN) * pow2(p)) * pow2(925),
{
    let w = (p + 896) as nat;
    vstd::arithmetic::power2::lemma2_to64();
    lemma_pow2_adds(p, 925);
    lemma_pow2_adds(w, 29);
    let a = pow2(w) as int;
    let b = pow2(p) as int;
    let c = pow2(925) as int;
    assert(pow2(29) == 0x2000_0000);
    assert(a * 0x2000_0000 == b * c);
    assert((f * 0x2000_0000 + FRACTION_SPAN) * a == (f + SINGLE_SPAN) * (a * 0x2000_0000)) by (nonlinear_arith);
    assert(((f + SINGLE_SPAN) * b) * c == (f + SINGLE_SPAN) * (b * c)) by (nonlinear_arith);
}

} // verus!
