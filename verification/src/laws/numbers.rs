//! Doubles and singles: what a bit pattern is worth, how patterns are ordered, and that arithmetic on
//! them gives the closest number there is.

use vstd::arithmetic::power2::{lemma_pow2_pos, lemma_pow2_unfold, pow2};
use vstd::prelude::*;

use crate::config::is_whole;
use crate::double::{
    above, exponent, finite, lemma_compose, lemma_fields, lemma_magnitude_orders, magnitude, nan, negative, one,
    same, single_exponent, single_fraction, single_magnitude, units, unsigned, widens_to,
};
use crate::grid::is_half;
use crate::rounding::{
    apart, ceiling, gap, law_product_exists, lemma_worth_of_double, lemma_worth_orders, narrows_to, product, times,
    worth, Format,
};

verus! {

/// The absolute value of a whole number.
pub open spec fn size(x: int) -> int {
    if x < 0 {
        -x
    } else {
        x
    }
}

/// The doubles follow each other: zero is worth nothing, each pattern is worth one unit in the last
/// place more than the one before, that unit doubles with every exponent, and the sign bit turns a
/// number.
pub proof fn law_doubles_follow_each_other(bits: u64)
    requires
        bits < 0x7ff0_0000_0000_0000,
    ensures
        units(0) == 0,
        units((bits + 1) as u64) - units(bits) == if bits < 0x20_0000_0000_0000 {
            1
        } else {
            pow2((bits as int / 0x10_0000_0000_0000 - 1) as nat) as int
        },
        units((bits + 0x8000_0000_0000_0000) as u64) == -units(bits),
{
    let span = 0x10_0000_0000_0000int;
    let (e, f) = (bits as int / span, bits as int % span);
    lemma_compose(false, 0, 0, 0);
    lemma_compose(false, e, f, bits);
    lemma_compose(true, e, f, (bits + 0x8000_0000_0000_0000) as u64);
    vstd::arithmetic::power2::lemma2_to64();
    if f + 1 < span {
        lemma_compose(false, e, f + 1, (bits + 1) as u64);
        if e > 0 {
            let p = pow2((e - 1) as nat) as int;
            assert((f + 1 + span) * p - (f + span) * p == p) by (nonlinear_arith);
            if e == 1 {
                assert(p == 1);
            }
        }
    } else {
        lemma_compose(false, e + 1, 0, (bits + 1) as u64);
        if e > 0 {
            let p = pow2((e - 1) as nat) as int;
            lemma_pow2_unfold(e as nat);
            assert((0 + span) * (2 * p) - (span - 1 + span) * p == p) by (nonlinear_arith);
            if e == 1 {
                assert(p == 1);
            }
        } else {
            assert((0 + span) * 1 == span);
        }
    }
}

/// The double `1.0` is worth one.
pub proof fn law_one_is_worth_one()
    ensures
        units(0x3ff0_0000_0000_0000) == one(),
{
    lemma_compose(false, 1023, 0, 0x3ff0_0000_0000_0000);
    vstd::arithmetic::power2::lemma_pow2_adds(52, 1022);
    vstd::arithmetic::power2::lemma2_to64_rest();
}

/// The patterns above infinity are no numbers, those below it are finite, whatever their sign.
pub proof fn law_patterns_tell_what_is_a_number(bits: u64)
    ensures
        finite(bits) <==> bits % 0x8000_0000_0000_0000 < 0x7ff0_0000_0000_0000,
        nan(bits) <==> bits % 0x8000_0000_0000_0000 > 0x7ff0_0000_0000_0000,
        negative(bits) <==> bits >= 0x8000_0000_0000_0000,
{
    lemma_fields(bits);
}

/// Numbers are ordered as their patterns are: positive ones upwards, negative ones downwards, and
/// every positive one above every negative one. Both zeros are the same; otherwise only equal patterns
/// are.
pub proof fn law_order_is_that_of_the_patterns(a: u64, b: u64)
    requires
        !nan(a),
        !nan(b),
    ensures
        !negative(a) && !negative(b) ==> (above(a, b) <==> a > b),
        negative(a) && negative(b) ==> (above(a, b) <==> a < b),
        !negative(a) && negative(b) ==> (above(a, b) <==> !(a == 0 && b == 0x8000_0000_0000_0000)),
        negative(a) && !negative(b) ==> !above(a, b),
        same(a, b) <==> a == b || (a % 0x8000_0000_0000_0000 == 0 && b % 0x8000_0000_0000_0000 == 0),
{
    lemma_fields(a);
    lemma_fields(b);
    lemma_fields(0);
    lemma_compose(false, 0, 0, 0);
    if unsigned(a) <= unsigned(b) {
        lemma_magnitude_orders(a, b);
    }
    if unsigned(b) <= unsigned(a) {
        lemma_magnitude_orders(b, a);
    }
    lemma_magnitude_orders(0, a);
    lemma_magnitude_orders(0, b);
    assert(magnitude(0) == 0);
}

/// Nothing is above, below or the same as what is no number.
pub proof fn law_no_number_compares(a: u64, b: u64)
    requires
        nan(a) || nan(b),
    ensures
        !above(a, b),
        !above(b, a),
        !same(a, b),
{
}

/// The patterns of finite doubles are among those that rounding looks at.
proof fn lemma_in_range(c: u64)
    requires
        finite(c),
    ensures
        0 <= unsigned(c) < ceiling(Format::Double),
        worth(Format::Double, unsigned(c)) == magnitude(c),
{
    lemma_fields(c);
    lemma_worth_of_double(c);
}

/// Of all finite doubles, the product is the closest to the true product of two numbers, and where
/// another one is as close the product is the even one. It overflows to infinity only beyond the largest
/// double, and its sign is that of the true product.
pub proof fn law_product_is_the_closest_double(a: u64, b: u64, c: u64)
    requires
        finite(a),
        finite(b),
        finite(c),
    ensures
        !nan(times(a, b)),
        negative(times(a, b)) == (negative(a) != negative(b)),
        finite(times(a, b)) ==> size(units(a) * units(b) - units(times(a, b)) * one()) <= size(
            units(a) * units(b) - units(c) * one(),
        ),
        finite(times(a, b)) && c != times(a, b) && negative(c) == negative(times(a, b)) && size(
            units(a) * units(b) - units(times(a, b)) * one(),
        ) == size(units(a) * units(b) - units(c) * one()) ==> times(a, b) % 2 == 0,
        size(units(a) * units(b)) <= size(units(c)) * one() ==> finite(times(a, b)),
{
    let r = times(a, b);
    let fmt = Format::Double;
    law_product_exists(a, b);
    lemma_pow2_pos(1074);
    lemma_fields(r);
    lemma_fields(c);
    lemma_in_range(c);
    lemma_compose(false, 0, 0, 0);
    lemma_in_range(0);
    lemma_magnitude_orders(0, a);
    lemma_magnitude_orders(0, b);
    lemma_magnitude_orders(0, c);
    lemma_magnitude_orders(0, r);
    let (x, y, d) = (magnitude(a), magnitude(b), one());
    let p = x * y;
    assert(p >= 0) by (nonlinear_arith)
        requires
            x >= 0,
            y >= 0,
            p == x * y,
    ;
    assert(units(a) * units(b) == if negative(r) {
        -p
    } else {
        p
    }) by {
        assert((-x) * y == -(x * y) && x * (-y) == -(x * y) && (-x) * (-y) == x * y) by (nonlinear_arith);
    }
    assert(gap(fmt, p, d, unsigned(r)) <= gap(fmt, p, d, unsigned(c)));
    assert(gap(fmt, p, d, unsigned(r)) <= gap(fmt, p, d, unsigned(0)));
    let (mc, mr) = (magnitude(c), magnitude(r));
    assert((-mc) * d == -(mc * d) && (-mr) * d == -(mr * d) && mc * d >= 0 && 0 * d == 0) by (nonlinear_arith)
        requires
            mc >= 0,
            d > 0,
    ;
    if finite(r) {
        lemma_in_range(r);
        assert(size(units(a) * units(b) - units(r) * d) == gap(fmt, p, d, unsigned(r)));
        if negative(c) == negative(r) {
            assert(size(units(a) * units(b) - units(c) * d) == gap(fmt, p, d, unsigned(c)));
            if c != r {
                assert(unsigned(c) != unsigned(r));
            }
        }
    } else if p <= mc * d {
        let top = ceiling(fmt);
        lemma_worth_orders(fmt, unsigned(c), top);
        let (wc, wt) = (worth(fmt, unsigned(c)), worth(fmt, top));
        assert(wc * d < wt * d) by (nonlinear_arith)
            requires
                wc < wt,
                d > 0,
        ;
        lemma_largest(p, d, unsigned(c));
        assert(unsigned(r) == top);
        assert(false);
    }
}

/// A number no larger than some finite double is closer to a finite double than to infinity.
proof fn lemma_largest(p: int, d: int, s: int)
    requires
        d > 0,
        0 <= s < ceiling(Format::Double),
        0 <= p <= worth(Format::Double, s) * d,
    ensures
        gap(Format::Double, p, d, ceiling(Format::Double) - 1) < gap(Format::Double, p, d, ceiling(Format::Double)),
{
    let fmt = Format::Double;
    let top = ceiling(fmt);
    lemma_worth_orders(fmt, top - 1, top);
    if s < top - 1 {
        lemma_worth_orders(fmt, s, top - 1);
    }
    let (ws, wl, wt) = (worth(fmt, s), worth(fmt, top - 1), worth(fmt, top));
    assert(ws * d <= wl * d && wl * d < wt * d) by (nonlinear_arith)
        requires
            ws <= wl < wt,
            d > 0,
    ;
}

/// The product is no number just where a factor is none, or where zero meets infinity; with any other
/// factor an infinity stays one.
pub proof fn law_product_of_infinities(a: u64, b: u64)
    requires
        !finite(a) || !finite(b),
    ensures
        nan(times(a, b)) <==> nan(a) || nan(b) || units(a) == 0 || units(b) == 0,
        !nan(times(a, b)) ==> !finite(times(a, b)) && negative(times(a, b)) == (negative(a) != negative(b)),
{
    law_product_exists(a, b);
    lemma_fields(times(a, b));
    lemma_compose(false, 0, 0, 0);
    lemma_magnitude_orders(0, a);
    lemma_magnitude_orders(0, b);
}

/// The order of the factors does not matter.
pub proof fn law_product_commutes(a: u64, b: u64)
    ensures
        times(a, b) == times(b, a),
{
    law_product_exists(b, a);
    let (x, y) = (magnitude(a), magnitude(b));
    assert(x * y == y * x) by (nonlinear_arith);
    crate::rounding::law_product_is_unique(a, b, times(b, a));
}

/// Of all finite doubles, the distance is the closest to the true distance of two numbers; where another one
/// is as close, the distance is the even one.
pub proof fn law_distance_is_the_closest_double(a: u64, b: u64, r: u64, c: u64)
    requires
        finite(a),
        finite(b),
        finite(c),
        !negative(c),
        apart(a, b, r),
    ensures
        !negative(r) && !nan(r),
        finite(r) ==> size(size(units(a) - units(b)) - units(r)) <= size(size(units(a) - units(b)) - units(c)),
        finite(r) && c != r && size(size(units(a) - units(b)) - units(r)) == size(size(units(a) - units(b)) - units(c))
            ==> r % 2 == 0,
{
    lemma_fields(r);
    lemma_fields(c);
    lemma_in_range(c);
    let p = size(units(a) - units(b));
    assert(gap(Format::Double, p, 1, r as int) <= gap(Format::Double, p, 1, unsigned(c)));
    if finite(r) {
        lemma_in_range(r);
    }
}

/// A finite single is worth the same as the double that it widens to; an infinite one stays infinite,
/// and what is no number stays none.
pub proof fn law_widening_keeps_the_value(bits: u32, wide: u64)
    requires
        widens_to(bits, wide),
    ensures
        negative(wide) == (bits >= 0x8000_0000),
        bits % 0x8000_0000 < 0x7f80_0000 ==> finite(wide) && size(units(wide)) == (if bits % 0x8000_0000 < 0x80_0000 {
            (bits % 0x8000_0000) as int
        } else {
            ((bits % 0x80_0000) + 0x80_0000) * pow2((bits as int % 0x8000_0000 / 0x80_0000 - 1) as nat)
        }) * pow2(925),
        bits % 0x8000_0000 == 0x7f80_0000 ==> !finite(wide) && !nan(wide),
        bits % 0x8000_0000 > 0x7f80_0000 ==> nan(wide),
{
    let q = bits as int / 0x80_0000;
    assert(bits == q * 0x80_0000 + single_fraction(bits));
    assert(0 <= q < 512);
    assert(single_exponent(bits) == if q >= 256 {
        q - 256
    } else {
        q
    });
    lemma_fields(wide);
    lemma_compose(false, 0, 0, 0);
    lemma_magnitude_orders(0, wide);
}

/// What a single is worth, without its sign: its fraction, and a leading one where its exponent is not the
/// lowest, as often as the exponent says.
pub proof fn law_singles_have_their_value(bits: u32)
    ensures
        bits % 0x8000_0000 < 0x80_0000 ==> single_magnitude(bits) == bits % 0x8000_0000,
        bits % 0x8000_0000 >= 0x80_0000 ==> single_magnitude(bits) == ((bits % 0x80_0000) + 0x80_0000) * pow2(
            (bits as int % 0x8000_0000 / 0x80_0000 - 1) as nat,
        ),
{
    lemma_single(bits);
}

/// Of all finite singles, the one that a double narrows to is the closest to it; where another one is as
/// close, it is the even one.
pub proof fn law_narrowing_is_the_closest_single(wide: u64, r: u32, c: u32)
    requires
        finite(wide),
        narrows_to(wide, r),
        c % 0x8000_0000 < 0x7f80_0000,
    ensures
        (r >= 0x8000_0000) == negative(wide),
        r % 0x8000_0000 <= 0x7f80_0000,
        size(magnitude(wide) - single_magnitude(r) * pow2(925)) <= size(magnitude(wide) - single_magnitude(c) * pow2(925)),
        c % 0x8000_0000 != r % 0x8000_0000 && size(magnitude(wide) - single_magnitude(r) * pow2(925)) == size(
            magnitude(wide) - single_magnitude(c) * pow2(925),
        ) ==> r % 2 == 0,
{
    lemma_fields(wide);
    lemma_single(r);
    lemma_single(c);
    let (u, v) = (r as int % 0x8000_0000, c as int % 0x8000_0000);
    let (m, d) = (magnitude(wide), pow2(925) as int);
    assert(gap(Format::Single, m, d, u) <= gap(Format::Single, m, d, v));
    assert(size(m - single_magnitude(r) * d) == gap(Format::Single, m, d, u));
    assert(size(m - single_magnitude(c) * d) == gap(Format::Single, m, d, v));
    assert(r % 2 == u % 2);
}

/// What is no number narrows to none, and an infinity to one of the same sign.
pub proof fn law_narrowing_keeps_what_is_no_finite_number(wide: u64, r: u32)
    requires
        !finite(wide),
        narrows_to(wide, r),
    ensures
        nan(wide) <==> r % 0x8000_0000 > 0x7f80_0000,
        !nan(wide) ==> r == (if negative(wide) {
            0xff80_0000u32
        } else {
            0x7f80_0000
        }),
{
    lemma_fields(wide);
}

/// What rounding takes a single for.
proof fn lemma_single(bits: u32)
    ensures
        worth(Format::Single, bits as int % 0x8000_0000) == single_magnitude(bits),
{
    let q = bits as int / 0x80_0000;
    let f = bits as int % 0x80_0000;
    assert(bits == q * 0x80_0000 + f && 0 <= q < 512);
    let e = if q >= 256 {
        q - 256
    } else {
        q
    };
    assert(single_exponent(bits) == e);
    assert(bits as int % 0x8000_0000 == e * 0x80_0000 + f);
    assert((bits as int % 0x8000_0000) / 0x80_0000 == e);
    assert((bits as int % 0x8000_0000) % 0x80_0000 == f);
}

/// A half is a number of which two make the whole number, and a whole number is that many ones; no two
/// numbers are the same half or the same whole.
pub proof fn law_halves_and_wholes_are_exact(a: u64, n: int, b: u64, m: int)
    requires
        is_half(a, n),
        is_whole(b, m),
    ensures
        finite(a) && 2 * units(a) == n * one(),
        finite(b) && units(b) == m * one(),
        negative(a) <==> n < 0,
        negative(b) <==> m < 0,
{
}

} // verus!
