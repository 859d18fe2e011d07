//! The relief file: where its numbers stand, which variable a name means, and how close its grid has to be.

use vstd::arithmetic::power2::{lemma2_to64, lemma_pow2_adds, lemma_pow2_pos, pow2};
use vstd::prelude::*;

use crate::bytes::{be32, be64};
use crate::double::{
    above, exponent, finite, fraction, lemma_fields, magnitude, nan, negative, one, units, unsigned, widened,
};
use crate::grid::cell_count;
use crate::laws::numbers::size;
use crate::ncread::{
    axis_fault, far, file_vars, find_var, first_far, named_values, pad4, relief, skip_attributes, skip_list,
    take_dim_list, take_dims, take_name, take_shape, take_var_list, take_vars, type_size, var_values, Axis, CdfError,
    EtopoError, VarModel, TOLERANCE,
};
use crate::rounding::{apart, gap, lemma_nearest_exists, lemma_worth_of_double, Format};

verus! {

/// The six types take one, one, two, four, four and eight bytes; an unknown type takes none.
pub proof fn law_types_have_their_size(t: u32)
    ensures
        type_size(1) == 1 && type_size(2) == 1 && type_size(3) == 2,
        type_size(4) == 4 && type_size(5) == 4 && type_size(6) == 8,
        t == 0 || t > 6 ==> type_size(t) == 0,
{
}

/// What is counted in bytes is filled up to the next multiple of four.
pub proof fn law_names_fill_whole_words(n: int)
    requires
        n >= 0,
    ensures
        0 <= pad4(n) < 4,
        (n + pad4(n)) % 4 == 0,
{
}

/// A name is its length, its bytes, and what fills them up.
pub proof fn law_name_is_read_behind_its_length(s: Seq<u8>, off: int, n: int)
    requires
        0 <= off,
        off + 4 <= s.len(),
        n == s[off + 3] + 256 * s[off + 2] + 65_536 * s[off + 1] + 16_777_216 * s[off],
    ensures
        off + 4 + n > s.len() <==> take_name(s, off) == Err::<(Seq<char>, int), CdfError>(CdfError::Truncated),
        off + 4 + n <= s.len() ==> {
            &&& take_name(s, off) matches Ok((name, next))
            &&& name == crate::bytes::utf8_lossy(s.subrange(off + 4, off + 4 + n))
            &&& off + 4 + n <= next < off + 8 + n
            &&& (next - off) % 4 == 0
        },
{
    assert(be32(s, off) == n);
}

/// The three lists of a header begin with their tags, 10, 11 and 12, and the number of their entries. An
/// empty one may have zeros instead; anything else is refused.
pub proof fn law_lists_begin_with_their_tags(s: Seq<u8>, off: int, dims: Seq<usize>, wide: bool)
    requires
        0 <= off,
        off + 8 <= s.len(),
    ensures
        ({
            let (tag, n) = (be32(s, off), be32(s, off + 4));
            &&& tag == 10 ==> take_dim_list(s, off) == take_dims(s, off + 8, n as nat, Seq::empty())
            &&& tag == 11 ==> take_var_list(s, off, dims, wide) == take_vars(s, off + 8, n as nat, dims, wide, Seq::empty())
            &&& tag == 12 ==> skip_list(s, off) == skip_attributes(s, off + 8, n as nat)
            &&& tag == 0 && n == 0 ==> take_dim_list(s, off) == Ok::<(Seq<usize>, int), CdfError>((Seq::empty(), off + 8))
            &&& tag == 0 && n == 0 ==> take_var_list(s, off, dims, wide) == Ok::<Seq<VarModel>, CdfError>(Seq::empty())
            &&& tag == 0 && n == 0 ==> skip_list(s, off) == Ok::<int, CdfError>(off + 8)
            &&& tag != 10 && !(tag == 0 && n == 0) ==> take_dim_list(s, off) == Err::<(Seq<usize>, int), CdfError>(
                CdfError::ExpectedDimensions { tag },
            )
            &&& tag != 11 && !(tag == 0 && n == 0) ==> take_var_list(s, off, dims, wide) == Err::<Seq<VarModel>, CdfError>(
                CdfError::ExpectedVariables { tag },
            )
            &&& tag != 12 && !(tag == 0 && n == 0) ==> skip_list(s, off) == Err::<int, CdfError>(
                CdfError::ExpectedAttributes { tag },
            )
        }),
{
}

/// A variable's extents are those of the dimensions that it names, in its own order. They are read where
/// the file has every number and every dimension.
pub proof fn law_shape_is_that_of_the_named_dimensions(s: Seq<u8>, off: int, n: nat, dims: Seq<usize>, acc: Seq<usize>)
    requires
        0 <= off,
    ensures
        take_shape(s, off, n, dims, acc) is Ok <==> (n == 0 || off + 4 * n <= s.len()) && forall|k: int|
            0 <= k < n ==> #[trigger] dimension_at(s, off, k) < dims.len(),
        take_shape(s, off, n, dims, acc) matches Ok((shape, next)) ==> {
            &&& next == off + 4 * n
            &&& shape.len() == acc.len() + n
            &&& forall|k: int| 0 <= k < acc.len() ==> #[trigger] shape[k] == acc[k]
            &&& forall|k: int|
                0 <= k < n ==> dims[#[trigger] dimension_at(s, off, k)] == shape[acc.len() + k]
        },
    decreases n,
{
    if n > 0 {
        let first = dimension_at(s, off, 0);
        if off + 4 <= s.len() && first < dims.len() {
            let (more, rest) = (acc.push(dims[first]), (n - 1) as nat);
            law_shape_is_that_of_the_named_dimensions(s, off + 4, rest, dims, more);
            assert forall|k: int| 0 <= k < rest implies #[trigger] dimension_at(s, off + 4, k) == dimension_at(
                s,
                off,
                k + 1,
            ) by {}
            assert forall|k: int| 1 <= k < n implies #[trigger] dimension_at(s, off, k) == dimension_at(
                s,
                off + 4,
                k - 1,
            ) by {}
            match take_shape(s, off, n, dims, acc) {
                Ok((shape, _)) => {
                    assert(shape[acc.len() as int] == more[acc.len() as int]);
                    assert forall|k: int| 0 <= k < acc.len() implies #[trigger] shape[k] == acc[k] by {
                        assert(more[k] == acc[k]);
                    }
                    assert forall|k: int| 0 <= k < n implies dims[#[trigger] dimension_at(s, off, k)] == shape[acc.len()
                        + k] by {
                        if k > 0 {
                            assert(dims[dimension_at(s, off + 4, k - 1)] == shape[more.len() + (k - 1)]);
                        }
                    }
                },
                Err(_) => {},
            }
        }
    }
}

/// The number of a dimension, the `k`th of those behind `off`.
pub open spec fn dimension_at(s: Seq<u8>, off: int, k: int) -> int {
    be32(s, off + 4 * k) as int
}

/// A file begins with `CDF`; one that is too short for that is cut off, and any other is no such file.
pub proof fn law_file_begins_with_its_name(s: Seq<u8>)
    ensures
        s.len() < 3 ==> file_vars(s) == Err::<Seq<VarModel>, CdfError>(CdfError::Truncated),
        s.len() >= 3 && !(s[0] == 67 && s[1] == 68 && s[2] == 70) ==> file_vars(s) == Err::<Seq<VarModel>, CdfError>(
            CdfError::NotNetcdf,
        ),
        3 <= s.len() < 8 && s[0] == 67 && s[1] == 68 && s[2] == 70 ==> file_vars(s) == Err::<Seq<VarModel>, CdfError>(
            CdfError::Truncated,
        ),
{
}

/// A name means the last variable that has it, and none where none has it.
pub proof fn law_last_variable_of_a_name_counts(vars: Seq<VarModel>, name: Seq<char>, k: int)
    requires
        0 <= k < vars.len(),
        vars[k].name == name,
        forall|m: int| k < m < vars.len() ==> (#[trigger] vars[m]).name != name,
    ensures
        find_var(vars, name) == Some(vars[k]),
    decreases vars.len(),
{
    if k < vars.len() - 1 {
        assert(vars[vars.len() - 1].name != name);
        law_last_variable_of_a_name_counts(vars.drop_last(), name, k);
    }
}

/// A name that no variable has means none.
pub proof fn law_unknown_name_means_nothing(vars: Seq<VarModel>, name: Seq<char>)
    requires
        forall|m: int| 0 <= m < vars.len() ==> (#[trigger] vars[m]).name != name,
    ensures
        find_var(vars, name) is None,
    decreases vars.len(),
{
    if vars.len() > 0 {
        assert(vars[vars.len() - 1].name != name);
        law_unknown_name_means_nothing(vars.drop_last(), name);
    }
}

/// A variable of singles or doubles is read whole, from the place that the header gives: as many values as
/// its extents multiply to, the first byte of each the most significant. A file that ends before them, and
/// a variable of another type, are refused.
pub proof fn law_variable_is_read_whole(s: Seq<u8>, v: VarModel, k: int)
    ensures
        ({
            let bytes = cell_count(v.shape) * (if v.nctype == 1 || v.nctype == 2 {
                1int
            } else if v.nctype == 3 {
                2
            } else if v.nctype == 4 || v.nctype == 5 {
                4
            } else if v.nctype == 6 {
                8
            } else {
                0
            });
            &&& v.begin + bytes > s.len() ==> var_values(s, v) == Err::<Seq<u64>, CdfError>(CdfError::Truncated)
            &&& v.begin + bytes <= s.len() && v.nctype != 5 && v.nctype != 6 ==> var_values(s, v) == Err::<
                Seq<u64>,
                CdfError,
            >(CdfError::Unsupported { nctype: v.nctype })
            &&& v.begin + bytes <= s.len() && (v.nctype == 5 || v.nctype == 6) ==> {
                &&& var_values(s, v) matches Ok(x)
                &&& x.len() == cell_count(v.shape)
                &&& 0 <= k < x.len() ==> x[k] == if v.nctype == 5 {
                    widened(be32(s, v.begin + 4 * k))
                } else {
                    be64(s, v.begin + 8 * k)
                }
            }
        }),
{
    crate::grid::lemma_count_sign(v.shape);
}

/// The tolerance lies between a 1000001st and a 999999th, and so does the next double.
proof fn lemma_tolerance()
    ensures
        finite(TOLERANCE) && !negative(TOLERANCE),
        finite((TOLERANCE + 1) as u64) && !negative((TOLERANCE + 1) as u64),
        one() <= 1_000_001 * units(TOLERANCE),
        999_999 * units((TOLERANCE + 1) as u64) <= one(),
        0 < units(TOLERANCE) < units((TOLERANCE + 1) as u64),
{
    let next = (TOLERANCE + 1) as u64;
    let p = pow2(1002) as int;
    assert(exponent(TOLERANCE) == 1003 && fraction(TOLERANCE) == 0x0_c6f7_a0b5_ed8d);
    assert(exponent(next) == 1003 && fraction(next) == 0x0_c6f7_a0b5_ed8e);
    lemma2_to64();
    lemma_pow2_adds(64, 8);
    lemma_pow2_adds(72, 1002);
    lemma_pow2_pos(1002);
    assert(pow2(72) == 0x100_0000_0000_0000_0000);
    assert(one() == 0x100_0000_0000_0000_0000 * p) by (nonlinear_arith)
        requires
            one() == pow2(72) * p,
            pow2(72) == 0x100_0000_0000_0000_0000,
    ;
    assert(magnitude(TOLERANCE) == 0x10_c6f7_a0b5_ed8d * p);
    assert(magnitude(next) == 0x10_c6f7_a0b5_ed8e * p);
}

/// The distance of two finite numbers is as close to the true one as any double.
proof fn lemma_distance(a: u64, b: u64, d: u64, c: u64)
    requires
        finite(a),
        finite(b),
        finite(c),
        !negative(c),
        apart(a, b, d),
    ensures
        !negative(d) && !nan(d),
        size(size(units(a) - units(b)) - units(d)) <= size(size(units(a) - units(b)) - units(c)),
{
    let p = size(units(a) - units(b));
    lemma_fields(d);
    lemma_fields(c);
    lemma_worth_of_double(c);
    lemma_worth_of_double(d);
    assert(gap(Format::Double, p, 1, d as int) <= gap(Format::Double, p, 1, unsigned(c)));
}

/// Coordinates that are less than a 1000001st of a degree apart agree, and coordinates that are at least a
/// 999999th of a degree apart do not: the tolerance is a millionth. What is no number agrees with nothing.
pub proof fn law_coordinates_agree_to_a_millionth(a: u64, b: u64)
    ensures
        nan(a) || nan(b) ==> far(a, b),
        finite(a) && finite(b) && 1_000_001 * size(units(a) - units(b)) <= one() ==> !far(a, b),
        finite(a) && finite(b) && 999_999 * size(units(a) - units(b)) >= one() ==> far(a, b),
        !nan(a) && !nan(b) && finite(a) != finite(b) ==> far(a, b),
        !nan(a) && !nan(b) && !finite(a) && !finite(b) ==> (far(a, b) <==> negative(a) != negative(b)),
{
    lemma_tolerance();
    let p = size(units(a) - units(b));
    let next = (TOLERANCE + 1) as u64;
    assert(!nan(TOLERANCE));
    if finite(a) && finite(b) {
        if 1_000_001 * p <= one() && far(a, b) {
            let d = choose|d: u64| apart(a, b, d) && #[trigger] above(d, TOLERANCE);
            lemma_distance(a, b, d, TOLERANCE);
        }
        if 999_999 * p >= one() {
            let r = lemma_nearest_exists(Format::Double, p, 1);
            let d = r as u64;
            assert(apart(a, b, d));
            lemma_distance(a, b, d, next);
            assert(above(d, TOLERANCE));
        }
    } else if !nan(a) && !nan(b) {
        let inf = crate::double::INFINITY_BITS;
        lemma_fields(inf);
        crate::double::lemma_magnitude_orders(TOLERANCE, inf);
        if finite(a) != finite(b) || negative(a) != negative(b) {
            assert(apart(a, b, inf));
            assert(above(inf, TOLERANCE));
        }
    }
}

/// The first place where two axes disagree, counted from the front.
proof fn lemma_first_far(got: Seq<u64>, want: Seq<u64>)
    requires
        got.len() == want.len(),
    ensures
        0 <= first_far(got, want) <= got.len(),
        first_far(got, want) < got.len() ==> far(got[first_far(got, want)], want[first_far(got, want)]),
        forall|k: int| 0 <= k < first_far(got, want) ==> !far(#[trigger] got[k], want[k]),
    decreases got.len(),
{
    if got.len() > 0 && !far(got[0], want[0]) {
        let (g, w) = (got.skip(1), want.skip(1));
        lemma_first_far(g, w);
        assert forall|k: int| 0 <= k < first_far(got, want) implies !far(#[trigger] got[k], want[k]) by {
            if k > 0 {
                assert(got[k] == g[k - 1] && want[k] == w[k - 1]);
            }
        }
        let at = first_far(g, w);
        if at < g.len() {
            assert(got[at + 1] == g[at] && want[at + 1] == w[at]);
        }
    }
}

/// An axis passes where it has as many coordinates as the grid's and each agrees with the grid's. Of an axis
/// that does not, the lengths are reported, or the first coordinate that disagrees.
pub proof fn law_axis_passes_where_it_agrees(axis: Axis, got: Seq<u64>, want: Seq<u64>)
    ensures
        axis_fault(axis, got, want) is None <==> got.len() == want.len() && forall|k: int|
            0 <= k < got.len() ==> !far(#[trigger] got[k], want[k]),
        got.len() != want.len() ==> axis_fault(axis, got, want) == Some(
            EtopoError::GridLength { axis, got: got.len() as usize, want: want.len() as usize },
        ),
        got.len() == want.len() && got.len() <= usize::MAX ==> match axis_fault(axis, got, want) {
            None => true,
            Some(EtopoError::GridMismatch { axis: which, at, got: g, want: w }) => {
                &&& which == axis
                &&& at < got.len()
                &&& g == got[at as int] && w == want[at as int]
                &&& far(g, w)
                &&& forall|k: int| 0 <= k < at ==> !far(#[trigger] got[k], want[k])
            },
            Some(_) => false,
        },
{
    if got.len() == want.len() {
        lemma_first_far(got, want);
    }
}

/// The relief is the values of the variable `ROSE`, row by row. It is read where the file has it and the two
/// axes, where `ETOPO60X` agrees with the grid's longitudes and `ETOPO60Y` with its latitudes, and where it
/// has a value for every latitude and longitude; it is refused otherwise.
pub proof fn law_relief_is_that_of_the_grid(s: Seq<u8>, lon: Seq<u64>, lat: Seq<u64>)
    ensures
        relief(s, lon, lat) is Ok <==> {
            &&& file_vars(s) matches Ok(vars)
            &&& named_values(s, vars, "ETOPO60X"@) matches Ok((x, _x))
            &&& named_values(s, vars, "ETOPO60Y"@) matches Ok((y, _y))
            &&& named_values(s, vars, "ROSE"@) matches Ok((_r, shape))
            &&& x.len() == lon.len()
            &&& y.len() == lat.len()
            &&& forall|k: int| 0 <= k < lon.len() ==> !far(#[trigger] x[k], lon[k])
            &&& forall|k: int| 0 <= k < lat.len() ==> !far(#[trigger] y[k], lat[k])
            &&& shape == seq![lat.len() as usize, lon.len() as usize]
        },
        relief(s, lon, lat) matches Ok(rose) ==> {
            &&& file_vars(s) matches Ok(vars)
            &&& find_var(vars, "ROSE"@) matches Some(v)
            &&& var_values(s, v) == Ok::<Seq<u64>, CdfError>(rose)
        },
{
    match file_vars(s) {
        Err(_) => {},
        Ok(vars) => {
            match (named_values(s, vars, "ETOPO60X"@), named_values(s, vars, "ETOPO60Y"@)) {
                (Ok((x, _)), Ok((y, _))) => {
                    law_axis_passes_where_it_agrees(Axis::Lon, x, lon);
                    law_axis_passes_where_it_agrees(Axis::Lat, y, lat);
                },
                _ => {},
            }
        },
    }
}

} // verus!
