//! The basin table: every row lists its point, and every cell gets the basin of the nearest of them.

use vstd::arithmetic::power::{lemma_pow0, pow};
use vstd::prelude::*;

use crate::basinmask::{
    billionths, decimal, digits_of, field, further, index_of, is_cell_basin, lats, least,
    lemma_bounds, lemma_division, lemma_first_e, lines, lons, node, off_raster, points_of, row_point, rows, square,
    unsigned_decimal, window,
    BasinError, Lattice, Point,
};
use crate::double::{finite, one, units};
use crate::laws::numbers::size;
use crate::laws::text::{
    law_digits_have_place_values, law_minus_stands_in_front, law_number_was_spelled, law_trimmed_text_stays, lemma_ten,
};
use crate::text::{
    digits_value, first_mark, int_text, is_digit, lemma_first_mark_at, lemma_int_text_chars, lemma_nat_text,
    lemma_padded_text, nat_text, padded_text, parse_int, trim,
};

verus! {

/// Nothing but decimal digits.
pub open spec fn plain_digits(s: Seq<char>) -> bool {
    forall|i: int| 0 <= i < s.len() ==> '0' <= #[trigger] s[i] <= '9'
}

/// Digits are worth at least nothing; zeros alone are worth nothing, and nothing else is.
pub proof fn lemma_worth(s: Seq<char>)
    requires
        plain_digits(s),
    ensures
        digits_value(s) >= 0,
        digits_value(s) == 0 <==> forall|i: int| 0 <= i < s.len() ==> #[trigger] s[i] == '0',
        digits_value(s) < pow(10, s.len()),
    decreases s.len(),
{
    if s.len() > 0 {
        let t = s.drop_last();
        assert forall|i: int| 0 <= i < t.len() implies '0' <= #[trigger] t[i] <= '9' by {
            assert(s[i] == t[i]);
        }
        lemma_worth(t);
        lemma_ten(t.len());
        assert('0' <= s[s.len() - 1] <= '9');
        if digits_value(s) == 0 {
            assert forall|i: int| 0 <= i < s.len() implies #[trigger] s[i] == '0' by {
                if i < t.len() {
                    assert(t[i] == s[i]);
                }
            }
        }
        if forall|i: int| 0 <= i < s.len() ==> #[trigger] s[i] == '0' {
            assert forall|i: int| 0 <= i < t.len() implies #[trigger] t[i] == '0' by {
                assert(s[i] == t[i]);
            }
        }
    } else {
        lemma_pow0(10);
    }
}

/// The window of thirteen digits is the last four digits in front of the point and nine behind it.
pub proof fn lemma_window(w: Seq<char>, f: Seq<char>)
    requires
        plain_digits(w),
        plain_digits(f),
        f.len() <= 9,
        digits_value(w) < 10_000,
    ensures
        digits_value(window(w + f, w.len() as int)) == digits_value(w) * 1_000_000_000 + digits_value(f) * pow(
            10,
            (9 - f.len()) as nat,
        ),
        forall|i: int| 0 <= i < w.len() - 4 ==> #[trigger] w[i] == '0',
{
    let d = w + f;
    let win = window(d, w.len() as int);
    let four = Seq::new(4, |k: int| if 0 <= w.len() - 4 + k { w[w.len() - 4 + k] } else { '0' });
    let fill = Seq::new((9 - f.len()) as nat, |k: int| '0');
    assert(win =~= four + (f + fill));
    law_digits_have_place_values(four, f + fill, '0');
    law_digits_have_place_values(f, fill, '0');
    lemma_worth(fill);
    assert(pow(10, 9) == 1_000_000_000 && pow(10, 4) == 10_000) by {
        lemma_pow0(10);
        lemma_ten(0);
        lemma_ten(1);
        lemma_ten(2);
        lemma_ten(3);
        lemma_ten(4);
        lemma_ten(5);
        lemma_ten(6);
        lemma_ten(7);
        lemma_ten(8);
    }
    if w.len() >= 4 {
        let head = w.take(w.len() - 4);
        let tail = w.skip(w.len() - 4);
        assert(w =~= head + tail);
        assert(four =~= tail);
        law_digits_have_place_values(head, tail, '0');
        assert forall|i: int| 0 <= i < head.len() implies '0' <= #[trigger] head[i] <= '9' by {
            assert(w[i] == head[i]);
        }
        assert forall|i: int| 0 <= i < tail.len() implies '0' <= #[trigger] tail[i] <= '9' by {
            assert(w[w.len() - 4 + i] == tail[i]);
        }
        lemma_worth(head);
        lemma_worth(tail);
        assert(digits_value(head) == 0);
        assert forall|i: int| 0 <= i < w.len() - 4 implies #[trigger] w[i] == '0' by {
            assert(head[i] == w[i]);
        }
    } else {
        let zeros = Seq::new((4 - w.len()) as nat, |k: int| '0');
        assert(four =~= zeros + w);
        law_digits_have_place_values(zeros, w, '0');
        lemma_worth(zeros);
        assert(0 * pow(10, w.len()) == 0);
    }
}

/// What a number without sign and exponent spells.
proof fn lemma_spelled(w: Seq<char>, f: Seq<char>, pointed: bool)
    requires
        plain_digits(w),
        plain_digits(f),
        w.len() + f.len() > 0,
        f.len() <= 9,
        !pointed ==> f.len() == 0,
        digits_value(w) * 1_000_000_000 + digits_value(f) * pow(10, (9 - f.len()) as nat) <= 1_000_000_000_000,
    ensures
        ({
            let s = if pointed {
                w + seq!['.'] + f
            } else {
                w
            };
            let n = digits_value(w) * 1_000_000_000 + digits_value(f) * pow(10, (9 - f.len()) as nat);
            &&& unsigned_decimal(s) == Some(n)
            &&& decimal(s) == Some(n)
            &&& decimal(seq!['+'] + s) == Some(n)
            &&& decimal(seq!['-'] + s) == Some(-n)
        }),
{
    let s = if pointed {
        w + seq!['.'] + f
    } else {
        w
    };
    lemma_worth(w);
    lemma_worth(f);
    lemma_ten((9 - f.len()) as nat);
    let p = pow(10, (9 - f.len()) as nat);
    assert(digits_value(f) * p >= 0) by (nonlinear_arith)
        requires
            digits_value(f) >= 0,
            p > 0,
    ;
    lemma_window(w, f);
    assert forall|i: int| 0 <= i < s.len() implies s[i] != 'e' && s[i] != 'E' by {
        if i < w.len() {
            assert(s[i] == w[i]);
        } else if i > w.len() {
            assert(s[i] == f[i - w.len() - 1]);
        }
    }
    lemma_first_e(s, s.len() as int);
    assert(s.take(s.len() as int) =~= s);
    assert forall|i: int| 0 <= i < w.len() implies s[i] != '.' by {
        assert(s[i] == w[i]);
    }
    lemma_first_mark_at(s, '.', w.len() as int);
    assert(digits_of(s) =~= w + f);
    assert forall|i: int| 0 <= i < (w + f).len() implies is_digit(#[trigger] (w + f)[i]) by {
        if i < w.len() {
            assert(w[i] == (w + f)[i]);
        } else {
            assert(f[i - w.len()] == (w + f)[i]);
        }
    }
    assert forall|i: int|
        0 <= i < (w + f).len() && !(w.len() - 4 <= i <= w.len() + 8) implies #[trigger] (w + f)[i] == '0' by {
        assert(w[i] == (w + f)[i]);
    }
    assert(s[0] == '.' || is_digit(s[0])) by {
        if w.len() > 0 {
            assert(s[0] == w[0]);
        }
    }
    assert((seq!['+'] + s).skip(1) =~= s);
    assert((seq!['-'] + s).skip(1) =~= s);
}

/// A number of degrees is read for what it spells: the digits in front of the point are whole degrees,
/// those behind it are fractions of one, and a minus sign turns it. `w` and `f` are any digits, as long
/// as there are some, at most nine of them behind the point, and no more than a thousand degrees.
pub proof fn law_spelled_degrees_are_read(w: Seq<char>, f: Seq<char>)
    requires
        plain_digits(w),
        plain_digits(f),
        w.len() + f.len() > 0,
        f.len() <= 9,
        digits_value(w) * 1_000_000_000 + digits_value(f) * pow(10, (9 - f.len()) as nat) <= 1_000_000_000_000,
    ensures
        ({
            let n = digits_value(w) * 1_000_000_000 + digits_value(f) * pow(10, (9 - f.len()) as nat);
            &&& decimal(w + seq!['.'] + f) == Some(n)
            &&& decimal(seq!['-'] + (w + seq!['.'] + f)) == Some(-n)
            &&& decimal(seq!['+'] + (w + seq!['.'] + f)) == Some(n)
            &&& f.len() == 0 ==> decimal(w) == Some(n) && decimal(seq!['-'] + w) == Some(-n)
        }),
{
    lemma_spelled(w, f, true);
    if f.len() == 0 {
        lemma_spelled(w, f, false);
    }
}

/// An exponent moves the point: upwards to the right, downwards to the left.
pub proof fn law_exponent_moves_the_point(w: Seq<char>, f: Seq<char>, k: int)
    requires
        plain_digits(w),
        plain_digits(f),
        -w.len() <= k <= f.len(),
    ensures
        ({
            let d = w + f;
            let at = w.len() + k;
            unsigned_decimal(w + seq!['.'] + f + seq!['e'] + int_text(k)) == unsigned_decimal(
                d.take(at) + seq!['.'] + d.skip(at),
            )
        }),
{
    let d = w + f;
    let at = w.len() + k;
    let m = w + seq!['.'] + f;
    let s = m + seq!['e'] + int_text(k);
    let t = d.take(at) + seq!['.'] + d.skip(at);
    assert forall|i: int| 0 <= i < d.len() implies '0' <= #[trigger] d[i] <= '9' by {
        if i < w.len() {
            assert(w[i] == d[i]);
        } else {
            assert(f[i - w.len()] == d[i]);
        }
    }
    assert forall|i: int| 0 <= i < m.len() implies m[i] != 'e' && m[i] != 'E' && (i < w.len() ==> m[i] != '.') by {
        if i < w.len() {
            assert(m[i] == w[i]);
        } else if i > w.len() {
            assert(m[i] == f[i - w.len() - 1]);
        }
    }
    assert forall|i: int| 0 <= i < m.len() implies s[i] != 'e' && s[i] != 'E' by {
        assert(s[i] == m[i]);
    }
    lemma_first_e(s, m.len() as int);
    assert(s.take(m.len() as int) =~= m);
    assert(s.skip(m.len() as int + 1) =~= int_text(k));
    lemma_first_mark_at(m, '.', w.len() as int);
    assert(digits_of(m) =~= d);
    assert forall|i: int| 0 <= i < t.len() implies t[i] != 'e' && t[i] != 'E' && (i < at ==> t[i] != '.') by {
        if i < at {
            assert(t[i] == d[i]);
        } else if i > at {
            assert(t[i] == d[i - 1]);
        }
    }
    lemma_first_e(t, t.len() as int);
    assert(t.take(t.len() as int) =~= t);
    lemma_first_mark_at(t, '.', at);
    assert(digits_of(t) =~= d);
    law_minus_stands_in_front(k);
    let e = int_text(k);
    if k < 0 {
        lemma_nat_text((-k) as nat);
        assert(e.skip(1) == nat_text((-k) as nat));
    } else {
        lemma_nat_text(k as nat);
        assert(is_digit(e[0]));
    }
}

/// A number of billionths of a degree as a table writes it: sign, whole degrees, a point and nine
/// decimals.
pub open spec fn written(n: int) -> Seq<char> {
    let a = if n < 0 {
        -n
    } else {
        n
    };
    let s = nat_text((a / 1_000_000_000) as nat) + seq!['.'] + padded_text(a % 1_000_000_000, 9);
    if n < 0 {
        seq!['-'] + s
    } else {
        s
    }
}

/// What a table writes is read back.
pub proof fn law_written_degrees_read_back(n: int)
    requires
        -1_000_000_000_000 <= n <= 1_000_000_000_000,
    ensures
        decimal(written(n)) == Some(n),
        forall|i: int| 0 <= i < written(n).len() ==> is_digit(#[trigger] written(n)[i]) || written(n)[i] == '.' || written(
            n,
        )[i] == '-',
        written(n).len() > 0,
{
    let a = if n < 0 {
        -n
    } else {
        n
    };
    let (w, f) = (nat_text((a / 1_000_000_000) as nat), padded_text(a % 1_000_000_000, 9));
    lemma_nat_text((a / 1_000_000_000) as nat);
    lemma_padded_text(a % 1_000_000_000, 9);
    assert(f.len() == 9) by {
        let rest = (a % 1_000_000_000) as nat;
        lemma_nat_text(rest);
        crate::laws::text::law_text_has_every_digit(rest, 0);
        if nat_text(rest).len() > 9 {
            vstd::arithmetic::power::lemma_pow_increases(10, 9, (nat_text(rest).len() - 1) as nat);
            lemma_billion();
        }
    }
    lemma_pow0(10);
    assert forall|i: int| 0 <= i < w.len() implies '0' <= #[trigger] w[i] <= '9' by {
        assert(is_digit(w[i]));
    }
    assert forall|i: int| 0 <= i < f.len() implies '0' <= #[trigger] f[i] <= '9' by {
        assert(is_digit(f[i]));
    }
    law_spelled_degrees_are_read(w, f);
    let s = w + seq!['.'] + f;
    assert forall|i: int| 0 <= i < s.len() implies is_digit(#[trigger] s[i]) || s[i] == '.' by {
        if i < w.len() {
            assert(s[i] == w[i]);
        } else if i > w.len() {
            assert(s[i] == f[i - w.len() - 1]);
        }
    }
    assert forall|i: int| 0 <= i < written(n).len() implies is_digit(#[trigger] written(n)[i]) || written(n)[i] == '.'
        || written(n)[i] == '-' by {
        if n < 0 {
            if i > 0 {
                assert(written(n)[i] == s[i - 1]);
            }
        } else {
            assert(written(n)[i] == s[i]);
        }
    }
}

/// Ten to the ninth.
proof fn lemma_billion()
    ensures
        pow(10, 9) == 1_000_000_000,
{
    lemma_pow0(10);
    lemma_ten(0);
    lemma_ten(1);
    lemma_ten(2);
    lemma_ten(3);
    lemma_ten(4);
    lemma_ten(5);
    lemma_ten(6);
    lemma_ten(7);
    lemma_ten(8);
}

/// No comma stands in a text.
pub open spec fn no_comma(s: Seq<char>) -> bool {
    forall|i: int| 0 <= i < s.len() ==> #[trigger] s[i] != ','
}

/// A row is cut at its commas.
proof fn lemma_fields(a: Seq<char>, b: Seq<char>, c: Seq<char>, rest: Seq<char>)
    requires
        no_comma(a),
        no_comma(b),
        no_comma(c),
        rest.len() > 0 ==> rest[0] == ',',
    ensures
        ({
            let row = a + seq![','] + (b + seq![','] + (c + rest));
            &&& row.len() > 0
            &&& field(row) == a
            &&& first_mark(row, ',') < row.len()
            &&& field(further(row)) == b
            &&& field(further(further(row))) == c
        }),
{
    let third = c + rest;
    let second = b + seq![','] + third;
    let row = a + seq![','] + second;
    assert forall|i: int| 0 <= i < a.len() implies row[i] != ',' by {
        assert(row[i] == a[i]);
    }
    lemma_first_mark_at(row, ',', a.len() as int);
    assert(row.take(a.len() as int) =~= a);
    assert(row.skip(a.len() as int + 1) =~= second);
    assert forall|i: int| 0 <= i < b.len() implies second[i] != ',' by {
        assert(second[i] == b[i]);
    }
    lemma_first_mark_at(second, ',', b.len() as int);
    assert(second.take(b.len() as int) =~= b);
    assert(second.skip(b.len() as int + 1) =~= third);
    assert forall|i: int| 0 <= i < c.len() implies third[i] != ',' by {
        assert(third[i] == c[i]);
    }
    lemma_first_mark_at(third, ',', c.len() as int);
    assert(third.take(c.len() as int) =~= c);
}

/// Every row with a latitude, a longitude and a surface basin lists that point, whatever its
/// coordinates and whatever further columns it has. Longitudes below 20 degrees are counted on.
pub proof fn law_row_lists_its_point(
    a: Seq<char>,
    b: Seq<char>,
    c: Seq<char>,
    rest: Seq<char>,
    lat: int,
    lon: int,
    basin: int,
)
    requires
        no_comma(a),
        no_comma(b),
        no_comma(c),
        rest.len() > 0 ==> rest[0] == ',',
        decimal(trim(a)) == Some(lat),
        decimal(trim(b)) == Some(lon),
        parse_int(trim(c), -32768, 32767) == Some(basin),
    ensures
        row_point(a + seq![','] + (b + seq![','] + (c + rest))) == Ok::<Option<Point>, BasinError>(
            Some(
                Point {
                    lat: lat as i64,
                    lon: (if lon < 20_000_000_000 {
                        lon + 360_000_000_000
                    } else {
                        lon
                    }) as i64,
                    basin: basin as i16,
                },
            ),
        ),
{
    lemma_fields(a, b, c, rest);
    law_number_was_spelled(trim(c), -32768, 32767, basin);
}

/// A row without a surface basin lists no point; one whose latitude, longitude or basin is no number
/// is faulty, and so is one without a longitude.
pub proof fn law_other_rows_list_nothing(a: Seq<char>, b: Seq<char>, c: Seq<char>, rest: Seq<char>)
    requires
        no_comma(a),
        no_comma(b),
        no_comma(c),
        rest.len() > 0 ==> rest[0] == ',',
    ensures
        ({
            let row = a + seq![','] + (b + seq![','] + (c + rest));
            &&& row_point(Seq::empty()) == Ok::<Option<Point>, BasinError>(None)
            &&& decimal(trim(a)) is None ==> row_point(row) == Err::<Option<Point>, BasinError>(BasinError::Lat)
            &&& decimal(trim(a)) is Some && a.len() > 0 ==> row_point(a) == Err::<Option<Point>, BasinError>(
                BasinError::MissingLon,
            )
            &&& decimal(trim(a)) is Some && decimal(trim(b)) is None ==> row_point(row) == Err::<
                Option<Point>,
                BasinError,
            >(BasinError::Lon)
            &&& decimal(trim(a)) is Some && decimal(trim(b)) is Some && trim(c).len() == 0 ==> row_point(row) == Ok::<
                Option<Point>,
                BasinError,
            >(None)
            &&& decimal(trim(a)) is Some && decimal(trim(b)) is Some && trim(c).len() > 0 && parse_int(
                trim(c),
                -32768,
                32767,
            ) is None ==> row_point(row) == Err::<Option<Point>, BasinError>(BasinError::Basin)
        }),
{
    lemma_fields(a, b, c, rest);
    lemma_first_mark_at(a, ',', a.len() as int);
    assert(a.take(a.len() as int) =~= a);
}

/// An entry of a table: latitude and longitude in billionths of a degree, and the surface basin.
pub struct Entry {
    pub lat: int,
    pub lon: int,
    pub basin: int,
}

/// The entry can be written: up to a thousand degrees, and a basin of sixteen bits.
pub open spec fn writable(e: Entry) -> bool {
    &&& -1_000_000_000_000 <= e.lat <= 1_000_000_000_000
    &&& -1_000_000_000_000 <= e.lon <= 1_000_000_000_000
    &&& -32768 <= e.basin <= 32767
}

/// The row of an entry.
pub open spec fn row_of(e: Entry) -> Seq<char> {
    written(e.lat) + seq![','] + (written(e.lon) + seq![','] + (int_text(e.basin) + Seq::empty()))
}

/// The point of an entry, its longitude counted from 20 degrees on.
pub open spec fn point_of(e: Entry) -> Point {
    Point {
        lat: e.lat as i64,
        lon: (if e.lon < 20_000_000_000 {
            e.lon + 360_000_000_000
        } else {
            e.lon
        }) as i64,
        basin: e.basin as i16,
    }
}

/// Every entry's row lists just its point.
pub proof fn law_written_row_lists_its_point(e: Entry)
    requires
        writable(e),
    ensures
        row_point(row_of(e)) == Ok::<Option<Point>, BasinError>(Some(point_of(e))),
        row_of(e).len() > 0,
        forall|i: int| 0 <= i < row_of(e).len() ==> #[trigger] row_of(e)[i] != '\n' && row_of(e)[i] != '\r',
{
    let (a, b, c) = (written(e.lat), written(e.lon), int_text(e.basin));
    law_written_degrees_read_back(e.lat);
    law_written_degrees_read_back(e.lon);
    lemma_int_text_chars(e.basin);
    law_trimmed_text_stays(a);
    law_trimmed_text_stays(b);
    law_trimmed_text_stays(c);
    crate::text::law_int_text_reads_back(e.basin, -32768, 32767);
    law_row_lists_its_point(a, b, c, Seq::empty(), e.lat, e.lon, e.basin);
    let row = row_of(e);
    assert forall|i: int| 0 <= i < row.len() implies #[trigger] row[i] != '\n' && row[i] != '\r' by {
        let (x, y) = (a.len() as int, a.len() + 1 + b.len());
        if i < x {
            assert(row[i] == a[i]);
        } else if x < i < y {
            assert(row[i] == b[i - x - 1]);
        } else if y < i {
            assert(row[i] == c[i - y - 1]);
        }
    }
}

/// The lines of a text are those of its parts: what stands in front of a line feed is a line, without
/// the carriage return at its end; what stands behind the last one is a line unless it is empty.
pub proof fn law_line_feeds_part_lines(line: Seq<char>, rest: Seq<char>)
    requires
        forall|i: int| 0 <= i < line.len() ==> #[trigger] line[i] != '\n',
    ensures
        lines(line + seq!['\n'] + rest) == seq![
            if line.len() > 0 && line.last() == '\r' {
                line.drop_last()
            } else {
                line
            },
        ] + lines(rest),
        line.len() > 0 ==> lines(line) == seq![line],
        lines(Seq::empty()) == Seq::<Seq<char>>::empty(),
{
    let s = line + seq!['\n'] + rest;
    assert forall|i: int| 0 <= i < line.len() implies s[i] != '\n' by {
        assert(s[i] == line[i]);
    }
    lemma_first_mark_at(s, '\n', line.len() as int);
    assert(s.take(line.len() as int) =~= line);
    assert(s.skip(line.len() as int + 1) =~= rest);
    lemma_first_mark_at(line, '\n', line.len() as int);
}

/// The rows of a table are the lines behind its first two.
pub proof fn law_rows_stand_behind_two_lines(text: Seq<char>, k: int)
    ensures
        lines(text).len() <= 2 ==> rows(text).len() == 0,
        lines(text).len() > 2 ==> rows(text).len() == lines(text).len() - 2,
        0 <= k < rows(text).len() ==> rows(text)[k] == lines(text)[k + 2],
{
}

/// The points of a table are those of its rows, in order: every row that lists a point adds it, every
/// other one adds none, and a faulty row makes the whole table faulty.
pub proof fn law_points_are_those_of_the_rows(a: Seq<Seq<char>>, b: Seq<Seq<char>>, row: Seq<char>)
    ensures
        points_of(Seq::empty()) == Ok::<Seq<Point>, BasinError>(Seq::empty()),
        points_of(seq![row]) == match row_point(row) {
            Ok(Some(p)) => Ok(seq![p]),
            Ok(None) => Ok(Seq::empty()),
            Err(x) => Err(x),
        },
        points_of(a + b) == match (points_of(a), points_of(b)) {
            (Ok(x), Ok(y)) => Ok(x + y),
            (Err(x), _) => Err(x),
            (_, Err(y)) => Err(y),
        },
    decreases b.len(),
{
    assert(seq![row].drop_last() =~= Seq::empty());
    assert(points_of(Seq::<Seq<char>>::empty()) == Ok::<Seq<Point>, BasinError>(Seq::empty()));
    match row_point(row) {
        Ok(Some(p)) => {
            assert(Seq::<Point>::empty().push(p) =~= seq![p]);
        },
        _ => {},
    }
    if b.len() == 0 {
        assert(a + b =~= a);
        match points_of(a) {
            Ok(x) => {
                assert(x + Seq::<Point>::empty() =~= x);
            },
            Err(_) => {},
        }
    } else {
        law_points_are_those_of_the_rows(a, b.drop_last(), row);
        assert((a + b).drop_last() =~= a + b.drop_last());
        match (points_of(a), points_of(b.drop_last()), row_point(b.last())) {
            (Ok(x), Ok(y), Ok(Some(p))) => {
                assert((x + y).push(p) =~= x + y.push(p));
            },
            _ => {},
        }
    }
}

/// The rows of entries, each ended by a line feed.
pub open spec fn body(entries: Seq<Entry>) -> Seq<char>
    decreases entries.len(),
{
    if entries.len() == 0 {
        Seq::empty()
    } else {
        row_of(entries[0]) + seq!['\n'] + body(entries.skip(1))
    }
}

/// The rows of entries, line by line.
proof fn lemma_body(entries: Seq<Entry>)
    requires
        forall|k: int| 0 <= k < entries.len() ==> writable(#[trigger] entries[k]),
    ensures
        points_of(lines(body(entries))) == Ok::<Seq<Point>, BasinError>(entries.map_values(|e: Entry| point_of(e))),
    decreases entries.len(),
{
    if entries.len() == 0 {
        assert(entries.map_values(|e: Entry| point_of(e)) =~= Seq::empty());
        assert(lines(Seq::empty()) == Seq::<Seq<char>>::empty());
    } else {
        let e = entries[0];
        let rest = entries.skip(1);
        assert forall|k: int| 0 <= k < rest.len() implies writable(#[trigger] rest[k]) by {
            assert(writable(entries[k + 1]));
        }
        assert(writable(entries[0]));
        lemma_body(rest);
        law_written_row_lists_its_point(e);
        let row = row_of(e);
        assert(row.last() != '\r') by {
            assert(row[row.len() - 1] != '\r');
        }
        law_line_feeds_part_lines(row, body(rest));
        law_points_are_those_of_the_rows(seq![row], lines(body(rest)), row);
        assert(seq![point_of(e)] + rest.map_values(|e: Entry| point_of(e)) =~= entries.map_values(
            |e: Entry| point_of(e),
        ));
    }
}

/// A table lists the points of all its entries, however many there are and wherever they lie.
pub proof fn law_table_lists_every_entry(comment: Seq<char>, header: Seq<char>, entries: Seq<Entry>)
    requires
        forall|i: int| 0 <= i < comment.len() ==> #[trigger] comment[i] != '\n',
        forall|i: int| 0 <= i < header.len() ==> #[trigger] header[i] != '\n',
        forall|k: int| 0 <= k < entries.len() ==> writable(#[trigger] entries[k]),
    ensures
        points_of(rows(comment + seq!['\n'] + (header + seq!['\n'] + body(entries)))) == Ok::<Seq<Point>, BasinError>(
            entries.map_values(|e: Entry| point_of(e)),
        ),
{
    let inner = header + seq!['\n'] + body(entries);
    let text = comment + seq!['\n'] + inner;
    law_line_feeds_part_lines(comment, inner);
    law_line_feeds_part_lines(header, body(entries));
    lemma_body(entries);
    assert(rows(text) =~= lines(body(entries)));
}

/// The place of a point in the lattice is within half a step of the point, and just there where the
/// point is a whole number of steps from the lattice's edge.
pub proof fn law_node_is_within_half_a_step(x: int, low: int)
    ensures
        -125_000_000 <= low + index_of(x, low) * 250_000_000 - x <= 125_000_000,
        (x - low) % 250_000_000 == 0 ==> low + index_of(x, low) * 250_000_000 == x,
        (x - low) % 250_000_000 == 125_000_000 ==> low + index_of(x, low) * 250_000_000 == x + 125_000_000,
{
}

/// The least number is one of the numbers.
proof fn lemma_least_is_there(s: Seq<i64>) -> (k: int)
    requires
        s.len() > 0,
    ensures
        0 <= k < s.len(),
        s[k] == least(s),
    decreases s.len(),
{
    if s.len() == 1 {
        0
    } else if s.last() < least(s.drop_last()) {
        s.len() - 1
    } else {
        lemma_least_is_there(s.drop_last())
    }
}

/// The basin at a node is that of the last point there; without one, the node is empty.
pub proof fn law_node_has_the_last_point_there(points: Seq<Point>, lat_min: int, lon_min: int, il: int, jl: int) -> (k: int)
    ensures
        ({
            let at = |p: Point| index_of(p.lat as int, lat_min) == il && index_of(p.lon as int, lon_min) == jl;
            &&& -1 <= k < points.len()
            &&& forall|m: int| k < m < points.len() ==> !at(#[trigger] points[m])
            &&& k >= 0 ==> at(points[k]) && node(points, lat_min, lon_min, il, jl) == points[k].basin
            &&& k < 0 ==> node(points, lat_min, lon_min, il, jl) == -32768
        }),
    decreases points.len(),
{
    if points.len() == 0 {
        -1
    } else if index_of(points.last().lat as int, lat_min) == il && index_of(points.last().lon as int, lon_min) == jl {
        points.len() - 1
    } else {
        let k = law_node_has_the_last_point_there(points.drop_last(), lat_min, lon_min, il, jl);
        let at = |p: Point| index_of(p.lat as int, lat_min) == il && index_of(p.lon as int, lon_min) == jl;
        assert forall|m: int| k < m < points.len() implies !at(#[trigger] points[m]) by {
            if m < points.len() - 1 {
                assert(points.drop_last()[m] == points[m]);
            }
        }
        k
    }
}

/// The square of the distance between a place and a point.
pub open spec fn apart2(qlat: int, qlon: int, p: Point) -> int {
    (p.lat - qlat) * (p.lat - qlat) + (p.lon - qlon) * (p.lon - qlon)
}

/// The points lie on a quarter-degree lattice.
pub open spec fn on_lattice(points: Seq<Point>) -> bool {
    forall|k: int, m: int|
        #![trigger points[k], points[m]]
        0 <= k < points.len() && 0 <= m < points.len() ==> (points[k].lat - points[m].lat) % 250_000_000 == 0 && (
        points[k].lon - points[m].lon) % 250_000_000 == 0
}

/// The lattice has every listed point at its place.
proof fn lemma_point_is_there(l: Lattice, points: Seq<Point>, m: int) -> (n: (int, int))
    requires
        l.represents(points),
        on_lattice(points),
        forall|k: int| 0 <= k < points.len() ==> (#[trigger] points[k]).basin != -32768,
        0 <= m < points.len(),
    ensures
        l.filled(n),
        l.lat_min + n.0 * 250_000_000 == points[m].lat,
        l.lon_min + n.1 * 250_000_000 == points[m].lon,
        n == (index_of(points[m].lat as int, l.lat_min as int), index_of(points[m].lon as int, l.lon_min as int)),
{
    let (il, jl) = (
        index_of(points[m].lat as int, l.lat_min as int),
        index_of(points[m].lon as int, l.lon_min as int),
    );
    lemma_bounds(lats(points), m);
    lemma_bounds(lons(points), m);
    assert(lats(points)[m] == points[m].lat && lons(points)[m] == points[m].lon);
    let a = lemma_least_is_there(lats(points));
    let b = lemma_least_is_there(lons(points));
    assert((points[m].lat - points[a].lat) % 250_000_000 == 0);
    assert((points[m].lon - points[b].lon) % 250_000_000 == 0);
    law_node_is_within_half_a_step(points[m].lat as int, l.lat_min as int);
    law_node_is_within_half_a_step(points[m].lon as int, l.lon_min as int);
    let k = law_node_has_the_last_point_there(points, l.lat_min as int, l.lon_min as int, il, jl);
    assert(k >= 0);
    assert(l.at(il, jl) == points[k].basin);
    (il, jl)
}

/// A cell gets the basin of the nearest of all listed points: no other point of the table is nearer to
/// it. Where several rows list the same place, the last one counts. The distance is that of latitude and
/// longitude in degrees.
pub proof fn law_cell_gets_the_nearest_point(l: Lattice, points: Seq<Point>, qlat: int, qlon: int, basin: i16) -> (k: int)
    requires
        l.represents(points),
        points.len() > 0,
        on_lattice(points),
        forall|m: int| 0 <= m < points.len() ==> (#[trigger] points[m]).basin != -32768,
        is_cell_basin(l, qlat, qlon, basin),
    ensures
        0 <= k < points.len(),
        basin == points[k].basin,
        forall|m: int| 0 <= m < points.len() ==> apart2(qlat, qlon, points[k]) <= apart2(qlat, qlon, #[trigger] points[m]),
        forall|m: int| k < m < points.len() ==> (#[trigger] points[m]).lat != points[k].lat || points[m].lon != points[k].lon,
{
    let first = lemma_point_is_there(l, points, 0);
    assert(l.filled(first));
    let n = choose|n: (int, int)| #[trigger] l.is_nearest(qlat, qlon, n) && basin == l.at(n.0, n.1);
    let k = law_node_has_the_last_point_there(points, l.lat_min as int, l.lon_min as int, n.0, n.1);
    assert(k >= 0);
    let at_k = lemma_point_is_there(l, points, k);
    assert(at_k == n);
    assert forall|m: int| 0 <= m < points.len() implies apart2(qlat, qlon, points[k]) <= apart2(
        qlat,
        qlon,
        #[trigger] points[m],
    ) by {
        let at_m = lemma_point_is_there(l, points, m);
        crate::basinmask::law_nothing_is_nearer(l, qlat, qlon, n, at_m);
    }
    k
}

/// From table to cell: of all entries of a table on a quarter-degree lattice, a cell gets the basin of one
/// that no other entry is nearer than, however far south or north the entries lie.
pub proof fn law_cell_gets_the_nearest_entry(
    comment: Seq<char>,
    header: Seq<char>,
    entries: Seq<Entry>,
    l: Lattice,
    qlat: int,
    qlon: int,
    basin: i16,
) -> (k: int)
    requires
        forall|i: int| 0 <= i < comment.len() ==> #[trigger] comment[i] != '\n',
        forall|i: int| 0 <= i < header.len() ==> #[trigger] header[i] != '\n',
        entries.len() > 0,
        forall|m: int| 0 <= m < entries.len() ==> writable(#[trigger] entries[m]) && entries[m].basin != -32768,
        forall|a: int, b: int|
            #![trigger entries[a], entries[b]]
            0 <= a < entries.len() && 0 <= b < entries.len() ==> (entries[a].lat - entries[b].lat) % 250_000_000 == 0 && (
            entries[a].lon - entries[b].lon) % 250_000_000 == 0,
        points_of(rows(comment + seq!['\n'] + (header + seq!['\n'] + body(entries)))) matches Ok(points) && l.represents(
            points,
        ),
        is_cell_basin(l, qlat, qlon, basin),
    ensures
        0 <= k < entries.len(),
        basin == entries[k].basin,
        forall|m: int|
            0 <= m < entries.len() ==> apart2(qlat, qlon, point_of(entries[k])) <= apart2(
                qlat,
                qlon,
                point_of(#[trigger] entries[m]),
            ),
{
    law_table_lists_every_entry(comment, header, entries);
    let points = entries.map_values(|e: Entry| point_of(e));
    assert forall|m: int| 0 <= m < points.len() implies (#[trigger] points[m]).basin != -32768 && points[m] == point_of(
        entries[m],
    ) by {
        assert(writable(entries[m]) && entries[m].basin != -32768);
    }
    assert forall|a: int, b: int|
        #![trigger points[a], points[b]]
        0 <= a < points.len() && 0 <= b < points.len() implies (points[a].lat - points[b].lat) % 250_000_000 == 0 && (
    points[a].lon - points[b].lon) % 250_000_000 == 0 by {
        let (x, y) = (entries[a], entries[b]);
        assert(writable(x) && writable(y));
        assert((x.lat - y.lat) % 250_000_000 == 0 && (x.lon - y.lon) % 250_000_000 == 0);
        assert(points[a] == point_of(x) && points[b] == point_of(y));
        assert(points[a].lon - points[b].lon == x.lon - y.lon || points[a].lon - points[b].lon == x.lon - y.lon
            + 360_000_000_000 || points[a].lon - points[b].lon == x.lon - y.lon - 360_000_000_000);
    }
    let k = law_cell_gets_the_nearest_point(l, points, qlat, qlon, basin);
    assert(points[k] == point_of(entries[k]));
    assert(writable(entries[k]));
    assert forall|m: int| 0 <= m < entries.len() implies apart2(qlat, qlon, point_of(entries[k])) <= apart2(
        qlat,
        qlon,
        point_of(#[trigger] entries[m]),
    ) by {
        assert(points[m] == point_of(entries[m]));
    }
    k
}

/// Nodes are counted in rings round the node closest to a cell: half a step away at most, and halfway
/// between two the one further from the lattice's edge. Of two nodes as near to the cell, the one on the
/// inner ring counts; on one ring the southern one, and in one row the western one.
pub proof fn law_ties_go_to_the_inner_ring(l: Lattice, qlat: int, qlon: int, n: (int, int), m: (int, int))
    requires
        l.is_nearest(qlat, qlon, n),
        0 <= m.0 < l.nlat_l,
        0 <= m.1 < l.nlon_l,
        l.at(m.0, m.1) != -32768,
        m != n,
        size(l.lat_min + n.0 * 250_000_000 - qlat) * size(l.lat_min + n.0 * 250_000_000 - qlat) + size(
            l.lon_min + n.1 * 250_000_000 - qlon,
        ) * size(l.lon_min + n.1 * 250_000_000 - qlon) == size(l.lat_min + m.0 * 250_000_000 - qlat) * size(
            l.lat_min + m.0 * 250_000_000 - qlat,
        ) + size(l.lon_min + m.1 * 250_000_000 - qlon) * size(l.lon_min + m.1 * 250_000_000 - qlon),
    ensures
        ({
            let c = l.center_of(qlat, qlon);
            let (a, b) = (size(n.0 - c.0), size(n.1 - c.1));
            let (d, e) = (size(m.0 - c.0), size(m.1 - c.1));
            let (inner, outer) = (if a < b { b } else { a }, if d < e { e } else { d });
            &&& inner <= outer
            &&& inner == outer ==> n.0 <= m.0
            &&& inner == outer && n.0 == m.0 ==> n.1 < m.1
        }),
{
    assert(l.filled(m));
    lemma_square_of(l.lat_min + n.0 * 250_000_000 - qlat);
    lemma_square_of(l.lon_min + n.1 * 250_000_000 - qlon);
    lemma_square_of(l.lat_min + m.0 * 250_000_000 - qlat);
    lemma_square_of(l.lon_min + m.1 * 250_000_000 - qlon);
    assert(l.distance2(qlat, qlon, n) == l.distance2(qlat, qlon, m));
    assert(l.beats(qlat, qlon, n, m));
}

/// A number and its absolute value have the same square.
proof fn lemma_square_of(x: int)
    ensures
        size(x) * size(x) == square(x),
{
    assert((-x) * (-x) == x * x) by (nonlinear_arith);
}

/// The node closest to a cell is at most half a step away along each axis; halfway between two it is the
/// one further from the lattice's edge.
pub proof fn law_center_is_within_half_a_step(l: Lattice, qlat: int, qlon: int)
    ensures
        ({
            let c = l.center_of(qlat, qlon);
            let (y, x) = (l.lat_min + c.0 * 250_000_000 - qlat, l.lon_min + c.1 * 250_000_000 - qlon);
            &&& -125_000_000 <= y <= 125_000_000
            &&& -125_000_000 <= x <= 125_000_000
            &&& size(y) == 125_000_000 ==> (y > 0 <==> qlat > l.lat_min)
            &&& size(x) == 125_000_000 ==> (x > 0 <==> qlon > l.lon_min)
        }),
{
}

/// Where no point is listed at all, a cell has no basin: its number is zero.
pub proof fn law_empty_table_gives_no_basin(l: Lattice, qlat: int, qlon: int, basin: i16)
    requires
        forall|n: (int, int)| 0 <= n.0 < l.nlat_l && 0 <= n.1 < l.nlon_l ==> #[trigger] l.at(n.0, n.1) == -32768,
        is_cell_basin(l, qlat, qlon, basin),
    ensures
        basin == 0,
{
    assert forall|n: (int, int)| !#[trigger] l.filled(n) by {
        if 0 <= n.0 < l.nlat_l && 0 <= n.1 < l.nlon_l {
            assert(l.at(n.0, n.1) == -32768);
        }
    }
}

/// A grid is off the raster just where one of its coordinates is no whole number of billionths of a degree,
/// or beyond a thousand degrees.
pub proof fn law_grid_is_off_the_raster_by_one_coordinate(coords: Seq<u64>)
    ensures
        off_raster(coords) <==> exists|k: int| 0 <= k < coords.len() && (#[trigger] billionths(coords[k])) is None,
{
}

/// A coordinate is a number of billionths of a degree just where it is that number: neither rounded
/// nor shifted, and up to a thousand degrees either way.
pub proof fn law_raster_coordinate_is_exact(bits: u64, n: int)
    ensures
        billionths(bits) == Some(n) <==> finite(bits) && units(bits) * 1_000_000_000 == n * one() && -1_000_000_000_000
            <= n <= 1_000_000_000_000,
{
    vstd::arithmetic::power2::lemma_pow2_pos(1074);
    let (p, d) = (units(bits) * 1_000_000_000, one());
    if p == n * d {
        lemma_division(p, d, n, 0);
    }
    if p % d == 0 {
        vstd::arithmetic::div_mod::lemma_fundamental_div_mod(p, d);
        assert(d * (p / d) == (p / d) * d) by (nonlinear_arith);
    }
}

} // verus!
