//! The basin table and its assignment to the mapping grid.
//!
//! The table lists points of a quarter-degree lattice, ocean only: latitude, longitude, and a basin
//! id per depth, of which the surface one is taken. Each cell of the grid gets the basin of the
//! nearest listed point. Coordinates are exact: whole numbers of billionths of a degree.

use vstd::arithmetic::power2::pow2;
use vstd::prelude::*;

use crate::double::{finite, is_finite, magnitude, one, units, SIGN_WEIGHT};
use crate::grid::{is_half, lemma_cell_of, lemma_place, place, Grid2, GridDef};
use crate::rounding::{parts, two_to};
use crate::text::{
    all_digits, chars_of, digits_value, find_mark, first_mark, is_digit, parse_int, read_int, trim, trimmed,
};

verus! {

/// One degree.
pub const DEGREE: i64 = 1_000_000_000;

/// The spacing of the lattice, a quarter of a degree.
pub const STEP: i64 = 250_000_000;

/// Half the spacing of the lattice.
pub const HALF: i64 = 125_000_000;

/// Coordinates beyond a thousand degrees are refused.
pub const LIMIT: i64 = 1_000_000_000_000;

/// Stands in the lattice where no point is listed.
pub const EMPTY: i16 = -32768;

/// Why the table could not be used.
#[derive(Debug, Clone, Copy, PartialEq, Eq)]
pub enum BasinError {
    /// A latitude is no decimal number of degrees, has too many decimals, or is too large.
    Lat,
    /// A row has no longitude.
    MissingLon,
    /// A longitude is no decimal number of degrees, has too many decimals, or is too large.
    Lon,
    /// A basin id is no number.
    Basin,
    /// No row has a basin.
    NoRows,
    /// A coordinate of the grid is no whole number of billionths of a degree, or too large.
    Coordinate,
}

/// The place of the first `e` or `E`, or the text's length.
pub open spec fn first_e(s: Seq<char>) -> int
    decreases s.len(),
{
    if s.len() == 0 || s[0] == 'e' || s[0] == 'E' {
        0
    } else {
        1 + first_e(s.skip(1))
    }
}

/// What stands behind the point.
pub open spec fn behind_point(s: Seq<char>) -> Seq<char> {
    if first_mark(s, '.') < s.len() {
        s.skip(first_mark(s, '.') + 1)
    } else {
        Seq::empty()
    }
}

/// The digits of a number, those in front of the point and those behind it.
pub open spec fn digits_of(mantissa: Seq<char>) -> Seq<char> {
    mantissa.take(first_mark(mantissa, '.')) + behind_point(mantissa)
}

/// The whole number that an exponent spells: digits behind an optional sign.
pub open spec fn exponent_of(s: Seq<char>) -> Option<int> {
    let digits = if s.len() > 0 && (s[0] == '+' || s[0] == '-') {
        s.skip(1)
    } else {
        s
    };
    if !all_digits(digits) {
        None
    } else if s[0] == '-' {
        Some(-digits_value(digits))
    } else {
        Some(digits_value(digits))
    }
}

/// The thirteen digits from the thousands down to the billionths, where the point stands behind
/// the first `point` digits. There are zeros beyond the digits given.
pub open spec fn window(digits: Seq<char>, point: int) -> Seq<char> {
    Seq::new(13, |k: int| if 0 <= point - 4 + k < digits.len() { digits[point - 4 + k] } else { '0' })
}

/// The number of billionths that digits are worth, where the point stands behind the first
/// `point` of them; none where that is no whole number or beyond the limit.
pub open spec fn billionths_of(digits: Seq<char>, point: int) -> Option<int> {
    let n = digits_value(window(digits, point));
    if !all_digits(digits) {
        None
    } else if exists|i: int|
        0 <= i < digits.len() && !(point - 4 <= i <= point + 8) && #[trigger] digits[i] != '0' {
        None
    } else if n > LIMIT {
        None
    } else {
        Some(n)
    }
}

/// The number of billionths that a number without sign spells: digits with at most one point, and
/// an optional exponent.
pub open spec fn unsigned_decimal(s: Seq<char>) -> Option<int> {
    let mantissa = s.take(first_e(s));
    let point = first_mark(mantissa, '.');
    if first_e(s) == s.len() {
        billionths_of(digits_of(mantissa), point)
    } else {
        match exponent_of(s.skip(first_e(s) + 1)) {
            None => None,
            Some(e) => billionths_of(digits_of(mantissa), point + e),
        }
    }
}

/// The number of billionths that a number spells: digits with at most one point, behind an
/// optional sign and in front of an optional exponent. Numbers that are no whole number of
/// billionths, or beyond the limit, are none.
pub open spec fn decimal(s: Seq<char>) -> Option<int> {
    if s.len() > 0 && s[0] == '-' {
        match unsigned_decimal(s.skip(1)) {
            Some(n) => Some(-n),
            None => None,
        }
    } else if s.len() > 0 && s[0] == '+' {
        unsigned_decimal(s.skip(1))
    } else {
        unsigned_decimal(s)
    }
}

/// What the first `e` has in front of it.
pub proof fn lemma_first_e(s: Seq<char>, k: int)
    requires
        0 <= k <= s.len(),
        k < s.len() ==> s[k] == 'e' || s[k] == 'E',
        forall|i: int| 0 <= i < k ==> s[i] != 'e' && s[i] != 'E',
    ensures
        first_e(s) == k,
    decreases s.len(),
{
    if k > 0 {
        assert forall|i: int| 0 <= i < k - 1 implies s.skip(1)[i] != 'e' && s.skip(1)[i] != 'E' by {
            assert(s.skip(1)[i] == s[i + 1]);
        }
        lemma_first_e(s.skip(1), k - 1);
    }
}

/// Finds the first `e` among the characters `from..to`, or `to`.
fn find_e(chars: &Vec<char>, from: usize, to: usize) -> (r: usize)
    requires
        from <= to <= chars.len(),
    ensures
        from <= r <= to,
        r - from == first_e(chars@.subrange(from as int, to as int)),
{
    let mut i: usize = from;
    while i < to && chars[i] != 'e' && chars[i] != 'E'
        invariant
            from <= i <= to <= chars.len(),
            forall|k: int| from <= k < i ==> chars@[k] != 'e' && chars@[k] != 'E',
        decreases to - i,
    {
        i = i + 1;
    }
    proof {
        lemma_first_e(chars@.subrange(from as int, to as int), i - from);
    }
    i
}

/// Exponents are told apart up to this; a larger one moves every digit out of reach.
const FAR: i128 = 1_000_000_000_000_000_000_000_000;

/// The exponents `n` and `m` are the same, or both are too large to matter.
spec fn as_good(n: int, m: int) -> bool {
    n == m || (n >= FAR && m >= FAR) || (n <= -FAR && m <= -FAR)
}

/// Reads an exponent, as far as it can matter.
fn read_exponent(chars: &Vec<char>, from: usize, to: usize) -> (r: Option<i128>)
    requires
        from <= to <= chars.len(),
    ensures
        match r {
            Some(n) => {
                let e = exponent_of(chars@.subrange(from as int, to as int));
                e is Some && as_good(n as int, e->0) && -10 * FAR - 10 <= n <= 10 * FAR + 10
            },
            None => exponent_of(chars@.subrange(from as int, to as int)) is None,
        },
{
    let ghost s = chars@.subrange(from as int, to as int);
    let signed: bool = from < to && (chars[from] == '+' || chars[from] == '-');
    let minus: bool = from < to && chars[from] == '-';
    let start: usize = if signed {
        from + 1
    } else {
        from
    };
    let ghost digits = if signed {
        s.skip(1)
    } else {
        s
    };
    assert(digits =~= chars@.subrange(start as int, to as int));
    if start == to {
        return None;
    }
    let mut n: i128 = 0;
    let mut i: usize = start;
    while i < to
        invariant
            start <= i <= to <= chars.len(),
            digits == chars@.subrange(start as int, to as int),
            signed == (s.len() > 0 && (s[0] == '+' || s[0] == '-')),
            digits == (if signed { s.skip(1) } else { s }),
            s == chars@.subrange(from as int, to as int),
            0 <= n <= 10 * FAR + 10,
            n == digits_value(digits.take(i - start)) || (n >= FAR && digits_value(digits.take(i - start)) >= FAR),
            forall|k: int| 0 <= k < i - start ==> is_digit(#[trigger] digits[k]),
        decreases to - i,
    {
        let c: char = chars[i];
        assert(c == digits[i - start]);
        if c < '0' || c > '9' {
            return None;
        }
        proof {
            let t = digits.take(i + 1 - start);
            assert(t.drop_last() =~= digits.take(i - start));
            assert(t.last() == c);
        }
        if n < FAR {
            n = n * 10 + (c as u32 - 48) as i128;
        }
        i = i + 1;
    }
    assert(digits.take(to - start) =~= digits);
    if minus {
        Some(-n)
    } else {
        Some(n)
    }
}

/// A digit of a number: `whole` digits stand at `from`, and the others behind the point.
fn digit_at(chars: &Vec<char>, from: usize, whole: usize, i: usize) -> (r: char)
    requires
        from + i < chars.len(),
        i >= whole ==> from + i + 1 < chars.len(),
    ensures
        r == chars@[from + (if i < whole { i as int } else { i + 1 })],
{
    if i < whole {
        chars[from + i]
    } else {
        chars[from + i + 1]
    }
}

/// Reads digits as billionths. The digits are the `whole` characters at `from` and those behind
/// the character after them, `len` together; the point stands behind the first `point` of them.
fn read_billionths(chars: &Vec<char>, from: usize, whole: usize, len: usize, point: i128) -> (r: Option<i64>)
    requires
        whole <= len,
        from + len <= chars.len(),
        whole < len ==> from + len + 1 <= chars.len(),
        -20 * FAR <= point <= 20 * FAR,
    ensures
        ({
            let digits = Seq::new(
                len as nat,
                |i: int| chars@[from + (if i < whole { i } else { i + 1 })],
            );
            match r {
                Some(n) => billionths_of(digits, point as int) == Some(n as int) && 0 <= n <= LIMIT,
                None => billionths_of(digits, point as int) is None,
            }
        }),
{
    let ghost digits = Seq::new(len as nat, |i: int| chars@[from + (if i < whole { i } else { i + 1 })]);
    if len == 0 {
        return None;
    }
    let mut i: usize = 0;
    while i < len
        invariant
            i <= len,
            whole <= len,
            from + len <= chars.len(),
            whole < len ==> from + len + 1 <= chars.len(),
            -20 * FAR <= point <= 20 * FAR,
            digits == Seq::new(len as nat, |i: int| chars@[from + (if i < whole { i } else { i + 1 })]),
            forall|k: int| 0 <= k < i ==> is_digit(#[trigger] digits[k]),
            forall|k: int| 0 <= k < i && !(point - 4 <= k <= point + 8) ==> #[trigger] digits[k] == '0',
        decreases len - i,
    {
        let c: char = digit_at(chars, from, whole, i);
        assert(c == digits[i as int]);
        if c < '0' || c > '9' {
            assert(!is_digit(digits[i as int]));
            return None;
        }
        if c != '0' && ((i as i128) < point - 4 || (i as i128) > point + 8) {
            assert(digits[i as int] != '0');
            return None;
        }
        i = i + 1;
    }
    let ghost w = window(digits, point as int);
    let mut n: i64 = 0;
    let mut bound: i64 = 1;
    let mut k: usize = 0;
    assert(w.take(0) =~= Seq::empty());
    while k < 13
        invariant
            k <= 13,
            whole <= len,
            from + len <= chars.len(),
            whole < len ==> from + len + 1 <= chars.len(),
            -20 * FAR <= point <= 20 * FAR,
            digits == Seq::new(len as nat, |i: int| chars@[from + (if i < whole { i } else { i + 1 })]),
            forall|m: int| 0 <= m < len ==> is_digit(#[trigger] digits[m]),
            w == window(digits, point as int),
            n == digits_value(w.take(k as int)),
            0 <= n < bound,
            k == 0 ==> bound == 1,
            k == 1 ==> bound == 10,
            k == 2 ==> bound == 100,
            k == 3 ==> bound == 1_000,
            k == 4 ==> bound == 10_000,
            k == 5 ==> bound == 100_000,
            k == 6 ==> bound == 1_000_000,
            k == 7 ==> bound == 10_000_000,
            k == 8 ==> bound == 100_000_000,
            k == 9 ==> bound == 1_000_000_000,
            k == 10 ==> bound == 10_000_000_000,
            k == 11 ==> bound == 100_000_000_000,
            k == 12 ==> bound == 1_000_000_000_000,
            k == 13 ==> bound == 10_000_000_000_000,
        decreases 13 - k,
    {
        let at: i128 = point - 4 + k as i128;
        let c: char = if 0 <= at && at < len as i128 {
            digit_at(chars, from, whole, at as usize)
        } else {
            '0'
        };
        proof {
            let t = w.take(k + 1);
            assert(t.drop_last() =~= w.take(k as int));
            assert(t.last() == c);
            assert(0 <= at < len ==> c == digits[at as int]);
        }
        n = n * 10 + (c as u32 - 48) as i64;
        bound = bound * 10;
        k = k + 1;
    }
    assert(w.take(13) =~= w);
    if n > LIMIT {
        None
    } else {
        Some(n)
    }
}

/// A point too far away leaves no digit in reach.
proof fn lemma_far_point(digits: Seq<char>, a: int, b: int)
    requires
        digits.len() + 20 < FAR / 2,
        (a >= FAR / 2 && b >= FAR / 2) || (a <= -(FAR / 2) && b <= -(FAR / 2)),
    ensures
        billionths_of(digits, a) == billionths_of(digits, b),
{
    assert(window(digits, a) =~= window(digits, b));
    if exists|i: int| 0 <= i < digits.len() && !(a - 4 <= i <= a + 8) && #[trigger] digits[i] != '0' {
        let i = choose|i: int| 0 <= i < digits.len() && !(a - 4 <= i <= a + 8) && #[trigger] digits[i] != '0';
        assert(!(b - 4 <= i <= b + 8) && digits[i] != '0');
    }
    if exists|i: int| 0 <= i < digits.len() && !(b - 4 <= i <= b + 8) && #[trigger] digits[i] != '0' {
        let i = choose|i: int| 0 <= i < digits.len() && !(b - 4 <= i <= b + 8) && #[trigger] digits[i] != '0';
        assert(!(a - 4 <= i <= a + 8) && digits[i] != '0');
    }
}

/// Reads a number without sign into billionths.
fn read_unsigned_decimal(chars: &Vec<char>, from: usize, to: usize) -> (r: Option<i64>)
    requires
        from <= to <= chars.len(),
    ensures
        match r {
            Some(n) => unsigned_decimal(chars@.subrange(from as int, to as int)) == Some(n as int) && 0 <= n <= LIMIT,
            None => unsigned_decimal(chars@.subrange(from as int, to as int)) is None,
        },
{
    let ghost s = chars@.subrange(from as int, to as int);
    let e: usize = find_e(chars, from, to);
    let ghost mantissa = s.take(e - from);
    assert(chars@.subrange(from as int, e as int) =~= mantissa);
    let dot: usize = find_mark(chars, from, e, '.');
    let whole: usize = dot - from;
    let len: usize = if dot < e {
        e - from - 1
    } else {
        e - from
    };
    let ghost digits = Seq::new(len as nat, |i: int| chars@[from + (if i < whole { i } else { i + 1 })]);
    assert(digits =~= digits_of(mantissa));
    let mut point: i128 = whole as i128;
    if e < to {
        assert(chars@.subrange(e + 1, to as int) =~= s.skip(e - from + 1));
        match read_exponent(chars, e + 1, to) {
            None => {
                return None;
            },
            Some(x) => {
                proof {
                    let true_e = exponent_of(s.skip(e - from + 1))->0;
                    if x != true_e {
                        lemma_far_point(digits, whole + x, whole + true_e);
                    }
                }
                point = whole as i128 + x;
            },
        }
    }
    read_billionths(chars, from, whole, len, point)
}

/// Reads a decimal number of degrees into billionths.
pub fn read_decimal(chars: &Vec<char>, from: usize, to: usize) -> (r: Option<i64>)
    requires
        from <= to <= chars.len(),
    ensures
        match r {
            Some(n) => decimal(chars@.subrange(from as int, to as int)) == Some(n as int) && -LIMIT <= n <= LIMIT,
            None => decimal(chars@.subrange(from as int, to as int)) is None,
        },
{
    let ghost s = chars@.subrange(from as int, to as int);
    if from < to && (chars[from] == '-' || chars[from] == '+') {
        assert(chars@.subrange(from + 1, to as int) =~= s.skip(1));
        match read_unsigned_decimal(chars, from + 1, to) {
            Some(n) => {
                if chars[from] == '-' {
                    Some(-n)
                } else {
                    Some(n)
                }
            },
            None => None,
        }
    } else {
        read_unsigned_decimal(chars, from, to)
    }
}

/// A listed point: its place in billionths of a degree, and its basin.
#[derive(Debug, Clone, Copy, PartialEq, Eq)]
pub struct Point {
    pub lat: i64,
    pub lon: i64,
    pub basin: i16,
}

/// A line without the carriage return at its end.
pub open spec fn without_return(line: Seq<char>) -> Seq<char> {
    if line.len() > 0 && line.last() == '\r' {
        line.drop_last()
    } else {
        line
    }
}

/// The lines of a text. What follows the last line feed is a line unless it is empty.
pub open spec fn lines(s: Seq<char>) -> Seq<Seq<char>>
    decreases s.len(),
{
    let cut = first_mark(s, '\n');
    if s.len() == 0 {
        Seq::empty()
    } else if cut >= s.len() || cut < 0 {
        seq![s]
    } else {
        seq![without_return(s.take(cut))] + lines(s.skip(cut + 1))
    }
}

/// The rows of the table: the lines behind a comment and a header.
pub open spec fn rows(text: Seq<char>) -> Seq<Seq<char>> {
    behind_header(lines(text))
}

/// What stands in front of the first comma.
pub open spec fn field(s: Seq<char>) -> Seq<char> {
    s.take(first_mark(s, ','))
}

/// What stands behind the first comma.
pub open spec fn further(s: Seq<char>) -> Seq<char> {
    if first_mark(s, ',') < s.len() {
        s.skip(first_mark(s, ',') + 1)
    } else {
        Seq::empty()
    }
}

/// A longitude as the grid counts it: from 20 degrees on.
pub open spec fn wrapped(lon: int) -> int {
    if lon < 20 * DEGREE {
        lon + 360 * DEGREE
    } else {
        lon
    }
}

/// The point that a row lists: latitude, longitude and surface basin. Empty rows and rows without
/// a surface basin list none.
pub open spec fn row_point(row: Seq<char>) -> Result<Option<Point>, BasinError> {
    let second = further(row);
    let surface = trim(field(further(second)));
    if row.len() == 0 {
        Ok(None)
    } else {
        match decimal(trim(field(row))) {
            None => Err(BasinError::Lat),
            Some(lat) => if first_mark(row, ',') == row.len() {
                Err(BasinError::MissingLon)
            } else {
                match decimal(trim(field(second))) {
                    None => Err(BasinError::Lon),
                    Some(lon) => if surface.len() == 0 {
                        Ok(None)
                    } else {
                        match parse_int(surface, i16::MIN as int, i16::MAX as int) {
                            None => Err(BasinError::Basin),
                            Some(basin) => Ok(
                                Some(Point { lat: lat as i64, lon: wrapped(lon) as i64, basin: basin as i16 }),
                            ),
                        }
                    },
                }
            },
        }
    }
}

/// The points that rows list, in order.
pub open spec fn points_of(rows: Seq<Seq<char>>) -> Result<Seq<Point>, BasinError>
    decreases rows.len(),
{
    if rows.len() == 0 {
        Ok(Seq::empty())
    } else {
        match points_of(rows.drop_last()) {
            Err(x) => Err(x),
            Ok(points) => match row_point(rows.last()) {
                Err(x) => Err(x),
                Ok(None) => Ok(points),
                Ok(Some(p)) => Ok(points.push(p)),
            },
        }
    }
}

/// A fault among the first rows stays the fault of all.
pub proof fn lemma_first_fault(rows: Seq<Seq<char>>, k: int)
    requires
        0 <= k <= rows.len(),
        points_of(rows.take(k)) is Err,
    ensures
        points_of(rows) == points_of(rows.take(k)),
    decreases rows.len() - k,
{
    if k < rows.len() {
        assert(rows.take(k + 1).drop_last() =~= rows.take(k));
        lemma_first_fault(rows, k + 1);
    } else {
        assert(rows.take(k) =~= rows);
    }
}

/// Reads the point that a row lists.
fn read_row(chars: &Vec<char>, from: usize, to: usize) -> (r: Result<Option<Point>, BasinError>)
    requires
        from <= to <= chars.len(),
    ensures
        r == row_point(chars@.subrange(from as int, to as int)),
        r matches Ok(Some(p)) ==> in_reach(p),
{
    let ghost row = chars@.subrange(from as int, to as int);
    if from == to {
        return Ok(None);
    }
    let a: usize = find_mark(chars, from, to, ',');
    assert(chars@.subrange(from as int, a as int) =~= field(row));
    let (a0, a1) = trimmed(chars, from, a);
    let lat: i64 = match read_decimal(chars, a0, a1) {
        None => {
            return Err(BasinError::Lat);
        },
        Some(n) => n,
    };
    if a == to {
        return Err(BasinError::MissingLon);
    }
    let ghost second = further(row);
    assert(chars@.subrange(a + 1, to as int) =~= second);
    let b: usize = find_mark(chars, a + 1, to, ',');
    assert(chars@.subrange(a + 1, b as int) =~= field(second));
    let (b0, b1) = trimmed(chars, a + 1, b);
    let lon: i64 = match read_decimal(chars, b0, b1) {
        None => {
            return Err(BasinError::Lon);
        },
        Some(n) => n,
    };
    let start: usize = if b < to {
        b + 1
    } else {
        to
    };
    assert(chars@.subrange(start as int, to as int) =~= further(second));
    let c: usize = find_mark(chars, start, to, ',');
    assert(chars@.subrange(start as int, c as int) =~= field(further(second)));
    let (c0, c1) = trimmed(chars, start, c);
    if c0 == c1 {
        return Ok(None);
    }
    let basin: i64 = match read_int(chars, c0, c1, i16::MIN as i64, i16::MAX as i64) {
        None => {
            return Err(BasinError::Basin);
        },
        Some(n) => n,
    };
    let lon: i64 = if lon < 20 * DEGREE {
        lon + 360 * DEGREE
    } else {
        lon
    };
    Ok(Some(Point { lat, lon, basin: basin as i16 }))
}

/// The point's place is within the limit.
pub open spec fn in_reach(p: Point) -> bool {
    -LIMIT <= p.lat <= LIMIT && -LIMIT <= p.lon <= LIMIT
}

/// Finds the line at a place that is not the end: where it ends, and where the next one begins.
fn line_at(chars: &Vec<char>, pos: usize) -> (r: (usize, usize))
    requires
        pos < chars.len(),
    ensures
        pos <= r.0 <= r.1 <= chars.len(),
        pos < r.1,
        lines(chars@.skip(pos as int)) == seq![chars@.subrange(pos as int, r.0 as int)] + lines(chars@.skip(r.1 as int)),
{
    let ghost tail = chars@.skip(pos as int);
    let feed: usize = find_mark(chars, pos, chars.len(), '\n');
    assert(chars@.subrange(pos as int, chars.len() as int) =~= tail);
    if feed == chars.len() {
        proof {
            assert(chars@.skip(feed as int) =~= Seq::empty());
            assert(lines(tail) =~= seq![tail] + lines(chars@.skip(feed as int)));
        }
        return (feed, feed);
    }
    let end: usize = if feed > pos && chars[feed - 1] == '\r' {
        feed - 1
    } else {
        feed
    };
    proof {
        assert(chars@.subrange(pos as int, end as int) =~= without_return(tail.take(feed - pos)));
        assert(tail.skip(feed - pos + 1) =~= chars@.skip(feed + 1));
    }
    (end, feed + 1)
}

/// The lines behind a comment and a header.
pub open spec fn behind_header(all: Seq<Seq<char>>) -> Seq<Seq<char>> {
    if all.len() <= 2 {
        Seq::empty()
    } else {
        all.skip(2)
    }
}

/// One line more is one row more, once comment and header are past.
proof fn lemma_one_more(done: Seq<Seq<char>>, line: Seq<char>)
    ensures
        done.len() < 2 ==> behind_header(done.push(line)) == Seq::<Seq<char>>::empty(),
        done.len() >= 2 ==> behind_header(done.push(line)) == behind_header(done).push(line),
{
    assert(done.len() >= 2 ==> behind_header(done.push(line)) =~= behind_header(done).push(line));
}

/// The rows of the first lines are the first rows.
proof fn lemma_first_rows(done: Seq<Seq<char>>, rest: Seq<Seq<char>>)
    requires
        done.len() > 2,
    ensures
        behind_header(done + rest).take(done.len() - 2) == behind_header(done),
        done.len() - 2 <= behind_header(done + rest).len(),
{
    assert(behind_header(done + rest).take(done.len() - 2) =~= behind_header(done));
}

/// Reads the points that a table lists.
pub fn read_points(text: &str) -> (r: Result<Vec<Point>, BasinError>)
    ensures
        match r {
            Ok(points) => {
                &&& points_of(rows(text@)) == Ok::<Seq<Point>, BasinError>(points@)
                &&& forall|k: int| 0 <= k < points.len() ==> in_reach(#[trigger] points@[k])
            },
            Err(x) => points_of(rows(text@)) == Err::<Seq<Point>, BasinError>(x),
        },
{
    let chars: Vec<char> = chars_of(text);
    let mut points: Vec<Point> = Vec::new();
    let ghost mut done: Seq<Seq<char>> = Seq::empty();
    let mut count: usize = 0;
    let mut pos: usize = 0;
    assert(chars@.skip(0) =~= chars@);
    assert(done + lines(chars@) =~= lines(chars@));
    while pos < chars.len()
        invariant
            pos <= chars.len(),
            chars@ == text@,
            lines(text@) == done + lines(chars@.skip(pos as int)),
            count == (if done.len() <= 2 { done.len() as int } else { 2 }),
            points_of(behind_header(done)) == Ok::<Seq<Point>, BasinError>(points@),
            forall|k: int| 0 <= k < points.len() ==> in_reach(#[trigger] points@[k]),
        decreases chars.len() - pos,
    {
        let (end, next) = line_at(&chars, pos);
        let ghost line = chars@.subrange(pos as int, end as int);
        let ghost before = done;
        proof {
            done = done.push(line);
            assert(before + (seq![line] + lines(chars@.skip(next as int))) =~= done + lines(chars@.skip(next as int)));
            lemma_one_more(before, line);
        }
        if count >= 2 {
            assert(behind_header(done).drop_last() =~= behind_header(before));
            match read_row(&chars, pos, end) {
                Err(x) => {
                    proof {
                        lemma_first_rows(done, lines(chars@.skip(next as int)));
                        lemma_first_fault(rows(text@), done.len() - 2);
                    }
                    return Err(x);
                },
                Ok(Some(p)) => {
                    points.push(p);
                },
                Ok(None) => {},
            }
        } else {
            count = count + 1;
        }
        pos = next;
    }
    proof {
        assert(chars@.skip(pos as int) =~= Seq::empty());
        assert(done + lines(Seq::empty()) =~= done);
    }
    Ok(points)
}

/// The latitudes of points.
pub open spec fn lats(points: Seq<Point>) -> Seq<i64> {
    points.map_values(|p: Point| p.lat)
}

/// The longitudes of points.
pub open spec fn lons(points: Seq<Point>) -> Seq<i64> {
    points.map_values(|p: Point| p.lon)
}

/// The least of some numbers.
pub open spec fn least(s: Seq<i64>) -> i64
    decreases s.len(),
{
    if s.len() <= 1 {
        s[0]
    } else if s.last() < least(s.drop_last()) {
        s.last()
    } else {
        least(s.drop_last())
    }
}

/// The greatest of some numbers.
pub open spec fn greatest(s: Seq<i64>) -> i64
    decreases s.len(),
{
    if s.len() <= 1 {
        s[0]
    } else if s.last() > greatest(s.drop_last()) {
        s.last()
    } else {
        greatest(s.drop_last())
    }
}

/// The least and the greatest bound the numbers.
pub proof fn lemma_bounds(s: Seq<i64>, k: int)
    requires
        0 <= k < s.len(),
    ensures
        least(s) <= s[k] <= greatest(s),
    decreases s.len(),
{
    if s.len() > 1 && k < s.len() - 1 {
        lemma_bounds(s.drop_last(), k);
    } else if s.len() > 1 {
        lemma_bounds(s.drop_last(), 0);
    }
}

/// The lattice index of a coordinate: the nearest, the upper one halfway.
pub open spec fn index_of(x: int, low: int) -> int {
    (x - low + HALF) / (STEP as int)
}

/// The basin at a node of the lattice: that of the last point there.
pub open spec fn node(points: Seq<Point>, lat_min: int, lon_min: int, il: int, jl: int) -> i16
    decreases points.len(),
{
    if points.len() == 0 {
        EMPTY
    } else if index_of(points.last().lat as int, lat_min) == il && index_of(points.last().lon as int, lon_min) == jl {
        points.last().basin
    } else {
        node(points.drop_last(), lat_min, lon_min, il, jl)
    }
}

/// The points on a dense lattice.
#[derive(Debug, Clone)]
pub struct Lattice {
    /// Row by row; `EMPTY` where no point is listed.
    pub grid: Vec<i16>,
    pub lat_min: i64,
    pub lon_min: i64,
    pub nlat_l: usize,
    pub nlon_l: usize,
}

impl Lattice {
    /// The lattice has a node for every row and column and is not too large.
    pub open spec fn wf(&self) -> bool {
        &&& 0 < self.nlat_l <= 8001
        &&& 0 < self.nlon_l <= 8001
        &&& self.grid.len() == self.nlat_l * self.nlon_l
        &&& -LIMIT <= self.lat_min <= LIMIT
        &&& -LIMIT <= self.lon_min <= LIMIT
    }

    /// The basin at a node.
    pub open spec fn at(&self, il: int, jl: int) -> i16 {
        self.grid@[place(self.nlon_l as int, il, jl)]
    }

    /// The lattice spans the points and holds at each node the basin of the last point there.
    pub open spec fn represents(&self, points: Seq<Point>) -> bool {
        &&& self.wf()
        &&& self.lat_min == least(lats(points))
        &&& self.lon_min == least(lons(points))
        &&& self.nlat_l == index_of(greatest(lats(points)) as int, self.lat_min as int) + 1
        &&& self.nlon_l == index_of(greatest(lons(points)) as int, self.lon_min as int) + 1
        &&& forall|il: int, jl: int|
            0 <= il < self.nlat_l && 0 <= jl < self.nlon_l ==> #[trigger] self.at(il, jl) == node(
                points,
                self.lat_min as int,
                self.lon_min as int,
                il,
                jl,
            )
    }

    /// Reads the basin at a node.
    pub fn idx(&self, il: usize, jl: usize) -> (r: i16)
        requires
            self.wf(),
            il < self.nlat_l,
            jl < self.nlon_l,
        ensures
            r == self.at(il as int, jl as int),
    {
        proof {
            lemma_place(self.nlat_l as int, self.nlon_l as int, il as int, jl as int);
            assert(il * self.nlon_l >= 0) by (nonlinear_arith)
                requires
                    il >= 0,
                    self.nlon_l >= 0,
            ;
        }
        self.grid[il * self.nlon_l + jl]
    }
}

/// The bounds of some points, which are not none.
struct Bounds {
    lat_min: i64,
    lat_max: i64,
    lon_min: i64,
    lon_max: i64,
}

/// Finds the bounds of points.
fn bounds_of(points: &Vec<Point>) -> (r: Bounds)
    requires
        points.len() > 0,
        forall|k: int| 0 <= k < points.len() ==> in_reach(#[trigger] points@[k]),
    ensures
        r.lat_min == least(lats(points@)),
        r.lat_max == greatest(lats(points@)),
        r.lon_min == least(lons(points@)),
        r.lon_max == greatest(lons(points@)),
        -LIMIT <= r.lat_min <= r.lat_max <= LIMIT,
        -LIMIT <= r.lon_min <= r.lon_max <= LIMIT,
{
    let first: Point = points[0];
    let mut b = Bounds { lat_min: first.lat, lat_max: first.lat, lon_min: first.lon, lon_max: first.lon };
    let ghost (ys, xs) = (lats(points@), lons(points@));
    proof {
        assert(in_reach(points@[0]));
        assert(ys.take(1)[0] == first.lat && xs.take(1)[0] == first.lon);
    }
    let mut k: usize = 1;
    while k < points.len()
        invariant
            1 <= k <= points.len(),
            ys == lats(points@),
            xs == lons(points@),
            b.lat_min == least(ys.take(k as int)),
            b.lat_max == greatest(ys.take(k as int)),
            b.lon_min == least(xs.take(k as int)),
            b.lon_max == greatest(xs.take(k as int)),
            -LIMIT <= b.lat_min <= b.lat_max <= LIMIT,
            -LIMIT <= b.lon_min <= b.lon_max <= LIMIT,
            forall|m: int| 0 <= m < points.len() ==> in_reach(#[trigger] points@[m]),
        decreases points.len() - k,
    {
        let p: Point = points[k];
        proof {
            assert(in_reach(points@[k as int]));
            assert(ys.take(k + 1).drop_last() =~= ys.take(k as int));
            assert(xs.take(k + 1).drop_last() =~= xs.take(k as int));
            assert(ys.take(k + 1).last() == p.lat && xs.take(k + 1).last() == p.lon);
        }
        if p.lat < b.lat_min {
            b.lat_min = p.lat;
        }
        if p.lat > b.lat_max {
            b.lat_max = p.lat;
        }
        if p.lon < b.lon_min {
            b.lon_min = p.lon;
        }
        if p.lon > b.lon_max {
            b.lon_max = p.lon;
        }
        k = k + 1;
    }
    proof {
        assert(ys.take(k as int) =~= ys);
        assert(xs.take(k as int) =~= xs);
    }
    b
}

/// Puts points, which are not none, on a lattice.
pub fn lattice_of(points: &Vec<Point>) -> (r: Lattice)
    requires
        points.len() > 0,
        forall|k: int| 0 <= k < points.len() ==> in_reach(#[trigger] points@[k]),
    ensures
        r.represents(points@),
{
    let b = bounds_of(points);
    let (lat_min, lon_min) = (b.lat_min, b.lon_min);
    let nlat_l: usize = ((b.lat_max - lat_min + HALF) / STEP) as usize + 1;
    let nlon_l: usize = ((b.lon_max - lon_min + HALF) / STEP) as usize + 1;
    let mut table: Grid2<i16> = {
        proof {
            assert(nlat_l * nlon_l <= 8001 * 8001) by (nonlinear_arith)
                requires
                    0 <= nlat_l <= 8001,
                    0 <= nlon_l <= 8001,
            ;
        }
        Grid2::filled(nlat_l, nlon_l, EMPTY)
    };
    let mut k: usize = 0;
    assert(points@.take(0) =~= Seq::empty());
    while k < points.len()
        invariant
            k <= points.len(),
            lat_min == least(lats(points@)),
            lon_min == least(lons(points@)),
            nlat_l == index_of(greatest(lats(points@)) as int, lat_min as int) + 1,
            nlon_l == index_of(greatest(lons(points@)) as int, lon_min as int) + 1,
            -LIMIT <= lat_min <= LIMIT,
            -LIMIT <= lon_min <= LIMIT,
            table.shaped(nlat_l as int, nlon_l as int),
            forall|m: int| 0 <= m < points.len() ==> in_reach(#[trigger] points@[m]),
            forall|il: int, jl: int|
                0 <= il < nlat_l && 0 <= jl < nlon_l ==> #[trigger] table.at(il, jl) == node(
                    points@.take(k as int),
                    lat_min as int,
                    lon_min as int,
                    il,
                    jl,
                ),
        decreases points.len() - k,
    {
        let p: Point = points[k];
        proof {
            assert(in_reach(points@[k as int]));
            lemma_bounds(lats(points@), k as int);
            lemma_bounds(lons(points@), k as int);
            assert(points@.take(k + 1).drop_last() =~= points@.take(k as int));
            assert(points@.take(k + 1).last() == p);
        }
        let il: usize = ((p.lat - lat_min + HALF) / STEP) as usize;
        let jl: usize = ((p.lon - lon_min + HALF) / STEP) as usize;
        table.set(il, jl, p.basin);
        k = k + 1;
    }
    assert(points@.take(k as int) =~= points@);
    let r = Lattice { grid: table.cells, lat_min, lon_min, nlat_l, nlon_l };
    proof {
        assert forall|il: int, jl: int| 0 <= il < nlat_l && 0 <= jl < nlon_l implies #[trigger] r.at(il, jl) == node(
            points@,
            lat_min as int,
            lon_min as int,
            il,
            jl,
        ) by {
            assert(table.at(il, jl) == r.at(il, jl));
        }
    }
    r
}

/// Reads a table into a lattice. A latitude or longitude has to be a whole number of billionths of a
/// degree, of at most a thousand degrees: one with more decimals, such as `0.1234567891`, or one that
/// is infinite or no number, is refused.
pub fn build_lattice(text: &str) -> (r: Result<Lattice, BasinError>)
    ensures
        match points_of(rows(text@)) {
            Err(x) => r == Err::<Lattice, BasinError>(x),
            Ok(points) => if points.len() == 0 {
                r == Err::<Lattice, BasinError>(BasinError::NoRows)
            } else {
                r matches Ok(l) && l.represents(points)
            },
        },
{
    match read_points(text) {
        Err(x) => Err(x),
        Ok(points) => {
            if points.len() == 0 {
                Err(BasinError::NoRows)
            } else {
                Ok(lattice_of(&points))
            }
        },
    }
}

/// The node index nearest to a coordinate, the outer one halfway. The lattice is thought to go on.
pub open spec fn center(q: int, low: int) -> int {
    if q >= low {
        (q - low + HALF) / (STEP as int)
    } else {
        -((low - q + HALF) / (STEP as int))
    }
}

/// A square.
pub open spec fn square(x: int) -> int {
    x * x
}

/// The larger of two distances along the axes.
pub open spec fn ring(di: int, dj: int) -> int {
    let (a, b) = (if di < 0 {
        -di
    } else {
        di
    }, if dj < 0 {
        -dj
    } else {
        dj
    });
    if a < b {
        b
    } else {
        a
    }
}

/// Around a center, nodes come ring by ring, and on a ring row by row.
pub open spec fn earlier(c: (int, int), a: (int, int), b: (int, int)) -> bool {
    let (ra, rb) = (ring(a.0 - c.0, a.1 - c.1), ring(b.0 - c.0, b.1 - c.1));
    ra < rb || (ra == rb && (a.0 < b.0 || (a.0 == b.0 && a.1 < b.1)))
}

impl Lattice {
    /// The square of the distance from a place to a node, in square billionths of a degree.
    pub open spec fn distance2(&self, qlat: int, qlon: int, n: (int, int)) -> int {
        square(self.lat_min + n.0 * STEP - qlat) + square(self.lon_min + n.1 * STEP - qlon)
    }

    /// The node index around which a place is looked up.
    pub open spec fn center_of(&self, qlat: int, qlon: int) -> (int, int) {
        (center(qlat, self.lat_min as int), center(qlon, self.lon_min as int))
    }

    /// A point is listed at the node.
    pub open spec fn filled(&self, n: (int, int)) -> bool {
        0 <= n.0 < self.nlat_l && 0 <= n.1 < self.nlon_l && self.at(n.0, n.1) != EMPTY
    }

    /// The first node is nearer than the second or, where both are as near, comes earlier.
    pub open spec fn beats(&self, qlat: int, qlon: int, a: (int, int), b: (int, int)) -> bool {
        let (x, y) = (self.distance2(qlat, qlon, a), self.distance2(qlat, qlon, b));
        x < y || (x == y && earlier(self.center_of(qlat, qlon), a, b))
    }

    /// The node is the nearest that is filled.
    pub open spec fn is_nearest(&self, qlat: int, qlon: int, n: (int, int)) -> bool {
        &&& self.filled(n)
        &&& forall|m: (int, int)| #[trigger] self.filled(m) && m != n ==> self.beats(qlat, qlon, n, m)
    }

    /// The node comes before the place `(r, di, dj)` of the search.
    spec fn seen(&self, c: (int, int), r: int, di: int, dj: int, n: (int, int)) -> bool {
        let (a, b) = (n.0 - c.0, n.1 - c.1);
        ring(a, b) < r || (ring(a, b) == r && (a < di || (a == di && b < dj)))
    }

    /// The best node so far.
    spec fn best_so_far(
        &self,
        qlat: int,
        qlon: int,
        r: int,
        di: int,
        dj: int,
        best: Option<(i64, i64, i128)>,
    ) -> bool {
        let c = self.center_of(qlat, qlon);
        match best {
            None => forall|n: (int, int)| #[trigger] self.filled(n) ==> !self.seen(c, r, di, dj, n),
            Some((il, jl, d2)) => {
                let b = (il as int, jl as int);
                &&& self.filled(b)
                &&& self.seen(c, r, di, dj, b)
                &&& d2 == self.distance2(qlat, qlon, b)
                &&& forall|n: (int, int)|
                    #[trigger] self.filled(n) && self.seen(c, r, di, dj, n) && n != b ==> self.beats(qlat, qlon, b, n)
            },
        }
    }
}

/// A coordinate is within half a spacing of its center.
proof fn lemma_center(q: int, low: int)
    ensures
        -HALF <= q - (low + center(q, low) * STEP) <= HALF,
{
}

/// Squares grow with the size.
proof fn lemma_square_orders(a: int, b: int)
    requires
        b >= 0,
    ensures
        a >= b || a <= -b ==> square(a) >= square(b),
        -b <= a <= b ==> square(a) <= square(b),
        square(a) >= 0,
{
    assert(a >= b ==> a * a >= b * b) by (nonlinear_arith)
        requires
            b >= 0,
    ;
    assert(a <= -b ==> a * a >= b * b) by (nonlinear_arith)
        requires
            b >= 0,
    ;
    assert(-b <= a <= b ==> a * a <= b * b) by (nonlinear_arith)
        requires
            b >= 0,
    ;
    assert(a * a >= 0) by (nonlinear_arith);
}

impl Lattice {
    /// Nodes beyond a ring are at least so far away.
    proof fn lemma_far(&self, qlat: int, qlon: int, n: (int, int), r: int)
        requires
            r >= 0,
            ({
                let c = self.center_of(qlat, qlon);
                ring(n.0 - c.0, n.1 - c.1) > r
            }),
        ensures
            self.distance2(qlat, qlon, n) >= square((2 * r + 1) * HALF),
    {
        let c = self.center_of(qlat, qlon);
        lemma_center(qlat, self.lat_min as int);
        lemma_center(qlon, self.lon_min as int);
        let (y, x) = (self.lat_min + n.0 * STEP - qlat, self.lon_min + n.1 * STEP - qlon);
        let b = (2 * r + 1) * HALF;
        lemma_square_orders(y, b);
        lemma_square_orders(x, b);
    }

    /// Nodes within a ring are at most so far away.
    proof fn lemma_near(&self, qlat: int, qlon: int, n: (int, int), r: int)
        requires
            r >= 0,
            ({
                let c = self.center_of(qlat, qlon);
                ring(n.0 - c.0, n.1 - c.1) <= r
            }),
        ensures
            self.distance2(qlat, qlon, n) <= 2 * square((2 * r + 1) * HALF),
    {
        let c = self.center_of(qlat, qlon);
        lemma_center(qlat, self.lat_min as int);
        lemma_center(qlon, self.lon_min as int);
        let (y, x) = (self.lat_min + n.0 * STEP - qlat, self.lon_min + n.1 * STEP - qlon);
        let b = (2 * r + 1) * HALF;
        lemma_square_orders(y, b);
        lemma_square_orders(x, b);
    }

    /// Looks at one node, where there is one.
    fn look_at(
        &self,
        qlat: i64,
        qlon: i64,
        ci: i64,
        cj: i64,
        r: i64,
        di: i64,
        dj: i64,
        best: Option<(i64, i64, i128)>,
    ) -> (new: Option<(i64, i64, i128)>)
        requires
            self.wf(),
            -LIMIT <= qlat <= LIMIT,
            -LIMIT <= qlon <= LIMIT,
            (ci as int, cj as int) == self.center_of(qlat as int, qlon as int),
            -10_000 <= ci <= 10_000,
            -10_000 <= cj <= 10_000,
            0 <= r <= 100_000,
            -r <= di <= r,
            -r <= dj <= r,
            self.best_so_far(qlat as int, qlon as int, r as int, di as int, dj as int, best),
        ensures
            self.best_so_far(qlat as int, qlon as int, r as int, di as int, dj + 1, new),
    {
        let ghost (y, x) = (qlat as int, qlon as int);
        let ghost c = self.center_of(y, x);
        let ghost here = (ci + di, cj + dj);
        proof {
            assert forall|n: (int, int)| #[trigger]
                self.filled(n) implies (self.seen(c, r as int, di as int, dj + 1, n) <==> (self.seen(
                c,
                r as int,
                di as int,
                dj as int,
                n,
            ) || (n == here && ring(di as int, dj as int) == r))) by {}
        }
        if di != r && di != -r && dj != r && dj != -r {
            assert(ring(di as int, dj as int) < r);
            return best;
        }
        assert(ring(di as int, dj as int) == r);
        let (il, jl) = (ci + di, cj + dj);
        if il < 0 || jl < 0 || il >= self.nlat_l as i64 || jl >= self.nlon_l as i64 {
            assert(!self.filled(here));
            return best;
        }
        if self.idx(il as usize, jl as usize) == EMPTY {
            assert(!self.filled(here));
            return best;
        }
        assert(self.filled(here));
        let north: i64 = self.lat_min + il * STEP - qlat;
        let east: i64 = self.lon_min + jl * STEP - qlon;
        proof {
            lemma_square_orders(north as int, 5_000_000_000_000);
            lemma_square_orders(east as int, 5_000_000_000_000);
            assert(square(5_000_000_000_000) == 25_000_000_000_000_000_000_000_000) by (nonlinear_arith);
        }
        let d2: i128 = north as i128 * north as i128 + east as i128 * east as i128;
        assert(d2 == self.distance2(y, x, here));
        match best {
            Some((bi, bj, bd)) => {
                let ghost b = (bi as int, bj as int);
                assert(self.filled(b));
                assert(earlier(c, b, here));
                if d2 < bd {
                    Some((il, jl, d2))
                } else {
                    best
                }
            },
            None => Some((il, jl, d2)),
        }
    }

    /// Looks at one ring of nodes.
    fn look_round(&self, qlat: i64, qlon: i64, ci: i64, cj: i64, r: i64, best: Option<(i64, i64, i128)>) -> (new: Option<
        (i64, i64, i128),
    >)
        requires
            self.wf(),
            -LIMIT <= qlat <= LIMIT,
            -LIMIT <= qlon <= LIMIT,
            (ci as int, cj as int) == self.center_of(qlat as int, qlon as int),
            -10_000 <= ci <= 10_000,
            -10_000 <= cj <= 10_000,
            0 <= r <= 100_000,
            self.best_so_far(qlat as int, qlon as int, r as int, -r, -r, best),
        ensures
            self.best_so_far(qlat as int, qlon as int, r + 1, -(r + 1), -(r + 1), new),
    {
        let mut new: Option<(i64, i64, i128)> = best;
        let mut di: i64 = -r;
        let ghost c = self.center_of(qlat as int, qlon as int);
        while di <= r
            invariant
                self.wf(),
                -LIMIT <= qlat <= LIMIT,
                -LIMIT <= qlon <= LIMIT,
                (ci as int, cj as int) == self.center_of(qlat as int, qlon as int),
                c == self.center_of(qlat as int, qlon as int),
                -10_000 <= ci <= 10_000,
                -10_000 <= cj <= 10_000,
                0 <= r <= 100_000,
                -r <= di <= r + 1,
                self.best_so_far(qlat as int, qlon as int, r as int, di as int, -r, new),
            decreases r + 1 - di,
        {
            let mut dj: i64 = -r;
            while dj <= r
                invariant
                    self.wf(),
                    -LIMIT <= qlat <= LIMIT,
                    -LIMIT <= qlon <= LIMIT,
                    (ci as int, cj as int) == self.center_of(qlat as int, qlon as int),
                    -10_000 <= ci <= 10_000,
                    -10_000 <= cj <= 10_000,
                    0 <= r <= 100_000,
                    -r <= di <= r,
                    -r <= dj <= r + 1,
                    self.best_so_far(qlat as int, qlon as int, r as int, di as int, dj as int, new),
                decreases r + 1 - dj,
            {
                new = self.look_at(qlat, qlon, ci, cj, r, di, dj, new);
                dj = dj + 1;
            }
            proof {
                assert forall|n: (int, int)| #[trigger] self.filled(n) implies (self.seen(
                    c,
                    r as int,
                    di as int,
                    r + 1,
                    n,
                ) <==> self.seen(c, r as int, di + 1, -r, n)) by {}
                self.lemma_same_seen(qlat as int, qlon as int, (r as int, di as int, r + 1), (r as int, di + 1, -r as int), new);
            }
            di = di + 1;
        }
        proof {
            assert forall|n: (int, int)| #[trigger] self.filled(n) implies (self.seen(c, r as int, r + 1, -r, n)
                <==> self.seen(c, r + 1, -(r + 1), -(r + 1), n)) by {}
            self.lemma_same_seen(
                qlat as int,
                qlon as int,
                (r as int, r + 1, -r as int),
                (r + 1, -(r + 1), -(r + 1)),
                new,
            );
        }
        new
    }

    /// The best node so far depends on which nodes were seen, not on how that is said.
    proof fn lemma_same_seen(
        &self,
        qlat: int,
        qlon: int,
        p: (int, int, int),
        q: (int, int, int),
        best: Option<(i64, i64, i128)>,
    )
        requires
            self.best_so_far(qlat, qlon, p.0, p.1, p.2, best),
            forall|n: (int, int)| #[trigger]
                self.filled(n) ==> (self.seen(self.center_of(qlat, qlon), p.0, p.1, p.2, n) <==> self.seen(
                    self.center_of(qlat, qlon),
                    q.0,
                    q.1,
                    q.2,
                    n,
                )),
        ensures
            self.best_so_far(qlat, qlon, q.0, q.1, q.2, best),
    {
    }

    /// The basin of the nearest point listed: an expanding search, ring by ring, that stops once no
    /// further ring can hold a nearer node.
    pub fn nearest(&self, qlat: i64, qlon: i64) -> (basin: i16)
        requires
            self.wf(),
            -LIMIT <= qlat <= LIMIT,
            -LIMIT <= qlon <= LIMIT,
            exists|n: (int, int)| self.filled(n),
        ensures
            exists|n: (int, int)|
                #[trigger] self.is_nearest(qlat as int, qlon as int, n) && basin == self.at(n.0, n.1),
    {
        let ghost (y, x) = (qlat as int, qlon as int);
        let ghost c = self.center_of(y, x);
        let ci: i64 = if qlat >= self.lat_min {
            (qlat - self.lat_min + HALF) / STEP
        } else {
            -((self.lat_min - qlat + HALF) / STEP)
        };
        let cj: i64 = if qlon >= self.lon_min {
            (qlon - self.lon_min + HALF) / STEP
        } else {
            -((self.lon_min - qlon + HALF) / STEP)
        };
        let ghost w = choose|n: (int, int)| self.filled(n);
        let ghost r0 = ring(w.0 - c.0, w.1 - c.1);
        let mut best: Option<(i64, i64, i128)> = None;
        let mut r: i64 = 0;
        loop
            invariant
                self.wf(),
                -LIMIT <= qlat <= LIMIT,
                -LIMIT <= qlon <= LIMIT,
                y == qlat,
                x == qlon,
                c == self.center_of(y, x),
                (ci as int, cj as int) == c,
                -10_000 <= ci <= 10_000,
                -10_000 <= cj <= 10_000,
                self.filled(w),
                r0 == ring(w.0 - c.0, w.1 - c.1),
                0 <= r0 <= 20_000,
                0 <= r <= 2 * r0 + 1,
                self.best_so_far(y, x, r as int, -r, -r, best),
            decreases 2 * r0 + 2 - r,
        {
            best = self.look_round(qlat, qlon, ci, cj, r, best);
            let ghost far = square((2 * r + 1) * HALF);
            proof {
                lemma_square_orders((2 * r + 1) * HALF, 50_000_000_000_000);
                assert(square(50_000_000_000_000) == 2_500_000_000_000_000_000_000_000_000) by (nonlinear_arith);
            }
            let reach: i128 = ((2 * r + 1) * HALF) as i128 * ((2 * r + 1) * HALF) as i128;
            match best {
                Some((il, jl, d2)) => {
                    if reach > d2 {
                        proof {
                            let b = (il as int, jl as int);
                            assert forall|m: (int, int)| #[trigger]
                                self.filled(m) && m != b implies self.beats(y, x, b, m) by {
                                if !self.seen(c, r + 1, -(r + 1), -(r + 1), m) {
                                    assert(ring(m.0 - c.0, m.1 - c.1) > r);
                                    self.lemma_far(y, x, m, r as int);
                                }
                            }
                            assert(self.is_nearest(y, x, b));
                        }
                        return self.idx(il as usize, jl as usize);
                    }
                    proof {
                        if r == 2 * r0 + 1 {
                            let b = (il as int, jl as int);
                            assert(self.seen(c, r + 1, -(r + 1), -(r + 1), w));
                            self.lemma_near(y, x, w, r0);
                            assert(d2 <= self.distance2(y, x, w));
                            let (t, u) = ((2 * r0 + 1) * HALF, (2 * r + 1) * HALF);
                            assert(u * u > 2 * (t * t)) by (nonlinear_arith)
                                requires
                                    u >= 2 * t,
                                    t > 0,
                            ;
                        }
                    }
                },
                None => {
                    proof {
                        if r >= r0 {
                            assert(self.seen(c, r + 1, -(r + 1), -(r + 1), w));
                        }
                    }
                },
            }
            r = r + 1;
        }
    }
}

/// A coordinate in billionths of a degree, where it is a whole number of them and within the limit.
pub open spec fn billionths(bits: u64) -> Option<int> {
    let p = units(bits) * DEGREE;
    if finite(bits) && p % one() == 0 && -LIMIT <= p / one() <= LIMIT {
        Some(p / one())
    } else {
        None
    }
}

/// A division with a remainder, and the division of the negated number.
pub proof fn lemma_division(p: int, d: int, q: int, r: int)
    requires
        p == q * d + r,
        0 <= r < d,
    ensures
        p % d == r,
        p / d == q,
        (-p) % d == 0 <==> r == 0,
        r == 0 ==> (-p) / d == -q,
{
    assert(q * d == d * q) by (nonlinear_arith);
    vstd::arithmetic::div_mod::lemma_fundamental_div_mod_converse(p, d, q, r);
    if r == 0 {
        assert(-p == d * (-q)) by (nonlinear_arith)
            requires
                p == d * q,
        ;
        vstd::arithmetic::div_mod::lemma_fundamental_div_mod_converse(-p, d, -q, 0);
    } else {
        assert(-p == d * (-q - 1) + (d - r)) by (nonlinear_arith)
            requires
                p == d * q + r,
        ;
        vstd::arithmetic::div_mod::lemma_fundamental_div_mod_converse(-p, d, -q - 1, d - r);
    }
}

/// Reads a coordinate in billionths of a degree.
pub fn coordinate(bits: u64) -> (r: Option<i64>)
    ensures
        match r {
            Some(n) => billionths(bits) == Some(n as int) && -LIMIT <= n <= LIMIT,
            None => billionths(bits) is None,
        },
{
    if !is_finite(bits) {
        return None;
    }
    let (m, x) = parts(bits);
    let p: u128 = m as u128 * DEGREE as u128;
    let ghost total = magnitude(bits) * DEGREE;
    let ghost (a, b) = (pow2(x as nat) as int, one());
    proof {
        vstd::arithmetic::power2::lemma_pow2_pos(x as nat);
        vstd::arithmetic::power2::lemma_pow2_pos(1074);
        assert(total == p * a) by (nonlinear_arith)
            requires
                total == (m * a) * DEGREE,
                p == m * DEGREE,
        ;
        assert(units(bits) == magnitude(bits) ==> units(bits) * DEGREE == total);
        assert(units(bits) == -magnitude(bits) ==> units(bits) * DEGREE == -total);
    }
    if x > 1074 {
        proof {
            let e = (x - 1074) as nat;
            vstd::arithmetic::power2::lemma_pow2_adds(e, 1074);
            vstd::arithmetic::power2::lemma_pow2_pos(e);
            let c = pow2(e) as int;
            let q = p * c;
            assert(p * a == q * b + 0) by (nonlinear_arith)
                requires
                    a == c * b,
                    q == p * c,
            ;
            assert(q >= p) by (nonlinear_arith)
                requires
                    q == p * c,
                    c >= 1,
                    p >= 0,
            ;
            lemma_division(total, b, q, 0);
        }
        return None;
    }
    let s: u32 = (1074 - x) as u32;
    let ghost w = pow2(s as nat) as int;
    proof {
        vstd::arithmetic::power2::lemma_pow2_adds(x as nat, s as nat);
        vstd::arithmetic::power2::lemma_pow2_pos(s as nat);
        assert(b == a * w);
    }
    if s > 100 {
        proof {
            vstd::arithmetic::power2::lemma_pow2_strictly_increases(100, s as nat);
            assert(pow2(100) == 0x10_0000_0000_0000_0000_0000_0000) by {
                vstd::arithmetic::power2::lemma2_to64();
                vstd::arithmetic::power2::lemma2_to64_rest();
                vstd::arithmetic::power2::lemma_pow2_adds(64, 36);
            }
            assert(p * a == 0 * b + p * a);
            assert(0 <= p * a < a * w) by (nonlinear_arith)
                requires
                    0 <= p < w,
                    a > 0,
            ;
            lemma_division(total, b, 0, p * a);
            if p > 0 {
                assert(p * a > 0) by (nonlinear_arith)
                    requires
                        p > 0,
                        a > 0,
                ;
            }
        }
        if m == 0 {
            assert(p * a == 0) by (nonlinear_arith)
                requires
                    p == 0,
            ;
            return Some(0);
        }
        return None;
    }
    let scale: u128 = two_to(s);
    let (q, rem) = (p / scale, p % scale);
    proof {
        vstd::arithmetic::div_mod::lemma_fundamental_div_mod(p as int, w);
        assert(w * q == q * w) by (nonlinear_arith);
        assert(p * a == q * (a * w) + rem * a) by (nonlinear_arith)
            requires
                p == q * w + rem,
        ;
        assert(0 <= rem * a < a * w) by (nonlinear_arith)
            requires
                0 <= rem < w,
                a > 0,
        ;
        lemma_division(total, b, q as int, rem * a);
        if rem > 0 {
            assert(rem * a > 0) by (nonlinear_arith)
                requires
                    rem > 0,
                    a > 0,
            ;
        } else {
            assert(rem * a == 0) by (nonlinear_arith)
                requires
                    rem == 0,
            ;
        }
    }
    if rem != 0 || q > LIMIT as u128 {
        return None;
    }
    if bits >= SIGN_WEIGHT {
        Some(-(q as i64))
    } else {
        Some(q as i64)
    }
}

/// The basin of a cell: that of the nearest point listed. Where every listed basin is `EMPTY` it
/// is 0.
pub open spec fn is_cell_basin(l: Lattice, qlat: int, qlon: int, basin: i16) -> bool {
    if exists|n: (int, int)| l.filled(n) {
        exists|n: (int, int)| #[trigger] l.is_nearest(qlat, qlon, n) && basin == l.at(n.0, n.1)
    } else {
        basin == 0
    }
}

/// Some coordinate of the grid is no whole number of billionths.
pub open spec fn off_raster(coords: Seq<u64>) -> bool {
    exists|k: int| 0 <= k < coords.len() && (#[trigger] billionths(coords[k])) is None
}

/// Reads coordinates in billionths of a degree.
fn coordinates(coords: &Vec<u64>) -> (r: Option<Vec<i64>>)
    ensures
        match r {
            Some(v) => {
                &&& !off_raster(coords@)
                &&& v.len() == coords.len()
                &&& forall|k: int|
                    0 <= k < v.len() ==> billionths(coords@[k]) == Some(#[trigger] v@[k] as int) && -LIMIT <= v@[k] <= LIMIT
            },
            None => off_raster(coords@),
        },
{
    let mut v: Vec<i64> = Vec::new();
    let mut k: usize = 0;
    while k < coords.len()
        invariant
            k <= coords.len(),
            v.len() == k,
            forall|m: int|
                0 <= m < k ==> billionths(coords@[m]) == Some(#[trigger] v@[m] as int) && -LIMIT <= v@[m] <= LIMIT,
        decreases coords.len() - k,
    {
        match coordinate(coords[k]) {
            Some(n) => {
                v.push(n);
            },
            None => {
                assert(billionths(coords@[k as int]) is None);
                return None;
            },
        }
        k = k + 1;
    }
    proof {
        assert forall|m: int| 0 <= m < coords.len() implies (#[trigger] billionths(coords@[m])) is Some by {
            assert(billionths(coords@[m]) == Some(v@[m] as int));
        }
    }
    Some(v)
}

impl Lattice {
    /// Whether any node is filled.
    fn any_filled(&self) -> (r: bool)
        requires
            self.wf(),
        ensures
            r == exists|n: (int, int)| self.filled(n),
    {
        let mut k: usize = 0;
        while k < self.grid.len()
            invariant
                self.wf(),
                k <= self.grid.len(),
                forall|m: int| 0 <= m < k ==> self.grid@[m] == EMPTY,
            decreases self.grid.len() - k,
        {
            if self.grid[k] != EMPTY {
                proof {
                    let (nrow, ncol) = (self.nlat_l as int, self.nlon_l as int);
                    lemma_cell_of(nrow, ncol, k as int);
                    assert(self.filled((k as int / ncol, k as int % ncol)));
                }
                return true;
            }
            k = k + 1;
        }
        proof {
            assert forall|n: (int, int)| !self.filled(n) by {
                if 0 <= n.0 < self.nlat_l && 0 <= n.1 < self.nlon_l {
                    lemma_place(self.nlat_l as int, self.nlon_l as int, n.0, n.1);
                }
            }
        }
        false
    }

    /// The basin of each of a row of cells.
    fn row_of(&self, qlat: i64, lons: &Vec<i64>, filled: bool, out: &mut Vec<i16>)
        requires
            self.wf(),
            -LIMIT <= qlat <= LIMIT,
            forall|k: int| 0 <= k < lons.len() ==> -LIMIT <= #[trigger] lons@[k] <= LIMIT,
            filled == exists|n: (int, int)| self.filled(n),
        ensures
            final(out).len() == old(out).len() + lons.len(),
            forall|k: int| 0 <= k < old(out).len() ==> final(out)@[k] == old(out)@[k],
            forall|i: int|
                0 <= i < lons.len() ==> is_cell_basin(
                    *self,
                    qlat as int,
                    lons@[i] as int,
                    #[trigger] final(out)@[old(out).len() + i],
                ),
    {
        let ghost before = out@;
        let mut i: usize = 0;
        while i < lons.len()
            invariant
                i <= lons.len(),
                self.wf(),
                -LIMIT <= qlat <= LIMIT,
                forall|k: int| 0 <= k < lons.len() ==> -LIMIT <= #[trigger] lons@[k] <= LIMIT,
                filled == exists|n: (int, int)| self.filled(n),
                before == old(out)@,
                out.len() == before.len() + i,
                forall|k: int| 0 <= k < before.len() ==> out@[k] == before[k],
                forall|a: int|
                    0 <= a < i ==> is_cell_basin(
                        *self,
                        qlat as int,
                        lons@[a] as int,
                        #[trigger] out@[before.len() + a],
                    ),
            decreases lons.len() - i,
        {
            if filled {
                out.push(self.nearest(qlat, lons[i]));
            } else {
                out.push(0);
            }
            i = i + 1;
        }
    }
}

/// Assigns a basin to every cell of a grid, given the text of a table. The coordinates of the table
/// and of the grid have to be whole numbers of billionths of a degree, of at most a thousand degrees.
/// The half degrees of the mapping grid are; the double nearest to `0.1`, say, is not, and is refused.
pub fn read_basin_id(text: &str, grid: &GridDef) -> (r: Result<Grid2<i16>, BasinError>)
    ensures
        match points_of(rows(text@)) {
            Err(x) => r == Err::<Grid2<i16>, BasinError>(x),
            Ok(points) => if points.len() == 0 {
                r == Err::<Grid2<i16>, BasinError>(BasinError::NoRows)
            } else if off_raster(grid.lat@) || off_raster(grid.lon@) {
                r == Err::<Grid2<i16>, BasinError>(BasinError::Coordinate)
            } else {
                &&& r matches Ok(g)
                &&& g.shaped(grid.lat.len() as int, grid.lon.len() as int)
                &&& exists|l: Lattice|
                    #[trigger] l.represents(points) && forall|j: int, i: int|
                        0 <= j < grid.lat.len() && 0 <= i < grid.lon.len() ==> is_cell_basin(
                            l,
                            billionths(grid.lat@[j])->0,
                            billionths(grid.lon@[i])->0,
                            #[trigger] g.at(j, i),
                        )
            },
        },
{
    let lattice = match build_lattice(text) {
        Err(x) => {
            return Err(x);
        },
        Ok(l) => l,
    };
    let lats = match coordinates(&grid.lat) {
        None => {
            return Err(BasinError::Coordinate);
        },
        Some(v) => v,
    };
    let lons = match coordinates(&grid.lon) {
        None => {
            return Err(BasinError::Coordinate);
        },
        Some(v) => v,
    };
    let filled: bool = lattice.any_filled();
    let (nlat, nlon) = (lats.len(), lons.len());
    let mut cells: Vec<i16> = Vec::new();
    let mut j: usize = 0;
    while j < nlat
        invariant
            j <= nlat,
            nlat == lats.len(),
            nlon == lons.len(),
            lattice.wf(),
            filled == exists|n: (int, int)| lattice.filled(n),
            forall|k: int| 0 <= k < nlat ==> -LIMIT <= #[trigger] lats@[k] <= LIMIT,
            forall|k: int| 0 <= k < nlon ==> -LIMIT <= #[trigger] lons@[k] <= LIMIT,
            cells.len() == j * nlon,
            forall|b: int, a: int|
                0 <= b < j && 0 <= a < nlon ==> is_cell_basin(
                    lattice,
                    lats@[b] as int,
                    lons@[a] as int,
                    cells@[#[trigger] place(nlon as int, b, a)],
                ),
        decreases nlat - j,
    {
        let ghost done = cells@;
        lattice.row_of(lats[j], &lons, filled, &mut cells);
        proof {
            assert((j + 1) * nlon == j * nlon + nlon) by (nonlinear_arith);
            assert forall|b: int, a: int| 0 <= b < j + 1 && 0 <= a < nlon implies is_cell_basin(
                lattice,
                lats@[b] as int,
                lons@[a] as int,
                cells@[#[trigger] place(nlon as int, b, a)],
            ) by {
                if b < j {
                    lemma_place(j as int, nlon as int, b, a);
                    assert(cells@[place(nlon as int, b, a)] == done[place(nlon as int, b, a)]);
                } else {
                    assert(place(nlon as int, b, a) == done.len() + a);
                }
            }
        }
        j = j + 1;
    }
    let g = Grid2 { nrow: nlat, ncol: nlon, cells };
    proof {
        let points = points_of(rows(text@))->Ok_0;
        assert(lattice.represents(points));
        assert forall|b: int, a: int| 0 <= b < grid.lat.len() && 0 <= a < grid.lon.len() implies is_cell_basin(
            lattice,
            billionths(grid.lat@[b])->0,
            billionths(grid.lon@[a])->0,
            #[trigger] g.at(b, a),
        ) by {
            assert(g.at(b, a) == cells@[place(nlon as int, b, a)]);
            assert(billionths(grid.lat@[b]) == Some(lats@[b] as int));
            assert(billionths(grid.lon@[a]) == Some(lons@[a] as int));
        }
    }
    Ok(g)
}

/// The nearest node is the only one, so that a cell has one basin.
pub proof fn law_nearest_is_unique(l: Lattice, qlat: int, qlon: int, a: (int, int), b: (int, int))
    requires
        l.is_nearest(qlat, qlon, a),
        l.is_nearest(qlat, qlon, b),
    ensures
        a == b,
{
    if a != b {
        assert(l.filled(a) && l.filled(b));
        assert(l.beats(qlat, qlon, a, b) && l.beats(qlat, qlon, b, a));
    }
}

/// No listed node is nearer to a cell than the one whose basin it gets.
pub proof fn law_nothing_is_nearer(l: Lattice, qlat: int, qlon: int, n: (int, int), other: (int, int))
    requires
        l.is_nearest(qlat, qlon, n),
        l.filled(other),
    ensures
        l.distance2(qlat, qlon, n) <= l.distance2(qlat, qlon, other),
{
}

/// A place where a point is listed has that point as its nearest.
pub proof fn law_listed_place_is_its_own(l: Lattice, n: (int, int))
    requires
        l.filled(n),
    ensures
        l.is_nearest(l.lat_min + n.0 * STEP, l.lon_min + n.1 * STEP, n),
{
    let (qlat, qlon) = (l.lat_min + n.0 * STEP, l.lon_min + n.1 * STEP);
    assert forall|m: (int, int)| #[trigger] l.filled(m) && m != n implies l.beats(qlat, qlon, n, m) by {
        let (y, x) = ((m.0 - n.0) * STEP, (m.1 - n.1) * STEP);
        assert(square(0) == 0);
        lemma_square_orders(y, 1);
        lemma_square_orders(x, 1);
        assert(square(1) == 1);
        assert(l.distance2(qlat, qlon, m) == square(y) + square(x));
        assert(l.distance2(qlat, qlon, n) == square(0) + square(0));
    }
}

/// The mapping grid's cell centres are whole numbers of billionths of a degree.
pub proof fn law_half_degrees_are_on_the_raster(bits: u64, n: int)
    requires
        is_half(bits, n),
        -2000 <= n <= 2000,
    ensures
        billionths(bits) == Some(n * 500_000_000),
{
    vstd::arithmetic::power2::lemma_pow2_pos(1074);
    let (u, b) = (units(bits), one());
    assert(u * DEGREE == (n * 500_000_000) * b) by (nonlinear_arith)
        requires
            u * 2 == n * b,
            DEGREE == 1_000_000_000,
    ;
    lemma_division(u * DEGREE, b, n * 500_000_000, 0);
}

} // verus!
