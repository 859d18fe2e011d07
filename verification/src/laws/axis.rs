//! Names, months and days: what a file is called, which months a directory covers, and when they are.

use vstd::prelude::*;

use crate::config::{
    absent, axis_outcome, civil_day, days_before_month, disagree_message, empty_message, first_separator,
    first_year, holes_message, is_first_year, is_last_year, is_separator, joined, last_year,
    law_complete_years_lack_nothing, layer_of, lemma_first_fault, lemma_first_separator, lemma_leap_day,
    lemma_months_between, lemma_months_of_names, lemma_years, list_text, month_name, month_of_entry, month_of_name,
    months_between, months_of_names, names_outcome, stem_text, store_name, AxisError, LayerError, LayerSpec,
    NameError,
};
use crate::text::{int_text, lemma_first_mark_at, nat_text, padded_text, parse_int, trim};

verus! {

/// The file of a month is called as the mapping calls it: variable, `FullField`, for the ensemble
/// `LocalCondSim`, model, top, bottom, the month in two digits, and the year.
pub proof fn law_files_are_called_as_the_mapping_calls_them(
    var: Seq<char>,
    model: Seq<char>,
    layer: LayerSpec,
    cond_sim: bool,
    year: int,
    month: int,
)
    requires
        1 <= month <= 12,
    ensures
        month_name(stem_text(var, model, layer, cond_sim), year, month) == var + "FullField"@ + (if cond_sim {
            "LocalCondSim"@
        } else {
            ""@
        }) + model + seq!['_'] + int_text(layer.top as int) + seq!['_'] + int_text(layer.bottom as int) + seq!['_']
            + seq![(48 + month / 10) as char, (48 + month % 10) as char] + seq!['_'] + int_text(year) + ".mat"@,
{
    reveal_strlit("_");
    reveal_strlit("");
    assert("_"@ =~= seq!['_']);
    assert(""@ =~= Seq::<char>::empty());
    let mm = seq![(48 + month / 10) as char, (48 + month % 10) as char];
    lemma_two_digits(month);
    assert(stem_text(var, model, layer, cond_sim) =~= var + "FullField"@ + (if cond_sim {
        "LocalCondSim"@
    } else {
        ""@
    }) + model + seq!['_'] + int_text(layer.top as int) + seq!['_'] + int_text(layer.bottom as int) + seq!['_']);
}

/// A number of one or two digits, filled up to two.
proof fn lemma_two_digits(n: int)
    requires
        0 <= n <= 99,
    ensures
        padded_text(n, 2) == seq![(48 + n / 10) as char, (48 + n % 10) as char],
{
    let p = padded_text(n, 2);
    let t = crate::text::nat_text(n as nat);
    crate::text::lemma_nat_text(n as nat);
    crate::laws::text::law_text_has_every_digit(n as nat, 0);
    crate::laws::text::lemma_ten(0);
    crate::laws::text::lemma_ten(1);
    vstd::arithmetic::power::lemma_pow0(10);
    if t.len() > 2 {
        vstd::arithmetic::power::lemma_pow_increases(10, 2, (t.len() - 1) as nat);
    }
    crate::laws::text::law_padding_keeps_every_digit(n as nat, 2, 0);
    crate::laws::text::law_padding_keeps_every_digit(n as nat, 2, 1);
    assert(n / 1 == n) by (nonlinear_arith);
    assert(p[1] as int == 48 + n % 10);
    assert(p[0] as int == 48 + (n / 10) % 10);
    assert(p =~= seq![(48 + n / 10) as char, (48 + n % 10) as char]);
}

/// The store of a layer is named by the run's tag and the layer's bounds.
pub proof fn law_stores_are_named_by_tag_and_layer(tag: Seq<char>, layer: LayerSpec)
    ensures
        store_name(tag, layer) == "ohc_"@ + tag + "_plev"@ + int_text(layer.top as int) + seq!['_'] + int_text(
            layer.bottom as int,
        ) + ".zarr"@,
{
    reveal_strlit("_");
    assert("_"@ =~= seq!['_']);
    assert(store_name(tag, layer) =~= "ohc_"@ + tag + "_plev"@ + int_text(layer.top as int) + seq!['_'] + int_text(
        layer.bottom as int,
    ) + ".zarr"@);
}

/// A name is looked for in its directory: behind one slash, which is not doubled.
pub proof fn law_names_stand_in_their_directory(dir: Seq<char>, name: Seq<char>)
    requires
        name.len() > 0,
        name[0] != '/',
    ensures
        dir.len() > 0 && dir.last() != '/' ==> joined(dir, name) == dir + seq!['/'] + name,
        dir.len() > 0 && dir.last() == '/' ==> joined(dir, name) == dir + name,
        dir.len() == 0 ==> joined(dir, name) == name,
        joined(dir, seq!['/'] + name) == seq!['/'] + name,
{
    assert(dir.len() > 0 && dir.last() != '/' ==> joined(dir, name) =~= dir + seq!['/'] + name);
    assert(dir.len() == 0 ==> joined(dir, name) =~= name);
}

/// A name that is the stem, a month, an underscore, a year and `.mat` is that month's file, and one whose
/// month or year is no number, or whose month is not one of the twelve, is a fault.
pub proof fn law_named_month_is_recognised(stem: Seq<char>, mm: Seq<char>, yyyy: Seq<char>)
    requires
        forall|i: int| 0 <= i < mm.len() ==> #[trigger] mm[i] != '_',
    ensures
        ({
            let r = month_of_entry(stem + mm + seq!['_'] + yyyy + ".mat"@, stem);
            match (parse_int(mm, 0, 0xffff_ffff), parse_int(yyyy, -0x8000_0000, 0x7fff_ffff)) {
                (Some(m), Some(y)) => if 1 <= m <= 12 {
                    r == Ok::<Option<(i32, u32)>, NameError>(Some((y as i32, m as u32)))
                } else {
                    r == Err::<Option<(i32, u32)>, NameError>(NameError::MonthRange)
                },
                (None, _) => r == Err::<Option<(i32, u32)>, NameError>(NameError::Month),
                (_, None) => r == Err::<Option<(i32, u32)>, NameError>(NameError::Year),
            }
        }),
        month_of_name(stem + mm + seq!['_'] + yyyy + ".mat"@, stem) == month_of_entry(
            stem + mm + seq!['_'] + yyyy + ".mat"@,
            stem,
        ),
{
    reveal_strlit(".mat");
    let name = stem + mm + seq!['_'] + yyyy + ".mat"@;
    let rest = name.skip(stem.len() as int);
    assert(name.take(stem.len() as int) =~= stem);
    assert(rest =~= mm + seq!['_'] + yyyy + ".mat"@);
    assert(rest.skip(rest.len() - 4) =~= ".mat"@);
    let middle = rest.take(rest.len() - 4);
    assert(middle =~= mm + seq!['_'] + yyyy);
    assert forall|i: int| 0 <= i < mm.len() implies middle[i] != '_' by {
        assert(middle[i] == mm[i]);
    }
    lemma_first_mark_at(middle, '_', mm.len() as int);
    assert(middle.take(mm.len() as int) =~= mm);
    assert(middle.skip(mm.len() as int + 1) =~= yyyy);
}

/// A name that does not begin with the stem is passed over. One that does and does not end in `.mat` is no
/// month's, and a fault in a directory of months; one without an underscore behind the stem is a fault.
pub proof fn law_other_names_are_passed_over_or_refused(name: Seq<char>, stem: Seq<char>, tail: Seq<char>)
    ensures
        !(stem.len() <= name.len() && name.take(stem.len() as int) == stem) ==> month_of_entry(name, stem) == Ok::<
            Option<(i32, u32)>,
            NameError,
        >(None),
        !(stem.len() <= name.len() && name.take(stem.len() as int) == stem) ==> month_of_name(name, stem) == Ok::<
            Option<(i32, u32)>,
            NameError,
        >(None),
        !(tail.len() >= 4 && tail.skip(tail.len() - 4) == ".mat"@) ==> {
            &&& month_of_entry(stem + tail, stem) == Err::<Option<(i32, u32)>, NameError>(NameError::Extension)
            &&& month_of_name(stem + tail, stem) == Ok::<Option<(i32, u32)>, NameError>(None)
        },
        tail.len() >= 4 && tail.skip(tail.len() - 4) == ".mat"@ && (forall|i: int|
            0 <= i < tail.len() ==> #[trigger] tail[i] != '_') ==> {
            &&& month_of_entry(stem + tail, stem) == Err::<Option<(i32, u32)>, NameError>(NameError::Malformed)
            &&& month_of_name(stem + tail, stem) == Err::<Option<(i32, u32)>, NameError>(NameError::Malformed)
        },
{
    reveal_strlit(".mat");
    assert((stem + tail).take(stem.len() as int) =~= stem);
    assert((stem + tail).skip(stem.len() as int) =~= tail);
    if forall|i: int| 0 <= i < tail.len() ==> #[trigger] tail[i] != '_' {
        if tail.len() >= 4 {
            let middle = tail.take(tail.len() - 4);
            assert forall|i: int| 0 <= i < middle.len() implies middle[i] != '_' by {
                assert(middle[i] == tail[i]);
            }
            lemma_first_mark_at(middle, '_', middle.len() as int);
        }
    }
}

/// The months of a directory are those that some name in it gives, no more and no fewer; one faulty name
/// makes the directory faulty, and nothing else does.
pub proof fn law_months_are_those_of_the_names(names: Seq<Seq<char>>, stem: Seq<char>)
    ensures
        months_of_names(names, stem) is Err <==> exists|k: int|
            0 <= k < names.len() && (#[trigger] month_of_entry(names[k], stem)) is Err,
        months_of_names(names, stem) matches Ok(axis) ==> forall|ym: (i32, u32)| #[trigger]
            axis.contains(ym) <==> exists|k: int|
                0 <= k < names.len() && #[trigger] month_of_entry(names[k], stem) == Ok::<Option<(i32, u32)>, NameError>(
                    Some(ym),
                ),
{
    if exists|k: int| 0 <= k < names.len() && (#[trigger] month_of_entry(names[k], stem)) is Err {
        let k = choose|k: int| 0 <= k < names.len() && (#[trigger] month_of_entry(names[k], stem)) is Err;
        assert(names.take(k + 1).last() == names[k]);
        lemma_first_fault(names, stem, k + 1);
    } else {
        assert forall|k: int| 0 <= k < names.len() implies month_of_entry(#[trigger] names[k], stem) is Ok by {
            assert(!(month_of_entry(names[k], stem) is Err));
        }
        lemma_months_of_names(names, stem);
        let axis = months_of_names(names, stem)->Ok_0;
        assert forall|ym: (i32, u32)| #[trigger] axis.contains(ym) <==> exists|k: int|
            0 <= k < names.len() && #[trigger] month_of_entry(names[k], stem) == Ok::<Option<(i32, u32)>, NameError>(
                Some(ym),
            ) by {
            if axis.contains(ym) {
                let k = choose|k: int|
                    0 <= k < names.len() && month_of_entry(#[trigger] names[k], stem) == Ok::<
                        Option<(i32, u32)>,
                        NameError,
                    >(Some(ym));
                assert(month_of_entry(names[k], stem) == Ok::<Option<(i32, u32)>, NameError>(Some(ym)));
            }
            if exists|k: int|
                0 <= k < names.len() && #[trigger] month_of_entry(names[k], stem) == Ok::<
                    Option<(i32, u32)>,
                    NameError,
                >(Some(ym)) {
                let k = choose|k: int|
                    0 <= k < names.len() && #[trigger] month_of_entry(names[k], stem) == Ok::<
                        Option<(i32, u32)>,
                        NameError,
                    >(Some(ym));
                assert(month_of_entry(names[k], stem) == Ok::<Option<(i32, u32)>, NameError>(Some(ym)));
            }
        }
    }
}

/// Years that are not empty have a first and a last one.
proof fn lemma_span(axis: Set<(i32, u32)>, lo: i32, hi: i32)
    requires
        exists|m: u32| axis.contains((lo, m)),
        exists|m: u32| axis.contains((hi, m)),
        forall|ym: (i32, u32)| #[trigger] axis.contains(ym) ==> lo <= ym.0 <= hi,
    ensures
        first_year(axis) == lo,
        last_year(axis) == hi,
        axis != Set::<(i32, u32)>::empty(),
{
    assert(is_first_year(axis, lo));
    assert(is_last_year(axis, hi));
    lemma_years(axis, lo, hi);
    let m = choose|m: u32| axis.contains((lo, m));
    assert(axis.contains((lo, m)));
}

/// Where whole years are accepted, every month of every year from the first to the last is there, both of
/// these years have months, and no month lies outside of them.
pub proof fn law_accepted_years_are_whole(
    axis: Set<(i32, u32)>,
    label: Seq<char>,
    dir: Seq<char>,
    layer: LayerSpec,
    years: [i32; 2],
    lo: i32,
    hi: i32,
)
    requires
        axis_outcome(axis, label, dir, layer, Ok(years)),
        exists|m: u32| axis.contains((lo, m)),
        exists|m: u32| axis.contains((hi, m)),
        forall|ym: (i32, u32)| #[trigger] axis.contains(ym) ==> lo <= ym.0 <= hi,
    ensures
        years@[0] == lo,
        years@[1] == hi,
        forall|y: i32, m: u32| lo <= y <= hi && 1 <= m <= 12 ==> #[trigger] axis.contains((y, m)),
{
    lemma_span(axis, lo, hi);
    law_complete_years_lack_nothing(axis, lo, hi);
}

/// Any month that is missing between two months that are there makes the result an error that names it,
/// however many others are missing.
pub proof fn law_missing_month_is_an_error(
    axis: Set<(i32, u32)>,
    label: Seq<char>,
    dir: Seq<char>,
    layer: LayerSpec,
    r: Result<[i32; 2], AxisError>,
    lo: i32,
    hi: i32,
    y: i32,
    m: u32,
)
    requires
        axis_outcome(axis, label, dir, layer, r),
        exists|m: u32| axis.contains((lo, m)),
        exists|m: u32| axis.contains((hi, m)),
        forall|ym: (i32, u32)| #[trigger] axis.contains(ym) ==> lo <= ym.0 <= hi,
        lo <= y <= hi,
        1 <= m <= 12,
        !axis.contains((y, m)),
    ensures
        r matches Err(AxisError::Holes { missing, message }) && missing@.contains((y, m)),
{
    lemma_span(axis, lo, hi);
    law_complete_years_lack_nothing(axis, lo, hi);
    let all = months_between(lo as int, hi as int);
    let lacks = |ym: (i32, u32)| !axis.contains(ym);
    lemma_months_between(lo, hi, (y, m));
    let k = choose|k: int| 0 <= k < all.len() && all[k] == (y, m);
    all.lemma_filter_contains(lacks, k);
}

/// Only months that are not there are reported missing.
pub proof fn law_reported_month_is_missing(
    axis: Set<(i32, u32)>,
    label: Seq<char>,
    dir: Seq<char>,
    layer: LayerSpec,
    r: Result<[i32; 2], AxisError>,
    y: i32,
    m: u32,
)
    requires
        axis_outcome(axis, label, dir, layer, r),
        r matches Err(AxisError::Holes { missing, message }) && missing@.contains((y, m)),
    ensures
        !axis.contains((y, m)),
        1 <= m <= 12,
{
    let (lo, hi) = (first_year(axis), last_year(axis));
    let all = months_between(lo as int, hi as int);
    let lacks = |ym: (i32, u32)| !axis.contains(ym);
    let gone = absent(axis, lo as int, hi as int);
    let k = choose|k: int| 0 <= k < gone.len() && gone[k] == (y, m);
    all.lemma_filter_pred(lacks, k);
    all.lemma_filter_contains_rev(lacks, (y, m));
    lemma_months_between(lo, hi, (y, m));
}

/// Whole years are accepted: where no month between the first and the last year is missing, these years
/// are the result; where there is no month at all, the result is an error.
pub proof fn law_whole_years_are_accepted(
    axis: Set<(i32, u32)>,
    label: Seq<char>,
    dir: Seq<char>,
    layer: LayerSpec,
    r: Result<[i32; 2], AxisError>,
    lo: i32,
    hi: i32,
)
    requires
        axis_outcome(axis, label, dir, layer, r),
        lo <= hi,
    ensures
        (forall|y: i32, m: u32| #[trigger] axis.contains((y, m)) <==> lo <= y <= hi && 1 <= m <= 12) ==> (r matches Ok(
            years,
        ) && years@ == seq![lo, hi]),
        (forall|ym: (i32, u32)| !#[trigger] axis.contains(ym)) ==> r is Err,
{
    if forall|y: i32, m: u32| #[trigger] axis.contains((y, m)) <==> lo <= y <= hi && 1 <= m <= 12 {
        assert(axis.contains((lo, 1u32)) && axis.contains((hi, 1u32)));
        assert forall|ym: (i32, u32)| #[trigger] axis.contains(ym) implies lo <= ym.0 <= hi by {
            assert(axis.contains((ym.0, ym.1)));
        }
        lemma_span(axis, lo, hi);
        law_complete_years_lack_nothing(axis, lo, hi);
    }
    if forall|ym: (i32, u32)| !#[trigger] axis.contains(ym) {
        assert(axis =~= Set::<(i32, u32)>::empty());
    }
}

/// Where years are discovered from the names of a directory, there is a name for every month of every one
/// of these years, and no name is faulty.
pub proof fn law_discovered_years_have_every_file(
    names: Seq<Seq<char>>,
    stem: Seq<char>,
    label: Seq<char>,
    dir: Seq<char>,
    layer: LayerSpec,
    years: [i32; 2],
    y: i32,
    m: u32,
) -> (k: int)
    requires
        names_outcome(names, stem, label, dir, layer, Ok(years)),
        years@[0] <= y <= years@[1],
        1 <= m <= 12,
    ensures
        0 <= k < names.len(),
        month_of_entry(names[k], stem) == Ok::<Option<(i32, u32)>, NameError>(Some((y, m))),
        forall|i: int| 0 <= i < names.len() ==> (#[trigger] month_of_entry(names[i], stem)) is Ok,
{
    let axis = months_of_names(names, stem)->Ok_0;
    let (lo, hi) = (first_year(axis), last_year(axis));
    law_months_are_those_of_the_names(names, stem);
    assert(years@[0] == lo && years@[1] == hi);
    law_complete_years_lack_nothing(axis, lo, hi);
    assert(absent(axis, lo as int, hi as int).len() == 0);
    assert(axis.contains((y, m)));
    assert forall|i: int| 0 <= i < names.len() implies (#[trigger] month_of_entry(names[i], stem)) is Ok by {}
    choose|k: int|
        0 <= k < names.len() && #[trigger] month_of_entry(names[k], stem) == Ok::<Option<(i32, u32)>, NameError>(
            Some((y, m)),
        )
}

/// Years have 365 days, or 366 where their number is divisible by four but not by a hundred, or by four
/// hundred.
pub proof fn law_years_have_their_days(y: int)
    ensures
        civil_day(y + 1, 1, 1) - civil_day(y, 1, 1) == if (y % 4 == 0 && y % 100 != 0) || y % 400 == 0 {
            366int
        } else {
            365int
        },
{
    lemma_leap_day(y);
}

/// Months have their days: thirty in April, June, September and November, 28 or 29 in February, 31 in
/// the others; and within a month days count up one by one.
pub proof fn law_months_have_their_days(y: int, m: int, d: int)
    requires
        1 <= m <= 12,
    ensures
        m < 12 ==> civil_day(y, m + 1, d) - civil_day(y, m, d) == (if m == 2 {
            if (y % 4 == 0 && y % 100 != 0) || y % 400 == 0 {
                29int
            } else {
                28int
            }
        } else if m == 4 || m == 6 || m == 9 || m == 11 {
            30int
        } else {
            31int
        }),
        civil_day(y + 1, 1, d) - civil_day(y, 12, d) == 31,
        civil_day(y, m, d + 1) == civil_day(y, m, d) + 1,
{
    reveal_with_fuel(days_before_month, 13);
    lemma_leap_day(y);
}

/// The time axis runs month by month from January of the first year to December of the last.
pub proof fn law_axis_runs_month_by_month(lo: i32, hi: i32, k: int)
    requires
        lo <= hi,
    ensures
        ({
            let all = months_between(lo as int, hi as int);
            &&& all.len() == 12 * (hi - lo + 1)
            &&& all[0] == (lo, 1u32)
            &&& all.last() == (hi, 12u32)
            &&& 0 <= k < all.len() - 1 ==> all[k + 1] == if all[k].1 == 12 {
                ((all[k].0 + 1) as i32, 1u32)
            } else {
                (all[k].0, (all[k].1 + 1) as u32)
            }
        }),
{
}

/// A layer is two whole numbers parted by a hyphen, an underscore or a colon, with blanks allowed around
/// them.
pub proof fn law_spelled_layer_is_read(a: Seq<char>, sep: char, b: Seq<char>)
    requires
        sep == '-' || sep == '_' || sep == ':',
        forall|i: int|
            0 <= i < a.len() ==> #[trigger] a[i] != '-' && a[i] != '_' && a[i] != ':' && a[i] != ',',
        forall|i: int|
            0 <= i < b.len() ==> #[trigger] b[i] != '-' && b[i] != '_' && b[i] != ':' && b[i] != ',',
    ensures
        ({
            let r = layer_of(a + seq![sep] + b);
            match (parse_int(trim(a), -0x8000_0000, 0x7fff_ffff), parse_int(trim(b), -0x8000_0000, 0x7fff_ffff)) {
                (Some(top), Some(bottom)) => r == Ok::<LayerSpec, LayerError>(
                    LayerSpec { top: top as i32, bottom: bottom as i32 },
                ),
                (None, _) => r == Err::<LayerSpec, LayerError>(LayerError::Top),
                (_, None) => r == Err::<LayerSpec, LayerError>(LayerError::Bottom),
            }
        }),
{
    let s = a + seq![sep] + b;
    assert forall|i: int| 0 <= i < s.len() implies s[i] != ',' && (i != a.len() ==> !is_separator(s[i])) by {
        if i < a.len() {
            assert(s[i] == a[i]);
        } else if i > a.len() {
            assert(s[i] == b[i - a.len() - 1]);
        }
    }
    lemma_first_separator(s);
    let cut = first_separator(s);
    assert(is_separator(s[a.len() as int]));
    if cut < a.len() {
        assert(!is_separator(s[cut]));
    }
    assert(cut == a.len());
    assert(s.take(cut) =~= a);
    assert(s.skip(cut + 1) =~= b);
    lemma_first_separator(b);
    if first_separator(b) < b.len() {
        assert(s[a.len() + 1 + first_separator(b)] == b[first_separator(b)]);
    }
}

/// A list of layers is refused, and so is what has no separator or more than one.
pub proof fn law_other_layers_are_refused(s: Seq<char>, i: int, j: int)
    ensures
        s.contains(',') ==> layer_of(s) == Err::<LayerSpec, LayerError>(LayerError::List),
        !s.contains(',') && (forall|k: int| 0 <= k < s.len() ==> #[trigger] s[k] != '-' && s[k] != '_' && s[k] != ':')
            ==> layer_of(s) == Err::<LayerSpec, LayerError>(LayerError::Parts),
        !s.contains(',') && 0 <= i < j < s.len() && is_separator(s[i]) && is_separator(s[j]) ==> layer_of(s) == Err::<
            LayerSpec,
            LayerError,
        >(LayerError::Parts),
{
    lemma_first_separator(s);
    let cut = first_separator(s);
    if cut < s.len() {
        lemma_first_separator(s.skip(cut + 1));
        if 0 <= i < j < s.len() && is_separator(s[i]) && is_separator(s[j]) {
            assert(cut <= i);
            assert(s.skip(cut + 1)[j - cut - 1] == s[j]);
        }
    }
}

/// One month comes before another.
pub open spec fn sooner(a: (i32, u32), b: (i32, u32)) -> bool {
    a.0 < b.0 || (a.0 == b.0 && a.1 < b.1)
}

/// What is left of months in order is in order.
proof fn lemma_filter_keeps_order(s: Seq<(i32, u32)>, keep: spec_fn((i32, u32)) -> bool, i: int, j: int)
    requires
        forall|a: int, b: int| 0 <= a < b < s.len() ==> sooner(#[trigger] s[a], #[trigger] s[b]),
        0 <= i < j < s.filter(keep).len(),
    ensures
        sooner(s.filter(keep)[i], s.filter(keep)[j]),
    decreases s.len(),
{
    reveal(Seq::filter);
    if s.len() > 0 {
        let less = s.drop_last();
        let f = less.filter(keep);
        assert forall|a: int, b: int| 0 <= a < b < less.len() implies sooner(#[trigger] less[a], #[trigger] less[b]) by {
            assert(sooner(s[a], s[b]));
        }
        if j < f.len() {
            lemma_filter_keeps_order(less, keep, i, j);
        } else {
            less.lemma_filter_pred(keep, i);
            assert(f.contains(f[i]));
            less.lemma_filter_contains_rev(keep, f[i]);
            let a = choose|a: int| 0 <= a < less.len() && less[a] == f[i];
            assert(sooner(s[a], s[s.len() - 1]));
        }
    }
}

/// Missing months are reported in the order of time, each once.
pub proof fn law_missing_months_are_in_order(axis: Set<(i32, u32)>, lo: i32, hi: i32, i: int, j: int)
    requires
        0 <= i < j < absent(axis, lo as int, hi as int).len(),
    ensures
        sooner(absent(axis, lo as int, hi as int)[i], absent(axis, lo as int, hi as int)[j]),
{
    let all = months_between(lo as int, hi as int);
    let lacks = |ym: (i32, u32)| !axis.contains(ym);
    assert forall|a: int, b: int| 0 <= a < b < all.len() implies sooner(#[trigger] all[a], #[trigger] all[b]) by {
        law_axis_runs_month_by_month(lo, hi, a);
        law_axis_runs_month_by_month(lo, hi, b);
    }
    lemma_filter_keeps_order(all, lacks, i, j);
}

/// Months are listed as year and two-digit month, one behind the other with a comma and a blank between.
pub proof fn law_months_are_listed_one_by_one(months: Seq<(i32, u32)>, ym: (i32, u32))
    ensures
        list_text(Seq::empty()) == Seq::<char>::empty(),
        list_text(seq![ym]) == int_text(ym.0 as int) + "-"@ + padded_text(ym.1 as int, 2),
        months.len() > 0 ==> list_text(months.push(ym)) == list_text(months) + ", "@ + (int_text(ym.0 as int) + "-"@
            + padded_text(ym.1 as int, 2)),
{
    assert(months.push(ym).drop_last() =~= months);
}

/// The three messages say what was looked for: where there is no file, in which directory; where months are
/// missing, how many and which; and where the two directories disagree, what each of them covers.
pub proof fn law_messages_say_what_is_wrong(
    label: Seq<char>,
    dir: Seq<char>,
    layer: LayerSpec,
    lo: i32,
    hi: i32,
    missing: Seq<(i32, u32)>,
    other: Seq<i32>,
)
    ensures
        ({
            let tag = int_text(layer.top as int) + "_"@ + int_text(layer.bottom as int);
            &&& empty_message(label, dir, layer) == "no "@ + label + " .mat files found for layer "@ + tag + " in "@ + dir
            &&& holes_message(label, layer, lo as int, hi as int, missing) == label + " for layer "@ + tag + " spans "@
                + int_text(lo as int) + "..="@ + int_text(hi as int) + " but is missing "@ + nat_text(missing.len())
                + " month(s): "@ + list_text(missing) + " (LocalGP years must be complete)"@
            &&& disagree_message(layer, seq![lo, hi], other) == "mean/ensemble time axes disagree for layer "@ + tag
                + ": mean covers "@ + int_text(lo as int) + "..="@ + int_text(hi as int) + ", ensemble "@ + int_text(
                other[0] as int,
            ) + "..="@ + int_text(other[1] as int)
                + " — fix the missing files, or pass --no-ensemble for a mean-only product"@
        }),
{
}

/// A set that is refused is refused with the message that fits.
pub proof fn law_refused_years_say_why(
    axis: Set<(i32, u32)>,
    label: Seq<char>,
    dir: Seq<char>,
    layer: LayerSpec,
    e: AxisError,
)
    requires
        axis_outcome(axis, label, dir, layer, Err(e)),
    ensures
        match e {
            AxisError::Empty { message } => {
                &&& forall|ym: (i32, u32)| !#[trigger] axis.contains(ym)
                &&& message@ == empty_message(label, dir, layer)
            },
            AxisError::Holes { missing, message } => {
                &&& missing.len() > 0
                &&& message@ == holes_message(label, layer, first_year(axis) as int, last_year(axis) as int, missing@)
            },
        },
{
}

} // verus!
