//! Configuration.
//!
//! [`RunConfig`] holds the constants and paths of a product. What one run processes, a single layer
//! over whole years, is a [`Slice`]; its years are discovered from the names of the mapping files.

use vstd::prelude::*;
use vstd::string::StringExecFns;

use crate::consts::{CP0, RHO0};
use crate::double::dyadic;
use crate::text::{
    all_digits, chars_of, find_mark, first_mark, int_text, is_digit, nat_text, padded_text, parse_int, push_int,
    push_nat, push_padded, read_int, trim, trimmed,
};

verus! {

/// One mapped pressure layer, bounds in dbar (shallow `top`, deep `bottom`).
#[derive(Debug, Clone, Copy, PartialEq, Eq)]
pub struct LayerSpec {
    pub top: i32,
    pub bottom: i32,
}

/// The layer as it stands in file names.
pub open spec fn layer_tag(layer: LayerSpec) -> Seq<char> {
    int_text(layer.top as int) + "_"@ + int_text(layer.bottom as int)
}

impl LayerSpec {
    /// The layer as it stands in file names: `top_bottom`.
    pub fn tag(&self) -> (r: String)
        ensures
            r@ == layer_tag(*self),
    {
        let mut s = String::new();
        push_int(&mut s, self.top as i64);
        s.append("_");
        push_int(&mut s, self.bottom as i64);
        assert(s@ =~= layer_tag(*self));
        s
    }
}

/// The constants and paths of a run. Numbers with a fraction are doubles.
#[derive(Debug, Clone)]
pub struct RunConfig {
    /// The run's identifier.
    pub run_tag: String,
    /// Points at the record of this run.
    pub provenance_link: String,
    /// Points at the code of this run.
    pub code_version: String,
    /// The mapped variable, as it stands in file names.
    pub var_name: String,
    /// The mapping model, as it stands in file names.
    pub model_name: String,
    /// Cells with a latitude from the first to the second are kept.
    pub latitude_range_to_keep: [u64; 2],
    /// Ids of the basins to drop.
    pub basins_to_remove: Vec<i16>,
    /// Cells with a seabed shallower than this, in metres, are flagged in every layer.
    pub bathy_floor_m: Option<u64>,
    /// The raw mapping value that stands for a missing one.
    pub missing_sentinel: Option<u64>,
    /// Where the mean files are.
    pub dir_mean: String,
    /// Where the ensemble files are.
    pub dir_ensemble: String,
    /// Where the stores go.
    pub dir_out: String,
    /// The bathymetry file.
    pub etopo_path: String,
    /// The basin table.
    pub basinmask_path: String,
    /// Specific heat capacity, J/(kg K).
    pub cp0: u64,
    /// Reference density, kg/m3.
    pub rho0: u64,
}

/// `name` in the directory `dir`: an absolute name stands for itself.
pub open spec fn joined(dir: Seq<char>, name: Seq<char>) -> Seq<char> {
    if name.len() > 0 && name[0] == '/' {
        name
    } else if dir.len() == 0 || dir.last() == '/' {
        dir + name
    } else {
        dir.push('/') + name
    }
}

/// Puts a directory in front of a name.
pub fn join(dir: &str, name: &str) -> (r: String)
    ensures
        r@ == joined(dir@, name@),
{
    let d: Vec<char> = chars_of(dir);
    let n: Vec<char> = chars_of(name);
    let mut s = String::new();
    if n.len() > 0 && n[0] == '/' {
        s.append(name);
        assert(s@ =~= name@);
        return s;
    }
    s.append(dir);
    assert(s@ =~= dir@);
    if d.len() > 0 && d[d.len() - 1] != '/' {
        s.push('/');
    }
    s.append(name);
    s
}

/// The part of a file name that the variable and the model give.
pub open spec fn prefix_text(var: Seq<char>, model: Seq<char>, cond_sim: bool) -> Seq<char> {
    var + "FullField"@ + (if cond_sim {
        "LocalCondSim"@
    } else {
        Seq::<char>::empty()
    }) + model
}

/// What the names of a layer's files begin with. The underscore at the end keeps one layer's
/// files from passing for another's.
pub open spec fn stem_text(var: Seq<char>, model: Seq<char>, layer: LayerSpec, cond_sim: bool) -> Seq<char> {
    prefix_text(var, model, cond_sim) + "_"@ + layer_tag(layer) + "_"@
}

/// The name of the file of one month, given what the names begin with.
pub open spec fn month_name(stem: Seq<char>, year: int, month: int) -> Seq<char> {
    stem + padded_text(month, 2) + "_"@ + int_text(year) + ".mat"@
}

/// The name of a layer's store.
pub open spec fn store_name(tag: Seq<char>, layer: LayerSpec) -> Seq<char> {
    "ohc_"@ + tag + "_plev"@ + layer_tag(layer) + ".zarr"@
}

impl RunConfig {
    /// The constants of the current product. The tag, the links and the directories are
    /// placeholders.
    pub fn defaults() -> (r: Self)
        ensures
            r.run_tag@ == "UNSET"@,
            r.provenance_link@ == Seq::<char>::empty(),
            r.code_version@ == Seq::<char>::empty(),
            r.var_name@ == "potentialTemperature"@,
            r.model_name@ == "SpaceTimeTrend"@,
            r.latitude_range_to_keep@ == seq![0xc050_2000_0000_0000u64, 0x4050_2000_0000_0000],
            r.basins_to_remove@ == seq![0i16, 5, 6, 7, 8, 9, 53],
            r.bathy_floor_m is None,
            r.missing_sentinel is None,
            r.dir_mean@ == "."@,
            r.dir_ensemble@ == "."@,
            r.dir_out@ == "."@,
            r.etopo_path@ == "etopo60.cdf"@,
            r.basinmask_path@ == "basinmask_04.msk"@,
            r.cp0 == CP0,
            r.rho0 == RHO0,
    {
        let mut basins: Vec<i16> = Vec::new();
        basins.push(0);
        basins.push(5);
        basins.push(6);
        basins.push(7);
        basins.push(8);
        basins.push(9);
        basins.push(53);
        assert(basins@ =~= seq![0i16, 5, 6, 7, 8, 9, 53]);
        let range: [u64; 2] = [0xc050_2000_0000_0000, 0x4050_2000_0000_0000];
        assert(range@ =~= seq![0xc050_2000_0000_0000u64, 0x4050_2000_0000_0000]);
        RunConfig {
            run_tag: String::from_str("UNSET"),
            provenance_link: String::new(),
            code_version: String::new(),
            var_name: String::from_str("potentialTemperature"),
            model_name: String::from_str("SpaceTimeTrend"),
            latitude_range_to_keep: range,
            basins_to_remove: basins,
            bathy_floor_m: None,
            missing_sentinel: None,
            dir_mean: String::from_str("."),
            dir_ensemble: String::from_str("."),
            dir_out: String::from_str("."),
            etopo_path: String::from_str("etopo60.cdf"),
            basinmask_path: String::from_str("basinmask_04.msk"),
            cp0: CP0,
            rho0: RHO0,
        }
    }

    /// The part of a file name that the variable and the model give.
    pub fn fname_prefix(&self, cond_sim: bool) -> (r: String)
        ensures
            r@ == prefix_text(self.var_name@, self.model_name@, cond_sim),
    {
        let mut s = String::new();
        s.append(self.var_name.as_str());
        s.append("FullField");
        if cond_sim {
            s.append("LocalCondSim");
        }
        s.append(self.model_name.as_str());
        assert(s@ =~= prefix_text(self.var_name@, self.model_name@, cond_sim));
        s
    }

    /// What the names of a layer's files begin with.
    pub fn mat_stem(&self, layer: &LayerSpec, cond_sim: bool) -> (r: String)
        ensures
            r@ == stem_text(self.var_name@, self.model_name@, *layer, cond_sim),
    {
        let mut s = self.fname_prefix(cond_sim);
        s.append("_");
        s.append(layer.tag().as_str());
        s.append("_");
        s
    }

    /// The path of the file of one month: the mean, or with `cond_sim` the ensemble.
    pub fn mat_path(&self, layer: &LayerSpec, year: i32, month: u32, cond_sim: bool) -> (r: String)
        ensures
            r@ == joined(
                if cond_sim {
                    self.dir_ensemble@
                } else {
                    self.dir_mean@
                },
                month_name(
                    stem_text(self.var_name@, self.model_name@, *layer, cond_sim),
                    year as int,
                    month as int,
                ),
            ),
    {
        let mut name = self.mat_stem(layer, cond_sim);
        push_padded(&mut name, month as i64, 2);
        name.append("_");
        push_int(&mut name, year as i64);
        name.append(".mat");
        if cond_sim {
            join(self.dir_ensemble.as_str(), name.as_str())
        } else {
            join(self.dir_mean.as_str(), name.as_str())
        }
    }

    /// The path of a layer's store.
    pub fn store_path(&self, layer: &LayerSpec) -> (r: String)
        ensures
            r@ == joined(self.dir_out@, store_name(self.run_tag@, *layer)),
    {
        let mut name = String::from_str("ohc_");
        name.append(self.run_tag.as_str());
        name.append("_plev");
        name.append(layer.tag().as_str());
        name.append(".zarr");
        join(self.dir_out.as_str(), name.as_str())
    }
}

/// Why a file name is faulty.
#[derive(Debug, Clone, Copy, PartialEq, Eq)]
pub enum NameError {
    /// No underscore parts the month from the year.
    Malformed,
    /// The month is no number.
    Month,
    /// The year is no number.
    Year,
    /// The month is not one of the twelve.
    MonthRange,
    /// The name begins as those of the layer do, but does not end in `.mat`.
    Extension,
}

/// A text begins with another.
pub open spec fn begins(s: Seq<char>, head: Seq<char>) -> bool {
    head.len() <= s.len() && s.take(head.len() as int) == head
}

/// A text ends with another.
pub open spec fn ends(s: Seq<char>, tail: Seq<char>) -> bool {
    tail.len() <= s.len() && s.skip(s.len() - tail.len()) == tail
}

/// The year and month that stand between a file name's beginning and its extension.
pub open spec fn year_month(middle: Seq<char>) -> Result<(i32, u32), NameError> {
    let cut = first_mark(middle, '_');
    if cut == middle.len() {
        Err(NameError::Malformed)
    } else {
        match parse_int(middle.take(cut), 0, u32::MAX as int) {
            None => Err(NameError::Month),
            Some(month) => match parse_int(middle.skip(cut + 1), i32::MIN as int, i32::MAX as int) {
                None => Err(NameError::Year),
                Some(year) => if 1 <= month <= 12 {
                    Ok((year as i32, month as u32))
                } else {
                    Err(NameError::MonthRange)
                },
            },
        }
    }
}

/// The year and month of a file, given what the names of its layer begin with. Names that begin
/// otherwise, or that are not those of `.mat` files, belong to something else.
pub open spec fn month_of_name(name: Seq<char>, stem: Seq<char>) -> Result<Option<(i32, u32)>, NameError> {
    let rest = name.skip(stem.len() as int);
    if !begins(name, stem) || !ends(rest, ".mat"@) {
        Ok(None)
    } else {
        match year_month(rest.take(rest.len() - ".mat"@.len())) {
            Err(x) => Err(x),
            Ok(ym) => Ok(Some(ym)),
        }
    }
}

/// Whether the characters of `s` at `from` are those of `part`.
fn holds_at(s: &Vec<char>, from: usize, part: &Vec<char>) -> (r: bool)
    requires
        from + part.len() <= s.len(),
    ensures
        r == (s@.subrange(from as int, from + part.len()) == part@),
{
    let mut k: usize = 0;
    while k < part.len()
        invariant
            k <= part.len(),
            from + part.len() <= s.len(),
            forall|m: int| 0 <= m < k ==> s@[from + m] == part@[m],
        decreases part.len() - k,
    {
        if s[from + k] != part[k] {
            assert(s@.subrange(from as int, from + part.len())[k as int] != part@[k as int]);
            return false;
        }
        k = k + 1;
    }
    assert(s@.subrange(from as int, from + part.len()) =~= part@);
    true
}

/// Reads the year and month that stand in the characters `from..to`.
fn read_year_month(chars: &Vec<char>, from: usize, to: usize) -> (r: Result<(i32, u32), NameError>)
    requires
        from <= to <= chars.len(),
    ensures
        r == year_month(chars@.subrange(from as int, to as int)),
{
    let ghost middle = chars@.subrange(from as int, to as int);
    let cut: usize = find_mark(chars, from, to, '_');
    if cut == to {
        return Err(NameError::Malformed);
    }
    assert(chars@.subrange(from as int, cut as int) =~= middle.take(cut - from));
    assert(chars@.subrange(cut + 1, to as int) =~= middle.skip(cut - from + 1));
    let month: i64 = match read_int(chars, from, cut, 0, u32::MAX as i64) {
        None => {
            return Err(NameError::Month);
        },
        Some(m) => m,
    };
    let year: i64 = match read_int(chars, cut + 1, to, i32::MIN as i64, i32::MAX as i64) {
        None => {
            return Err(NameError::Year);
        },
        Some(y) => y,
    };
    if 1 <= month && month <= 12 {
        Ok((year as i32, month as u32))
    } else {
        Err(NameError::MonthRange)
    }
}

/// Reads the year and month out of a file name `{stem}{MM}_{YYYY}.mat`. Names that do not begin
/// with the stem or do not end in `.mat` are none of the layer's.
pub fn parse_month_year(name: &str, stem: &str) -> (r: Result<Option<(i32, u32)>, NameError>)
    ensures
        r == month_of_name(name@, stem@),
{
    let n: Vec<char> = chars_of(name);
    let head: Vec<char> = chars_of(stem);
    let tail: Vec<char> = chars_of(".mat");
    if head.len() > n.len() {
        return Ok(None);
    }
    assert(n@.subrange(0, head.len() as int) =~= n@.take(head.len() as int));
    if !holds_at(&n, 0, &head) {
        return Ok(None);
    }
    let ghost rest = n@.skip(head.len() as int);
    if tail.len() > n.len() - head.len() {
        return Ok(None);
    }
    let end: usize = n.len() - tail.len();
    assert(n@.subrange(end as int, end + tail.len()) =~= rest.skip(rest.len() - tail.len()));
    if !holds_at(&n, end, &tail) {
        return Ok(None);
    }
    assert(n@.subrange(head.len() as int, end as int) =~= rest.take(rest.len() - tail.len()));
    match read_year_month(&n, head.len(), end) {
        Err(x) => Err(x),
        Ok(ym) => Ok(Some(ym)),
    }
}

/// A set of months, each a year and a month of it.
#[derive(Debug, Clone)]
pub struct MonthSet {
    pub months: Vec<(i32, u32)>,
}

impl View for MonthSet {
    type V = Set<(i32, u32)>;

    open spec fn view(&self) -> Set<(i32, u32)> {
        Set::new(|ym: (i32, u32)| self.months@.contains(ym))
    }
}

impl MonthSet {
    /// No month is listed twice.
    pub open spec fn wf(&self) -> bool {
        self.months@.no_duplicates()
    }

    /// A set without months.
    pub fn new() -> (r: Self)
        ensures
            r.wf(),
            r@ == Set::<(i32, u32)>::empty(),
    {
        let r = MonthSet { months: Vec::new() };
        assert(r@ =~= Set::<(i32, u32)>::empty());
        r
    }

    /// Whether the set is empty.
    pub fn is_empty(&self) -> (r: bool)
        ensures
            r == (self@ == Set::<(i32, u32)>::empty()),
    {
        if self.months.len() > 0 {
            assert(self@.contains(self.months@[0]));
            false
        } else {
            assert(self@ =~= Set::<(i32, u32)>::empty());
            true
        }
    }

    /// Where a month is listed.
    fn find(&self, ym: (i32, u32)) -> (r: Option<usize>)
        ensures
            match r {
                Some(k) => k < self.months.len() && self.months@[k as int] == ym,
                None => !self@.contains(ym),
            },
    {
        let mut k: usize = 0;
        while k < self.months.len()
            invariant
                k <= self.months.len(),
                forall|m: int| 0 <= m < k ==> self.months@[m] != ym,
            decreases self.months.len() - k,
        {
            let (y, m) = self.months[k];
            if y == ym.0 && m == ym.1 {
                return Some(k);
            }
            k = k + 1;
        }
        None
    }

    /// Whether a month is in the set.
    pub fn contains(&self, ym: (i32, u32)) -> (r: bool)
        ensures
            r == self@.contains(ym),
    {
        match self.find(ym) {
            Some(k) => {
                assert(self.months@.contains(ym));
                true
            },
            None => false,
        }
    }

    /// Puts a month into the set.
    pub fn insert(&mut self, ym: (i32, u32))
        requires
            old(self).wf(),
        ensures
            final(self).wf(),
            final(self)@ == old(self)@.insert(ym),
    {
        if !self.contains(ym) {
            self.months.push(ym);
            proof {
                let (a, b) = (old(self).months@, self.months@);
                assert forall|x: (i32, u32)| b.contains(x) <==> (a.contains(x) || x == ym) by {
                    if b.contains(x) {
                        let k = choose|k: int| 0 <= k < b.len() && b[k] == x;
                        if k < a.len() {
                            assert(a[k] == x);
                        }
                    }
                    if a.contains(x) {
                        let k = choose|k: int| 0 <= k < a.len() && a[k] == x;
                        assert(b[k] == x);
                    }
                    if x == ym {
                        assert(b[a.len() as int] == x);
                    }
                }
                assert forall|i: int, j: int| 0 <= i < b.len() && 0 <= j < b.len() && i != j implies b[i] != b[j] by {
                    assert(i < a.len() ==> a.contains(a[i]));
                    assert(j < a.len() ==> a.contains(a[j]));
                }
            }
        }
        assert(self@ =~= old(self)@.insert(ym));
    }

    /// Takes a month out of the set.
    pub fn remove(&mut self, ym: (i32, u32))
        requires
            old(self).wf(),
        ensures
            final(self).wf(),
            final(self)@ == old(self)@.remove(ym),
    {
        match self.find(ym) {
            Some(k) => {
                self.months.remove(k);
                proof {
                    let (a, b) = (old(self).months@, self.months@);
                    assert forall|x: (i32, u32)| b.contains(x) <==> (a.contains(x) && x != ym) by {
                        if b.contains(x) {
                            let m = choose|m: int| 0 <= m < b.len() && b[m] == x;
                            assert(b[m] == a[if m < k { m } else { m + 1 }]);
                        }
                        if a.contains(x) && x != ym {
                            let m = choose|m: int| 0 <= m < a.len() && a[m] == x;
                            assert(b[if m < k { m } else { m - 1 }] == x);
                        }
                    }
                    assert forall|i: int, j: int|
                        0 <= i < b.len() && 0 <= j < b.len() && i != j implies b[i] != b[j] by {
                        assert(b[i] == a[if i < k { i } else { i + 1 }]);
                        assert(b[j] == a[if j < k { j } else { j + 1 }]);
                    }
                }
            },
            None => {},
        }
        assert(self@ =~= old(self)@.remove(ym));
    }
}

/// The texts of some strings.
pub open spec fn texts(names: Seq<String>) -> Seq<Seq<char>> {
    names.map_values(|s: String| s@)
}

/// The year and month of an entry of a directory, given what the names of the layer begin with. Names
/// that begin otherwise belong to something else; every other name has to be that of a month's file.
pub open spec fn month_of_entry(name: Seq<char>, stem: Seq<char>) -> Result<Option<(i32, u32)>, NameError> {
    if begins(name, stem) && month_of_name(name, stem) == Ok::<Option<(i32, u32)>, NameError>(None) {
        Err(NameError::Extension)
    } else {
        month_of_name(name, stem)
    }
}

/// The months of the files of a directory, given what the names of the layer begin with.
pub open spec fn months_of_names(names: Seq<Seq<char>>, stem: Seq<char>) -> Result<Set<(i32, u32)>, NameError>
    decreases names.len(),
{
    if names.len() == 0 {
        Ok(Set::empty())
    } else {
        match months_of_names(names.drop_last(), stem) {
            Err(x) => Err(x),
            Ok(axis) => match month_of_entry(names.last(), stem) {
                Err(x) => Err(x),
                Ok(None) => Ok(axis),
                Ok(Some(ym)) => Ok(axis.insert(ym)),
            },
        }
    }
}

/// A fault among the first names stays the fault of all.
pub proof fn lemma_first_fault(names: Seq<Seq<char>>, stem: Seq<char>, k: int)
    requires
        0 <= k <= names.len(),
        months_of_names(names.take(k), stem) is Err,
    ensures
        months_of_names(names, stem) == months_of_names(names.take(k), stem),
    decreases names.len() - k,
{
    if k < names.len() {
        assert(names.take(k + 1).drop_last() =~= names.take(k));
        lemma_first_fault(names, stem, k + 1);
    } else {
        assert(names.take(k) =~= names);
    }
}

/// Whether a name begins with a stem.
fn has_stem(name: &str, stem: &str) -> (r: bool)
    ensures
        r == begins(name@, stem@),
{
    let n: Vec<char> = chars_of(name);
    let head: Vec<char> = chars_of(stem);
    if head.len() > n.len() {
        return false;
    }
    assert(n@.subrange(0, head.len() as int) =~= n@.take(head.len() as int));
    holds_at(&n, 0, &head)
}

/// Reads the year and month of an entry of a directory. Names that do not begin with the stem are
/// none of the layer's; a name that does has to be `{stem}{MM}_{YYYY}.mat`.
fn read_entry(name: &str, stem: &str) -> (r: Result<Option<(i32, u32)>, NameError>)
    ensures
        r == month_of_entry(name@, stem@),
{
    match parse_month_year(name, stem) {
        Ok(None) => {
            if has_stem(name, stem) {
                Err(NameError::Extension)
            } else {
                Ok(None)
            }
        },
        r => r,
    }
}

/// Collects the months of the files named `{stem}{MM}_{YYYY}.mat` among the names of a directory.
/// Names that do not begin with the stem are passed over; one that does but is not the name of a
/// month's file is a fault.
pub fn scan_axis(names: &Vec<String>, stem: &str) -> (r: Result<MonthSet, NameError>)
    ensures
        match r {
            Ok(axis) => axis.wf() && months_of_names(texts(names@), stem@) == Ok::<Set<(i32, u32)>, NameError>(axis@),
            Err(x) => months_of_names(texts(names@), stem@) == Err::<Set<(i32, u32)>, NameError>(x),
        },
{
    let mut axis = MonthSet::new();
    let ghost all = texts(names@);
    let mut k: usize = 0;
    while k < names.len()
        invariant
            k <= names.len(),
            all == texts(names@),
            axis.wf(),
            months_of_names(all.take(k as int), stem@) == Ok::<Set<(i32, u32)>, NameError>(axis@),
        decreases names.len() - k,
    {
        proof {
            assert(all.take(k + 1).drop_last() =~= all.take(k as int));
            assert(all.take(k + 1).last() == names@[k as int]@);
        }
        match read_entry(names[k].as_str(), stem) {
            Err(x) => {
                proof {
                    lemma_first_fault(all, stem@, k + 1);
                }
                return Err(x);
            },
            Ok(Some(ym)) => {
                axis.insert(ym);
            },
            Ok(None) => {},
        }
        k = k + 1;
    }
    assert(all.take(k as int) =~= all);
    Ok(axis)
}

/// The months of the years `lo..=hi`, in order.
pub open spec fn months_between(lo: int, hi: int) -> Seq<(i32, u32)> {
    Seq::new(
        if lo <= hi {
            (12 * (hi - lo + 1)) as nat
        } else {
            0
        },
        |k: int| ((lo + k / 12) as i32, (k % 12 + 1) as u32),
    )
}

/// The months of the years `lo..=hi` that a set lacks, in order.
pub open spec fn absent(axis: Set<(i32, u32)>, lo: int, hi: int) -> Seq<(i32, u32)> {
    months_between(lo, hi).filter(|ym: (i32, u32)| !axis.contains(ym))
}

/// `y` is the first year of a set of months.
pub open spec fn is_first_year(axis: Set<(i32, u32)>, y: i32) -> bool {
    &&& exists|m: u32| axis.contains((y, m))
    &&& forall|ym: (i32, u32)| #[trigger] axis.contains(ym) ==> y <= ym.0
}

/// `y` is the last year of a set of months.
pub open spec fn is_last_year(axis: Set<(i32, u32)>, y: i32) -> bool {
    &&& exists|m: u32| axis.contains((y, m))
    &&& forall|ym: (i32, u32)| #[trigger] axis.contains(ym) ==> ym.0 <= y
}

/// The first year of a set of months.
pub open spec fn first_year(axis: Set<(i32, u32)>) -> i32 {
    choose|y: i32| is_first_year(axis, y)
}

/// The last year of a set of months.
pub open spec fn last_year(axis: Set<(i32, u32)>) -> i32 {
    choose|y: i32| is_last_year(axis, y)
}

/// A year and a month of it.
pub open spec fn month_text(ym: (i32, u32)) -> Seq<char> {
    int_text(ym.0 as int) + "-"@ + padded_text(ym.1 as int, 2)
}

/// Months, parted by commas.
pub open spec fn list_text(months: Seq<(i32, u32)>) -> Seq<char>
    decreases months.len(),
{
    if months.len() == 0 {
        Seq::empty()
    } else if months.len() == 1 {
        month_text(months[0])
    } else {
        list_text(months.drop_last()) + ", "@ + month_text(months.last())
    }
}

/// What is said where a layer has no file.
pub open spec fn empty_message(label: Seq<char>, dir: Seq<char>, layer: LayerSpec) -> Seq<char> {
    "no "@ + label + " .mat files found for layer "@ + layer_tag(layer) + " in "@ + dir
}

/// What is said where months are missing.
pub open spec fn holes_message(label: Seq<char>, layer: LayerSpec, lo: int, hi: int, missing: Seq<(i32, u32)>) -> Seq<
    char,
> {
    label + " for layer "@ + layer_tag(layer) + " spans "@ + int_text(lo) + "..="@ + int_text(hi)
        + " but is missing "@ + nat_text(missing.len()) + " month(s): "@ + list_text(missing)
        + " (LocalGP years must be complete)"@
}

/// Why a set of months is no time axis.
#[derive(Debug, Clone)]
pub enum AxisError {
    /// There is no month at all.
    Empty { message: String },
    /// The years from the first to the last lack some months.
    Holes { missing: Vec<(i32, u32)>, message: String },
}

/// What comes of requiring whole years of a set of months.
pub open spec fn axis_outcome(
    axis: Set<(i32, u32)>,
    label: Seq<char>,
    dir: Seq<char>,
    layer: LayerSpec,
    r: Result<[i32; 2], AxisError>,
) -> bool {
    let (lo, hi) = (first_year(axis), last_year(axis));
    if axis == Set::<(i32, u32)>::empty() {
        r matches Err(AxisError::Empty { message }) && message@ == empty_message(label, dir, layer)
    } else if absent(axis, lo as int, hi as int).len() > 0 {
        r matches Err(AxisError::Holes { missing, message }) && missing@ == absent(axis, lo as int, hi as int)
            && message@ == holes_message(label, layer, lo as int, hi as int, missing@)
    } else {
        r matches Ok(years) && years@ == seq![lo, hi]
    }
}

/// A set that is not empty has one first and one last year.
pub proof fn lemma_years(axis: Set<(i32, u32)>, lo: i32, hi: i32)
    requires
        is_first_year(axis, lo),
        is_last_year(axis, hi),
    ensures
        first_year(axis) == lo,
        last_year(axis) == hi,
        lo <= hi,
{
    let (a, b) = (first_year(axis), last_year(axis));
    assert(is_first_year(axis, a) && is_last_year(axis, b));
    let m = choose|m: u32| axis.contains((lo, m));
    let n = choose|n: u32| axis.contains((a, n));
    assert(axis.contains((lo, m)) && axis.contains((a, n)));
    let p = choose|p: u32| axis.contains((hi, p));
    let q = choose|q: u32| axis.contains((b, q));
    assert(axis.contains((hi, p)) && axis.contains((b, q)));
}

/// Finds the first and the last year of a set.
fn year_span(axis: &MonthSet) -> (r: (i32, i32))
    requires
        axis.months.len() > 0,
    ensures
        is_first_year(axis@, r.0),
        is_last_year(axis@, r.1),
{
    let mut lo: i32 = axis.months[0].0;
    let mut hi: i32 = axis.months[0].0;
    let ghost mut a: int = 0;
    let ghost mut b: int = 0;
    let mut k: usize = 1;
    while k < axis.months.len()
        invariant
            1 <= k <= axis.months.len(),
            0 <= a < axis.months.len(),
            0 <= b < axis.months.len(),
            axis.months@[a].0 == lo,
            axis.months@[b].0 == hi,
            forall|m: int| 0 <= m < k ==> lo <= #[trigger] axis.months@[m].0 <= hi,
        decreases axis.months.len() - k,
    {
        let y: i32 = axis.months[k].0;
        if y < lo {
            lo = y;
            proof {
                a = k as int;
            }
        }
        if y > hi {
            hi = y;
            proof {
                b = k as int;
            }
        }
        k = k + 1;
    }
    proof {
        assert(axis.months@[a] == (lo, axis.months@[a].1));
        assert(axis@.contains((lo, axis.months@[a].1)));
        assert(axis.months@[b] == (hi, axis.months@[b].1));
        assert(axis@.contains((hi, axis.months@[b].1)));
    }
    (lo, hi)
}

/// Lists the months of the years `lo..=hi` that a set lacks.
fn list_absent(axis: &MonthSet, lo: i32, hi: i32) -> (r: Vec<(i32, u32)>)
    requires
        lo <= hi,
    ensures
        r@ == absent(axis@, lo as int, hi as int),
{
    let ghost all = months_between(lo as int, hi as int);
    let ghost lacks = |ym: (i32, u32)| !axis@.contains(ym);
    let mut missing: Vec<(i32, u32)> = Vec::new();
    let mut y: i64 = lo as i64;
    let mut m: u32 = 1;
    assert(all.take(0) =~= Seq::empty());
    proof {
        reveal(Seq::filter);
    }
    while y <= hi as i64
        invariant
            lo <= y <= hi + 1,
            1 <= m <= 12,
            y == hi + 1 ==> m == 1,
            all == months_between(lo as int, hi as int),
            lacks == (|ym: (i32, u32)| !axis@.contains(ym)),
            missing@ == all.take(12 * (y - lo) + (m - 1)).filter(lacks),
        decreases 12 * (hi + 1 - y) + 12 - m,
    {
        let ym: (i32, u32) = (y as i32, m);
        proof {
            reveal(Seq::filter);
            let k = 12 * (y - lo) + (m - 1);
            assert(k / 12 == y - lo && k % 12 == m - 1);
            let t = all.take(k + 1);
            assert(t.drop_last() =~= all.take(k));
            assert(t.last() == ym);
        }
        if !axis.contains(ym) {
            missing.push(ym);
        }
        if m == 12 {
            m = 1;
            y = y + 1;
        } else {
            m = m + 1;
        }
    }
    assert(all.take(12 * (y - lo) + (m - 1)) =~= all);
    missing
}

/// Appends months, parted by commas.
fn push_list(out: &mut String, months: &Vec<(i32, u32)>)
    ensures
        final(out)@ == old(out)@ + list_text(months@),
{
    let mut k: usize = 0;
    let ghost start = out@;
    assert(months@.take(0) =~= Seq::empty());
    assert(out@ =~= start + list_text(months@.take(0)));
    while k < months.len()
        invariant
            k <= months.len(),
            out@ == start + list_text(months@.take(k as int)),
        decreases months.len() - k,
    {
        let ghost before = out@;
        let (y, m) = months[k];
        if k > 0 {
            out.append(", ");
        }
        push_int(out, y as i64);
        out.append("-");
        push_padded(out, m as i64, 2);
        proof {
            let t = months@.take(k + 1);
            assert(t.last() == (y, m));
            if k > 0 {
                assert(t.drop_last() =~= months@.take(k as int));
            } else {
                assert(t[0] == (y, m));
            }
            assert(out@ =~= start + list_text(t));
        }
        k = k + 1;
    }
    assert(months@.take(k as int) =~= months@);
}

/// Requires a set of months to be whole years: every month of every year from the first to the
/// last. `label` and `dir` say in the message which files were looked for and where.
pub fn validate_complete_years(axis: &MonthSet, label: &str, dir: &str, layer: &LayerSpec) -> (r: Result<
    [i32; 2],
    AxisError,
>)
    ensures
        axis_outcome(axis@, label@, dir@, *layer, r),
        r matches Ok(years) ==> (forall|y: i32, m: u32|
            years@[0] <= y <= years@[1] && 1 <= m <= 12 ==> #[trigger] axis@.contains((y, m))),
        r matches Ok(years) ==> (forall|ym: (i32, u32)| #[trigger]
            axis@.contains(ym) ==> years@[0] <= ym.0 <= years@[1]),
        r is Err ==> forall|lo: i32, hi: i32|
            is_first_year(axis@, lo) && is_last_year(axis@, hi) ==> exists|y: i32, m: u32|
                lo <= y <= hi && 1 <= m <= 12 && !(#[trigger] axis@.contains((y, m))),
{
    if axis.is_empty() {
        let mut message = String::from_str("no ");
        message.append(label);
        message.append(" .mat files found for layer ");
        message.append(layer.tag().as_str());
        message.append(" in ");
        message.append(dir);
        return Err(AxisError::Empty { message });
    }
    proof {
        if axis.months.len() == 0 {
            assert(axis@ =~= Set::<(i32, u32)>::empty());
        }
    }
    let (lo, hi) = year_span(axis);
    proof {
        lemma_years(axis@, lo, hi);
        law_complete_years_lack_nothing(axis@, lo, hi);
    }
    let missing = list_absent(axis, lo, hi);
    if missing.len() > 0 {
        let mut message = String::new();
        message.append(label);
        assert(message@ =~= label@);
        message.append(" for layer ");
        message.append(layer.tag().as_str());
        message.append(" spans ");
        push_int(&mut message, lo as i64);
        message.append("..=");
        push_int(&mut message, hi as i64);
        message.append(" but is missing ");
        push_nat(&mut message, missing.len() as u64);
        message.append(" month(s): ");
        push_list(&mut message, &missing);
        message.append(" (LocalGP years must be complete)");
        return Err(AxisError::Holes { missing, message });
    }
    let years: [i32; 2] = [lo, hi];
    assert(years@ =~= seq![lo, hi]);
    Ok(years)
}

/// Why no time axis was discovered.
#[derive(Debug, Clone)]
pub enum DiscoverError {
    /// A file of the layer has a faulty name.
    Name(NameError),
    /// The files do not make whole years.
    Axis(AxisError),
    /// The mean and the ensemble cover different months.
    Disagree { message: String },
}

/// What is said where the mean and the ensemble cover different months.
pub open spec fn disagree_message(layer: LayerSpec, mean: Seq<i32>, ensemble: Seq<i32>) -> Seq<char> {
    "mean/ensemble time axes disagree for layer "@ + layer_tag(layer) + ": mean covers "@ + int_text(mean[0] as int)
        + "..="@ + int_text(mean[1] as int) + ", ensemble "@ + int_text(ensemble[0] as int) + "..="@ + int_text(
        ensemble[1] as int,
    ) + " — fix the missing files, or pass --no-ensemble for a mean-only product"@
}

/// What comes of looking for whole years among the names of a directory.
pub open spec fn names_outcome(
    names: Seq<Seq<char>>,
    stem: Seq<char>,
    label: Seq<char>,
    dir: Seq<char>,
    layer: LayerSpec,
    r: Result<[i32; 2], DiscoverError>,
) -> bool {
    match months_of_names(names, stem) {
        Err(x) => r == Err::<[i32; 2], DiscoverError>(DiscoverError::Name(x)),
        Ok(axis) => match r {
            Ok(years) => axis_outcome(axis, label, dir, layer, Ok(years)),
            Err(DiscoverError::Axis(e)) => axis_outcome(axis, label, dir, layer, Err(e)),
            Err(_) => false,
        },
    }
}

/// A directory has a file of this month.
pub open spec fn has_file(names: Seq<Seq<char>>, stem: Seq<char>, ym: (i32, u32)) -> bool {
    exists|k: int|
        0 <= k < names.len() && month_of_entry(#[trigger] names[k], stem) == Ok::<Option<(i32, u32)>, NameError>(Some(ym))
}

/// Every month of the first set is in the second.
fn covered(a: &MonthSet, b: &MonthSet) -> (r: bool)
    ensures
        r == a@.subset_of(b@),
{
    let mut k: usize = 0;
    while k < a.months.len()
        invariant
            k <= a.months.len(),
            forall|m: int| 0 <= m < k ==> b@.contains(#[trigger] a.months@[m]),
        decreases a.months.len() - k,
    {
        let ym: (i32, u32) = a.months[k];
        if !b.contains(ym) {
            assert(a@.contains(ym));
            return false;
        }
        k = k + 1;
    }
    assert forall|ym: (i32, u32)| a@.contains(ym) implies b@.contains(ym) by {
        let m = choose|m: int| 0 <= m < a.months.len() && a.months@[m] == ym;
        assert(b@.contains(a.months@[m]));
    }
    true
}

/// Looks for whole years among the names of a directory.
fn discover(names: &Vec<String>, stem: &str, label: &str, dir: &str, layer: &LayerSpec) -> (r: Result<
    (MonthSet, [i32; 2]),
    DiscoverError,
>)
    ensures
        match r {
            Ok((axis, years)) => {
                &&& axis.wf()
                &&& months_of_names(texts(names@), stem@) == Ok::<Set<(i32, u32)>, NameError>(axis@)
                &&& names_outcome(texts(names@), stem@, label@, dir@, *layer, Ok(years))
                &&& forall|y: i32, m: u32|
                    years@[0] <= y <= years@[1] && 1 <= m <= 12 ==> #[trigger] axis@.contains((y, m))
                &&& forall|ym: (i32, u32)| #[trigger] axis@.contains(ym) ==> has_file(texts(names@), stem@, ym)
            },
            Err(e) => names_outcome(texts(names@), stem@, label@, dir@, *layer, Err(e)),
        },
{
    match scan_axis(names, stem) {
        Err(x) => Err(DiscoverError::Name(x)),
        Ok(axis) => match validate_complete_years(&axis, label, dir, layer) {
            Err(e) => Err(DiscoverError::Axis(e)),
            Ok(years) => {
                proof {
                    crate::laws::axis::law_months_are_those_of_the_names(texts(names@), stem@);
                    assert forall|ym: (i32, u32)| #[trigger] axis@.contains(ym) implies has_file(texts(names@), stem@, ym) by {
                        assert((months_of_names(texts(names@), stem@)->Ok_0).contains(ym));
                        let k = choose|k: int|
                            0 <= k < texts(names@).len() && #[trigger] month_of_entry(texts(names@)[k], stem@) == Ok::<
                                Option<(i32, u32)>,
                                NameError,
                            >(Some(ym));
                        assert(month_of_entry(texts(names@)[k], stem@) == Ok::<Option<(i32, u32)>, NameError>(Some(ym)));
                    }
                }
                Ok((axis, years))
            },
        },
    }
}

impl RunConfig {
    /// Discovers the years of a layer from the names in the mean directory and, unless the run is
    /// mean-only, in the ensemble directory. The months have to make whole years, and the two
    /// directories have to cover the same months. Returns the first and the last year.
    pub fn discover_years(&self, layer: &LayerSpec, mean_names: &Vec<String>, ensemble_names: Option<&Vec<String>>) -> (r:
        Result<[i32; 2], DiscoverError>)
        ensures
            ({
                let mean_stem = stem_text(self.var_name@, self.model_name@, *layer, false);
                let ens_stem = stem_text(self.var_name@, self.model_name@, *layer, true);
                let mean_label = "FullField mean"@;
                let ens_label = "LocalCondSim ensemble"@;
                ||| r is Err && names_outcome(texts(mean_names@), mean_stem, mean_label, self.dir_mean@, *layer, r)
                ||| exists|years: [i32; 2]|
                    {
                        &&& #[trigger] names_outcome(
                            texts(mean_names@),
                            mean_stem,
                            mean_label,
                            self.dir_mean@,
                            *layer,
                            Ok(years),
                        )
                        &&& match ensemble_names {
                            None => r == Ok::<[i32; 2], DiscoverError>(years),
                            Some(names) => {
                                ||| r is Err && names_outcome(
                                    texts(names@),
                                    ens_stem,
                                    ens_label,
                                    self.dir_ensemble@,
                                    *layer,
                                    r,
                                )
                                ||| exists|others: [i32; 2]|
                                    {
                                        &&& #[trigger] names_outcome(
                                            texts(names@),
                                            ens_stem,
                                            ens_label,
                                            self.dir_ensemble@,
                                            *layer,
                                            Ok(others),
                                        )
                                        &&& if months_of_names(texts(names@), ens_stem) == months_of_names(
                                            texts(mean_names@),
                                            mean_stem,
                                        ) {
                                            r == Ok::<[i32; 2], DiscoverError>(years)
                                        } else {
                                            r matches Err(DiscoverError::Disagree { message }) && message@
                                                == disagree_message(*layer, years@, others@)
                                        }
                                    }
                            },
                        }
                    }
            }),
            r matches Ok(years) ==> (forall|y: i32, m: u32|
                years@[0] <= y <= years@[1] && 1 <= m <= 12 ==> {
                    &&& #[trigger] has_file(
                        texts(mean_names@),
                        stem_text(self.var_name@, self.model_name@, *layer, false),
                        (y, m),
                    )
                    &&& ensemble_names matches Some(names) ==> has_file(
                        texts(names@),
                        stem_text(self.var_name@, self.model_name@, *layer, true),
                        (y, m),
                    )
                }),
    {
        let mean_stem = self.mat_stem(layer, false);
        let found = discover(mean_names, mean_stem.as_str(), "FullField mean", self.dir_mean.as_str(), layer);
        let (mean, years) = match found {
            Err(e) => {
                return Err(e);
            },
            Ok(p) => p,
        };
        assert forall|y: i32, m: u32| years@[0] <= y <= years@[1] && 1 <= m <= 12 implies #[trigger] has_file(
            texts(mean_names@),
            mean_stem@,
            (y, m),
        ) by {
            assert(mean@.contains((y, m)));
        }
        match ensemble_names {
            None => Ok(years),
            Some(names) => {
                let ens_stem = self.mat_stem(layer, true);
                let found = discover(
                    names,
                    ens_stem.as_str(),
                    "LocalCondSim ensemble",
                    self.dir_ensemble.as_str(),
                    layer,
                );
                let (ens, others) = match found {
                    Err(e) => {
                        return Err(e);
                    },
                    Ok(p) => p,
                };
                if covered(&ens, &mean) && covered(&mean, &ens) {
                    assert(ens@ =~= mean@);
                    assert forall|y: i32, m: u32| years@[0] <= y <= years@[1] && 1 <= m <= 12 implies #[trigger] has_file(
                        texts(names@),
                        ens_stem@,
                        (y, m),
                    ) by {
                        assert(mean@.contains((y, m)));
                    }
                    Ok(years)
                } else {
                    let mut message = String::from_str("mean/ensemble time axes disagree for layer ");
                    message.append(layer.tag().as_str());
                    message.append(": mean covers ");
                    push_int(&mut message, years[0] as i64);
                    message.append("..=");
                    push_int(&mut message, years[1] as i64);
                    message.append(", ensemble ");
                    push_int(&mut message, others[0] as i64);
                    message.append("..=");
                    push_int(&mut message, others[1] as i64);
                    message.append(" — fix the missing files, or pass --no-ensemble for a mean-only product");
                    Err(DiscoverError::Disagree { message })
                }
            },
        }
    }
}

/// One unit of work: a layer over whole years, from the first to the second.
#[derive(Debug, Clone)]
pub struct Slice {
    pub layer: LayerSpec,
    pub years: [i32; 2],
}

/// A year with a leap day.
pub open spec fn leap(y: int) -> bool {
    y % 4 == 0 && (y % 100 != 0 || y % 400 == 0)
}

/// How many days a month has.
pub open spec fn month_days(y: int, m: int) -> int {
    if m == 2 {
        if leap(y) {
            29
        } else {
            28
        }
    } else if m == 4 || m == 6 || m == 9 || m == 11 {
        30
    } else {
        31
    }
}

/// How many days of a year precede one of its months.
pub open spec fn days_before_month(y: int, m: int) -> int
    decreases m,
{
    if m <= 1 {
        0
    } else {
        days_before_month(y, m - 1) + month_days(y, m - 1)
    }
}

/// How many days lie between the first of January of year 1 and that of year `y`.
pub open spec fn days_before_year(y: int) -> int {
    365 * (y - 1) + (y - 1) / 4 - (y - 1) / 100 + (y - 1) / 400
}

/// The day of a date, counted from 1970-01-01, in the proleptic Gregorian calendar.
pub open spec fn civil_day(y: int, m: int, d: int) -> int {
    days_before_year(y) + days_before_month(y, m) + (d - 1) - days_before_year(1970)
}

/// The day of a date, counted by years that begin in March. It agrees with [`civil_day`] on the
/// twelve months and goes on from there for other numbers of months.
pub open spec fn march_day(y: int, m: int, d: int) -> int {
    let year = if m <= 2 {
        y - 1
    } else {
        y
    };
    let month = if m > 2 {
        m - 3
    } else {
        m + 9
    };
    365 * year + year / 4 - year / 100 + year / 400 + (153 * month + 2) / 5 + (d - 1) - 719468
}

/// Leap years have one day more.
pub proof fn lemma_leap_day(y: int)
    ensures
        y / 4 - y / 100 + y / 400 == (y - 1) / 4 - (y - 1) / 100 + (y - 1) / 400 + (if leap(y) {
            1int
        } else {
            0
        }),
{
    lemma_next_multiple(y, 4);
    lemma_next_multiple(y, 100);
    lemma_next_multiple(y, 400);
    if y % 400 == 0 {
        assert(y % 100 == 0 && y % 4 == 0);
    }
    if y % 100 == 0 {
        assert(y % 4 == 0);
    }
}

/// A quotient grows by one where the number becomes a multiple.
proof fn lemma_next_multiple(y: int, n: int)
    requires
        n > 1,
    ensures
        y / n == (y - 1) / n + (if y % n == 0 {
            1int
        } else {
            0
        }),
{
    let (q, r) = (y / n, y % n);
    vstd::arithmetic::div_mod::lemma_fundamental_div_mod(y, n);
    if r == 0 {
        assert(y - 1 == n * (q - 1) + (n - 1)) by (nonlinear_arith)
            requires
                y == n * q,
        ;
        vstd::arithmetic::div_mod::lemma_fundamental_div_mod_converse(y - 1, n, q - 1, n - 1);
    } else {
        vstd::arithmetic::div_mod::lemma_fundamental_div_mod_converse(y - 1, n, q, r - 1);
    }
}

/// Both ways of counting days agree.
pub proof fn lemma_march_day(y: int, m: int, d: int)
    requires
        1 <= m <= 12,
    ensures
        march_day(y, m, d) == civil_day(y, m, d),
{
    reveal_with_fuel(days_before_month, 13);
    assert(days_before_year(1970) == 719162);
    if m <= 2 {
        assert(m == 1 || m == 2);
    } else {
        lemma_leap_day(y);
        assert(m == 3 || m == 4 || m == 5 || m == 6 || m == 7 || m == 8 || m == 9 || m == 10 || m == 11 || m == 12);
    }
}

/// The days from 1970-01-01 to a date of the proleptic Gregorian calendar.
pub fn days_from_civil(y: i32, m: u32, d: u32) -> (r: i64)
    requires
        m > 2 || y > i32::MIN,
    ensures
        r == march_day(y as int, m as int, d as int),
        1 <= m <= 12 ==> r == civil_day(y as int, m as int, d as int),
{
    let year: i64 = if m <= 2 {
        y as i64 - 1
    } else {
        y as i64
    };
    let era: i64 = if year >= 0 {
        year / 400
    } else {
        -((399 - year) / 400)
    };
    let yoe: i64 = year - era * 400;
    assert(0 <= yoe < 400);
    let month: i64 = if m > 2 {
        m as i64 - 3
    } else {
        m as i64 + 9
    };
    let doy: i64 = (153 * month + 2) / 5 + d as i64 - 1;
    let doe: i64 = yoe * 365 + yoe / 4 - yoe / 100 + doy;
    proof {
        if 1 <= m <= 12 {
            lemma_march_day(y as int, m as int, d as int);
        }
        assert(era == year as int / 400);
        assert(year as int / 4 == 100 * era + yoe / 4);
        assert(year as int / 100 == 4 * era + yoe / 100);
    }
    era * 146097 + doe - 719468
}

/// `bits` is the double of a whole number.
pub open spec fn is_whole(bits: u64, n: int) -> bool {
    crate::double::finite(bits) && crate::double::negative(bits) == (n < 0) && crate::double::units(bits) == n
        * crate::double::one()
}

impl Slice {
    /// The months of the slice, in order.
    pub fn time_axis(&self) -> (r: Vec<(i32, u32)>)
        ensures
            r@ == months_between(self.years@[0] as int, self.years@[1] as int),
    {
        let lo: i32 = self.years[0];
        let hi: i32 = self.years[1];
        let ghost all = months_between(lo as int, hi as int);
        let mut v: Vec<(i32, u32)> = Vec::new();
        if lo > hi {
            assert(v@ =~= all);
            return v;
        }
        let mut y: i64 = lo as i64;
        let mut m: u32 = 1;
        while y <= hi as i64
            invariant
                lo <= y <= hi + 1,
                1 <= m <= 12,
                y == hi + 1 ==> m == 1,
                all == months_between(lo as int, hi as int),
                v.len() == 12 * (y - lo) + (m - 1),
                forall|k: int| 0 <= k < v.len() ==> v@[k] == all[k],
            decreases 12 * (hi + 1 - y) + 12 - m,
        {
            proof {
                let k = 12 * (y - lo) + (m - 1);
                assert(k / 12 == y - lo && k % 12 == m - 1);
                assert(all[k] == (y as i32, m));
            }
            v.push((y as i32, m));
            if m == 12 {
                m = 1;
                y = y + 1;
            } else {
                m = m + 1;
            }
        }
        assert(v@ =~= all);
        v
    }

    /// The time coordinate: for each month the days from the middle of the first month, as doubles;
    /// and the first month.
    pub fn time_days_since_start(&self) -> (r: (Vec<u64>, (i32, u32)))
        requires
            i32::MIN < self.years@[0] <= self.years@[1],
        ensures
            r.1 == (self.years@[0], 1u32),
            r.0.len() == months_between(self.years@[0] as int, self.years@[1] as int).len(),
            forall|k: int|
                0 <= k < r.0.len() ==> is_whole(
                    #[trigger] r.0@[k],
                    civil_day(self.years@[0] + k / 12, k % 12 + 1, 15) - civil_day(self.years@[0] as int, 1, 15),
                ),
    {
        let axis = self.time_axis();
        let (y0, m0) = axis[0];
        let base: i64 = days_from_civil(y0, m0, 15);
        let mut days: Vec<u64> = Vec::new();
        let mut k: usize = 0;
        while k < axis.len()
            invariant
                k <= axis.len(),
                days.len() == k,
                i32::MIN < y0 == self.years@[0] <= self.years@[1],
                axis@ == months_between(self.years@[0] as int, self.years@[1] as int),
                base == civil_day(self.years@[0] as int, 1, 15),
                forall|i: int|
                    0 <= i < k ==> is_whole(
                        #[trigger] days@[i],
                        civil_day(self.years@[0] + i / 12, i % 12 + 1, 15) - base,
                    ),
            decreases axis.len() - k,
        {
            let (y, m) = axis[k];
            assert(y == self.years@[0] + k as int / 12 && m == k as int % 12 + 1);
            let n: i64 = days_from_civil(y, m, 15) - base;
            let bits: u64 = dyadic(n, 0);
            proof {
                vstd::arithmetic::power2::lemma2_to64();
                assert(crate::double::units(bits) * 1 == crate::double::units(bits));
            }
            days.push(bits);
            k = k + 1;
        }
        (days, (y0, m0))
    }
}

/// Why a layer's text is faulty.
#[derive(Debug, Clone, Copy, PartialEq, Eq)]
pub enum LayerError {
    /// There is a comma: more than one layer.
    List,
    /// There are not two parts.
    Parts,
    /// The top is no number.
    Top,
    /// The bottom is no number.
    Bottom,
}

/// A character that parts the top of a layer from its bottom.
pub open spec fn is_separator(c: char) -> bool {
    c == '-' || c == '_' || c == ':'
}

/// The place of the first separator, or the text's length.
pub open spec fn first_separator(s: Seq<char>) -> int
    decreases s.len(),
{
    if s.len() == 0 || is_separator(s[0]) {
        0
    } else {
        1 + first_separator(s.skip(1))
    }
}

/// The layer that a text spells: two whole numbers, parted by one separator.
pub open spec fn layer_of(s: Seq<char>) -> Result<LayerSpec, LayerError> {
    let cut = first_separator(s);
    if s.contains(',') {
        Err(LayerError::List)
    } else if cut == s.len() || first_separator(s.skip(cut + 1)) < s.skip(cut + 1).len() {
        Err(LayerError::Parts)
    } else {
        match parse_int(trim(s.take(cut)), i32::MIN as int, i32::MAX as int) {
            None => Err(LayerError::Top),
            Some(top) => match parse_int(trim(s.skip(cut + 1)), i32::MIN as int, i32::MAX as int) {
                None => Err(LayerError::Bottom),
                Some(bottom) => Ok(LayerSpec { top: top as i32, bottom: bottom as i32 }),
            },
        }
    }
}

/// What the first separator has in front of it.
pub proof fn lemma_first_separator(s: Seq<char>)
    ensures
        0 <= first_separator(s) <= s.len(),
        first_separator(s) < s.len() ==> is_separator(s[first_separator(s)]),
        forall|i: int| 0 <= i < first_separator(s) ==> !is_separator(s[i]),
    decreases s.len(),
{
    if s.len() > 0 && !is_separator(s[0]) {
        lemma_first_separator(s.skip(1));
        assert forall|i: int| 0 <= i < first_separator(s) implies !is_separator(s[i]) by {
            if i > 0 {
                assert(s.skip(1)[i - 1] == s[i]);
            }
        }
    }
}

/// Finds the first separator from a place on, or the end.
fn find_separator(chars: &Vec<char>, from: usize) -> (r: usize)
    requires
        from <= chars.len(),
    ensures
        from <= r <= chars.len(),
        r - from == first_separator(chars@.skip(from as int)),
{
    let mut i: usize = from;
    while i < chars.len() && chars[i] != '-' && chars[i] != '_' && chars[i] != ':'
        invariant
            from <= i <= chars.len(),
            forall|k: int| from <= k < i ==> !is_separator(chars@[k]),
        decreases chars.len() - i,
    {
        i = i + 1;
    }
    proof {
        let s = chars@.skip(from as int);
        lemma_first_separator(s);
        let f = first_separator(s);
        if f < i - from {
            assert(!is_separator(chars@[from + f]));
        } else if i - from < f {
            assert(!is_separator(s[i - from]));
        }
    }
    i
}

/// Parses a layer: `top-bottom`, with `-`, `_` or `:` between the two.
pub fn parse_layer(s: &str) -> (r: Result<LayerSpec, LayerError>)
    ensures
        r == layer_of(s@),
{
    let chars: Vec<char> = chars_of(s);
    let comma: usize = find_mark(&chars, 0, chars.len(), ',');
    proof {
        assert(chars@.subrange(0, chars.len() as int) =~= chars@);
        crate::text::lemma_first_mark(chars@, ',');
        if chars@.contains(',') {
            let k = choose|k: int| 0 <= k < chars@.len() && chars@[k] == ',';
            assert(chars@[k] == ',');
        }
    }
    if comma < chars.len() {
        return Err(LayerError::List);
    }
    let cut: usize = find_separator(&chars, 0);
    assert(chars@.skip(0) =~= chars@);
    if cut == chars.len() {
        return Err(LayerError::Parts);
    }
    proof {
        lemma_first_separator(chars@.skip(cut + 1));
    }
    let next: usize = find_separator(&chars, cut + 1);
    if next < chars.len() {
        return Err(LayerError::Parts);
    }
    assert(chars@.subrange(0, cut as int) =~= chars@.take(cut as int));
    assert(chars@.subrange(cut + 1, chars.len() as int) =~= chars@.skip(cut + 1));
    let (a, b) = trimmed(&chars, 0, cut);
    let top: i64 = match read_int(&chars, a, b, i32::MIN as i64, i32::MAX as i64) {
        None => {
            return Err(LayerError::Top);
        },
        Some(n) => n,
    };
    let (c, d) = trimmed(&chars, cut + 1, chars.len());
    let bottom: i64 = match read_int(&chars, c, d, i32::MIN as i64, i32::MAX as i64) {
        None => {
            return Err(LayerError::Bottom);
        },
        Some(n) => n,
    };
    Ok(LayerSpec { top: top as i32, bottom: bottom as i32 })
}

/// A file's year and month are read back from its name.
pub proof fn law_month_name_reads_back(stem: Seq<char>, year: i32, month: u32)
    requires
        1 <= month <= 12,
    ensures
        month_of_name(month_name(stem, year as int, month as int), stem) == Ok::<Option<(i32, u32)>, NameError>(
            Some((year, month)),
        ),
        month_of_entry(month_name(stem, year as int, month as int), stem) == Ok::<Option<(i32, u32)>, NameError>(
            Some((year, month)),
        ),
{
    reveal_strlit(".mat");
    reveal_strlit("_");
    let name = month_name(stem, year as int, month as int);
    let (mm, yyyy) = (padded_text(month as int, 2), int_text(year as int));
    let rest = name.skip(stem.len() as int);
    assert(name.take(stem.len() as int) =~= stem);
    assert(rest =~= mm + "_"@ + yyyy + ".mat"@);
    assert(rest.skip(rest.len() - 4) =~= ".mat"@);
    let middle = rest.take(rest.len() - 4);
    assert(middle =~= mm + "_"@ + yyyy);
    crate::text::lemma_padded_text(month as int, 2);
    assert forall|i: int| 0 <= i < mm.len() implies middle[i] != '_' by {
        assert(is_digit(mm[i]));
        assert(middle[i] == mm[i]);
    }
    crate::text::lemma_first_mark_at(middle, '_', mm.len() as int);
    assert(middle.take(mm.len() as int) =~= mm);
    assert(middle.skip(mm.len() as int + 1) =~= yyyy);
    crate::text::law_padded_text_reads_back(month as int, 2, 0, u32::MAX as int);
    crate::text::law_int_text_reads_back(year as int, i32::MIN as int, i32::MAX as int);
}

/// Numbers with the same text are the same.
proof fn lemma_int_text_once(a: i32, b: i32)
    requires
        int_text(a as int) == int_text(b as int),
    ensures
        a == b,
{
    crate::text::law_int_text_reads_back(a as int, i32::MIN as int, i32::MAX as int);
    crate::text::law_int_text_reads_back(b as int, i32::MIN as int, i32::MAX as int);
}

/// Where two texts that begin with a number and an underscore begin alike, the numbers are equal.
proof fn lemma_same_number(a: i32, b: i32, s: Seq<char>, t: Seq<char>)
    requires
        begins(int_text(b as int) + seq!['_'] + t, int_text(a as int) + seq!['_'] + s),
    ensures
        a == b,
        begins(t, s),
{
    let (p, q) = (int_text(a as int), int_text(b as int));
    let (x, y) = (p + seq!['_'] + s, q + seq!['_'] + t);
    crate::text::lemma_int_text_chars(a as int);
    crate::text::lemma_int_text_chars(b as int);
    assert forall|i: int| 0 <= i < x.len() implies x[i] == y[i] by {
        assert(y.take(x.len() as int)[i] == x[i]);
    }
    assert(x[p.len() as int] == '_');
    if p.len() < q.len() {
        assert(y[p.len() as int] == q[p.len() as int]);
        assert(q[p.len() as int] != '_');
    } else if q.len() < p.len() {
        assert(x[q.len() as int] == p[q.len() as int]);
        assert(y[q.len() as int] == '_');
        assert(p[q.len() as int] != '_');
    }
    assert forall|i: int| 0 <= i < p.len() implies p[i] == q[i] by {
        assert(x[i] == p[i] && y[i] == q[i]);
    }
    assert(p =~= q);
    lemma_int_text_once(a, b);
    assert forall|i: int| 0 <= i < s.len() implies t[i] == s[i] by {
        assert(x[p.len() + 1 + i] == s[i] && y[p.len() + 1 + i] == t[i]);
    }
    assert(t.take(s.len() as int) =~= s);
}

/// The files of one layer are never taken for those of another.
pub proof fn law_stem_selects_one_layer(
    var: Seq<char>,
    model: Seq<char>,
    cond_sim: bool,
    asked: LayerSpec,
    other: LayerSpec,
    year: i32,
    month: u32,
)
    requires
        asked != other,
    ensures
        month_of_name(
            month_name(stem_text(var, model, other, cond_sim), year as int, month as int),
            stem_text(var, model, asked, cond_sim),
        ) == Ok::<Option<(i32, u32)>, NameError>(None),
        month_of_entry(
            month_name(stem_text(var, model, other, cond_sim), year as int, month as int),
            stem_text(var, model, asked, cond_sim),
        ) == Ok::<Option<(i32, u32)>, NameError>(None),
{
    reveal_strlit("_");
    let head = prefix_text(var, model, cond_sim);
    let stem = stem_text(var, model, asked, cond_sim);
    let name = month_name(stem_text(var, model, other, cond_sim), year as int, month as int);
    let tail = padded_text(month as int, 2) + "_"@ + int_text(year as int) + ".mat"@;
    if begins(name, stem) {
        let x = int_text(asked.top as int) + seq!['_'] + (int_text(asked.bottom as int) + seq!['_'] + Seq::empty());
        let y = int_text(other.top as int) + seq!['_'] + (int_text(other.bottom as int) + seq!['_'] + tail);
        assert("_"@ =~= seq!['_']);
        assert(stem =~= head + seq!['_'] + x);
        assert(name =~= head + seq!['_'] + y);
        assert forall|i: int| 0 <= i < x.len() implies y[i] == x[i] by {
            let k = head.len() + 1 + i;
            assert(stem[k] == x[i] && name[k] == y[i]);
            assert(name.take(stem.len() as int)[k] == name[k]);
        }
        assert(y.take(x.len() as int) =~= x);
        let rest = int_text(other.bottom as int) + seq!['_'] + tail;
        lemma_same_number(asked.top, other.top, int_text(asked.bottom as int) + seq!['_'] + Seq::empty(), rest);
        lemma_same_number(asked.bottom, other.bottom, Seq::empty(), tail);
    }
}

/// Months that come from file names are months of the year.
pub proof fn lemma_named_months(names: Seq<Seq<char>>, stem: Seq<char>)
    ensures
        months_of_names(names, stem) matches Ok(axis) ==> forall|ym: (i32, u32)|
            #[trigger] axis.contains(ym) ==> 1 <= ym.1 <= 12,
    decreases names.len(),
{
    if names.len() > 0 {
        lemma_named_months(names.drop_last(), stem);
    }
}

/// The months of the years `lo..=hi` are those with a year from `lo` to `hi` and a month from 1
/// to 12.
pub proof fn lemma_months_between(lo: i32, hi: i32, ym: (i32, u32))
    ensures
        months_between(lo as int, hi as int).contains(ym) <==> lo <= ym.0 <= hi && 1 <= ym.1 <= 12,
{
    let all = months_between(lo as int, hi as int);
    if all.contains(ym) {
        let k = choose|k: int| 0 <= k < all.len() && all[k] == ym;
        assert(all[k] == ((lo + k / 12) as i32, (k % 12 + 1) as u32));
    }
    if lo <= ym.0 <= hi && 1 <= ym.1 <= 12 {
        let k = 12 * (ym.0 - lo) + (ym.1 - 1);
        assert(k / 12 == ym.0 - lo && k % 12 == ym.1 - 1);
        assert(all[k] == ym);
    }
}

/// No month is reported missing just where every month of the years is there.
pub proof fn law_complete_years_lack_nothing(axis: Set<(i32, u32)>, lo: i32, hi: i32)
    ensures
        absent(axis, lo as int, hi as int).len() == 0 <==> forall|y: i32, m: u32|
            lo <= y <= hi && 1 <= m <= 12 ==> #[trigger] axis.contains((y, m)),
{
    let all = months_between(lo as int, hi as int);
    let lacks = |ym: (i32, u32)| !axis.contains(ym);
    let missing = absent(axis, lo as int, hi as int);
    if missing.len() == 0 {
        assert forall|y: i32, m: u32| lo <= y <= hi && 1 <= m <= 12 implies #[trigger] axis.contains((y, m)) by {
            lemma_months_between(lo, hi, (y, m));
            let k = choose|k: int| 0 <= k < all.len() && all[k] == (y, m);
            if !axis.contains((y, m)) {
                all.lemma_filter_contains(lacks, k);
            }
        }
    }
    if missing.len() > 0 {
        let ym = missing[0];
        all.lemma_filter_pred(lacks, 0);
        assert(missing.contains(ym));
        all.lemma_filter_contains_rev(lacks, ym);
        lemma_months_between(lo, hi, ym);
        assert(!axis.contains((ym.0, ym.1)));
    }
}

/// The time axis of the discovered years is what is on disk: a month is on the axis just where
/// there is a file of it.
pub proof fn law_time_axis_is_what_is_there(names: Seq<Seq<char>>, stem: Seq<char>, axis: Set<(i32, u32)>, ym: (i32, u32))
    requires
        months_of_names(names, stem) == Ok::<Set<(i32, u32)>, NameError>(axis),
        exists|y: i32| is_first_year(axis, y),
        exists|y: i32| is_last_year(axis, y),
        absent(axis, first_year(axis) as int, last_year(axis) as int).len() == 0,
    ensures
        months_between(first_year(axis) as int, last_year(axis) as int).contains(ym) <==> axis.contains(ym),
{
    let (lo, hi) = (first_year(axis), last_year(axis));
    lemma_named_months(names, stem);
    lemma_months_between(lo, hi, ym);
    law_complete_years_lack_nothing(axis, lo, hi);
    assert(is_first_year(axis, lo) && is_last_year(axis, hi));
    if lo <= ym.0 <= hi && 1 <= ym.1 <= 12 {
        assert(axis.contains((ym.0, ym.1)));
    }
}

/// The months of faultless names are those that some name gives.
pub proof fn lemma_months_of_names(names: Seq<Seq<char>>, stem: Seq<char>)
    requires
        forall|k: int| 0 <= k < names.len() ==> month_of_entry(#[trigger] names[k], stem) is Ok,
    ensures
        months_of_names(names, stem) matches Ok(axis) && forall|ym: (i32, u32)| #[trigger]
            axis.contains(ym) <==> exists|k: int|
                0 <= k < names.len() && month_of_entry(#[trigger] names[k], stem) == Ok::<Option<(i32, u32)>, NameError>(
                    Some(ym),
                ),
    decreases names.len(),
{
    if names.len() > 0 {
        let shorter = names.drop_last();
        assert forall|k: int| 0 <= k < shorter.len() implies month_of_entry(#[trigger] shorter[k], stem) is Ok by {
            assert(names[k] == shorter[k]);
        }
        lemma_months_of_names(shorter, stem);
        let last = names.len() - 1;
        assert(month_of_entry(names[last], stem) is Ok);
        let axis = months_of_names(names, stem)->Ok_0;
        let fewer = months_of_names(shorter, stem)->Ok_0;
        assert forall|ym: (i32, u32)| #[trigger] axis.contains(ym) <==> exists|k: int|
            0 <= k < names.len() && month_of_entry(#[trigger] names[k], stem) == Ok::<Option<(i32, u32)>, NameError>(
                Some(ym),
            ) by {
            if axis.contains(ym) {
                if fewer.contains(ym) {
                    let k = choose|k: int|
                        0 <= k < shorter.len() && month_of_entry(#[trigger] shorter[k], stem) == Ok::<
                            Option<(i32, u32)>,
                            NameError,
                        >(Some(ym));
                    assert(names[k] == shorter[k]);
                } else {
                    assert(month_of_entry(names[last], stem) == Ok::<Option<(i32, u32)>, NameError>(Some(ym)));
                }
            }
            if exists|k: int|
                0 <= k < names.len() && month_of_entry(#[trigger] names[k], stem) == Ok::<Option<(i32, u32)>, NameError>(
                    Some(ym),
                ) {
                let k = choose|k: int|
                    0 <= k < names.len() && month_of_entry(#[trigger] names[k], stem) == Ok::<
                        Option<(i32, u32)>,
                        NameError,
                    >(Some(ym));
                if k < last {
                    assert(shorter[k] == names[k]);
                    assert(fewer.contains(ym));
                }
            }
        }
    }
}

/// A directory that has the file of every month of some whole years, and otherwise only files of
/// something else, is discovered to cover just these years.
pub proof fn law_whole_years_are_discovered(names: Seq<Seq<char>>, stem: Seq<char>, lo: i32, hi: i32)
    requires
        lo <= hi,
        forall|y: i32, m: u32|
            lo <= y <= hi && 1 <= m <= 12 ==> names.contains(#[trigger] month_name(stem, y as int, m as int)),
        forall|k: int|
            0 <= k < names.len() ==> {
                ||| !begins(#[trigger] names[k], stem)
                ||| exists|y: i32, m: u32|
                    lo <= y <= hi && 1 <= m <= 12 && names[k] == #[trigger] month_name(stem, y as int, m as int)
            },
    ensures
        months_of_names(names, stem) matches Ok(axis) && {
            &&& axis != Set::<(i32, u32)>::empty()
            &&& first_year(axis) == lo
            &&& last_year(axis) == hi
            &&& absent(axis, lo as int, hi as int).len() == 0
        },
{
    assert forall|k: int| 0 <= k < names.len() implies month_of_entry(#[trigger] names[k], stem) is Ok by {
        if begins(names[k], stem) {
            let (y, m) = choose|y: i32, m: u32|
                lo <= y <= hi && 1 <= m <= 12 && names[k] == #[trigger] month_name(stem, y as int, m as int);
            law_month_name_reads_back(stem, y, m);
        }
    }
    lemma_months_of_names(names, stem);
    let axis = months_of_names(names, stem)->Ok_0;
    assert forall|y: i32, m: u32| lo <= y <= hi && 1 <= m <= 12 implies #[trigger] axis.contains((y, m)) by {
        law_month_name_reads_back(stem, y, m);
        let name = month_name(stem, y as int, m as int);
        assert(names.contains(name));
        let k = choose|k: int| 0 <= k < names.len() && names[k] == name;
        assert(month_of_entry(names[k], stem) == Ok::<Option<(i32, u32)>, NameError>(Some((y, m))));
    }
    assert forall|ym: (i32, u32)| #[trigger] axis.contains(ym) implies lo <= ym.0 <= hi by {
        let k = choose|k: int|
            0 <= k < names.len() && month_of_entry(#[trigger] names[k], stem) == Ok::<Option<(i32, u32)>, NameError>(
                Some(ym),
            );
        let (y, m) = choose|y: i32, m: u32|
            lo <= y <= hi && 1 <= m <= 12 && names[k] == #[trigger] month_name(stem, y as int, m as int);
        law_month_name_reads_back(stem, y, m);
    }
    assert(axis.contains((lo, 1u32)) && axis.contains((hi, 1u32)));
    assert(is_first_year(axis, lo));
    assert(is_last_year(axis, hi));
    lemma_years(axis, lo, hi);
    law_complete_years_lack_nothing(axis, lo, hi);
}

/// A directory with a name that begins as those of the layer do, but is not the name of a month's
/// file, is refused.
pub proof fn law_misnamed_file_is_refused(names: Seq<Seq<char>>, stem: Seq<char>, k: int)
    requires
        0 <= k < names.len(),
        begins(names[k], stem),
        match month_of_name(names[k], stem) {
            Ok(Some(_)) => false,
            _ => true,
        },
    ensures
        months_of_names(names, stem) is Err,
{
    assert(names.take(k + 1).last() == names[k]);
    lemma_first_fault(names, stem, k + 1);
}

/// 1970-01-01 is day zero.
pub proof fn law_epoch_is_day_zero()
    ensures
        civil_day(1970, 1, 1) == 0,
{
}

/// The day after the last of a month is the first of the next month.
pub proof fn law_days_run_on(y: int, m: int)
    requires
        1 <= m <= 12,
    ensures
        civil_day(y, m, month_days(y, m)) + 1 == if m < 12 {
            civil_day(y, m + 1, 1)
        } else {
            civil_day(y + 1, 1, 1)
        },
{
    if m == 12 {
        reveal_with_fuel(days_before_month, 12);
        lemma_leap_day(y);
    }
}

/// Successive months of the time coordinate lie as many days apart as the earlier one has.
pub proof fn law_time_steps_are_months(lo: int, k: int)
    requires
        k >= 0,
    ensures
        civil_day(lo + (k + 1) / 12, (k + 1) % 12 + 1, 15) - civil_day(lo + k / 12, k % 12 + 1, 15) == month_days(
            lo + k / 12,
            k % 12 + 1,
        ),
{
    law_days_run_on(lo + k / 12, k % 12 + 1);
}

/// A layer without negative bounds is read back from its tag.
pub proof fn law_layer_tag_reads_back(layer: LayerSpec)
    requires
        0 <= layer.top,
        0 <= layer.bottom,
    ensures
        layer_of(layer_tag(layer)) == Ok::<LayerSpec, LayerError>(layer),
{
    reveal_strlit("_");
    let (a, b) = (int_text(layer.top as int), int_text(layer.bottom as int));
    let s = layer_tag(layer);
    crate::text::lemma_int_text_chars(layer.top as int);
    crate::text::lemma_int_text_chars(layer.bottom as int);
    assert forall|i: int| 0 <= i < a.len() implies is_digit(#[trigger] s[i]) by {
        assert(s[i] == a[i]);
    }
    assert(s[a.len() as int] == '_');
    assert forall|i: int| a.len() < i < s.len() implies is_digit(#[trigger] s[i]) by {
        assert(s[i] == b[i - a.len() - 1]);
    }
    assert(!s.contains(','));
    lemma_first_separator(s);
    let cut = first_separator(s);
    if cut < a.len() {
        assert(is_digit(s[cut]));
    }
    assert(cut == a.len());
    assert(s.take(cut) =~= a);
    assert(s.skip(cut + 1) =~= b);
    lemma_first_separator(b);
    if first_separator(b) < b.len() {
        assert(is_digit(b[first_separator(b)]));
    }
    lemma_digits_need_no_trim(a);
    lemma_digits_need_no_trim(b);
    crate::text::law_int_text_reads_back(layer.top as int, i32::MIN as int, i32::MAX as int);
    crate::text::law_int_text_reads_back(layer.bottom as int, i32::MIN as int, i32::MAX as int);
}

/// Digits have no blanks at their ends.
proof fn lemma_digits_need_no_trim(s: Seq<char>)
    requires
        all_digits(s),
    ensures
        trim(s) == s,
{
    assert(is_digit(s[0]) && is_digit(s.last()));
}

} // verus!
