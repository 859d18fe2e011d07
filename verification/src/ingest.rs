//! Layer ingest: monthly files in, member-major stacks of maps out.
//!
//! A month comes as one mean file and, unless the run is mean-only, one ensemble file with all
//! members. Each value is scaled to heat content on the way in, missing values become NaN, and maps
//! are turned from `[lon, lat]` to `[lat, lon]`.

use vstd::prelude::*;

use crate::config::{months_between, RunConfig, Slice};
use crate::consts::NMEMBER;
use crate::double::{equal, nan, same, NAN_BITS};
use crate::grid::{lemma_place, place, Grid2, Grid3, GridDef, MapStack};
use crate::matread::{
    block_fault, column_major, file_array, map_fault, read_ensemble, read_mean_grid, MatError, MatModel,
};
use crate::rounding::{multiply, times};

verus! {

/// A layer in memory.
#[derive(Debug, Clone)]
pub struct LayerData {
    /// One map per month, J/m2, NaN where a value is missing.
    pub ohc_mean: MapStack,
    /// One stack per member, each with one map per month. Absent in a mean-only run.
    pub ohc_ensemble: Option<Vec<MapStack>>,
}

/// Why a month could not be ingested.
#[derive(Debug, Clone, Copy, PartialEq, Eq)]
pub enum IngestError {
    /// The mean file is faulty.
    Mean(MatError),
    /// The mean has not the extents of the grid.
    MeanShape,
    /// The ensemble file is faulty.
    Ensemble(MatError),
    /// The ensemble has not the extents of the grid and its members.
    EnsembleShape,
}

/// The raw value, or NaN where it is the one that stands for a missing value.
pub open spec fn cleaned(raw: u64, sentinel: Option<u64>) -> u64 {
    if sentinel matches Some(v) && same(raw, v) {
        NAN_BITS
    } else {
        raw
    }
}

/// The heat content of a raw value.
pub open spec fn heat(raw: u64, sentinel: Option<u64>, scale: u64) -> u64 {
    times(cleaned(raw, sentinel), scale)
}

/// The map holds the heat content of a mean file's array, turned.
pub open spec fn is_heat_map(g: Grid2<u64>, m: MatModel, nlat: int, nlon: int, sentinel: Option<u64>, scale: u64) -> bool {
    &&& g.shaped(nlat, nlon)
    &&& forall|j: int, i: int|
        0 <= j < nlat && 0 <= i < nlon ==> #[trigger] g.at(j, i) == heat(column_major(m.data, nlon, i, j), sentinel, scale)
}

/// The map holds the heat content of one member of an ensemble file's array, turned.
pub open spec fn is_heat_member(
    g: Grid2<u64>,
    m: MatModel,
    member: int,
    nlat: int,
    nlon: int,
    sentinel: Option<u64>,
    scale: u64,
) -> bool {
    &&& g.shaped(nlat, nlon)
    &&& forall|j: int, i: int|
        0 <= j < nlat && 0 <= i < nlon ==> #[trigger] g.at(j, i) == heat(
            column_major(m.data, nlon, i, j + nlat * member),
            sentinel,
            scale,
        )
}

/// Why a mean file is no map on the grid, where it is none.
pub open spec fn mean_fault(raw: Seq<u8>, nlat: int, nlon: int) -> Option<IngestError> {
    match file_array(raw) {
        Err(x) => Some(IngestError::Mean(x)),
        Ok(m) => match map_fault(m.dims) {
            Some(x) => Some(IngestError::Mean(x)),
            None => if m.dims[0] == nlon && m.dims[1] == nlat {
                None
            } else {
                Some(IngestError::MeanShape)
            },
        },
    }
}

/// Why an ensemble file does not hold every member's map on the grid, where it does not.
pub open spec fn ensemble_fault(raw: Seq<u8>, nlat: int, nlon: int) -> Option<IngestError> {
    match file_array(raw) {
        Err(x) => Some(IngestError::Ensemble(x)),
        Ok(m) => match block_fault(m.dims) {
            Some(x) => Some(IngestError::Ensemble(x)),
            None => if m.dims[0] == nlon && m.dims[1] == nlat && m.dims[2] == NMEMBER {
                None
            } else {
                Some(IngestError::EnsembleShape)
            },
        },
    }
}

/// Why a month's files are faulty, where they are. The mean comes first.
pub open spec fn month_fault(mean: Seq<u8>, ensemble: Option<Seq<u8>>, nlat: int, nlon: int) -> Option<IngestError> {
    match mean_fault(mean, nlat, nlon) {
        Some(x) => Some(x),
        None => match ensemble {
            None => None,
            Some(raw) => ensemble_fault(raw, nlat, nlon),
        },
    }
}

/// The array of a file that has one.
pub open spec fn array_in(raw: Seq<u8>) -> MatModel {
    match file_array(raw) {
        Ok(m) => m,
        Err(_) => arbitrary(),
    }
}

/// The heat content of a raw value.
pub fn to_heat(raw: u64, sentinel: Option<u64>, scale: u64) -> (r: u64)
    ensures
        r == heat(raw, sentinel, scale),
{
    match sentinel {
        Some(v) => {
            if equal(raw, v) {
                return multiply(NAN_BITS, scale);
            }
        },
        None => {},
    }
    multiply(raw, scale)
}

/// Scales a table indexed `[lon, lat]` to heat content and turns it to `[lat, lon]`.
pub fn heat_map(raw: &Grid2<u64>, sentinel: Option<u64>, scale: u64) -> (r: Grid2<u64>)
    requires
        raw.wf(),
    ensures
        r.shaped(raw.ncol as int, raw.nrow as int),
        forall|j: int, i: int|
            0 <= j < raw.ncol && 0 <= i < raw.nrow ==> #[trigger] r.at(j, i) == heat(raw.at(i, j), sentinel, scale),
{
    let (nlon, nlat) = (raw.nrow, raw.ncol);
    let mut cells: Vec<u64> = Vec::new();
    let mut j: usize = 0;
    while j < nlat
        invariant
            j <= nlat,
            raw.wf(),
            nlon == raw.nrow,
            nlat == raw.ncol,
            cells.len() == j * nlon,
            forall|b: int, a: int|
                0 <= b < j && 0 <= a < nlon ==> cells@[#[trigger] place(nlon as int, b, a)] == heat(
                    raw.at(a, b),
                    sentinel,
                    scale,
                ),
        decreases nlat - j,
    {
        let ghost done = cells@;
        let mut i: usize = 0;
        while i < nlon
            invariant
                i <= nlon,
                j < nlat,
                raw.wf(),
                nlon == raw.nrow,
                nlat == raw.ncol,
                done.len() == j * nlon,
                cells.len() == j * nlon + i,
                forall|k: int| 0 <= k < done.len() ==> cells@[k] == done[k],
                forall|a: int|
                    0 <= a < i ==> cells@[#[trigger] place(nlon as int, j as int, a)] == heat(
                        raw.at(a, j as int),
                        sentinel,
                        scale,
                    ),
            decreases nlon - i,
        {
            cells.push(to_heat(raw.get(i, j), sentinel, scale));
            i = i + 1;
        }
        proof {
            assert((j + 1) * nlon == j * nlon + nlon) by (nonlinear_arith);
            assert forall|b: int, a: int| 0 <= b < j + 1 && 0 <= a < nlon implies cells@[#[trigger] place(
                nlon as int,
                b,
                a,
            )] == heat(raw.at(a, b), sentinel, scale) by {
                if b < j {
                    lemma_place(j as int, nlon as int, b, a);
                    assert(cells@[place(nlon as int, b, a)] == done[place(nlon as int, b, a)]);
                }
            }
        }
        j = j + 1;
    }
    proof {
        assert(nlat * nlon == nlon * nlat) by (nonlinear_arith);
    }
    let r = Grid2 { nrow: nlat, ncol: nlon, cells };
    proof {
        assert forall|b: int, a: int| 0 <= b < nlat && 0 <= a < nlon implies #[trigger] r.at(b, a) == heat(
            raw.at(a, b),
            sentinel,
            scale,
        ) by {
            assert(r.at(b, a) == cells@[place(nlon as int, b, a)]);
        }
    }
    r
}

/// Scales one member of a block indexed `[lon, lat, member]` to heat content and turns it to
/// `[lat, lon]`.
pub fn heat_member(raw: &Grid3<u64>, member: usize, sentinel: Option<u64>, scale: u64) -> (r: Grid2<u64>)
    requires
        raw.wf(),
        member < raw.n2,
    ensures
        r.shaped(raw.n1 as int, raw.n0 as int),
        forall|j: int, i: int|
            0 <= j < raw.n1 && 0 <= i < raw.n0 ==> #[trigger] r.at(j, i) == heat(
                raw.at(i, j, member as int),
                sentinel,
                scale,
            ),
{
    let (nlon, nlat) = (raw.n0, raw.n1);
    let mut cells: Vec<u64> = Vec::new();
    let mut j: usize = 0;
    while j < nlat
        invariant
            j <= nlat,
            raw.wf(),
            member < raw.n2,
            nlon == raw.n0,
            nlat == raw.n1,
            cells.len() == j * nlon,
            forall|b: int, a: int|
                0 <= b < j && 0 <= a < nlon ==> cells@[#[trigger] place(nlon as int, b, a)] == heat(
                    raw.at(a, b, member as int),
                    sentinel,
                    scale,
                ),
        decreases nlat - j,
    {
        let ghost done = cells@;
        let mut i: usize = 0;
        while i < nlon
            invariant
                i <= nlon,
                j < nlat,
                raw.wf(),
                member < raw.n2,
                nlon == raw.n0,
                nlat == raw.n1,
                done.len() == j * nlon,
                cells.len() == j * nlon + i,
                forall|k: int| 0 <= k < done.len() ==> cells@[k] == done[k],
                forall|a: int|
                    0 <= a < i ==> cells@[#[trigger] place(nlon as int, j as int, a)] == heat(
                        raw.at(a, j as int, member as int),
                        sentinel,
                        scale,
                    ),
            decreases nlon - i,
        {
            cells.push(to_heat(raw.get(i, j, member), sentinel, scale));
            i = i + 1;
        }
        proof {
            assert((j + 1) * nlon == j * nlon + nlon) by (nonlinear_arith);
            assert forall|b: int, a: int| 0 <= b < j + 1 && 0 <= a < nlon implies cells@[#[trigger] place(
                nlon as int,
                b,
                a,
            )] == heat(raw.at(a, b, member as int), sentinel, scale) by {
                if b < j {
                    lemma_place(j as int, nlon as int, b, a);
                    assert(cells@[place(nlon as int, b, a)] == done[place(nlon as int, b, a)]);
                }
            }
        }
        j = j + 1;
    }
    let r = Grid2 { nrow: nlat, ncol: nlon, cells };
    proof {
        assert forall|b: int, a: int| 0 <= b < nlat && 0 <= a < nlon implies #[trigger] r.at(b, a) == heat(
            raw.at(a, b, member as int),
            sentinel,
            scale,
        ) by {
            assert(r.at(b, a) == cells@[place(nlon as int, b, a)]);
        }
    }
    r
}

impl LayerData {
    /// Every stack has the grid's shape and as many months, and there are as many members as there
    /// should be.
    pub open spec fn wf(&self) -> bool {
        &&& self.ohc_mean.wf()
        &&& self.ohc_ensemble matches Some(stacks) ==> {
            &&& stacks.len() == NMEMBER
            &&& forall|m: int|
                0 <= m < NMEMBER ==> {
                    &&& (#[trigger] stacks@[m]).wf()
                    &&& stacks@[m].nlat == self.ohc_mean.nlat
                    &&& stacks@[m].nlon == self.ohc_mean.nlon
                    &&& stacks@[m].maps.len() == self.ohc_mean.maps.len()
                }
        }
    }

    /// A layer without months.
    pub fn empty(grid: &GridDef, mean_only: bool) -> (r: Self)
        ensures
            r.wf(),
            r.ohc_mean.nlat == grid.lat.len(),
            r.ohc_mean.nlon == grid.lon.len(),
            r.ohc_mean.maps.len() == 0,
            r.ohc_ensemble is None <==> mean_only,
    {
        let (nlat, nlon) = (grid.nlat(), grid.nlon());
        let ohc_mean = MapStack { nlat, nlon, maps: Vec::new() };
        if mean_only {
            return LayerData { ohc_mean, ohc_ensemble: None };
        }
        let mut stacks: Vec<MapStack> = Vec::new();
        let mut m: usize = 0;
        while m < NMEMBER
            invariant
                m <= NMEMBER,
                stacks.len() == m,
                forall|k: int|
                    0 <= k < m ==> {
                        &&& (#[trigger] stacks@[k]).wf()
                        &&& stacks@[k].nlat == nlat
                        &&& stacks@[k].nlon == nlon
                        &&& stacks@[k].maps.len() == 0
                    },
            decreases NMEMBER - m,
        {
            stacks.push(MapStack { nlat, nlon, maps: Vec::new() });
            m = m + 1;
        }
        LayerData { ohc_mean, ohc_ensemble: Some(stacks) }
    }
}

/// A stack got one map more.
pub open spec fn extended(before: MapStack, after: MapStack) -> bool {
    &&& after.nlat == before.nlat
    &&& after.nlon == before.nlon
    &&& after.maps.len() == before.maps.len() + 1
    &&& after.maps@.take(before.maps.len() as int) == before.maps@
}

/// Adds a member's map to each member's stack.
fn add_members(stacks: &mut Vec<MapStack>, raw: &Grid3<u64>, sentinel: Option<u64>, scale: u64)
    requires
        raw.wf(),
        old(stacks).len() == raw.n2,
    ensures
        final(stacks).len() == old(stacks).len(),
        forall|m: int|
            0 <= m < old(stacks).len() ==> {
                &&& extended(old(stacks)@[m], #[trigger] final(stacks)@[m])
                &&& final(stacks)@[m].maps@.last().shaped(raw.n1 as int, raw.n0 as int)
                &&& forall|j: int, i: int|
                    0 <= j < raw.n1 && 0 <= i < raw.n0 ==> #[trigger] final(stacks)@[m].maps@.last().at(j, i) == heat(
                        raw.at(i, j, m),
                        sentinel,
                        scale,
                    )
            },
{
    let ghost before = stacks@;
    let mut m: usize = 0;
    while m < stacks.len()
        invariant
            m <= stacks.len(),
            raw.wf(),
            before == old(stacks)@,
            stacks.len() == before.len(),
            stacks.len() == raw.n2,
            forall|k: int| m <= k < before.len() ==> #[trigger] stacks@[k] == before[k],
            forall|k: int|
                0 <= k < m ==> {
                    &&& extended(before[k], #[trigger] stacks@[k])
                    &&& stacks@[k].maps@.last().shaped(raw.n1 as int, raw.n0 as int)
                    &&& forall|j: int, i: int|
                        0 <= j < raw.n1 && 0 <= i < raw.n0 ==> #[trigger] stacks@[k].maps@.last().at(j, i) == heat(
                            raw.at(i, j, k),
                            sentinel,
                            scale,
                        )
                },
        decreases stacks.len() - m,
    {
        let map = heat_member(raw, m, sentinel, scale);
        let stack = &mut stacks[m];
        stack.maps.push(map);
        proof {
            assert(stacks@[m as int].maps@.take(before[m as int].maps.len() as int) =~= before[m as int].maps@);
        }
        m = m + 1;
    }
}

/// The layer got one month more: the mean's map and, with an ensemble, every member's map.
pub open spec fn month_added(
    before: LayerData,
    after: LayerData,
    mean: Seq<u8>,
    ensemble: Option<Seq<u8>>,
    sentinel: Option<u64>,
    scale: u64,
) -> bool {
    let (nlat, nlon) = (before.ohc_mean.nlat as int, before.ohc_mean.nlon as int);
    &&& extended(before.ohc_mean, after.ohc_mean)
    &&& is_heat_map(after.ohc_mean.maps@.last(), array_in(mean), nlat, nlon, sentinel, scale)
    &&& match (before.ohc_ensemble, after.ohc_ensemble, ensemble) {
        (None, None, None) => true,
        (Some(old_stacks), Some(new_stacks), Some(raw)) => forall|m: int|
            0 <= m < NMEMBER ==> {
                &&& extended(old_stacks@[m], #[trigger] new_stacks@[m])
                &&& is_heat_member(new_stacks@[m].maps@.last(), array_in(raw), m, nlat, nlon, sentinel, scale)
            },
        _ => false,
    }
}

/// The bytes of a file, where there is one.
pub open spec fn bytes_of(file: Option<&[u8]>) -> Option<Seq<u8>> {
    match file {
        Some(raw) => Some(raw@),
        None => None,
    }
}

/// Reads a mean file that has to be a map on the grid.
fn checked_mean(raw: &[u8], nlat: usize, nlon: usize) -> (r: Result<Grid2<u64>, IngestError>)
    ensures
        match r {
            Ok(g) => {
                &&& mean_fault(raw@, nlat as int, nlon as int) is None
                &&& crate::matread::is_map_of(g, array_in(raw@))
                &&& g.nrow == nlon
                &&& g.ncol == nlat
            },
            Err(x) => mean_fault(raw@, nlat as int, nlon as int) == Some(x),
        },
{
    match read_mean_grid(raw) {
        Err(x) => Err(IngestError::Mean(x)),
        Ok(g) => {
            if g.nrow == nlon && g.ncol == nlat {
                Ok(g)
            } else {
                Err(IngestError::MeanShape)
            }
        },
    }
}

/// Reads an ensemble file that has to hold every member's map on the grid.
fn checked_ensemble(raw: &[u8], nlat: usize, nlon: usize) -> (r: Result<Grid3<u64>, IngestError>)
    ensures
        match r {
            Ok(g) => {
                &&& ensemble_fault(raw@, nlat as int, nlon as int) is None
                &&& crate::matread::is_block_of(g, array_in(raw@))
                &&& g.n0 == nlon
                &&& g.n1 == nlat
                &&& g.n2 == NMEMBER
            },
            Err(x) => ensemble_fault(raw@, nlat as int, nlon as int) == Some(x),
        },
{
    match read_ensemble(raw) {
        Err(x) => Err(IngestError::Ensemble(x)),
        Ok(g) => {
            if g.n0 == nlon && g.n1 == nlat && g.n2 == NMEMBER {
                Ok(g)
            } else {
                Err(IngestError::EnsembleShape)
            }
        },
    }
}

/// Adds one month to a layer, given the month's files. A faulty file leaves the layer as it was.
#[verifier::rlimit(30)]
pub fn add_month(cfg: &RunConfig, data: &mut LayerData, mean: &[u8], ensemble: Option<&[u8]>) -> (r: Result<
    (),
    IngestError,
>)
    requires
        old(data).wf(),
        ensemble is Some <==> old(data).ohc_ensemble is Some,
    ensures
        final(data).wf(),
        match month_fault(
            mean@,
            bytes_of(ensemble),
            old(data).ohc_mean.nlat as int,
            old(data).ohc_mean.nlon as int,
        ) {
            Some(x) => r == Err::<(), IngestError>(x) && *final(data) == *old(data),
            None => r is Ok && month_added(
                *old(data),
                *final(data),
                mean@,
                bytes_of(ensemble),
                cfg.missing_sentinel,
                times(cfg.cp0, cfg.rho0),
            ),
        },
{
    let (nlat, nlon) = (data.ohc_mean.nlat, data.ohc_mean.nlon);
    let sentinel: Option<u64> = cfg.missing_sentinel;
    let scale: u64 = multiply(cfg.cp0, cfg.rho0);
    let raw_mean = match checked_mean(mean, nlat, nlon) {
        Err(x) => {
            return Err(x);
        },
        Ok(g) => g,
    };
    let raw_ensemble: Option<Grid3<u64>> = match ensemble {
        None => None,
        Some(raw) => match checked_ensemble(raw, nlat, nlon) {
            Err(x) => {
                return Err(x);
            },
            Ok(g) => Some(g),
        },
    };
    let map = heat_map(&raw_mean, sentinel, scale);
    proof {
        let m = array_in(mean@);
        assert forall|j: int, i: int| 0 <= j < nlat && 0 <= i < nlon implies #[trigger] map.at(j, i) == heat(
            column_major(m.data, nlon as int, i, j),
            sentinel,
            scale,
        ) by {
            assert(raw_mean.at(i, j) == column_major(m.data, nlon as int, i, j));
        }
    }
    data.ohc_mean.maps.push(map);
    assert(data.ohc_mean.maps@.take(old(data).ohc_mean.maps.len() as int) =~= old(data).ohc_mean.maps@);
    match (&mut data.ohc_ensemble, &raw_ensemble) {
        (Some(stacks), Some(g)) => {
            let ghost before = stacks@;
            add_members(stacks, g, sentinel, scale);
            proof {
                let a = array_in(ensemble->0@);
                assert forall|m: int| 0 <= m < NMEMBER implies extended(before[m], #[trigger] stacks@[m])
                    && is_heat_member(stacks@[m].maps@.last(), a, m, nlat as int, nlon as int, sentinel, scale)
                    && stacks@[m].wf() by {
                    let (old_stack, stack) = (before[m], stacks@[m]);
                    let last = stack.maps@.last();
                    assert forall|j: int, i: int| 0 <= j < nlat && 0 <= i < nlon implies #[trigger] last.at(j, i) == heat(
                        column_major(a.data, nlon as int, i, j + nlat * m),
                        sentinel,
                        scale,
                    ) by {
                        assert(g.at(i, j, m) == column_major(a.data, nlon as int, i, j + nlat * m));
                    }
                    assert forall|t: int| 0 <= t < stack.maps.len() implies (#[trigger] stack.maps@[t]).shaped(
                        nlat as int,
                        nlon as int,
                    ) by {
                        if t < old_stack.maps.len() {
                            assert(stack.maps@[t] == stack.maps@.take(old_stack.maps.len() as int)[t]);
                            assert(old_stack.maps@[t].shaped(nlat as int, nlon as int));
                        }
                    }
                }
            }
        },
        _ => {},
    }
    Ok(())
}

/// The files of one month.
#[derive(Debug, Clone)]
pub struct MonthFiles {
    pub mean: Vec<u8>,
    /// Absent in a mean-only run.
    pub ensemble: Option<Vec<u8>>,
}

impl MonthFiles {
    /// The bytes of the ensemble file, where the run has an ensemble.
    pub open spec fn ensemble_bytes(&self, mean_only: bool) -> Option<Seq<u8>> {
        match self.ensemble {
            Some(raw) if !mean_only => Some(raw@),
            _ => None,
        }
    }
}

/// The first faulty month of a layer, and what is wrong with it.
#[derive(Debug, Clone, Copy, PartialEq, Eq)]
pub struct MonthError {
    pub year: i32,
    pub month: u32,
    pub error: IngestError,
}

/// Why the month at a place of the time axis is faulty, where it is.
pub open spec fn fault_at(files: Seq<MonthFiles>, t: int, mean_only: bool, nlat: int, nlon: int) -> Option<IngestError> {
    month_fault(files[t].mean@, files[t].ensemble_bytes(mean_only), nlat, nlon)
}

/// The first months of the files are in the stacks, month by month and member by member.
pub open spec fn holds_months(
    data: LayerData,
    files: Seq<MonthFiles>,
    count: int,
    mean_only: bool,
    sentinel: Option<u64>,
    scale: u64,
) -> bool {
    let (nlat, nlon) = (data.ohc_mean.nlat as int, data.ohc_mean.nlon as int);
    &&& data.ohc_mean.maps.len() == count
    &&& forall|t: int|
        0 <= t < count ==> is_heat_map(
            #[trigger] data.ohc_mean.maps@[t],
            array_in(files[t].mean@),
            nlat,
            nlon,
            sentinel,
            scale,
        )
    &&& match data.ohc_ensemble {
        None => mean_only,
        Some(stacks) => {
            &&& !mean_only
            &&& stacks.len() == NMEMBER
            &&& forall|m: int| 0 <= m < NMEMBER ==> (#[trigger] stacks@[m]).maps.len() == count
            &&& forall|m: int, t: int|
                0 <= m < NMEMBER && 0 <= t < count ==> is_heat_member(
                    #[trigger] stacks@[m].maps@[t],
                    array_in(files[t].ensemble->0@),
                    m,
                    nlat,
                    nlon,
                    sentinel,
                    scale,
                )
        },
    }
}

/// Adding a month keeps the months before it: a layer that holds the first months of the files, and
/// gets the next one, holds one month more.
pub proof fn law_month_keeps_those_before(
    before: LayerData,
    after: LayerData,
    files: Seq<MonthFiles>,
    t: int,
    mean_only: bool,
    sentinel: Option<u64>,
    scale: u64,
)
    requires
        0 <= t < files.len(),
        !mean_only ==> files[t].ensemble is Some,
        before.wf(),
        after.wf(),
        holds_months(before, files, t, mean_only, sentinel, scale),
        month_added(before, after, files[t].mean@, files[t].ensemble_bytes(mean_only), sentinel, scale),
    ensures
        holds_months(after, files, t + 1, mean_only, sentinel, scale),
        after.ohc_mean.nlat == before.ohc_mean.nlat,
        after.ohc_mean.nlon == before.ohc_mean.nlon,
{
    let (nlat, nlon) = (before.ohc_mean.nlat as int, before.ohc_mean.nlon as int);
    assert forall|s: int| 0 <= s < t + 1 implies is_heat_map(
        #[trigger] after.ohc_mean.maps@[s],
        array_in(files[s].mean@),
        nlat,
        nlon,
        sentinel,
        scale,
    ) by {
        if s < t {
            assert(after.ohc_mean.maps@[s] == after.ohc_mean.maps@.take(t)[s]);
            assert(before.ohc_mean.maps@[s] == after.ohc_mean.maps@[s]);
        }
    }
    if !mean_only {
        let (old_stacks, new_stacks) = (before.ohc_ensemble->0, after.ohc_ensemble->0);
        assert forall|m: int, s: int| 0 <= m < NMEMBER && 0 <= s < t + 1 implies is_heat_member(
            #[trigger] new_stacks@[m].maps@[s],
            array_in(files[s].ensemble->0@),
            m,
            nlat,
            nlon,
            sentinel,
            scale,
        ) by {
            assert(extended(old_stacks@[m], new_stacks@[m]));
            if s < t {
                assert(new_stacks@[m].maps@[s] == new_stacks@[m].maps@.take(t)[s]);
                assert(old_stacks@[m].maps@[s] == new_stacks@[m].maps@[s]);
            }
        }
    }
}

/// A layer in the making: its months, and what of them has been read. The months are read in order,
/// and the stacks hold those before the next one.
#[derive(Debug)]
pub struct LayerIngest {
    pub axis: Vec<(i32, u32)>,
    pub data: LayerData,
}

impl LayerIngest {
    /// The stacks hold no more months than there are.
    pub open spec fn wf(&self) -> bool {
        self.data.wf() && self.data.ohc_mean.maps.len() <= self.axis.len()
    }

    /// How many months have been read.
    pub open spec fn done(&self) -> int {
        self.data.ohc_mean.maps.len() as int
    }

    /// Begins with the first month of a slice.
    pub fn start(slice: &Slice, grid: &GridDef, mean_only: bool) -> (r: Self)
        ensures
            r.wf(),
            r.done() == 0,
            r.axis@ == months_between(slice.years@[0] as int, slice.years@[1] as int),
            r.data.ohc_mean.nlat == grid.lat.len(),
            r.data.ohc_mean.nlon == grid.lon.len(),
            r.data.ohc_ensemble is None <==> mean_only,
    {
        LayerIngest { axis: slice.time_axis(), data: LayerData::empty(grid, mean_only) }
    }

    /// The month whose files are to be read next. Where there is none, the layer is complete.
    pub fn next_month(&self) -> (r: Option<(i32, u32)>)
        requires
            self.wf(),
        ensures
            r == if self.done() < self.axis.len() {
                Some(self.axis@[self.done()])
            } else {
                None
            },
    {
        let t: usize = self.data.ohc_mean.maps.len();
        if t < self.axis.len() {
            Some(self.axis[t])
        } else {
            None
        }
    }

    /// Adds the next month, given its files. A faulty file leaves the layer as it was.
    pub fn add_next(&mut self, cfg: &RunConfig, mean: &[u8], ensemble: Option<&[u8]>) -> (r: Result<(), MonthError>)
        requires
            old(self).wf(),
            old(self).done() < old(self).axis.len(),
            ensemble is Some <==> old(self).data.ohc_ensemble is Some,
        ensures
            final(self).wf(),
            final(self).axis@ == old(self).axis@,
            match month_fault(
                mean@,
                bytes_of(ensemble),
                old(self).data.ohc_mean.nlat as int,
                old(self).data.ohc_mean.nlon as int,
            ) {
                Some(error) => {
                    let (year, month) = old(self).axis@[old(self).done()];
                    r == Err::<(), MonthError>(MonthError { year, month, error }) && final(self).data == old(self).data
                },
                None => r is Ok && month_added(
                    old(self).data,
                    final(self).data,
                    mean@,
                    bytes_of(ensemble),
                    cfg.missing_sentinel,
                    times(cfg.cp0, cfg.rho0),
                ),
            },
    {
        let (year, month) = self.axis[self.data.ohc_mean.maps.len()];
        match add_month(cfg, &mut self.data, mean, ensemble) {
            Err(error) => Err(MonthError { year, month, error }),
            Ok(()) => Ok(()),
        }
    }
}

/// Ingests a layer from the files of its months, one after the other. `mean_only` leaves the
/// ensemble files unread and the layer without an ensemble.
pub fn ingest_layer(cfg: &RunConfig, slice: &Slice, grid: &GridDef, mean_only: bool, files: &Vec<MonthFiles>) -> (r: Result<
    LayerData,
    MonthError,
>)
    requires
        files.len() == months_between(slice.years@[0] as int, slice.years@[1] as int).len(),
        !mean_only ==> forall|t: int| 0 <= t < files.len() ==> (#[trigger] files@[t]).ensemble is Some,
    ensures
        match r {
            Ok(data) => {
                &&& data.wf()
                &&& data.ohc_mean.nlat == grid.lat.len()
                &&& data.ohc_mean.nlon == grid.lon.len()
                &&& forall|t: int|
                    0 <= t < files.len() ==> #[trigger] fault_at(
                        files@,
                        t,
                        mean_only,
                        grid.lat.len() as int,
                        grid.lon.len() as int,
                    ) is None
                &&& holds_months(
                    data,
                    files@,
                    files.len() as int,
                    mean_only,
                    cfg.missing_sentinel,
                    times(cfg.cp0, cfg.rho0),
                )
            },
            Err(e) => exists|t: int|
                {
                    &&& 0 <= t < files.len()
                    &&& #[trigger] fault_at(files@, t, mean_only, grid.lat.len() as int, grid.lon.len() as int) == Some(
                        e.error,
                    )
                    &&& (e.year, e.month) == months_between(slice.years@[0] as int, slice.years@[1] as int)[t]
                    &&& forall|s: int|
                        0 <= s < t ==> #[trigger] fault_at(
                            files@,
                            s,
                            mean_only,
                            grid.lat.len() as int,
                            grid.lon.len() as int,
                        ) is None
                },
        },
{
    let mut run = LayerIngest::start(slice, grid, mean_only);
    let ghost time = months_between(slice.years@[0] as int, slice.years@[1] as int);
    let ghost scale = times(cfg.cp0, cfg.rho0);
    let mut t: usize = 0;
    while t < files.len()
        invariant
            t <= files.len(),
            run.wf(),
            run.done() == t,
            run.axis@ == time,
            time.len() == files.len(),
            time == months_between(slice.years@[0] as int, slice.years@[1] as int),
            scale == times(cfg.cp0, cfg.rho0),
            !mean_only ==> forall|s: int| 0 <= s < files.len() ==> (#[trigger] files@[s]).ensemble is Some,
            run.data.ohc_mean.nlat == grid.lat.len(),
            run.data.ohc_mean.nlon == grid.lon.len(),
            forall|s: int|
                0 <= s < t ==> #[trigger] fault_at(
                    files@,
                    s,
                    mean_only,
                    grid.lat.len() as int,
                    grid.lon.len() as int,
                ) is None,
            holds_months(run.data, files@, t as int, mean_only, cfg.missing_sentinel, scale),
        decreases files.len() - t,
    {
        let ghost before = run.data;
        let ensemble: Option<&[u8]> = if mean_only {
            None
        } else {
            match &files[t].ensemble {
                Some(raw) => Some(raw.as_slice()),
                None => None,
            }
        };
        assert(fault_at(files@, t as int, mean_only, grid.lat.len() as int, grid.lon.len() as int) == month_fault(
            files@[t as int].mean@,
            bytes_of(ensemble),
            grid.lat.len() as int,
            grid.lon.len() as int,
        ));
        match run.add_next(cfg, files[t].mean.as_slice(), ensemble) {
            Err(e) => {
                return Err(e);
            },
            Ok(()) => {
                proof {
                    law_month_keeps_those_before(before, run.data, files@, t as int, mean_only, cfg.missing_sentinel, scale);
                }
            },
        }
        t = t + 1;
    }
    Ok(run.data)
}

/// A missing value stays missing: NaN, and the value that stands for a missing one, become NaN.
pub proof fn law_missing_stays_missing(raw: u64, sentinel: Option<u64>, scale: u64)
    requires
        nan(raw) || (sentinel matches Some(v) && same(raw, v)),
    ensures
        heat(raw, sentinel, scale) == NAN_BITS,
        nan(heat(raw, sentinel, scale)),
{
    assert(nan(NAN_BITS));
    crate::rounding::law_product_is_unique(cleaned(raw, sentinel), scale, NAN_BITS);
}

/// Any other value is scaled by the product of the two constants and nothing else.
pub proof fn law_other_values_are_scaled(raw: u64, sentinel: Option<u64>, scale: u64)
    requires
        !(sentinel matches Some(v) && same(raw, v)),
    ensures
        heat(raw, sentinel, scale) == times(raw, scale),
{
}

/// Scaling a finite value by a finite constant makes no value missing.
pub proof fn law_scaling_makes_nothing_missing(raw: u64, sentinel: Option<u64>, scale: u64)
    requires
        crate::double::finite(raw),
        crate::double::finite(scale),
        !(sentinel matches Some(v) && same(raw, v)),
    ensures
        !nan(heat(raw, sentinel, scale)),
{
    crate::rounding::law_product_exists(raw, scale);
}

} // verus!
