//! The `mask_flags` bit band.
//!
//! One byte per cell per layer, time-invariant, with one bit for each independent reason to leave
//! the cell out. Data is never destroyed: which reasons count is chosen downstream, by a bitwise
//! test.

use vstd::prelude::*;

use crate::config::{LayerSpec, RunConfig};
use crate::double::{above, dyadic, finite, greater, is_finite, nan, negated, one, units};
use crate::grid::{lemma_place, Grid2, GridDef, MapStack};
use crate::ingest::LayerData;

verus! {

/// The seabed is shallower than the layer's top: the layer is all rock.
pub const BED_ABOVE_SHALLOW: u8 = 1;

/// The seabed is shallower than the layer's bottom: the layer is cut or all rock.
pub const BED_ABOVE_DEEP: u8 = 2;

/// The cell is outside the kept latitudes.
pub const OUTSIDE_LATITUDE: u8 = 4;

/// The cell lies in a basin that is dropped.
pub const REMOVED_BASIN: u8 = 8;

/// No month has a value.
pub const NEVER_ESTIMATED: u8 = 16;

/// Some months have a value and some have none.
pub const INCOMPLETE_TIMESERIES: u8 = 32;

/// The seabed is shallower than a fixed floor, the same for every layer.
pub const BED_ABOVE_FLOOR: u8 = 64;

/// Some ensemble member lacks a month.
pub const ENSEMBLE_INCOMPLETE: u8 = 128;

/// The CF `flag_masks` values, aligned with `FLAG_MEANINGS`. `ENSEMBLE_INCOMPLETE` is deliberately not
/// listed: it says something of the ensemble, not of the mean, and a mean-only store never sets it.
pub const FLAG_MASKS: [u8; 7] = [1, 2, 4, 8, 16, 32, 64];

/// The CF `flag_meanings`, aligned with `FLAG_MASKS`.
pub const FLAG_MEANINGS: &'static str =
    "bed_above_shallow bed_above_deep outside_latitude removed_basin never_estimated incomplete_timeseries bed_above_floor";

/// The selector of fully usable cells: `flags & USABLE == 0`. Like the flag lists it leaves
/// `ENSEMBLE_INCOMPLETE` out.
pub const USABLE: u8 = BED_ABOVE_SHALLOW | BED_ABOVE_DEEP | OUTSIDE_LATITUDE | REMOVED_BASIN | NEVER_ESTIMATED
    | INCOMPLETE_TIMESERIES | BED_ABOVE_FLOOR;

/// No month has a value at the cell.
pub open spec fn never_valid(stack: MapStack, j: int, i: int) -> bool {
    forall|t: int| 0 <= t < stack.maps.len() ==> !finite(#[trigger] stack.maps@[t].at(j, i))
}

/// Some month has no value at the cell.
pub open spec fn sometimes_invalid(stack: MapStack, j: int, i: int) -> bool {
    exists|t: int| 0 <= t < stack.maps.len() && !finite(#[trigger] stack.maps@[t].at(j, i))
}

/// Temporal validity of a stack of maps: where no month has a value, and where some but not all
/// months lack one. A value is a finite number.
pub fn compute_validity(mean_stack: &MapStack) -> (r: (Grid2<bool>, Grid2<bool>))
    requires
        mean_stack.wf(),
        mean_stack.nlat * mean_stack.nlon <= usize::MAX,
    ensures
        r.0.shaped(mean_stack.nlat as int, mean_stack.nlon as int),
        r.1.shaped(mean_stack.nlat as int, mean_stack.nlon as int),
        forall|j: int, i: int|
            0 <= j < mean_stack.nlat && 0 <= i < mean_stack.nlon ==> #[trigger] r.0.at(j, i) == never_valid(
                *mean_stack,
                j,
                i,
            ),
        forall|j: int, i: int|
            0 <= j < mean_stack.nlat && 0 <= i < mean_stack.nlon ==> #[trigger] r.1.at(j, i) == (sometimes_invalid(
                *mean_stack,
                j,
                i,
            ) && !never_valid(*mean_stack, j, i)),
{
    let nlat: usize = mean_stack.nlat;
    let nlon: usize = mean_stack.nlon;
    let mut never = Grid2::<bool>::filled(nlat, nlon, false);
    let mut incomplete = Grid2::<bool>::filled(nlat, nlon, false);
    let mut j: usize = 0;
    while j < nlat
        invariant
            j <= nlat == mean_stack.nlat,
            nlon == mean_stack.nlon,
            mean_stack.wf(),
            never.shaped(nlat as int, nlon as int),
            incomplete.shaped(nlat as int, nlon as int),
            forall|b: int, a: int|
                0 <= b < j && 0 <= a < nlon ==> #[trigger] never.at(b, a) == never_valid(*mean_stack, b, a),
            forall|b: int, a: int|
                0 <= b < j && 0 <= a < nlon ==> #[trigger] incomplete.at(b, a) == (sometimes_invalid(*mean_stack, b, a)
                    && !never_valid(*mean_stack, b, a)),
        decreases nlat - j,
    {
        let mut i: usize = 0;
        while i < nlon
            invariant
                j < nlat == mean_stack.nlat,
                i <= nlon == mean_stack.nlon,
                mean_stack.wf(),
                never.shaped(nlat as int, nlon as int),
                incomplete.shaped(nlat as int, nlon as int),
                forall|b: int, a: int|
                    0 <= b < nlat && 0 <= a < nlon && (b < j || (b == j && a < i)) ==> #[trigger] never.at(b, a)
                        == never_valid(*mean_stack, b, a),
                forall|b: int, a: int|
                    0 <= b < nlat && 0 <= a < nlon && (b < j || (b == j && a < i)) ==> #[trigger] incomplete.at(b, a)
                        == (sometimes_invalid(*mean_stack, b, a) && !never_valid(*mean_stack, b, a)),
            decreases nlon - i,
        {
            let (any, all) = column_validity(mean_stack, j, i);
            never.set(j, i, all);
            incomplete.set(j, i, any && !all);
            i = i + 1;
        }
        j = j + 1;
    }
    (never, incomplete)
}

/// Whether some month, and whether every month, lacks a value at a cell.
fn column_validity(stack: &MapStack, j: usize, i: usize) -> (r: (bool, bool))
    requires
        stack.wf(),
        j < stack.nlat,
        i < stack.nlon,
    ensures
        r.0 == sometimes_invalid(*stack, j as int, i as int),
        r.1 == never_valid(*stack, j as int, i as int),
{
    let mut any: bool = false;
    let mut all: bool = true;
    let mut t: usize = 0;
    while t < stack.maps.len()
        invariant
            t <= stack.maps.len(),
            stack.wf(),
            j < stack.nlat,
            i < stack.nlon,
            any == exists|s: int| 0 <= s < t && !finite(#[trigger] stack.maps@[s].at(j as int, i as int)),
            all == forall|s: int| 0 <= s < t ==> !finite(#[trigger] stack.maps@[s].at(j as int, i as int)),
        decreases stack.maps.len() - t,
    {
        let missing: bool = !is_finite(stack.maps[t].get(j, i));
        assert(missing == !finite(stack.maps@[t as int].at(j as int, i as int)));
        any = any || missing;
        all = all && missing;
        t = t + 1;
    }
    (any, all)
}

/// Some member lacks a value in some month at the cell.
pub open spec fn ensemble_gap(members: Seq<MapStack>, j: int, i: int) -> bool {
    exists|m: int| 0 <= m < members.len() && #[trigger] sometimes_invalid(members[m], j, i)
}

/// Where some ensemble member lacks some month: the union of the members' gaps.
pub fn compute_ensemble_incomplete(members: &Vec<MapStack>, nlat: usize, nlon: usize) -> (r: Grid2<bool>)
    requires
        nlat * nlon <= usize::MAX,
        forall|m: int|
            0 <= m < members.len() ==> (#[trigger] members@[m]).wf() && members@[m].nlat == nlat && members@[m].nlon
                == nlon,
    ensures
        r.shaped(nlat as int, nlon as int),
        forall|j: int, i: int|
            0 <= j < nlat && 0 <= i < nlon ==> #[trigger] r.at(j, i) == ensemble_gap(members@, j, i),
{
    let mut out = Grid2::<bool>::filled(nlat, nlon, false);
    let mut j: usize = 0;
    while j < nlat
        invariant
            j <= nlat,
            out.shaped(nlat as int, nlon as int),
            forall|m: int|
                0 <= m < members.len() ==> (#[trigger] members@[m]).wf() && members@[m].nlat == nlat
                    && members@[m].nlon == nlon,
            forall|b: int, a: int|
                0 <= b < j && 0 <= a < nlon ==> #[trigger] out.at(b, a) == ensemble_gap(members@, b, a),
        decreases nlat - j,
    {
        let mut i: usize = 0;
        while i < nlon
            invariant
                j < nlat,
                i <= nlon,
                out.shaped(nlat as int, nlon as int),
                forall|m: int|
                    0 <= m < members.len() ==> (#[trigger] members@[m]).wf() && members@[m].nlat == nlat
                        && members@[m].nlon == nlon,
                forall|b: int, a: int|
                    0 <= b < nlat && 0 <= a < nlon && (b < j || (b == j && a < i)) ==> #[trigger] out.at(b, a)
                        == ensemble_gap(members@, b, a),
            decreases nlon - i,
        {
            let mut found: bool = false;
            let mut m: usize = 0;
            while m < members.len()
                invariant
                    m <= members.len(),
                    j < nlat,
                    i < nlon,
                    forall|k: int|
                        0 <= k < members.len() ==> (#[trigger] members@[k]).wf() && members@[k].nlat == nlat
                            && members@[k].nlon == nlon,
                    found == exists|k: int|
                        0 <= k < m && #[trigger] sometimes_invalid(members@[k], j as int, i as int),
                decreases members.len() - m,
            {
                let (any, _) = column_validity(&members[m], j, i);
                assert(any == sometimes_invalid(members@[m as int], j as int, i as int));
                found = found || any;
                m = m + 1;
            }
            out.set(j, i, found);
            i = i + 1;
        }
        j = j + 1;
    }
    out
}

/// The seabed is above a depth of whole metres. Heights are negative below sea level, and an
/// unknown height is above nothing.
pub open spec fn bed_above(bed: u64, depth: int) -> bool {
    !nan(bed) && units(bed) > -depth * one()
}

/// The seabed is above a depth in metres that is a double.
pub open spec fn bed_above_double(bed: u64, depth: u64) -> bool {
    !nan(bed) && !nan(depth) && units(bed) > -units(depth)
}

/// `mask` where the reason holds, nothing elsewhere.
pub open spec fn bit(reason: bool, mask: u8) -> u8 {
    if reason {
        mask
    } else {
        0
    }
}

/// The flags of one cell: one bit for each reason that holds.
pub open spec fn cell_flags(
    layer: LayerSpec,
    bed: u64,
    outside: bool,
    removed: bool,
    floor: Option<u64>,
    never: bool,
    incomplete: bool,
) -> u8 {
    bit(bed_above(bed, layer.top as int), BED_ABOVE_SHALLOW) | bit(bed_above(bed, layer.bottom as int), BED_ABOVE_DEEP)
        | bit(floor matches Some(d) && bed_above_double(bed, d), BED_ABOVE_FLOOR) | bit(outside, OUTSIDE_LATITUDE)
        | bit(removed, REMOVED_BASIN) | bit(never, NEVER_ESTIMATED) | bit(incomplete, INCOMPLETE_TIMESERIES)
}

/// The latitude is outside the kept range.
pub open spec fn outside_range(lat: u64, range: [u64; 2]) -> bool {
    above(range@[0], lat) || above(lat, range@[1])
}

/// The cell lies in one of the dropped basins.
pub open spec fn in_removed(basin: Option<&Grid2<i16>>, removed: Seq<i16>, j: int, i: int) -> bool {
    basin matches Some(b) && removed.contains(b.at(j, i))
}

/// Monotonic bathymetry is violated: above the layer's top and yet not above its bottom.
pub open spec fn impossible(layer: LayerSpec, bed: u64) -> bool {
    bed_above(bed, layer.top as int) && !bed_above(bed, layer.bottom as int)
}

/// Which input has the wrong shape.
#[derive(Debug, Clone, Copy, PartialEq, Eq)]
pub enum FlagInput {
    Etopo,
    Never,
    Incomplete,
}

/// Why no flag band was made.
#[derive(Debug, Clone, Copy, PartialEq, Eq)]
pub enum FlagsError {
    /// An input has not the grid's shape.
    Shape { input: FlagInput, nrow: usize, ncol: usize },
    /// At row `j` and column `i` the shallow bit is set and the deep bit is not.
    Sentinel { j: usize, i: usize, lat: u64, lon: u64 },
}

/// Whether a list holds a basin id.
fn holds(list: &[i16], id: i16) -> (r: bool)
    ensures
        r == list@.contains(id),
{
    let mut k: usize = 0;
    while k < list.len()
        invariant
            k <= list.len(),
            forall|m: int| 0 <= m < k ==> list@[m] != id,
        decreases list.len() - k,
    {
        if list[k] == id {
            assert(list@[k as int] == id);
            return true;
        }
        k = k + 1;
    }
    false
}

/// Whether the seabed is above a depth of whole metres.
fn is_bed_above(bed: u64, depth: i32) -> (r: bool)
    ensures
        r == bed_above(bed, depth as int),
{
    let level: u64 = dyadic(-(depth as i64), 0);
    proof {
        vstd::arithmetic::power2::lemma2_to64();
        assert(units(level) * 1 == units(level));
        crate::double::lemma_fields(level);
    }
    greater(bed, level)
}

/// Builds the flag band of one layer.
///
/// `etopo`, `basin_id`, `never` and `incomplete` are maps on the grid; without `basin_id` no basin
/// is removed. `bathy_floor_m` sets `BED_ABOVE_FLOOR` against one depth for every layer; without
/// it that bit stays unset. Fails at the first cell, row by row, that is above the layer's top and
/// not above its bottom.
pub fn build_flags(
    grid: &GridDef,
    layer: &LayerSpec,
    etopo: &Grid2<u64>,
    basin_id: Option<&Grid2<i16>>,
    latitude_range_to_keep: [u64; 2],
    basins_to_remove: &[i16],
    bathy_floor_m: Option<u64>,
    never: &Grid2<bool>,
    incomplete: &Grid2<bool>,
) -> (r: Result<Grid2<u8>, FlagsError>)
    requires
        etopo.wf(),
        never.wf(),
        incomplete.wf(),
        basin_id matches Some(b) ==> b.wf() && b.nrow >= grid.lat.len() && b.ncol >= grid.lon.len(),
    ensures
        match r {
            Ok(f) => {
                &&& etopo.shaped(grid.lat.len() as int, grid.lon.len() as int)
                &&& never.shaped(grid.lat.len() as int, grid.lon.len() as int)
                &&& incomplete.shaped(grid.lat.len() as int, grid.lon.len() as int)
                &&& f.shaped(grid.lat.len() as int, grid.lon.len() as int)
                &&& forall|j: int, i: int|
                    0 <= j < grid.lat.len() && 0 <= i < grid.lon.len() ==> #[trigger] f.at(j, i) == cell_flags(
                        *layer,
                        etopo.at(j, i),
                        outside_range(grid.lat@[j], latitude_range_to_keep),
                        in_removed(basin_id, basins_to_remove@, j, i),
                        bathy_floor_m,
                        never.at(j, i),
                        incomplete.at(j, i),
                    )
                &&& forall|j: int, i: int|
                    0 <= j < grid.lat.len() && 0 <= i < grid.lon.len() ==> !impossible(*layer, #[trigger] etopo.at(j, i))
            },
            Err(FlagsError::Shape { input, nrow, ncol }) => {
                let (nlat, nlon) = (grid.lat.len() as int, grid.lon.len() as int);
                match input {
                    FlagInput::Etopo => {
                        &&& !etopo.shaped(nlat, nlon)
                        &&& nrow == etopo.nrow && ncol == etopo.ncol
                    },
                    FlagInput::Never => {
                        &&& etopo.shaped(nlat, nlon)
                        &&& !never.shaped(nlat, nlon)
                        &&& nrow == never.nrow && ncol == never.ncol
                    },
                    FlagInput::Incomplete => {
                        &&& etopo.shaped(nlat, nlon)
                        &&& never.shaped(nlat, nlon)
                        &&& !incomplete.shaped(nlat, nlon)
                        &&& nrow == incomplete.nrow && ncol == incomplete.ncol
                    },
                }
            },
            Err(FlagsError::Sentinel { j, i, lat, lon }) => {
                &&& etopo.shaped(grid.lat.len() as int, grid.lon.len() as int)
                &&& never.shaped(grid.lat.len() as int, grid.lon.len() as int)
                &&& incomplete.shaped(grid.lat.len() as int, grid.lon.len() as int)
                &&& j < grid.lat.len() && i < grid.lon.len()
                &&& lat == grid.lat@[j as int] && lon == grid.lon@[i as int]
                &&& impossible(*layer, etopo.at(j as int, i as int))
                &&& forall|b: int, a: int|
                    0 <= b < grid.lat.len() && 0 <= a < grid.lon.len() && (b < j || (b == j && a < i)) ==> !impossible(
                        *layer,
                        #[trigger] etopo.at(b, a),
                    )
            },
        },
{
    let nlat: usize = grid.nlat();
    let nlon: usize = grid.nlon();
    if etopo.nrow != nlat || etopo.ncol != nlon {
        return Err(FlagsError::Shape { input: FlagInput::Etopo, nrow: etopo.nrow, ncol: etopo.ncol });
    }
    if never.nrow != nlat || never.ncol != nlon {
        return Err(FlagsError::Shape { input: FlagInput::Never, nrow: never.nrow, ncol: never.ncol });
    }
    if incomplete.nrow != nlat || incomplete.ncol != nlon {
        return Err(FlagsError::Shape { input: FlagInput::Incomplete, nrow: incomplete.nrow, ncol: incomplete.ncol });
    }
    let lo: u64 = latitude_range_to_keep[0];
    let hi: u64 = latitude_range_to_keep[1];
    let mut flags = Grid2::<u8>::filled(nlat, nlon, 0);
    let mut j: usize = 0;
    while j < nlat
        invariant
            j <= nlat == grid.lat.len(),
            nlon == grid.lon.len(),
            lo == latitude_range_to_keep@[0],
            hi == latitude_range_to_keep@[1],
            etopo.shaped(nlat as int, nlon as int),
            never.shaped(nlat as int, nlon as int),
            incomplete.shaped(nlat as int, nlon as int),
            basin_id matches Some(b) ==> b.wf() && b.nrow >= nlat && b.ncol >= nlon,
            flags.shaped(nlat as int, nlon as int),
            forall|b: int, a: int|
                0 <= b < j && 0 <= a < nlon ==> #[trigger] flags.at(b, a) == cell_flags(
                    *layer,
                    etopo.at(b, a),
                    outside_range(grid.lat@[b], latitude_range_to_keep),
                    in_removed(basin_id, basins_to_remove@, b, a),
                    bathy_floor_m,
                    never.at(b, a),
                    incomplete.at(b, a),
                ),
            forall|b: int, a: int| 0 <= b < j && 0 <= a < nlon ==> !impossible(*layer, #[trigger] etopo.at(b, a)),
        decreases nlat - j,
    {
        let lat: u64 = grid.lat[j];
        let outside: bool = greater(lo, lat) || greater(lat, hi);
        let mut i: usize = 0;
        while i < nlon
            invariant
                j < nlat == grid.lat.len(),
                i <= nlon == grid.lon.len(),
                lat == grid.lat@[j as int],
                outside == outside_range(lat, latitude_range_to_keep),
                etopo.shaped(nlat as int, nlon as int),
                never.shaped(nlat as int, nlon as int),
                incomplete.shaped(nlat as int, nlon as int),
                basin_id matches Some(b) ==> b.wf() && b.nrow >= nlat && b.ncol >= nlon,
                flags.shaped(nlat as int, nlon as int),
                forall|b: int, a: int|
                    0 <= b < nlat && 0 <= a < nlon && (b < j || (b == j && a < i)) ==> #[trigger] flags.at(b, a)
                        == cell_flags(
                        *layer,
                        etopo.at(b, a),
                        outside_range(grid.lat@[b], latitude_range_to_keep),
                        in_removed(basin_id, basins_to_remove@, b, a),
                        bathy_floor_m,
                        never.at(b, a),
                        incomplete.at(b, a),
                    ),
                forall|b: int, a: int|
                    0 <= b < nlat && 0 <= a < nlon && (b < j || (b == j && a < i)) ==> !impossible(
                        *layer,
                        #[trigger] etopo.at(b, a),
                    ),
            decreases nlon - i,
        {
            let bed: u64 = etopo.get(j, i);
            let shallow: bool = is_bed_above(bed, layer.top);
            let deep: bool = is_bed_above(bed, layer.bottom);
            let floored: bool = match bathy_floor_m {
                Some(d) => greater(bed, negated(d)),
                None => false,
            };
            let removed: bool = match basin_id {
                Some(b) => holds(basins_to_remove, b.get(j, i)),
                None => false,
            };
            let f: u8 = (if shallow { BED_ABOVE_SHALLOW } else { 0 }) | (if deep { BED_ABOVE_DEEP } else { 0 })
                | (if floored { BED_ABOVE_FLOOR } else { 0 }) | (if outside { OUTSIDE_LATITUDE } else { 0 })
                | (if removed { REMOVED_BASIN } else { 0 }) | (if never.get(j, i) { NEVER_ESTIMATED } else { 0 })
                | (if incomplete.get(j, i) { INCOMPLETE_TIMESERIES } else { 0 });
            if shallow && !deep {
                return Err(FlagsError::Sentinel { j, i, lat, lon: grid.lon[i] });
            }
            flags.set(j, i, f);
            i = i + 1;
        }
        j = j + 1;
    }
    Ok(flags)
}

/// Sets `ENSEMBLE_INCOMPLETE` where some ensemble member lacks some month, and leaves the other
/// bits alone.
pub fn mark_ensemble_incomplete(flags: &mut Grid2<u8>, gaps: &Grid2<bool>)
    requires
        old(flags).wf(),
        gaps.shaped(old(flags).nrow as int, old(flags).ncol as int),
    ensures
        final(flags).shaped(old(flags).nrow as int, old(flags).ncol as int),
        forall|j: int, i: int|
            0 <= j < old(flags).nrow && 0 <= i < old(flags).ncol ==> #[trigger] final(flags).at(j, i) == old(flags).at(
                j,
                i,
            ) | bit(gaps.at(j, i), ENSEMBLE_INCOMPLETE),
{
    let ghost before = *old(flags);
    let n: usize = flags.cells.len();
    let mut k: usize = 0;
    while k < n
        invariant
            k <= n,
            n == before.cells.len(),
            before == *old(flags),
            before.wf(),
            flags.cells.len() == n,
            flags.nrow == before.nrow,
            flags.ncol == before.ncol,
            gaps.shaped(before.nrow as int, before.ncol as int),
            forall|m: int|
                0 <= m < k ==> #[trigger] flags.cells@[m] == before.cells@[m] | bit(gaps.cells@[m], ENSEMBLE_INCOMPLETE),
            forall|m: int| k <= m < n ==> #[trigger] flags.cells@[m] == before.cells@[m],
        decreases n - k,
    {
        let f: u8 = flags.cells[k];
        assert(f | 0 == f) by (bit_vector);
        if gaps.cells[k] {
            flags.cells.set(k, f | ENSEMBLE_INCOMPLETE);
        }
        k = k + 1;
    }
    proof {
        assert forall|j: int, i: int| 0 <= j < before.nrow && 0 <= i < before.ncol implies #[trigger] flags.at(j, i)
            == before.at(j, i) | bit(gaps.at(j, i), ENSEMBLE_INCOMPLETE) by {
            lemma_place(before.nrow as int, before.ncol as int, j, i);
        }
    }
}

/// The flags of a cell of a layer in memory: those of its bathymetry, place and validity, and
/// whether some ensemble member lacks a month.
pub open spec fn layer_cell_flags(
    cfg: RunConfig,
    layer: LayerSpec,
    lat: u64,
    data: LayerData,
    bed: u64,
    removed: bool,
    j: int,
    i: int,
) -> u8 {
    cell_flags(
        layer,
        bed,
        outside_range(lat, cfg.latitude_range_to_keep),
        removed,
        cfg.bathy_floor_m,
        never_valid(data.ohc_mean, j, i),
        sometimes_invalid(data.ohc_mean, j, i) && !never_valid(data.ohc_mean, j, i),
    ) | bit(data.ohc_ensemble matches Some(members) && ensemble_gap(members@, j, i), ENSEMBLE_INCOMPLETE)
}

/// Builds the flag band of a layer in memory. A mean-only layer has no ensemble bit.
pub fn layer_flags(
    cfg: &RunConfig,
    layer: &LayerSpec,
    grid: &GridDef,
    data: &LayerData,
    etopo: &Grid2<u64>,
    basin_id: &Grid2<i16>,
) -> (r: Result<Grid2<u8>, FlagsError>)
    requires
        data.wf(),
        data.ohc_mean.nlat == grid.lat.len(),
        data.ohc_mean.nlon == grid.lon.len(),
        grid.lat.len() * grid.lon.len() <= usize::MAX,
        etopo.wf(),
        basin_id.wf(),
        basin_id.nrow >= grid.lat.len(),
        basin_id.ncol >= grid.lon.len(),
    ensures
        match r {
            Ok(f) => {
                &&& etopo.shaped(grid.lat.len() as int, grid.lon.len() as int)
                &&& f.shaped(grid.lat.len() as int, grid.lon.len() as int)
                &&& forall|j: int, i: int|
                    0 <= j < grid.lat.len() && 0 <= i < grid.lon.len() ==> #[trigger] f.at(j, i) == layer_cell_flags(
                        *cfg,
                        *layer,
                        grid.lat@[j],
                        *data,
                        etopo.at(j, i),
                        cfg.basins_to_remove@.contains(basin_id.at(j, i)),
                        j,
                        i,
                    )
                &&& forall|j: int, i: int|
                    0 <= j < grid.lat.len() && 0 <= i < grid.lon.len() ==> !impossible(*layer, #[trigger] etopo.at(j, i))
            },
            Err(FlagsError::Shape { input, nrow, ncol }) => {
                &&& input == FlagInput::Etopo
                &&& !etopo.shaped(grid.lat.len() as int, grid.lon.len() as int)
                &&& nrow == etopo.nrow && ncol == etopo.ncol
            },
            Err(FlagsError::Sentinel { j, i, lat, lon }) => {
                &&& etopo.shaped(grid.lat.len() as int, grid.lon.len() as int)
                &&& j < grid.lat.len() && i < grid.lon.len()
                &&& lat == grid.lat@[j as int] && lon == grid.lon@[i as int]
                &&& impossible(*layer, etopo.at(j as int, i as int))
                &&& forall|b: int, a: int|
                    0 <= b < grid.lat.len() && 0 <= a < grid.lon.len() && (b < j || (b == j && a < i)) ==> !impossible(
                        *layer,
                        #[trigger] etopo.at(b, a),
                    )
            },
        },
{
    let (never, incomplete) = compute_validity(&data.ohc_mean);
    let made = build_flags(
        grid,
        layer,
        etopo,
        Some(basin_id),
        cfg.latitude_range_to_keep,
        cfg.basins_to_remove.as_slice(),
        cfg.bathy_floor_m,
        &never,
        &incomplete,
    );
    let mut flags = match made {
        Err(e) => {
            return Err(e);
        },
        Ok(f) => f,
    };
    match &data.ohc_ensemble {
        Some(members) => {
            let gaps = compute_ensemble_incomplete(members, grid.nlat(), grid.nlon());
            mark_ensemble_incomplete(&mut flags, &gaps);
        },
        None => {
            proof {
                assert forall|f: u8| #[trigger] (f | 0) == f by {
                    assert(f | 0 == f) by (bit_vector);
                }
            }
        },
    }
    Ok(flags)
}

/// Bits of a byte that is put together from single-bit parts.
pub proof fn lemma_parts(a: u8, b: u8, c: u8, d: u8, e: u8, f: u8, g: u8)
    by (bit_vector)
    requires
        a == 0 || a == 1,
        b == 0 || b == 2,
        c == 0 || c == 64,
        d == 0 || d == 4,
        e == 0 || e == 8,
        f == 0 || f == 16,
        g == 0 || g == 32,
    ensures
        (a | b | c | d | e | f | g) & 1 == a,
        (a | b | c | d | e | f | g) & 2 == b,
        (a | b | c | d | e | f | g) & 4 == d,
        (a | b | c | d | e | f | g) & 8 == e,
        (a | b | c | d | e | f | g) & 16 == f,
        (a | b | c | d | e | f | g) & 32 == g,
        (a | b | c | d | e | f | g) & 64 == c,
        (a | b | c | d | e | f | g) & 128 == 0,
        (a | b | c | d | e | f | g) & 127 == 0 <==> a == 0 && b == 0 && c == 0 && d == 0 && e == 0 && f == 0 && g == 0,
{
}

/// Each bit of a cell's flags states its own reason, whatever the other reasons are.
pub proof fn law_bits_are_independent(
    layer: LayerSpec,
    bed: u64,
    outside: bool,
    removed: bool,
    floor: Option<u64>,
    never: bool,
    incomplete: bool,
)
    ensures
        cell_flags(layer, bed, outside, removed, floor, never, incomplete) & BED_ABOVE_SHALLOW != 0 <==> bed_above(
            bed,
            layer.top as int,
        ),
        cell_flags(layer, bed, outside, removed, floor, never, incomplete) & BED_ABOVE_DEEP != 0 <==> bed_above(
            bed,
            layer.bottom as int,
        ),
        cell_flags(layer, bed, outside, removed, floor, never, incomplete) & OUTSIDE_LATITUDE != 0 <==> outside,
        cell_flags(layer, bed, outside, removed, floor, never, incomplete) & REMOVED_BASIN != 0 <==> removed,
        cell_flags(layer, bed, outside, removed, floor, never, incomplete) & NEVER_ESTIMATED != 0 <==> never,
        cell_flags(layer, bed, outside, removed, floor, never, incomplete) & INCOMPLETE_TIMESERIES != 0 <==> incomplete,
        cell_flags(layer, bed, outside, removed, floor, never, incomplete) & BED_ABOVE_FLOOR != 0 <==> (floor matches Some(
            d,
        ) && bed_above_double(bed, d)),
        cell_flags(layer, bed, outside, removed, floor, never, incomplete) & ENSEMBLE_INCOMPLETE == 0,
{
    lemma_parts(
        bit(bed_above(bed, layer.top as int), BED_ABOVE_SHALLOW),
        bit(bed_above(bed, layer.bottom as int), BED_ABOVE_DEEP),
        bit(floor matches Some(d) && bed_above_double(bed, d), BED_ABOVE_FLOOR),
        bit(outside, OUTSIDE_LATITUDE),
        bit(removed, REMOVED_BASIN),
        bit(never, NEVER_ESTIMATED),
        bit(incomplete, INCOMPLETE_TIMESERIES),
    );
}

/// A cell is fully usable, that is no bit of `USABLE` is set, just where no reason holds.
pub proof fn law_usable_means_no_reason(
    layer: LayerSpec,
    bed: u64,
    outside: bool,
    removed: bool,
    floor: Option<u64>,
    never: bool,
    incomplete: bool,
)
    ensures
        cell_flags(layer, bed, outside, removed, floor, never, incomplete) & USABLE == 0 <==> {
            &&& !bed_above(bed, layer.top as int)
            &&& !bed_above(bed, layer.bottom as int)
            &&& !outside
            &&& !removed
            &&& !(floor matches Some(d) && bed_above_double(bed, d))
            &&& !never
            &&& !incomplete
        },
{
    assert(USABLE == 127) by (bit_vector);
    lemma_parts(
        bit(bed_above(bed, layer.top as int), BED_ABOVE_SHALLOW),
        bit(bed_above(bed, layer.bottom as int), BED_ABOVE_DEEP),
        bit(floor matches Some(d) && bed_above_double(bed, d), BED_ABOVE_FLOOR),
        bit(outside, OUTSIDE_LATITUDE),
        bit(removed, REMOVED_BASIN),
        bit(never, NEVER_ESTIMATED),
        bit(incomplete, INCOMPLETE_TIMESERIES),
    );
}

/// The sentinel never fires on a layer whose top is not below its bottom.
pub proof fn law_sentinel_needs_inverted_layer(layer: LayerSpec, bed: u64)
    requires
        layer.top <= layer.bottom,
    ensures
        !impossible(layer, bed),
{
    let (top, bottom, unit) = (layer.top as int, layer.bottom as int, one());
    vstd::arithmetic::power2::lemma_pow2_pos(1074);
    assert(-top * unit >= -bottom * unit) by (nonlinear_arith)
        requires
            top <= bottom,
            unit > 0,
    ;
}

/// The floor bit is the same for every layer.
pub proof fn law_floor_ignores_the_layer(
    first: LayerSpec,
    second: LayerSpec,
    bed: u64,
    outside: bool,
    removed: bool,
    floor: Option<u64>,
    never: bool,
    incomplete: bool,
)
    ensures
        cell_flags(first, bed, outside, removed, floor, never, incomplete) & BED_ABOVE_FLOOR == cell_flags(
            second,
            bed,
            outside,
            removed,
            floor,
            never,
            incomplete,
        ) & BED_ABOVE_FLOOR,
{
    lemma_parts(
        bit(bed_above(bed, first.top as int), BED_ABOVE_SHALLOW),
        bit(bed_above(bed, first.bottom as int), BED_ABOVE_DEEP),
        bit(floor matches Some(d) && bed_above_double(bed, d), BED_ABOVE_FLOOR),
        bit(outside, OUTSIDE_LATITUDE),
        bit(removed, REMOVED_BASIN),
        bit(never, NEVER_ESTIMATED),
        bit(incomplete, INCOMPLETE_TIMESERIES),
    );
    lemma_parts(
        bit(bed_above(bed, second.top as int), BED_ABOVE_SHALLOW),
        bit(bed_above(bed, second.bottom as int), BED_ABOVE_DEEP),
        bit(floor matches Some(d) && bed_above_double(bed, d), BED_ABOVE_FLOOR),
        bit(outside, OUTSIDE_LATITUDE),
        bit(removed, REMOVED_BASIN),
        bit(never, NEVER_ESTIMATED),
        bit(incomplete, INCOMPLETE_TIMESERIES),
    );
}

/// The two validity maps encode three states of a cell: never valid, sometimes valid, and, with
/// neither set, valid in every month.
pub proof fn law_validity_has_three_states(stack: MapStack, j: int, i: int)
    ensures
        !(never_valid(stack, j, i) && (sometimes_invalid(stack, j, i) && !never_valid(stack, j, i))),
        (!never_valid(stack, j, i) && !(sometimes_invalid(stack, j, i) && !never_valid(stack, j, i))) <==> (stack.maps.len()
            > 0 && forall|t: int| 0 <= t < stack.maps.len() ==> finite(#[trigger] stack.maps@[t].at(j, i))),
{
    if stack.maps.len() > 0 && (forall|t: int|
        0 <= t < stack.maps.len() ==> finite(#[trigger] stack.maps@[t].at(j, i))) {
        assert(finite(stack.maps@[0].at(j, i)));
    }
}

/// Marking a gap sets one bit and keeps the others.
pub proof fn law_ensemble_bit_is_separate(flags: u8, gap: bool)
    ensures
        (flags | bit(gap, ENSEMBLE_INCOMPLETE)) & USABLE == flags & USABLE,
        flags & ENSEMBLE_INCOMPLETE == 0 ==> ((flags | bit(gap, ENSEMBLE_INCOMPLETE)) & ENSEMBLE_INCOMPLETE != 0 <==> gap),
{
    assert(USABLE == 127) by (bit_vector);
    let g = bit(gap, ENSEMBLE_INCOMPLETE);
    assert((flags | g) & 127 == flags & 127 && (flags & 128 == 0 ==> (flags | g) & 128 == g)) by (bit_vector)
        requires
            g == 0 || g == 128,
    ;
}

} // verus!
