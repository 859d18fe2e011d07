//! The flag band: each bit against the numbers that it is about.

use vstd::arithmetic::power2::lemma_pow2_pos;
use vstd::prelude::*;

use crate::config::{LayerSpec, RunConfig};
use crate::double::{finite, nan, one, units};
use crate::grid::{Grid2, MapStack};
use crate::ingest::LayerData;
use crate::masks::{
    bed_above, bed_above_double, bit, cell_flags, ensemble_gap, impossible, in_removed, layer_cell_flags, lemma_parts,
    never_valid, outside_range, sometimes_invalid, USABLE,
};

verus! {

/// The bathymetry bits compare the height of the seabed with the depths themselves: the shallow bit is
/// set just where the seabed is above the layer's top, the deep bit just where it is above the bottom,
/// and the floor bit just where it is above the floor. An unknown height sets none of them, and the other
/// bits are set just for their own reasons.
pub proof fn law_bits_compare_heights_with_depths(
    layer: LayerSpec,
    bed: u64,
    outside: bool,
    removed: bool,
    floor: Option<u64>,
    never: bool,
    incomplete: bool,
)
    ensures
        ({
            let flags = cell_flags(layer, bed, outside, removed, floor, never, incomplete);
            &&& flags & 1 != 0 <==> !nan(bed) && units(bed) > -(layer.top * one())
            &&& flags & 2 != 0 <==> !nan(bed) && units(bed) > -(layer.bottom * one())
            &&& flags & 4 != 0 <==> outside
            &&& flags & 8 != 0 <==> removed
            &&& flags & 16 != 0 <==> never
            &&& flags & 32 != 0 <==> incomplete
            &&& flags & 64 != 0 <==> (floor matches Some(d) && !nan(bed) && !nan(d) && units(bed) > -units(d))
            &&& flags & 128 == 0
            &&& impossible(layer, bed) <==> flags & 1 != 0 && flags & 2 == 0
        }),
{
    let (t, b, u) = (layer.top as int, layer.bottom as int, one());
    assert((-t) * u == -(t * u) && (-b) * u == -(b * u)) by (nonlinear_arith);
    lemma_parts(
        bit(bed_above(bed, layer.top as int), 1),
        bit(bed_above(bed, layer.bottom as int), 2),
        bit(floor matches Some(d) && bed_above_double(bed, d), 64),
        bit(outside, 4),
        bit(removed, 8),
        bit(never, 16),
        bit(incomplete, 32),
    );
}

/// A cell whose seabed is at `n` whole metres has the shallow bit just where `n` is greater than minus
/// the layer's top, and the deep bit just where it is greater than minus the bottom, for every height and
/// every layer. A floor of `m` whole metres is compared the same way.
pub proof fn law_whole_metres_are_compared(
    layer: LayerSpec,
    bed: u64,
    n: int,
    outside: bool,
    removed: bool,
    floor: Option<u64>,
    m: int,
    never: bool,
    incomplete: bool,
)
    requires
        !nan(bed),
        units(bed) == n * one(),
        floor matches Some(d) ==> !nan(d) && units(d) == m * one(),
    ensures
        ({
            let flags = cell_flags(layer, bed, outside, removed, floor, never, incomplete);
            &&& flags & 1 != 0 <==> n > -layer.top
            &&& flags & 2 != 0 <==> n > -layer.bottom
            &&& flags & 64 != 0 <==> floor is Some && n > -m
            &&& flags & 127 == 0 <==> n <= -layer.top && n <= -layer.bottom && !(floor is Some && n > -m) && !outside
                && !removed && !never && !incomplete
            &&& USABLE == 127
        }),
{
    law_bits_compare_heights_with_depths(layer, bed, outside, removed, floor, never, incomplete);
    lemma_pow2_pos(1074);
    let (t, b, u) = (layer.top as int, layer.bottom as int, one());
    assert(n * u > -(t * u) <==> n > -t) by (nonlinear_arith)
        requires
            u > 0,
    ;
    assert(n * u > -(b * u) <==> n > -b) by (nonlinear_arith)
        requires
            u > 0,
    ;
    assert(n * u > -(m * u) <==> n > -m) by (nonlinear_arith)
        requires
            u > 0,
    ;
    let flags = cell_flags(layer, bed, outside, removed, floor, never, incomplete);
    assert(flags & 127 == 0 <==> flags & 1 == 0 && flags & 2 == 0 && flags & 4 == 0 && flags & 8 == 0 && flags & 16 == 0
        && flags & 32 == 0 && flags & 64 == 0) by (bit_vector);
    assert(USABLE == 127) by (bit_vector);
}

/// A cell is outside the kept latitudes just where its latitude is less than the first bound or greater
/// than the second; the bounds themselves are kept.
pub proof fn law_latitudes_within_the_bounds_are_kept(lat: u64, range: [u64; 2])
    requires
        !nan(lat),
        !nan(range@[0]),
        !nan(range@[1]),
    ensures
        outside_range(lat, range) <==> units(lat) < units(range@[0]) || units(lat) > units(range@[1]),
{
}

/// A cell is in a dropped basin just where one of the dropped numbers is its basin; without a basin map
/// no cell is.
pub proof fn law_dropped_basins_are_listed(basin: Grid2<i16>, removed: Seq<i16>, j: int, i: int)
    ensures
        in_removed(Some(&basin), removed, j, i) <==> exists|k: int|
            0 <= k < removed.len() && #[trigger] removed[k] == basin.cells@[j * basin.ncol + i],
        !in_removed(None, removed, j, i),
{
}

/// The value of a month at a cell.
pub open spec fn value_at(stack: MapStack, t: int, j: int, i: int) -> u64 {
    stack.maps@[t].cells@[j * stack.maps@[t].ncol + i]
}

/// The flags of a cell of a layer, each said of the data: never estimated where no month has a finite
/// value, incomplete where some month has one and some has none, the ensemble bit where some member lacks
/// some month, and the other bits as the bathymetry, the latitude and the basin ask for.
pub proof fn law_layer_flags_follow_the_data(
    cfg: RunConfig,
    layer: LayerSpec,
    lat: u64,
    data: LayerData,
    bed: u64,
    removed: bool,
    j: int,
    i: int,
)
    ensures
        ({
            let flags = layer_cell_flags(cfg, layer, lat, data, bed, removed, j, i);
            let mean = data.ohc_mean;
            let none = forall|t: int| 0 <= t < mean.maps.len() ==> !finite(#[trigger] value_at(mean, t, j, i));
            let all = forall|t: int| 0 <= t < mean.maps.len() ==> finite(#[trigger] value_at(mean, t, j, i));
            &&& flags & 1 != 0 <==> !nan(bed) && units(bed) > -(layer.top * one())
            &&& flags & 2 != 0 <==> !nan(bed) && units(bed) > -(layer.bottom * one())
            &&& flags & 4 != 0 <==> outside_range(lat, cfg.latitude_range_to_keep)
            &&& flags & 8 != 0 <==> removed
            &&& flags & 16 != 0 <==> none
            &&& flags & 32 != 0 <==> !none && !all
            &&& flags & 64 != 0 <==> (cfg.bathy_floor_m matches Some(d) && !nan(bed) && !nan(d) && units(bed) > -units(d))
            &&& flags & 128 != 0 <==> (data.ohc_ensemble matches Some(members) && exists|m: int, t: int|
                0 <= m < members.len() && 0 <= t < members@[m].maps.len() && !finite(
                    #[trigger] value_at(members@[m], t, j, i),
                ))
        }),
{
    let mean = data.ohc_mean;
    let (never, some) = (never_valid(mean, j, i), sometimes_invalid(mean, j, i));
    let outside = outside_range(lat, cfg.latitude_range_to_keep);
    let base = cell_flags(layer, bed, outside, removed, cfg.bathy_floor_m, never, some && !never);
    law_bits_compare_heights_with_depths(layer, bed, outside, removed, cfg.bathy_floor_m, never, some && !never);
    let gap = data.ohc_ensemble matches Some(members) && ensemble_gap(members@, j, i);
    let g = bit(gap, 128);
    assert((base | g) & 1 == base & 1 && (base | g) & 2 == base & 2 && (base | g) & 4 == base & 4 && (base | g) & 8 == base
        & 8 && (base | g) & 16 == base & 16 && (base | g) & 32 == base & 32 && (base | g) & 64 == base & 64 && (base | g)
        & 128 == g) by (bit_vector)
        requires
            g == 0 || g == 128,
            base & 128 == 0,
    ;
    assert forall|t: int| 0 <= t < mean.maps.len() implies mean.maps@[t].at(j, i) == #[trigger] value_at(mean, t, j, i) by {}
    let none = forall|t: int| 0 <= t < mean.maps.len() ==> !finite(#[trigger] value_at(mean, t, j, i));
    let all = forall|t: int| 0 <= t < mean.maps.len() ==> finite(#[trigger] value_at(mean, t, j, i));
    assert(never == none) by {
        if never {
            assert forall|t: int| 0 <= t < mean.maps.len() implies !finite(#[trigger] value_at(mean, t, j, i)) by {
                assert(!finite(mean.maps@[t].at(j, i)));
            }
        }
        if none {
            assert forall|t: int| 0 <= t < mean.maps.len() implies !finite(#[trigger] mean.maps@[t].at(j, i)) by {
                assert(!finite(value_at(mean, t, j, i)));
            }
        }
    }
    assert(some == !all) by {
        if some {
            let t = choose|t: int| 0 <= t < mean.maps.len() && !finite(#[trigger] mean.maps@[t].at(j, i));
            assert(!finite(value_at(mean, t, j, i)));
        }
        if !all {
            let t = choose|t: int| 0 <= t < mean.maps.len() && !finite(#[trigger] value_at(mean, t, j, i));
            assert(!finite(mean.maps@[t].at(j, i)));
        }
    }
    match data.ohc_ensemble {
        Some(members) => {
            if gap {
                let m = choose|m: int| 0 <= m < members.len() && #[trigger] sometimes_invalid(members@[m], j, i);
                let t = choose|t: int| 0 <= t < members@[m].maps.len() && !finite(#[trigger] members@[m].maps@[t].at(j, i));
                assert(!finite(value_at(members@[m], t, j, i)));
            }
            if exists|m: int, t: int|
                0 <= m < members.len() && 0 <= t < members@[m].maps.len() && !finite(
                    #[trigger] value_at(members@[m], t, j, i),
                ) {
                let (m, t) = choose|m: int, t: int|
                    0 <= m < members.len() && 0 <= t < members@[m].maps.len() && !finite(
                        #[trigger] value_at(members@[m], t, j, i),
                    );
                assert(!finite(members@[m].maps@[t].at(j, i)));
                assert(sometimes_invalid(members@[m], j, i));
            }
        },
        None => {},
    }
}

/// A bed is impossible just where it is above the layer's top and yet not above its bottom, so only where
/// the bottom is the shallower of the two.
pub proof fn law_impossible_bed_is_between_inverted_bounds(layer: LayerSpec, bed: u64)
    ensures
        impossible(layer, bed) <==> !nan(bed) && units(bed) > -(layer.top * one()) && units(bed) <= -(layer.bottom * one()),
        impossible(layer, bed) ==> layer.bottom < layer.top,
{
    let (top, bottom, one) = (layer.top as int, layer.bottom as int, one());
    lemma_pow2_pos(1074);
    assert(-(top * one) == -top * one && -(bottom * one) == -bottom * one) by (nonlinear_arith);
    if top <= bottom {
        assert(top * one <= bottom * one) by (nonlinear_arith)
            requires
                top <= bottom,
                one > 0,
        ;
    }
}

} // verus!
