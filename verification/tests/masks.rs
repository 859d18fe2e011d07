//! The flag band.

use ohc_ingest::config::{LayerSpec, RunConfig};
use ohc_ingest::grid::{Grid2, MapStack};
use ohc_ingest::ingest::LayerData;
use ohc_ingest::masks::{
    build_flags, compute_ensemble_incomplete, compute_validity, layer_flags, mark_ensemble_incomplete, FlagInput, FlagsError,
    BED_ABOVE_DEEP, BED_ABOVE_FLOOR, BED_ABOVE_SHALLOW, ENSEMBLE_INCOMPLETE, FLAG_MASKS, FLAG_MEANINGS,
    INCOMPLETE_TIMESERIES, NEVER_ESTIMATED, OUTSIDE_LATITUDE, REMOVED_BASIN, USABLE,
};
use ohc_ingest::GridDef;

fn count(flags: &Grid2<u8>, bit: u8) -> usize {
    flags.cells.iter().filter(|&&f| f & bit != 0).count()
}

fn bits(x: f64) -> u64 {
    x.to_bits()
}

fn band() -> [u64; 2] {
    [bits(-64.5), bits(64.5)]
}

#[test]
fn bathymetry_and_latitude_bits_match_reference_for_15_20() {
    let grid = GridDef::mapping();
    // etopo: deep everywhere (-4000) except a shelf strip shallower than 20 m.
    let mut etopo = Grid2::filled(grid.nlat(), grid.nlon(), bits(-4000.0));
    etopo.set(90, 0, bits(-10.0)); // shallower than 15 → both bed bits
    etopo.set(90, 1, bits(-18.0)); // between 15 and 20 → deep bit only
    let never = Grid2::filled(grid.nlat(), grid.nlon(), false);
    let incomplete = never.clone();
    let layer = LayerSpec { top: 15, bottom: 20 };
    let f = build_flags(&grid, &layer, &etopo, None, band(), &[], None, &never, &incomplete).unwrap();

    assert_eq!(f.get(90, 0) & BED_ABOVE_SHALLOW, BED_ABOVE_SHALLOW);
    assert_eq!(f.get(90, 0) & BED_ABOVE_DEEP, BED_ABOVE_DEEP);
    assert_eq!(f.get(90, 1) & BED_ABOVE_SHALLOW, 0);
    assert_eq!(f.get(90, 1) & BED_ABOVE_DEEP, BED_ABOVE_DEEP);

    // outside_latitude: 50 lat rows (|lat|>64.5) × 360 lon = 18000 (matches reference).
    assert_eq!(count(&f, OUTSIDE_LATITUDE), 18000);
}

#[test]
fn bathy_floor_masks_shelves_uniformly() {
    // A 15_20 layer whose own bed bits keep everything (deep ocean), plus two shelf cells at
    // 150 m and 400 m. A 300 m floor must flag the 150 m cell but not the 400 m one, and it
    // must fire independently of the (unset) per-layer bed bits.
    let grid = GridDef::mapping();
    let mut etopo = Grid2::filled(grid.nlat(), grid.nlon(), bits(-4000.0));
    etopo.set(90, 0, bits(-150.0)); // shallower than 300 → floor bit
    etopo.set(90, 1, bits(-400.0)); // deeper than 300 → no floor bit
    let never = Grid2::filled(grid.nlat(), grid.nlon(), false);
    let incomplete = never.clone();
    let layer = LayerSpec { top: 15, bottom: 20 };

    // No floor: neither cell flagged (both deeper than 20 m).
    let f0 = build_flags(&grid, &layer, &etopo, None, band(), &[], None, &never, &incomplete).unwrap();
    assert_eq!(count(&f0, BED_ABOVE_FLOOR), 0);

    // Floor = 300 m: only the 150 m cell, and it does not touch the per-layer bed bits.
    let f = build_flags(&grid, &layer, &etopo, None, band(), &[], Some(bits(300.0)), &never, &incomplete).unwrap();
    assert_eq!(f.get(90, 0) & BED_ABOVE_FLOOR, BED_ABOVE_FLOOR);
    assert_eq!(f.get(90, 0) & BED_ABOVE_DEEP, 0); // 150 m is deeper than the 20 m layer bottom
    assert_eq!(f.get(90, 1) & BED_ABOVE_FLOOR, 0);
    assert_eq!(count(&f, BED_ABOVE_FLOOR), 1);
}

#[test]
fn sentinel_fires_on_impossible_combo() {
    let grid = GridDef::mapping();
    // bed at -17: for layer 20_15 (top deeper than bottom) we could force shallow-without-deep.
    let mut etopo = Grid2::filled(grid.nlat(), grid.nlon(), bits(-4000.0));
    etopo.set(90, 0, bits(-17.0));
    let never = Grid2::filled(grid.nlat(), grid.nlon(), false);
    let incomplete = never.clone();
    // Inverted layer (top=20 deep, bottom=15 shallow) makes bed>-20 true, bed>-15 false →
    // BED_ABOVE_SHALLOW set, BED_ABOVE_DEEP unset → sentinel must fire.
    let bad = LayerSpec { top: 20, bottom: 15 };
    let r = build_flags(&grid, &bad, &etopo, None, band(), &[], None, &never, &incomplete);
    assert!(r.is_err());
    assert!(matches!(r, Err(FlagsError::Sentinel { j: 90, i: 0, .. })));
}

fn small() -> (GridDef, Grid2<u64>, Grid2<bool>) {
    let grid = GridDef { lon: vec![bits(20.5), bits(21.5)], lat: vec![bits(-65.0), bits(0.5)] };
    let etopo = Grid2::filled(2, 2, bits(-4000.0));
    let none = Grid2::filled(2, 2, false);
    (grid, etopo, none)
}

#[test]
fn every_bit_has_its_own_reason() {
    let (grid, mut etopo, none) = small();
    etopo.set(1, 0, bits(f64::NAN));
    etopo.set(1, 1, bits(100.0));
    let mut basin = Grid2::filled(2, 2, 1i16);
    basin.set(1, 0, 53);
    let mut never = none.clone();
    never.set(0, 1, true);
    let mut incomplete = none.clone();
    incomplete.set(1, 0, true);
    let layer = LayerSpec { top: 0, bottom: 20 };
    let f = build_flags(&grid, &layer, &etopo, Some(&basin), band(), &[53], Some(bits(300.0)), &never, &incomplete)
        .unwrap();
    assert_eq!(f.get(0, 0), OUTSIDE_LATITUDE);
    assert_eq!(f.get(0, 1), OUTSIDE_LATITUDE | NEVER_ESTIMATED);
    assert_eq!(f.get(1, 0), REMOVED_BASIN | INCOMPLETE_TIMESERIES);
    assert_eq!(f.get(1, 1), BED_ABOVE_SHALLOW | BED_ABOVE_DEEP | BED_ABOVE_FLOOR);
}

#[test]
fn a_bed_at_the_edge_is_not_above_it() {
    let (grid, mut etopo, none) = small();
    etopo.set(1, 0, bits(-20.0));
    etopo.set(1, 1, bits(-19.999));
    let layer = LayerSpec { top: 15, bottom: 20 };
    let f = build_flags(&grid, &layer, &etopo, None, [bits(-65.0), bits(0.5)], &[], None, &none, &none).unwrap();
    assert_eq!(f.cells, vec![0, 0, 0, BED_ABOVE_DEEP]);
}

#[test]
fn shapes_have_to_fit() {
    let (grid, etopo, none) = small();
    let layer = LayerSpec { top: 0, bottom: 20 };
    let wrong = Grid2::filled(2, 3, false);
    let r = build_flags(&grid, &layer, &Grid2::filled(1, 2, 0u64), None, band(), &[], None, &none, &none);
    assert!(matches!(r, Err(FlagsError::Shape { input: FlagInput::Etopo, nrow: 1, ncol: 2 })));
    let r = build_flags(&grid, &layer, &etopo, None, band(), &[], None, &wrong, &none);
    assert!(matches!(r, Err(FlagsError::Shape { input: FlagInput::Never, nrow: 2, ncol: 3 })));
    let r = build_flags(&grid, &layer, &etopo, None, band(), &[], None, &none, &wrong);
    assert!(matches!(r, Err(FlagsError::Shape { input: FlagInput::Incomplete, nrow: 2, ncol: 3 })));
}

fn stack(months: &[[f64; 3]]) -> MapStack {
    MapStack {
        nlat: 1,
        nlon: 3,
        maps: months
            .iter()
            .map(|m| Grid2 { nrow: 1, ncol: 3, cells: m.iter().map(|x| x.to_bits()).collect() })
            .collect(),
    }
}

#[test]
fn validity_has_three_states() {
    let s = stack(&[[1.0, f64::NAN, f64::NAN], [2.0, 3.0, f64::INFINITY]]);
    let (never, incomplete) = compute_validity(&s);
    assert_eq!(never.cells, vec![false, false, true]);
    assert_eq!(incomplete.cells, vec![false, true, false]);
}

#[test]
fn ensemble_gaps_are_the_union_of_the_members() {
    let members = vec![
        stack(&[[1.0, 1.0, 1.0], [1.0, f64::NAN, 1.0]]),
        stack(&[[f64::NAN, 1.0, 1.0], [1.0, 1.0, 1.0]]),
    ];
    let gaps = compute_ensemble_incomplete(&members, 1, 3);
    assert_eq!(gaps.cells, vec![true, true, false]);
    let mut flags = Grid2 { nrow: 1, ncol: 3, cells: vec![0u8, REMOVED_BASIN, NEVER_ESTIMATED] };
    mark_ensemble_incomplete(&mut flags, &gaps);
    assert_eq!(flags.cells, vec![ENSEMBLE_INCOMPLETE, ENSEMBLE_INCOMPLETE | REMOVED_BASIN, NEVER_ESTIMATED]);
}

#[test]
fn the_selector_is_every_named_bit() {
    assert_eq!(USABLE, 127);
    assert_eq!(FLAG_MASKS.iter().fold(0, |a, b| a | b), USABLE);
    assert_eq!(FLAG_MEANINGS.split(' ').count(), FLAG_MASKS.len());
    assert_eq!(FLAG_MEANINGS.split(' ').nth(6), Some("bed_above_floor"));
}

#[test]
fn the_flags_of_a_layer_in_memory() {
    let cfg = RunConfig::defaults();
    let layer = LayerSpec { top: 15, bottom: 20 };
    let grid = GridDef { lon: vec![bits(20.5), bits(21.5), bits(22.5)], lat: vec![bits(0.5)] };
    let mean = stack(&[[1.0, f64::NAN, f64::NAN], [2.0, 3.0, f64::NAN]]);
    let mut members: Vec<MapStack> = (0..100).map(|_| mean.clone()).collect();
    members[42] = stack(&[[f64::NAN, f64::NAN, f64::NAN], [2.0, 3.0, f64::NAN]]);
    let etopo = Grid2 { nrow: 1, ncol: 3, cells: vec![bits(-18.0), bits(-4000.0), bits(-4000.0)] };
    let basin = Grid2 { nrow: 1, ncol: 3, cells: vec![1i16, 53, 2] };
    let data = LayerData { ohc_mean: mean, ohc_ensemble: Some(members) };
    let f = layer_flags(&cfg, &layer, &grid, &data, &etopo, &basin).unwrap();
    assert_eq!(
        f.cells,
        vec![
            BED_ABOVE_DEEP | ENSEMBLE_INCOMPLETE,
            REMOVED_BASIN | INCOMPLETE_TIMESERIES | ENSEMBLE_INCOMPLETE,
            NEVER_ESTIMATED | ENSEMBLE_INCOMPLETE,
        ]
    );
    let lean = LayerData { ohc_mean: data.ohc_mean.clone(), ohc_ensemble: None };
    let f = layer_flags(&cfg, &layer, &grid, &lean, &etopo, &basin).unwrap();
    assert_eq!(f.cells, vec![BED_ABOVE_DEEP, REMOVED_BASIN | INCOMPLETE_TIMESERIES, NEVER_ESTIMATED]);
}
