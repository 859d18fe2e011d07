//! File names, time axes, calendar days and layers.

use ohc_ingest::config::{
    days_from_civil, join, parse_layer, parse_month_year, scan_axis, validate_complete_years, AxisError, DiscoverError,
    LayerError, LayerSpec, MonthSet, NameError, RunConfig, Slice,
};
use ohc_ingest::consts;

#[test]
fn parse_layer_one_layer_only() {
    let l = parse_layer("15-20").unwrap();
    assert_eq!((l.top, l.bottom), (15, 20));
    assert_eq!(parse_layer("300_700").unwrap().bottom, 700);
    assert!(parse_layer("15-20,300-700").is_err()); // no lists
    assert!(parse_layer("15").is_err());
}

#[test]
fn parse_month_year_matches_and_rejects() {
    let stem = "potentialTemperatureFullFieldSpaceTimeTrend_15_20_";
    assert_eq!(
        parse_month_year(&format!("{stem}08_2016.mat"), stem).unwrap(),
        Some((2016, 8))
    );
    // other layer / other file: ignored, not an error
    assert_eq!(parse_month_year("something_else_08_2016.mat", stem).unwrap(), None);
    // 15_20 stem must not swallow 15_200
    let other = "potentialTemperatureFullFieldSpaceTimeTrend_15_200_08_2016.mat";
    assert_eq!(parse_month_year(other, stem).unwrap(), None);
    // carries the stem but the tail is malformed / out of range: hard error
    assert!(parse_month_year(&format!("{stem}13_2016.mat"), stem).is_err());
    assert!(parse_month_year(&format!("{stem}zz_2016.mat"), stem).is_err());
}

#[test]
fn validate_complete_years_ok_and_holes() {
    let layer = LayerSpec { top: 15, bottom: 20 };
    let dir = "/tmp";
    let mut full = MonthSet::new();
    for y in 2004..=2005 {
        for m in 1..=12 {
            full.insert((y, m));
        }
    }
    assert_eq!(
        validate_complete_years(&full, "mean", dir, &layer).unwrap(),
        [2004, 2005]
    );
    // a mid-record hole is fatal
    let mut holed = full.clone();
    holed.remove((2004, 7));
    assert!(validate_complete_years(&holed, "mean", dir, &layer).is_err());
    // a partial final year is a hole too
    let mut partial = full.clone();
    partial.remove((2005, 12));
    assert!(validate_complete_years(&partial, "mean", dir, &layer).is_err());
    // empty set errors
    assert!(validate_complete_years(&MonthSet::new(), "mean", dir, &layer).is_err());
}

fn file_name(path: &str) -> String {
    path.rsplit('/').next().unwrap().to_string()
}

#[test]
fn discover_years_scans_and_validates() {
    let mut cfg = RunConfig::defaults();
    cfg.dir_mean = "base/mean".to_string();
    cfg.dir_ensemble = "base/ens".to_string();
    let layer = LayerSpec { top: 15, bottom: 20 };
    // mat_path routes to dir_mean / dir_ensemble by the cond_sim flag.
    let mut mean: Vec<String> = vec!["README".to_string()];
    let mut ens: Vec<String> = Vec::new();
    for y in 2004..=2005 {
        for m in 1..=12 {
            mean.push(file_name(&cfg.mat_path(&layer, y, m, false)));
            ens.push(file_name(&cfg.mat_path(&layer, y, m, true)));
        }
    }
    assert_eq!(cfg.discover_years(&layer, &mean, Some(&ens)).unwrap(), [2004, 2005]);
    assert_eq!(cfg.discover_years(&layer, &mean, None).unwrap(), [2004, 2005]);

    // drop one ensemble month: mean-only still fine, ensemble run must complain.
    let dropped = file_name(&cfg.mat_path(&layer, 2005, 6, true));
    ens.retain(|n| *n != dropped);
    assert_eq!(cfg.discover_years(&layer, &mean, None).unwrap(), [2004, 2005]);
    assert!(cfg.discover_years(&layer, &mean, Some(&ens)).is_err());
}

#[test]
fn filenames_match_localgp_convention() {
    let c = RunConfig::defaults();
    let l = LayerSpec { top: 15, bottom: 20 };
    assert!(c
        .mat_path(&l, 2016, 8, false)
        .ends_with("potentialTemperatureFullFieldSpaceTimeTrend_15_20_08_2016.mat"));
    assert!(c
        .mat_path(&l, 2016, 8, true)
        .ends_with("potentialTemperatureFullFieldLocalCondSimSpaceTimeTrend_15_20_08_2016.mat"));
}

#[test]
fn slice_time_axis_and_days() {
    // every year is whole: one year -> 12 months, Jan..Dec.
    let s = Slice { layer: LayerSpec { top: 15, bottom: 20 }, years: [2016, 2016] };
    let axis = s.time_axis();
    assert_eq!(axis.len(), 12);
    assert_eq!(axis[0], (2016, 1));
    assert_eq!(axis[11], (2016, 12));
    let (days, base) = s.time_days_since_start();
    assert_eq!(base, (2016, 1));
    assert_eq!(f64::from_bits(days[0]), 0.0);
    assert_eq!(f64::from_bits(days[1]), 31.0); // Jan15 -> Feb15

    // two years -> 24 months, contiguous across the year boundary.
    let s2 = Slice { layer: LayerSpec { top: 15, bottom: 20 }, years: [2004, 2005] };
    assert_eq!(s2.time_axis().len(), 24);
    assert_eq!(s2.time_axis()[12], (2005, 1));
}

#[test]
fn time_coordinate_counts_a_leap_year() {
    let s = Slice { layer: LayerSpec { top: 0, bottom: 5 }, years: [2003, 2004] };
    let (days, base) = s.time_days_since_start();
    assert_eq!(base, (2003, 1));
    assert_eq!(days.len(), 24);
    assert_eq!(f64::from_bits(days[12]), 365.0);
    assert_eq!(f64::from_bits(days[14]), 365.0 + 31.0 + 29.0);
    assert_eq!(f64::from_bits(days[23]), 365.0 + 335.0);
    let backwards = Slice { layer: s.layer, years: [2005, 2004] };
    assert!(backwards.time_axis().is_empty());
}

#[test]
fn layers_and_their_faults() {
    assert_eq!(parse_layer("700:1850"), Ok(LayerSpec { top: 700, bottom: 1850 }));
    assert_eq!(parse_layer(" 15 - +20 "), Ok(LayerSpec { top: 15, bottom: 20 }));
    assert_eq!(parse_layer("15-20,300-700"), Err(LayerError::List));
    assert_eq!(parse_layer("15"), Err(LayerError::Parts));
    assert_eq!(parse_layer(""), Err(LayerError::Parts));
    assert_eq!(parse_layer("15-20-25"), Err(LayerError::Parts));
    assert_eq!(parse_layer("-5-20"), Err(LayerError::Parts));
    assert_eq!(parse_layer("x-20"), Err(LayerError::Top));
    assert_eq!(parse_layer("-20"), Err(LayerError::Top));
    assert_eq!(parse_layer("15-"), Err(LayerError::Bottom));
    assert_eq!(parse_layer("15_99999999999"), Err(LayerError::Bottom));
}

#[test]
fn layer_tags_read_back() {
    for (top, bottom) in [(0, 5), (15, 20), (700, 1850), (0, i32::MAX)] {
        let layer = LayerSpec { top, bottom };
        assert_eq!(parse_layer(&layer.tag()), Ok(layer));
    }
    assert_eq!(LayerSpec { top: -5, bottom: 10 }.tag(), "-5_10");
}

#[test]
fn file_names_and_their_faults() {
    let stem = "s_";
    assert_eq!(parse_month_year("s_01_-5.mat", stem), Ok(Some((-5, 1))));
    assert_eq!(parse_month_year("s_12_02016.mat", stem), Ok(Some((2016, 12))));
    assert_eq!(parse_month_year("s_082016.mat", stem), Err(NameError::Malformed));
    assert_eq!(parse_month_year("s_zz_2016.mat", stem), Err(NameError::Month));
    assert_eq!(parse_month_year("s_-8_2016.mat", stem), Err(NameError::Month));
    assert_eq!(parse_month_year("s_08_20x6.mat", stem), Err(NameError::Year));
    assert_eq!(parse_month_year("s_08_2016_1.mat", stem), Err(NameError::Year));
    assert_eq!(parse_month_year("s_00_2016.mat", stem), Err(NameError::MonthRange));
    assert_eq!(parse_month_year("s_13_2016.mat", stem), Err(NameError::MonthRange));
    assert_eq!(parse_month_year("s_08_2016.nc", stem), Ok(None));
    assert_eq!(parse_month_year("t_08_2016.mat", stem), Ok(None));
    assert_eq!(parse_month_year("s", stem), Ok(None));
}

#[test]
fn file_names_read_back() {
    let cfg = RunConfig::defaults();
    let layer = LayerSpec { top: 15, bottom: 300 };
    for cond_sim in [false, true] {
        let stem = cfg.mat_stem(&layer, cond_sim);
        for (y, m) in [(2004, 1), (2016, 12), (-44, 3), (12345, 7)] {
            let name = file_name(&cfg.mat_path(&layer, y, m, cond_sim));
            assert_eq!(parse_month_year(&name, &stem), Ok(Some((y, m))));
        }
    }
    // another layer's file belongs to something else
    let other = file_name(&cfg.mat_path(&LayerSpec { top: 15, bottom: 30 }, 2004, 1, false));
    assert_eq!(parse_month_year(&other, &cfg.mat_stem(&layer, false)), Ok(None));
}

#[test]
fn paths_are_joined() {
    assert_eq!(join("a", "b"), "a/b");
    assert_eq!(join("a/", "b"), "a/b");
    assert_eq!(join("", "b"), "b");
    assert_eq!(join("a", "/b"), "/b");
    let mut cfg = RunConfig::defaults();
    cfg.dir_out = "/out".to_string();
    cfg.run_tag = "OP20260110".to_string();
    assert_eq!(cfg.store_path(&LayerSpec { top: 15, bottom: 300 }), "/out/ohc_OP20260110_plev15_300.zarr");
}

#[test]
fn defaults_are_the_product_constants() {
    let c = RunConfig::defaults();
    assert_eq!(c.run_tag, "UNSET");
    assert_eq!(c.var_name, "potentialTemperature");
    assert_eq!(c.model_name, "SpaceTimeTrend");
    assert_eq!(c.latitude_range_to_keep.map(f64::from_bits), [-64.5, 64.5]);
    assert_eq!(c.basins_to_remove, vec![0, 5, 6, 7, 8, 9, 53]);
    assert!(c.bathy_floor_m.is_none() && c.missing_sentinel.is_none());
    assert_eq!((c.dir_mean.as_str(), c.dir_ensemble.as_str(), c.dir_out.as_str()), (".", ".", "."));
    assert_eq!((c.etopo_path.as_str(), c.basinmask_path.as_str()), ("etopo60.cdf", "basinmask_04.msk"));
    assert_eq!(f64::from_bits(c.cp0), 3989.244);
    assert_eq!(f64::from_bits(c.rho0), 1030.0);
    assert_eq!(f64::from_bits(consts::EARTH_RADIUS_M), 6_371_000.0);
}

#[test]
fn months_missing_are_named() {
    let layer = LayerSpec { top: 15, bottom: 20 };
    let mut axis = MonthSet::new();
    for m in 1..=12 {
        axis.insert((2004, m));
        axis.insert((2005, m));
    }
    axis.insert((2004, 3)); // twice is once
    axis.remove((2004, 7));
    axis.remove((2005, 12));
    match validate_complete_years(&axis, "FullField mean", "d", &layer) {
        Err(AxisError::Holes { missing, message }) => {
            assert_eq!(missing, vec![(2004, 7), (2005, 12)]);
            assert_eq!(
                message,
                "FullField mean for layer 15_20 spans 2004..=2005 but is missing 2 month(s): 2004-07, 2005-12 \
                 (LocalGP years must be complete)"
            );
        }
        other => panic!("{other:?}"),
    }
    match validate_complete_years(&MonthSet::new(), "FullField mean", "d", &layer) {
        Err(AxisError::Empty { message }) => {
            assert_eq!(message, "no FullField mean .mat files found for layer 15_20 in d");
        }
        other => panic!("{other:?}"),
    }
}

#[test]
fn discovery_faults() {
    let cfg = RunConfig::defaults();
    let layer = LayerSpec { top: 15, bottom: 20 };
    let year = |y: i32, cond_sim: bool| -> Vec<String> {
        (1..=12).map(|m| file_name(&cfg.mat_path(&layer, y, m, cond_sim))).collect()
    };
    match cfg.discover_years(&layer, &year(2004, false), Some(&year(2005, true))) {
        Err(DiscoverError::Disagree { message }) => assert_eq!(
            message,
            "mean/ensemble time axes disagree for layer 15_20: mean covers 2004..=2004, ensemble 2005..=2005 \
             — fix the missing files, or pass --no-ensemble for a mean-only product"
        ),
        other => panic!("{other:?}"),
    }
    let bad = vec![format!("{}1_x.mat", cfg.mat_stem(&layer, false))];
    assert!(matches!(
        cfg.discover_years(&layer, &bad, None),
        Err(DiscoverError::Name(NameError::Year))
    ));
    assert!(matches!(
        cfg.discover_years(&layer, &Vec::new(), None),
        Err(DiscoverError::Axis(AxisError::Empty { .. }))
    ));
    assert_eq!(scan_axis(&bad, "q").unwrap().months.len(), 0);
}

#[test]
fn misnamed_files_are_refused() {
    let scan = |name: &str| scan_axis(&vec![name.to_string()], "S_15_20_").map(|s| s.months);
    assert!(matches!(scan("S_15_20_08_2016.txt"), Err(NameError::Extension)));
    assert!(matches!(scan("S_15_20_"), Err(NameError::Extension)));
    assert!(matches!(scan("S_15_20_082016.mat"), Err(NameError::Malformed)));
    assert_eq!(scan("S_15_20_08_2016.mat").unwrap(), vec![(2016, 8)]);
    assert_eq!(scan("S_15_200_08_2016.mat").unwrap(), vec![]);
    assert_eq!(scan("S_15_200_08_2016.txt").unwrap(), vec![]);
}

#[test]
fn month_sets() {
    let mut s = MonthSet::new();
    assert!(s.is_empty());
    s.insert((2004, 1));
    s.insert((2004, 2));
    assert!(s.contains((2004, 2)) && !s.contains((2005, 2)) && !s.is_empty());
    s.remove((2004, 2));
    s.remove((1999, 9));
    assert!(!s.contains((2004, 2)) && s.contains((2004, 1)));
}

#[test]
fn days_of_the_calendar() {
    assert_eq!(days_from_civil(1970, 1, 1), 0);
    assert_eq!(days_from_civil(1969, 12, 31), -1);
    assert_eq!(days_from_civil(1900, 1, 1), -25567);
    assert_eq!(days_from_civil(2000, 2, 29), 11016);
    assert_eq!(days_from_civil(2000, 3, 1), 11017);
    assert_eq!(days_from_civil(2026, 1, 10), 20463);
    assert_eq!(days_from_civil(1, 1, 1), -719162);
    assert_eq!(days_from_civil(0, 3, 1), -719468);
    assert_eq!(days_from_civil(-400, 3, 1), -719468 - 146097);
}
