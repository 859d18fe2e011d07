//! The basin table.

use ohc_ingest::basinmask::{build_lattice, coordinate, read_basin_id, read_decimal, read_points, BasinError, EMPTY};
use ohc_ingest::GridDef;

fn nano(s: &str) -> Option<i64> {
    let c: Vec<char> = s.chars().collect();
    read_decimal(&c, 0, c.len())
}

/// One point near every cell of the mapping grid, east longitudes up to 180 and west ones beyond.
fn table() -> String {
    let mut t = String::from("#WOA\nLatitude,Longitude,Basin_0m,Basin_5m\n");
    for j in 0..180 {
        for i in 0..360 {
            let (lat, lon) = (-89.375 + j as f64, 20.375 + i as f64);
            let basin = if lon < 120.0 {
                3
            } else if lon < 290.0 {
                2
            } else {
                1
            };
            let west = if lon > 180.0 { lon - 360.0 } else { lon };
            t.push_str(&format!("{lat},{west},{basin},{basin}\n"));
        }
    }
    t
}

#[test]
fn basin_assignment_matches_reference() {
    let grid = GridDef::mapping();
    let b = read_basin_id(&table(), &grid).unwrap();
    assert_eq!((b.nrow, b.ncol), (180, 360));
    // index j=lat+89.5, i=lon-20.5
    assert_eq!(b.get(100, 200), 2); // central Pacific  (10.5, 220.5)
    assert_eq!(b.get(120, 310), 1); // N Atlantic       (30.5, 330.5)
    assert_eq!(b.get(69, 60), 3); //  Indian           (-20.5, 80.5)
    assert_eq!(b.get(130, 130), 2); // NW Pacific       (40.5, 150.5)
}

fn rows(body: &str) -> String {
    format!("#comment\nheader\n{body}")
}

fn degrees(x: f64) -> i64 {
    (x * 1e9) as i64
}

#[test]
fn rows_are_read() {
    let p = read_points(&rows(" -10.125 , 179.875 , 3 , 4\r\n\n10.5,-179.875,,7\n1,19.75,12\n2,20,5")).unwrap();
    let got: Vec<(i64, i64, i16)> = p.iter().map(|p| (p.lat, p.lon, p.basin)).collect();
    assert_eq!(
        got,
        vec![
            (degrees(-10.125), degrees(179.875), 3),
            (degrees(1.0), degrees(379.75), 12),
            (degrees(2.0), degrees(20.0), 5),
        ]
    );
    assert!(read_points("#only\nheader").unwrap().is_empty());
}

#[test]
fn faulty_rows() {
    let err = |body: &str| read_points(&rows(body)).err();
    assert_eq!(err("x,1,2\n"), Some(BasinError::Lat));
    assert_eq!(err("1\n"), Some(BasinError::MissingLon));
    assert_eq!(err("1,x,2\n"), Some(BasinError::Lon));
    assert_eq!(err("1,2,x\n"), Some(BasinError::Basin));
    assert_eq!(err("1,2,40000\n"), Some(BasinError::Basin));
    assert_eq!(err("1,x\n2,3,y\n"), Some(BasinError::Lon));
    assert_eq!(build_lattice(&rows("1,2\n")).err(), Some(BasinError::NoRows));
}

#[test]
fn decimals() {
    assert_eq!(nano("-77.875"), Some(-77_875_000_000));
    assert_eq!(nano("+.5"), Some(500_000_000));
    assert_eq!(nano("5."), Some(5_000_000_000));
    assert_eq!(nano("000012.3000000000000"), Some(12_300_000_000));
    assert_eq!(nano("1000"), Some(1_000_000_000_000));
    assert_eq!(nano("1000.000000001"), None);
    assert_eq!(nano("0.0000000001"), None);
    assert_eq!(nano("1e1"), Some(10_000_000_000));
    assert_eq!(nano("-77875E-3"), Some(-77_875_000_000));
    assert_eq!(nano(".0025e+2"), Some(250_000_000));
    assert_eq!(nano("0e-99999999999999999999999999999999999999999999"), Some(0));
    for bad in ["1e-10", "1e4", "1e99999999999999999999999999999999999999999999", "1e", "e5", "1e1.5", "1e--1"] {
        assert_eq!(nano(bad), None, "{bad}");
    }
    for bad in ["", ".", "-", "1.2.3", "--1", "1 2", "12345678901234567890", "inf", "nan"] {
        assert_eq!(nano(bad), None, "{bad}");
    }
}

#[test]
fn coordinates_are_exact() {
    assert_eq!(coordinate(20.5f64.to_bits()), Some(20_500_000_000));
    assert_eq!(coordinate((-89.5f64).to_bits()), Some(-89_500_000_000));
    assert_eq!(coordinate(0.0f64.to_bits()), Some(0));
    assert_eq!(coordinate((-0.0f64).to_bits()), Some(0));
    assert_eq!(coordinate(0.001953125f64.to_bits()), Some(1_953_125));
    assert_eq!(coordinate(0.1f64.to_bits()), None);
    assert_eq!(coordinate(5e-324f64.to_bits()), None);
    assert_eq!(coordinate(1e18f64.to_bits()), None);
    assert_eq!(coordinate(f64::MAX.to_bits()), None);
    assert_eq!(coordinate(f64::NAN.to_bits()), None);
    let off = GridDef { lon: vec![0.1f64.to_bits()], lat: vec![0.5f64.to_bits()] };
    assert_eq!(read_basin_id(&rows("1,2,3\n"), &off).err(), Some(BasinError::Coordinate));
}

#[test]
fn lattices_hold_the_last_point_of_a_node() {
    let l = build_lattice(&rows("0,30,1\n1,31,2\n0.1,30.1,7\n")).unwrap();
    assert_eq!((l.nlat_l, l.nlon_l), (5, 5));
    assert_eq!((l.lat_min, l.lon_min), (0, degrees(30.0)));
    assert_eq!(l.idx(0, 0), 7);
    assert_eq!(l.idx(4, 4), 2);
    assert_eq!(l.idx(2, 2), EMPTY);
}

/// The nearest listed point, by looking at all of them; ties go to the node that the search meets
/// first: ring by ring around the rounded node, rows upward, columns upward.
fn brute(points: &[(i64, i64, i16)], step: i64, qlat: i64, qlon: i64) -> i16 {
    let (lat0, lon0) = (points.iter().map(|p| p.0).min().unwrap(), points.iter().map(|p| p.1).min().unwrap());
    let round = |x: i64| if x >= 0 { (x + step / 2) / step } else { -((-x + step / 2) / step) };
    let (ci, cj) = (round(qlat - lat0), round(qlon - lon0));
    let mut best: Option<((i128, i64, i64, i64), i16)> = None;
    for &(lat, lon, b) in points {
        let (il, jl) = ((lat - lat0) / step, (lon - lon0) / step);
        let (dy, dx) = ((lat - qlat) as i128, (lon - qlon) as i128);
        let (di, dj) = (il - ci, jl - cj);
        let key = (dy * dy + dx * dx, di.abs().max(dj.abs()), di, dj);
        if best.is_none() || key < best.unwrap().0 {
            best = Some((key, b));
        }
    }
    best.unwrap().1
}

#[test]
fn nearest_is_exact_and_ties_are_settled() {
    let step = 250_000_000;
    let mut points = Vec::new();
    let mut body = String::new();
    for k in 0..40i64 {
        let (a, b) = ((k * 7) % 23, (k * 11) % 29);
        let (lat, lon) = (-2.875 + a as f64 * 0.25, 30.125 + b as f64 * 0.25);
        points.push((degrees(lat), degrees(lon), k as i16));
        body.push_str(&format!("{lat},{lon},{k}\n"));
    }
    let l = build_lattice(&rows(&body)).unwrap();
    for y in -10..12 {
        for x in 50..90 {
            let (qlat, qlon) = (y * 500_000_000, x * 500_000_000);
            assert_eq!(l.nearest(qlat, qlon), brute(&points, step, qlat, qlon), "{qlat} {qlon}");
        }
    }
    // a place where a point is listed is that point's
    for p in &points {
        assert_eq!(l.nearest(p.0, p.1), p.2);
    }
}

#[test]
fn far_places_are_assigned_too() {
    let l = build_lattice(&rows("0,30,4\n0,31,5\n")).unwrap();
    assert_eq!(l.nearest(degrees(20.0), degrees(50.0)), 5);
    assert_eq!(l.nearest(degrees(-20.0), degrees(20.0)), 4);
}

#[test]
fn a_table_of_empty_basins_gives_zero() {
    let grid = GridDef { lon: vec![30.5f64.to_bits()], lat: vec![0.5f64.to_bits()] };
    let b = read_basin_id(&rows("0,30,-32768\n"), &grid).unwrap();
    assert_eq!(b.cells, vec![0]);
}
