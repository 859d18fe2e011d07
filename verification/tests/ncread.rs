//! Classic NetCDF files: built by hand, read back.

use ohc_ingest::ncread::{assert_grid, nctype_size, read_etopo, Axis, Cdf, CdfError, Cursor, EtopoError, EtopoVar};
use ohc_ingest::GridDef;

fn word(v: &mut Vec<u8>, x: u32) {
    v.extend_from_slice(&x.to_be_bytes());
}

fn name(v: &mut Vec<u8>, s: &str) {
    word(v, s.len() as u32);
    v.extend_from_slice(s.as_bytes());
    while v.len() % 4 != 0 {
        v.push(0);
    }
}

struct Var {
    name: &'static str,
    dims: Vec<u32>,
    nctype: u32,
    data: Vec<u8>,
}

/// A file with the given version, dimensions and variables, and one attribute here and there.
fn file(version: u8, dims: &[u32], vars: &[Var]) -> Vec<u8> {
    let mut begins = vec![0u64; vars.len()];
    loop {
        let mut v = vec![b'C', b'D', b'F', version];
        word(&mut v, 0);
        word(&mut v, 0x0a);
        word(&mut v, dims.len() as u32);
        for d in dims {
            name(&mut v, "dim");
            word(&mut v, *d);
        }
        word(&mut v, 0x0c);
        word(&mut v, 1);
        name(&mut v, "title");
        word(&mut v, 2);
        word(&mut v, 5);
        v.extend_from_slice(b"hello\0\0\0");
        word(&mut v, 0x0b);
        word(&mut v, vars.len() as u32);
        for (k, x) in vars.iter().enumerate() {
            name(&mut v, x.name);
            word(&mut v, x.dims.len() as u32);
            for d in &x.dims {
                word(&mut v, *d);
            }
            word(&mut v, 0x0c);
            word(&mut v, 1);
            name(&mut v, "units");
            word(&mut v, 3);
            word(&mut v, 1);
            v.extend_from_slice(&[0, 7, 0, 0]);
            word(&mut v, x.nctype);
            word(&mut v, x.data.len() as u32);
            if version >= 2 {
                v.extend_from_slice(&begins[k].to_be_bytes());
            } else {
                word(&mut v, begins[k] as u32);
            }
        }
        let mut at = v.len() as u64;
        let mut next = Vec::new();
        for x in vars {
            next.push(at);
            at += x.data.len() as u64;
        }
        if next == begins {
            for x in vars {
                v.extend_from_slice(&x.data);
            }
            return v;
        }
        begins = next;
    }
}

fn doubles(x: &[f64]) -> Vec<u8> {
    x.iter().flat_map(|x| x.to_be_bytes()).collect()
}

fn singles(x: &[f32]) -> Vec<u8> {
    x.iter().flat_map(|x| x.to_be_bytes()).collect()
}

fn lons() -> Vec<f64> {
    (0..360).map(|i| 20.5 + i as f64).collect()
}

fn lats() -> Vec<f64> {
    (0..180).map(|j| -89.5 + j as f64).collect()
}

fn relief() -> Vec<f32> {
    let mut r = vec![-4000.0f32; 180 * 360];
    r[100 * 360 + 200] = -4827.46533203125;
    r[7] = -7473.0;
    r[64799] = 5731.0;
    r
}

fn etopo(version: u8, x: Vec<f64>, y: Vec<f64>, rose_dims: Vec<u32>) -> Vec<u8> {
    file(
        version,
        &[x.len() as u32, y.len() as u32],
        &[
            Var { name: "ETOPO60X", dims: vec![0], nctype: 6, data: doubles(&x) },
            Var { name: "ETOPO60Y", dims: vec![1], nctype: 6, data: doubles(&y) },
            Var { name: "ROSE", dims: rose_dims, nctype: 5, data: singles(&relief()) },
        ],
    )
}

#[test]
fn etopo_matches_grid_and_reference() {
    let grid = GridDef::mapping();
    let e = read_etopo(etopo(1, lons(), lats(), vec![1, 0]), &grid).unwrap();
    assert_eq!((e.nrow, e.ncol), (180, 360)); // [lat, lon]
    // Reference cell: etopo[lat=100, lon=200] ≈ -4827.465 m.
    assert!((f64::from_bits(e.get(100, 200)) - (-4827.46533203125)).abs() < 1e-3);
    let mn = e.cells.iter().map(|x| f64::from_bits(*x)).fold(f64::INFINITY, f64::min);
    let mx = e.cells.iter().map(|x| f64::from_bits(*x)).fold(f64::NEG_INFINITY, f64::max);
    assert!((mn - (-7473.0)).abs() < 1.0);
    assert!((mx - 5731.0).abs() < 1.0);
}

#[test]
fn wide_offsets_are_read() {
    let grid = GridDef::mapping();
    let e = read_etopo(etopo(2, lons(), lats(), vec![1, 0]), &grid).unwrap();
    assert_eq!(f64::from_bits(e.get(0, 7)), -7473.0);
}

#[test]
fn another_grid_is_refused() {
    let grid = GridDef::mapping();
    let mut x = lons();
    x[5] += 1e-7; // within the tolerance
    assert!(read_etopo(etopo(1, x.clone(), lats(), vec![1, 0]), &grid).is_ok());
    x[5] += 1e-5;
    assert_eq!(
        read_etopo(etopo(1, x.clone(), lats(), vec![1, 0]), &grid).err(),
        Some(EtopoError::GridMismatch { axis: Axis::Lon, at: 5, got: x[5].to_bits(), want: 25.5f64.to_bits() })
    );
    let short = lats()[..179].to_vec();
    assert_eq!(
        read_etopo(etopo(1, lons(), short, vec![1, 0]), &grid).err(),
        Some(EtopoError::GridLength { axis: Axis::Lat, got: 179, want: 180 })
    );
    assert_eq!(read_etopo(etopo(1, lons(), lats(), vec![0, 1]), &grid).err(), Some(EtopoError::RoseShape));
}

#[test]
fn an_axis_is_compared_with_itself() {
    let a: Vec<u64> = [1.0, -89.5, 1e300, -0.0, f64::INFINITY, f64::NEG_INFINITY].map(f64::to_bits).to_vec();
    assert_eq!(assert_grid(&a, &a, Axis::Lat), Ok(()));
    let (up, down) = (vec![f64::INFINITY.to_bits()], vec![f64::NEG_INFINITY.to_bits()]);
    assert!(assert_grid(&up, &down, Axis::Lat).is_err());
}

#[test]
fn what_is_no_number_is_no_coordinate() {
    let want = vec![20.5f64.to_bits()];
    for x in [f64::NAN, f64::INFINITY, f64::NEG_INFINITY] {
        let got = vec![x.to_bits()];
        let fault = EtopoError::GridMismatch { axis: Axis::Lon, at: 0, got: got[0], want: want[0] };
        assert_eq!(assert_grid(&got, &want, Axis::Lon), Err(fault));
    }
    let nan = vec![f64::NAN.to_bits()];
    assert!(assert_grid(&nan, &nan, Axis::Lon).is_err());
    let mut x = lons();
    x[9] = f64::NAN;
    assert!(read_etopo(etopo(1, x.clone(), lats(), vec![1, 0]), &GridDef::mapping()).is_err());
    // The same infinity in the file and in the grid agrees.
    x[9] = f64::INFINITY;
    let mut grid = GridDef::mapping();
    grid.lon[9] = f64::INFINITY.to_bits();
    assert!(read_etopo(etopo(1, x, lats(), vec![1, 0]), &grid).is_ok());
}

#[test]
fn padding_may_run_past_the_end() {
    let mut c = Cursor { buf: &[0, 0, 0, 1, 97], off: 0 };
    assert_eq!(c.name(), Ok("a".to_string()));
    assert_eq!(c.off, 8);
    assert_eq!(c.u32(), Err(CdfError::Truncated));
    assert_eq!(c.u64(), Err(CdfError::Truncated));
    let mut c = Cursor { buf: &[0, 0, 0, 4, 97, 98, 99, 100], off: 0 };
    assert_eq!(c.name(), Ok("abcd".to_string()));
    assert_eq!(c.off, 8);
    let mut c = Cursor { buf: &[0, 0, 0, 2, 97], off: 0 };
    assert_eq!(c.name(), Err(CdfError::Truncated));
    // One attribute of 2^32 - 1 doubles, none of which is there.
    let mut v = Vec::new();
    word(&mut v, 0x0c);
    word(&mut v, 1);
    name(&mut v, "a");
    word(&mut v, 6);
    word(&mut v, u32::MAX);
    let mut c = Cursor { buf: &v, off: 0 };
    assert_eq!(c.skip_att_list(), Ok(()));
    assert_eq!(c.off, v.len() as u128 + 8 * u32::MAX as u128);
    assert_eq!(c.u32(), Err(CdfError::Truncated));
}

#[test]
fn missing_and_faulty_variables() {
    let grid = GridDef::mapping();
    let only = |nctype: u32| file(1, &[1], &[Var { name: "ETOPO60X", dims: vec![0], nctype, data: vec![0; 8] }]);
    assert_eq!(
        read_etopo(only(6), &grid).err(),
        Some(EtopoError::Variable { var: EtopoVar::Y, error: CdfError::Missing })
    );
    assert_eq!(
        read_etopo(only(4), &grid).err(),
        Some(EtopoError::Variable { var: EtopoVar::X, error: CdfError::Unsupported { nctype: 4 } })
    );
    let mut cut = only(6);
    cut.truncate(cut.len() - 1);
    assert_eq!(
        read_etopo(cut, &grid).err(),
        Some(EtopoError::Variable { var: EtopoVar::X, error: CdfError::Truncated })
    );
}

#[test]
fn the_last_variable_of_a_name_counts() {
    let f = file(
        1,
        &[1],
        &[
            Var { name: "v", dims: vec![0], nctype: 6, data: doubles(&[1.0]) },
            Var { name: "v", dims: vec![0], nctype: 5, data: singles(&[2.0]) },
        ],
    );
    let c = Cdf::open(f).unwrap();
    assert_eq!(c.read_var_f64("v").unwrap(), (vec![2.0f64.to_bits()], vec![1]));
}

#[test]
fn faulty_headers() {
    let err = |v: Vec<u8>| Cdf::open(v).err();
    assert_eq!(err(b"HDF!".to_vec()), Some(CdfError::NotNetcdf));
    assert_eq!(err(b"CDF\x01".to_vec()), Some(CdfError::Truncated));
    let mut v = b"CDF\x01".to_vec();
    word(&mut v, 0);
    let start = v.clone();
    word(&mut v, 9);
    word(&mut v, 0);
    assert_eq!(err(v), Some(CdfError::ExpectedDimensions { tag: 9 }));
    let mut v = start.clone();
    word(&mut v, 0);
    word(&mut v, 0);
    let dims = v.clone();
    word(&mut v, 8);
    word(&mut v, 0);
    assert_eq!(err(v), Some(CdfError::ExpectedAttributes { tag: 8 }));
    let mut v = dims.clone();
    word(&mut v, 0);
    word(&mut v, 0);
    let atts = v.clone();
    word(&mut v, 7);
    word(&mut v, 0);
    assert_eq!(err(v), Some(CdfError::ExpectedVariables { tag: 7 }));
    let mut v = atts.clone();
    word(&mut v, 0x0b);
    word(&mut v, 1);
    name(&mut v, "v");
    word(&mut v, 1);
    word(&mut v, 3);
    assert_eq!(err(v), Some(CdfError::BadDimension { id: 3 }));
    let mut v = atts;
    word(&mut v, 0);
    word(&mut v, 0);
    assert!(Cdf::open(v).is_ok());
}

#[test]
fn sizes_of_types() {
    assert_eq!([0, 1, 2, 3, 4, 5, 6, 7].map(nctype_size), [0, 1, 1, 2, 4, 4, 8, 0]);
}
