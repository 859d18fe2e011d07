//! MAT files: built by hand, read back.

use flate2::write::ZlibEncoder;
use flate2::Compression;
use ohc_ingest::config::{LayerSpec, RunConfig, Slice};
use ohc_ingest::grid::Grid2;
use ohc_ingest::ingest::{
    add_month, heat_map, ingest_layer, to_heat, IngestError, LayerData, LayerIngest, MonthError, MonthFiles,
};
use ohc_ingest::matread::{
    block_of, map_of, parse_inflated, parse_matrix, payload_to_f64, read_element, read_ensemble, read_fullfield,
    read_mean_grid, MatArray, MatError, MI_COMPRESSED, MI_DOUBLE, MI_INT32, MI_MATRIX, MI_SINGLE,
};
use ohc_ingest::rounding::multiply;
use ohc_ingest::GridDef;
use std::io::Write;

fn element(dtype: u32, payload: &[u8]) -> Vec<u8> {
    let mut v = Vec::new();
    v.extend_from_slice(&dtype.to_le_bytes());
    v.extend_from_slice(&(payload.len() as u32).to_le_bytes());
    v.extend_from_slice(payload);
    while v.len() % 8 != 0 {
        v.push(0);
    }
    v
}

fn matrix_body(dims: &[i32], name: &str, dtype: u32, payload: &[u8]) -> Vec<u8> {
    let mut body = element(6, &[6, 0, 0, 0, 0, 0, 0, 0]);
    let mut d = Vec::new();
    for x in dims {
        d.extend_from_slice(&x.to_le_bytes());
    }
    body.extend(element(MI_INT32, &d));
    body.extend(element(1, name.as_bytes()));
    body.extend(element(dtype, payload));
    body
}

fn doubles(data: &[f64]) -> Vec<u8> {
    data.iter().flat_map(|x| x.to_le_bytes()).collect()
}

fn header() -> Vec<u8> {
    let mut h = b"MATLAB 5.0 MAT-file".to_vec();
    h.resize(128, b' ');
    h
}

fn plain_file(dims: &[i32], data: &[f64]) -> Vec<u8> {
    let mut f = header();
    f.extend(element(MI_MATRIX, &matrix_body(dims, "fullFieldGrid", MI_DOUBLE, &doubles(data))));
    f
}

fn deflated(bytes: &[u8]) -> Vec<u8> {
    let mut e = ZlibEncoder::new(Vec::new(), Compression::new(1));
    e.write_all(bytes).unwrap();
    e.finish().unwrap()
}

fn packed_file(dims: &[i32], data: &[f64]) -> Vec<u8> {
    let inner = element(MI_MATRIX, &matrix_body(dims, "fullFieldGrid", MI_DOUBLE, &doubles(data)));
    let stream = deflated(&inner);
    let mut f = header();
    f.extend_from_slice(&MI_COMPRESSED.to_le_bytes());
    f.extend_from_slice(&(stream.len() as u32).to_le_bytes());
    f.extend(stream);
    f
}

/// A field on the mapping grid, the first index running fastest: 31287 values and 33513 gaps.
fn field() -> Vec<f64> {
    let mut v: Vec<f64> = (0..64800).map(|k| if k < 33513 { f64::NAN } else { 100.0 + k as f64 * 1e-3 }).collect();
    v.swap(33513, 200 + 360 * 100);
    v[200 + 360 * 100] = 144.646083;
    v
}

#[test]
fn mean_grid_matches_reference() {
    let g = read_mean_grid(&packed_file(&[360, 180], &field())).unwrap();
    assert_eq!((g.nrow, g.ncol), (360, 180));
    let finite = g.cells.iter().filter(|x| f64::from_bits(**x).is_finite()).count();
    assert_eq!(finite, 31287);
    assert_eq!(g.cells.iter().filter(|x| f64::from_bits(**x).is_nan()).count(), 33513);
    assert!((f64::from_bits(g.get(200, 100)) - 144.646083).abs() < 1e-5);
    assert!(f64::from_bits(g.get(0, 0)).is_nan()); // Antarctica land corner
}

#[test]
fn ensemble_shape_and_shared_footprint() {
    let one = field();
    let mut all = Vec::with_capacity(64800 * 100);
    for _ in 0..100 {
        all.extend_from_slice(&one);
    }
    let e = read_ensemble(&plain_file(&[360, 180, 100], &all)).unwrap();
    assert_eq!((e.n0, e.n1, e.n2), (360, 180, 100));
    // All 100 members share an identical NaN footprint (the key design assumption).
    for i in 0..360 {
        for j in 0..180 {
            let m0 = f64::from_bits(e.get(i, j, 0)).is_nan();
            for k in 1..100 {
                let mk = f64::from_bits(e.get(i, j, k)).is_nan();
                assert_eq!(m0, mk, "member {k} footprint differs from member 0");
            }
        }
    }
    let mut finite = 0;
    for i in 0..360 {
        for j in 0..180 {
            if f64::from_bits(e.get(i, j, 0)).is_finite() {
                finite += 1;
            }
        }
    }
    assert_eq!(finite, 31287);
}

#[test]
fn single_month_transpose_and_scale() {
    let cfg = RunConfig::defaults();
    let mean = read_mean_grid(&packed_file(&[360, 180], &field())).unwrap();
    let scale = multiply(cfg.cp0, cfg.rho0);
    // raw m[200,100]=144.646083 → ohc at [lat=100, lon=200]
    let ohc = f64::from_bits(heat_map(&mean, None, scale).get(100, 200));
    assert!((ohc - 5.943_394e8).abs() / 5.943_394e8 < 1e-5);
}

#[test]
fn compression_changes_nothing() {
    let data = [1.0, 2.0, 3.0, f64::NAN, -0.0, 1e-300];
    let a = read_fullfield(&plain_file(&[2, 3], &data)).unwrap();
    let b = read_fullfield(&packed_file(&[2, 3], &data)).unwrap();
    assert_eq!(a.name, "fullFieldGrid");
    assert_eq!((&a.name, &a.dims, &a.data), (&b.name, &b.dims, &b.data));
    assert_eq!(a.data, data.iter().map(|x| x.to_bits()).collect::<Vec<u64>>());
}

#[test]
fn columns_become_rows() {
    let g = read_mean_grid(&plain_file(&[2, 3], &[0.0, 1.0, 2.0, 3.0, 4.0, 5.0])).unwrap();
    assert_eq!(g.cells, [0.0f64, 2.0, 4.0, 1.0, 3.0, 5.0].map(f64::to_bits).to_vec());
    let data: Vec<f64> = (0..12).map(|k| k as f64).collect();
    let e = read_ensemble(&plain_file(&[2, 3, 2], &data)).unwrap();
    assert_eq!(f64::from_bits(e.get(1, 2, 0)), 5.0);
    assert_eq!(f64::from_bits(e.get(0, 1, 1)), 8.0);
}

#[test]
fn small_elements_stand_inline() {
    // type 5, two bytes inline
    let mut buf = vec![5, 0, 2, 0, 0xaa, 0xbb, 0, 0];
    let e = read_element(&buf, 0).unwrap();
    assert_eq!((e.dtype, e.payload, e.next), (5, &[0xaa, 0xbb][..], 8));
    buf[2] = 5;
    assert!(matches!(read_element(&buf, 0), Err(MatError::SmallPastEnd)));
    assert!(matches!(read_element(&buf, 1), Err(MatError::HeaderPastEnd)));
    assert!(matches!(read_element(&buf, 99), Err(MatError::HeaderPastEnd)));
    let e = element(9, &[1, 2, 3]);
    assert_eq!((read_element(&e, 0).unwrap().payload, read_element(&e, 0).unwrap().next), (&[1, 2, 3][..], 16));
    // The padding counts although the buffer ends before it does.
    let cut = [9, 0, 0, 0, 1, 0, 0, 0, 65];
    let e = read_element(&cut, 0).unwrap();
    assert_eq!((e.dtype, e.payload, e.next), (9, &[65][..], 16));
    assert!(matches!(read_element(&cut, 16), Err(MatError::HeaderPastEnd)));
}

#[test]
fn singles_are_widened() {
    let mut p = Vec::new();
    p.extend_from_slice(&(-4827.4653f32).to_le_bytes());
    p.extend_from_slice(&1.5f32.to_le_bytes());
    p.push(0); // a cut number is left out
    let v = payload_to_f64(MI_SINGLE, &p).unwrap();
    assert_eq!(v, vec![(-4827.4653f32 as f64).to_bits(), 1.5f64.to_bits()]);
    assert_eq!(payload_to_f64(4, &p), Err(MatError::DataType { dtype: 4 }));
}

fn error(r: Result<MatArray, MatError>) -> MatError {
    r.err().unwrap()
}

#[test]
fn faulty_files() {
    assert_eq!(error(read_fullfield(b"MATLAB")), MatError::NotMat);
    let mut f = plain_file(&[1, 1], &[1.0]);
    f[0] = b'X';
    assert_eq!(error(read_fullfield(&f)), MatError::NotMat);
    assert_eq!(error(read_fullfield(&header())), MatError::HeaderPastEnd);
    let mut cut = plain_file(&[1, 1], &[1.0]);
    cut.truncate(150);
    assert_eq!(error(read_fullfield(&cut)), MatError::PayloadPastEnd);
    let mut other = header();
    other.extend(element(9, &[0; 8]));
    assert_eq!(error(read_fullfield(&other)), MatError::FirstElement { dtype: 9 });
    let mut damaged = packed_file(&[1, 1], &[1.0]);
    damaged[136] = 0xff;
    assert_eq!(error(read_fullfield(&damaged)), MatError::Inflate);
    assert_eq!(error(parse_inflated(&element(9, &[0; 8]))), MatError::NotMatrix { dtype: 9 });
    assert_eq!(error(parse_inflated(&[])), MatError::HeaderPastEnd);
}

#[test]
fn faulty_matrices() {
    let ok = matrix_body(&[2, 1], "g", MI_DOUBLE, &doubles(&[1.0, 2.0]));
    assert_eq!(parse_matrix(&ok).unwrap().dims, vec![2, 1]);
    let short = matrix_body(&[2, 1], "g", MI_DOUBLE, &doubles(&[1.0]));
    assert_eq!(error(parse_matrix(&short)), MatError::DataLength);
    let huge = matrix_body(&[-1, -1], "g", MI_DOUBLE, &doubles(&[1.0]));
    assert_eq!(error(parse_matrix(&huge)), MatError::DataLength);
    let typed = matrix_body(&[1], "g", 3, &[0; 8]);
    assert_eq!(error(parse_matrix(&typed)), MatError::DataType { dtype: 3 });
    let mut dims = ok.clone();
    dims[16] = 7;
    assert_eq!(error(parse_matrix(&dims)), MatError::DimsType { dtype: 7 });
    let mut cut = ok.clone();
    cut[20] = 6;
    assert_eq!(error(parse_matrix(&cut)), MatError::DimsCut);
    assert_eq!(error(parse_matrix(&ok[..20])), MatError::HeaderPastEnd);
}

#[test]
fn ranks_and_shapes() {
    let f = plain_file(&[1, 1, 1], &[1.0]);
    assert_eq!(read_mean_grid(&f).err(), Some(MatError::Rank { ndim: 3 }));
    let f = plain_file(&[1, 1], &[1.0]);
    assert_eq!(read_ensemble(&f).err(), Some(MatError::Rank { ndim: 2 }));
    let empty = MatArray { name: String::new(), dims: vec![0, usize::MAX], data: vec![] };
    assert_eq!(map_of(empty).err(), Some(MatError::Shape));
    let empty = MatArray { name: String::new(), dims: vec![0, 3, usize::MAX], data: vec![] };
    assert_eq!(block_of(empty).err(), Some(MatError::Shape));
    let empty = MatArray { name: String::new(), dims: vec![0, 3], data: vec![] };
    assert_eq!(map_of(empty).unwrap().cells.len(), 0);
}

fn tiny() -> GridDef {
    GridDef { lon: vec![0, 0], lat: vec![0, 0, 0] }
}

fn ensemble_data(base: f64) -> Vec<f64> {
    (0..600).map(|k| base + k as f64).collect()
}

#[test]
fn months_become_member_major() {
    let mut cfg = RunConfig::defaults();
    cfg.cp0 = 2.0f64.to_bits();
    cfg.rho0 = 4.0f64.to_bits();
    cfg.missing_sentinel = Some(0.0f64.to_bits());
    let slice = Slice { layer: LayerSpec { top: 0, bottom: 5 }, years: [2004, 2004] };
    let files: Vec<MonthFiles> = (0..12)
        .map(|t| MonthFiles {
            mean: plain_file(&[2, 3], &[0.0, 1.0, 2.0, f64::NAN, 4.0, 5.0 + t as f64]),
            ensemble: Some(plain_file(&[2, 3, 100], &ensemble_data(1000.0 * t as f64))),
        })
        .collect();
    let data = ingest_layer(&cfg, &slice, &tiny(), false, &files).unwrap();
    assert_eq!(data.ohc_mean.maps.len(), 12);
    let map = &data.ohc_mean.maps[3];
    assert_eq!((map.nrow, map.ncol), (3, 2));
    assert!(f64::from_bits(map.get(0, 0)).is_nan()); // the sentinel
    assert_eq!(f64::from_bits(map.get(0, 1)), 8.0);
    assert_eq!(f64::from_bits(map.get(1, 0)), 16.0);
    assert!(f64::from_bits(map.get(1, 1)).is_nan()); // NaN stays
    assert_eq!(f64::from_bits(map.get(2, 1)), 64.0);
    let stacks = data.ohc_ensemble.unwrap();
    assert_eq!(stacks.len(), 100);
    // member 7, month 2, [lat 1, lon 0]: raw index 0 + 2 * (1 + 3 * 7)
    assert_eq!(f64::from_bits(stacks[7].maps[2].get(1, 0)), 8.0 * (2000.0 + 44.0));

    let lean = ingest_layer(&cfg, &slice, &tiny(), true, &files).unwrap();
    assert!(lean.ohc_ensemble.is_none());
    assert_eq!(lean.ohc_mean.maps[3].cells, data.ohc_mean.maps[3].cells);
}

#[test]
fn the_first_faulty_month_is_named() {
    let cfg = RunConfig::defaults();
    let slice = Slice { layer: LayerSpec { top: 0, bottom: 5 }, years: [2004, 2004] };
    let mut files: Vec<MonthFiles> =
        (0..12).map(|_| MonthFiles { mean: plain_file(&[2, 3], &[1.0; 6]), ensemble: None }).collect();
    files[4].mean = plain_file(&[3, 2], &[1.0; 6]);
    files[9].mean = Vec::new();
    let e = ingest_layer(&cfg, &slice, &tiny(), true, &files).err().unwrap();
    assert_eq!((e.year, e.month, e.error), (2004, 5, IngestError::MeanShape));
}

#[test]
fn a_faulty_month_leaves_the_layer_alone() {
    let cfg = RunConfig::defaults();
    let mut data = LayerData::empty(&tiny(), false);
    let mean = plain_file(&[2, 3], &[1.0; 6]);
    let small = plain_file(&[2, 3, 2], &[1.0; 12]);
    assert_eq!(add_month(&cfg, &mut data, &mean, Some(&small)), Err(IngestError::EnsembleShape));
    assert_eq!(add_month(&cfg, &mut data, &mean, Some(&[])), Err(IngestError::Ensemble(MatError::NotMat)));
    assert_eq!(add_month(&cfg, &mut data, &[], Some(&small)), Err(IngestError::Mean(MatError::NotMat)));
    assert_eq!(data.ohc_mean.maps.len(), 0);
    let full = plain_file(&[2, 3, 100], &ensemble_data(0.0));
    assert_eq!(add_month(&cfg, &mut data, &mean, Some(&full)), Ok(()));
    assert_eq!(data.ohc_mean.maps.len(), 1);
    assert_eq!(data.ohc_ensemble.unwrap()[99].maps.len(), 1);
}

#[test]
fn values_are_scaled_and_gaps_kept() {
    let scale = 4108921.32f64;
    assert_eq!(to_heat(2.0f64.to_bits(), None, scale.to_bits()), (2.0 * scale).to_bits());
    assert_eq!(to_heat(0.0f64.to_bits(), None, scale.to_bits()), 0.0f64.to_bits());
    let zero = Some(0.0f64.to_bits());
    assert!(f64::from_bits(to_heat((-0.0f64).to_bits(), zero, scale.to_bits())).is_nan());
    assert!(f64::from_bits(to_heat(f64::NAN.to_bits(), zero, scale.to_bits())).is_nan());
    let raw = Grid2 { nrow: 1, ncol: 2, cells: vec![1.0f64.to_bits(), 3.0f64.to_bits()] };
    let turned = heat_map(&raw, None, scale.to_bits());
    assert_eq!((turned.nrow, turned.ncol), (2, 1));
    assert_eq!(turned.cells, vec![scale.to_bits(), (3.0 * scale).to_bits()]);
}

#[test]
fn months_are_asked_for_in_order() {
    let cfg = RunConfig::defaults();
    let slice = Slice { layer: LayerSpec { top: 15, bottom: 20 }, years: [2004, 2004] };
    let files: Vec<MonthFiles> = (0..12)
        .map(|t| MonthFiles { mean: plain_file(&[2, 3], &[t as f64; 6]), ensemble: None })
        .collect();
    let mut run = LayerIngest::start(&slice, &tiny(), true);
    for (t, f) in files.iter().enumerate() {
        assert_eq!(run.next_month(), Some((2004, t as u32 + 1)));
        assert_eq!(
            run.add_next(&cfg, &[], None),
            Err(MonthError { year: 2004, month: t as u32 + 1, error: IngestError::Mean(MatError::NotMat) })
        );
        assert_eq!(run.add_next(&cfg, &f.mean, None), Ok(()));
    }
    assert_eq!(run.next_month(), None);
    let whole = ingest_layer(&cfg, &slice, &tiny(), true, &files).unwrap();
    for (a, b) in run.data.ohc_mean.maps.iter().zip(&whole.ohc_mean.maps) {
        assert_eq!(a.cells, b.cells);
    }
    assert_eq!(run.data.ohc_mean.maps.len(), 12);
}
