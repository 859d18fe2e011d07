//! The store of a layer.

use flate2::read::GzDecoder;
use ohc_ingest::config::{LayerSpec, RunConfig, Slice};
use ohc_ingest::grid::{Grid2, MapStack};
use ohc_ingest::ingest::LayerData;
use ohc_ingest::json::Json;
use ohc_ingest::provenance::{config_json, facts_json};
use ohc_ingest::zarrwrite::{
    array_meta, chunk_bytes, group_meta, gzip, write_layer_store, Content, DType, Source, StoreInput,
};
use ohc_ingest::GridDef;
use std::io::Read;

fn gunzip(bytes: &[u8]) -> Vec<u8> {
    let mut out = Vec::new();
    GzDecoder::new(bytes).read_to_end(&mut out).unwrap();
    out
}

/// A document as compact text, keys in the order given; a double as its shortest decimal.
fn show(j: &Json) -> String {
    match j {
        Json::Null => "null".to_string(),
        Json::Int(n) => n.to_string(),
        Json::Nat(n) => n.to_string(),
        Json::Double(b) => f64::from_bits(*b).to_string(),
        Json::Text(s) => format!("{s:?}"),
        Json::List(v) => {
            let parts: Vec<String> = v.iter().map(show).collect();
            format!("[{}]", parts.join(","))
        }
        Json::Object(v) => {
            let parts: Vec<String> = v.iter().map(|m| format!("{:?}:{}", m.key, show(&m.value))).collect();
            format!("{{{}}}", parts.join(","))
        }
        Json::Compact(j) => format!("{:?}", show(j)),
    }
}

fn map(values: [f64; 6]) -> Grid2<u64> {
    Grid2 { nrow: 2, ncol: 3, cells: values.map(f64::to_bits).to_vec() }
}

struct Parts {
    cfg: RunConfig,
    slice: Slice,
    grid: GridDef,
    data: LayerData,
    flags: Grid2<u8>,
    etopo: Grid2<u64>,
    basin: Grid2<i16>,
    area: Grid2<u64>,
}

fn parts(members: Option<usize>) -> Parts {
    let mut cfg = RunConfig::defaults();
    cfg.run_tag = "OP1".to_string();
    cfg.provenance_link = "https://example.org/record/1".to_string();
    cfg.code_version = "https://example.org/commit/2".to_string();
    cfg.dir_out = "out".to_string();
    let stack = |base: f64| MapStack {
        nlat: 2,
        nlon: 3,
        maps: (0..12).map(|t| map([0.0, 1.0, 2.0, 3.0, 4.0, 5.0].map(|x| base + 10.0 * t as f64 + x))).collect(),
    };
    Parts {
        cfg,
        slice: Slice { layer: LayerSpec { top: 15, bottom: 300 }, years: [987, 987] },
        grid: GridDef {
            lon: [20.5, 21.5, 22.5].map(f64::to_bits).to_vec(),
            lat: [-0.5, 0.5].map(f64::to_bits).to_vec(),
        },
        data: LayerData {
            ohc_mean: stack(0.5),
            ohc_ensemble: members.map(|n| (0..n).map(|m| stack(1000.0 * m as f64)).collect()),
        },
        flags: Grid2 { nrow: 2, ncol: 3, cells: vec![0, 1, 2, 4, 64, 255] },
        etopo: map([-4827.46533203125, 0.1, 0.2, 1.0, f64::NAN, -0.0]),
        basin: Grid2 { nrow: 2, ncol: 3, cells: vec![0, 1, -1, 53, i16::MAX, i16::MIN] },
        area: map([1.0, 1.0, 1.0, 2.0, 2.0, 2.0]),
    }
}

fn input(p: &Parts) -> StoreInput<'_> {
    StoreInput {
        cfg: &p.cfg,
        slice: &p.slice,
        grid: &p.grid,
        data: &p.data,
        mask_flags: &p.flags,
        etopo: &p.etopo,
        basin_id: &p.basin,
        cell_area: &p.area,
    }
}

#[test]
fn store_layout_with_an_ensemble() {
    let p = parts(Some(3));
    let store = write_layer_store(&input(&p));
    assert_eq!(store.root, "out/ohc_OP1_plev15_300.zarr");
    let paths: Vec<&str> = store.files.iter().map(|f| f.path.as_str()).collect();
    assert_eq!(
        paths,
        vec![
            "zarr.json",
            "lon/zarr.json",
            "lon/c/0",
            "lat/zarr.json",
            "lat/c/0",
            "time/zarr.json",
            "time/c/0",
            "member/zarr.json",
            "member/c/0",
            "etopo/zarr.json",
            "etopo/c/0/0",
            "basin_id/zarr.json",
            "basin_id/c/0/0",
            "cell_area/zarr.json",
            "cell_area/c/0/0",
            "mask_flags/zarr.json",
            "mask_flags/c/0/0",
            "ohc_mean/zarr.json",
            "ohc_mean/c/0/0/0",
            "ohc_ensemble/zarr.json",
            "ohc_ensemble/c/0/0/0/0",
            "ohc_ensemble/c/1/0/0/0",
            "ohc_ensemble/c/2/0/0/0",
        ]
    );
    assert!(matches!(store.files[22].content, Content::Chunk(Source::OhcEnsemble(2))));
}

#[test]
fn mean_only_stores_have_no_ensemble() {
    let p = parts(None);
    let store = write_layer_store(&input(&p));
    assert_eq!(store.files.len(), 19);
    assert!(store.files.iter().all(|f| !f.path.starts_with("ohc_ensemble")));
}

fn doc(p: &Parts, path: &str) -> String {
    let store = write_layer_store(&input(p));
    let file = store.files.iter().find(|f| f.path == path).unwrap();
    match &file.content {
        Content::Doc(j) => show(j),
        Content::Chunk(_) => panic!("{path}"),
    }
}

#[test]
fn documents_of_the_store() {
    let p = parts(Some(3));
    assert_eq!(
        doc(&p, "zarr.json"),
        "{\"zarr_format\":3,\"node_type\":\"group\",\"attributes\":{\"Conventions\":\"CF-1.10\",\
         \"title\":\"LocalGP ocean heat content — OP1, 15-300 dbar\",\
         \"source\":\"LocalGP SpaceTimeTrend; var=potentialTemperature; run=OP1\",\
         \"mapped_fields_tag\":\"OP1\",\"var_name\":\"potentialTemperature\",\"model_name\":\"SpaceTimeTrend\",\
         \"layer_top\":15,\"layer_bottom\":300,\"cp0\":3989.244,\"rho0\":1030,\
         \"domain\":\"lon 20.5..379.5E, lat -89.5..89.5N, 1deg\",\
         \"provenance_tag\":\"OP1\",\"provenance_link\":\"https://example.org/record/1\",\
         \"localgp_ingest_code_version\":\"https://example.org/commit/2\",\
         \"localgp_ingest_run_config\":"
            .to_string()
            + &format!("{:?}", show(&config_json(&p.cfg)))
            + ",\"localgp_ingest_run_facts\":"
            + &format!("{:?}", show(&facts_json(&p.slice, 3, 2, 3)))
            + "}}"
    );
    assert_eq!(show(&group_meta(&input(&p))), doc(&p, "zarr.json"));
    assert_eq!(
        doc(&p, "time/zarr.json"),
        "{\"zarr_format\":3,\"node_type\":\"array\",\"shape\":[12],\"data_type\":\"float64\",\
         \"chunk_grid\":{\"name\":\"regular\",\"configuration\":{\"chunk_shape\":[12]}},\
         \"chunk_key_encoding\":{\"name\":\"default\",\"configuration\":{\"separator\":\"/\"}},\
         \"fill_value\":\"NaN\",\
         \"codecs\":[{\"name\":\"bytes\",\"configuration\":{\"endian\":\"little\"}},\
         {\"name\":\"gzip\",\"configuration\":{\"level\":5}}],\
         \"attributes\":{\"units\":\"days since 0987-01-15\",\"calendar\":\"proleptic_gregorian\"},\
         \"dimension_names\":[\"time\"]}"
    );
    assert!(doc(&p, "mask_flags/zarr.json").contains(
        "\"attributes\":{\"long_name\":\"mask flag band\",\"flag_masks\":[1,2,4,8,16,32,64],\
         \"flag_meanings\":\"bed_above_shallow bed_above_deep outside_latitude removed_basin never_estimated \
         incomplete_timeseries bed_above_floor\"}"
    ));
    let ens = doc(&p, "ohc_ensemble/zarr.json");
    assert!(ens.contains("\"shape\":[3,12,2,3],\"data_type\":\"float64\""));
    assert!(ens.contains("\"chunk_shape\":[1,12,2,3]"));
    assert!(ens.contains("\"dimension_names\":[\"member\",\"time\",\"lat\",\"lon\"]"));
    assert!(doc(&p, "etopo/zarr.json").contains("\"shape\":[2,3],\"data_type\":\"float32\""));
    assert!(doc(&p, "basin_id/zarr.json").contains("\"data_type\":\"int16\""));
    assert!(doc(&p, "basin_id/zarr.json").contains("\"fill_value\":0"));
    assert!(doc(&p, "mask_flags/zarr.json").contains("\"data_type\":\"uint8\""));
    assert!(doc(&p, "ohc_mean/zarr.json").contains("\"shape\":[12,2,3],\"data_type\":\"float64\""));
}

#[test]
fn provenance_of_a_run() {
    let mut p = parts(None);
    p.cfg.bathy_floor_m = Some(300.0f64.to_bits());
    assert_eq!(
        show(&config_json(&p.cfg)),
        "{\"run_tag\":\"OP1\",\"provenance_link\":\"https://example.org/record/1\",\
         \"code_version\":\"https://example.org/commit/2\",\"var_name\":\"potentialTemperature\",\
         \"model_name\":\"SpaceTimeTrend\",\"latitude_range_to_keep\":[-64.5,64.5],\
         \"basins_to_remove\":[0,5,6,7,8,9,53],\"bathy_floor_m\":300,\"missing_sentinel\":null,\
         \"dir_mean\":\".\",\"dir_ensemble\":\".\",\"dir_out\":\"out\",\"etopo_path\":\"etopo60.cdf\",\
         \"basinmask_path\":\"basinmask_04.msk\",\"cp0\":3989.244,\"rho0\":1030}"
    );
    let facts = "{\"years\":[987,987],\"layer_top\":15,\"layer_bottom\":300,\"members\":0,\"nlat\":2,\"nlon\":3}";
    assert_eq!(show(&facts_json(&p.slice, 0, 2, 3)), facts);
    assert!(doc(&p, "zarr.json").ends_with(&format!("\"localgp_ingest_run_facts\":{facts:?}}}}}")));
}

#[test]
fn ensemble_metadata_follows_the_members() {
    let mut p = parts(Some(1));
    p.data.ohc_mean = MapStack { nlat: 1, nlon: 1, maps: Vec::new() };
    let ens = doc(&p, "ohc_ensemble/zarr.json");
    assert!(ens.contains("\"shape\":[1,12,2,3]") && ens.contains("\"chunk_shape\":[1,12,2,3]"));
    p.data.ohc_ensemble = Some(Vec::new());
    assert!(doc(&p, "ohc_ensemble/zarr.json").contains("\"shape\":[0,0,1,1]"));
}

#[test]
fn array_metadata() {
    let meta = array_meta(DType::UInt8, &vec![4, 5], &vec![2, 5], &vec!["a", "b"], Json::Object(vec![]));
    let s = show(&meta);
    assert!(s.contains("\"shape\":[4,5]") && s.contains("\"chunk_shape\":[2,5]"));
    assert!(s.contains("\"attributes\":{}") && s.ends_with("\"dimension_names\":[\"a\",\"b\"]}"));
}

#[test]
fn chunks_hold_little_endian_values() {
    let p = parts(Some(2));
    let store = write_layer_store(&input(&p));
    let raw = |s: Source| gunzip(&chunk_bytes(&input(&p), s, &store.time).unwrap());
    let f64s = |b: &[u8]| -> Vec<f64> {
        b.chunks(8).map(|c| f64::from_le_bytes(c.try_into().unwrap())).collect()
    };
    assert_eq!(f64s(&raw(Source::Lon)), vec![20.5, 21.5, 22.5]);
    assert_eq!(f64s(&raw(Source::Lat)), vec![-0.5, 0.5]);
    assert_eq!(f64s(&raw(Source::Time))[..3], [0.0, 31.0, 59.0]);
    let members: Vec<u8> = (1..=100i16).flat_map(|m| m.to_le_bytes()).collect();
    assert_eq!(raw(Source::Member), members);
    let etopo: Vec<u8> = [-4827.46533203125f64, 0.1, 0.2, 1.0]
        .iter()
        .flat_map(|x| (*x as f32).to_le_bytes())
        .collect();
    assert_eq!(raw(Source::Etopo)[..16], etopo[..]);
    assert_eq!(raw(Source::Etopo).len(), 24);
    let basins: Vec<u8> = [0i16, 1, -1, 53, i16::MAX, i16::MIN].iter().flat_map(|x| x.to_le_bytes()).collect();
    assert_eq!(raw(Source::BasinId), basins);
    assert_eq!(f64s(&raw(Source::CellArea)), vec![1.0, 1.0, 1.0, 2.0, 2.0, 2.0]);
    assert_eq!(raw(Source::MaskFlags), vec![0, 1, 2, 4, 64, 255]);
    let mean = f64s(&raw(Source::OhcMean));
    assert_eq!(mean.len(), 72);
    assert_eq!((mean[0], mean[5], mean[6], mean[71]), (0.5, 5.5, 10.5, 115.5));
    let second = f64s(&raw(Source::OhcEnsemble(1)));
    assert_eq!((second.len(), second[7]), (72, 1011.0));
}

#[test]
fn gzip_streams_inflate_to_what_went_in() {
    let bytes: Vec<u8> = (0..100_000u32).map(|k| (k % 251) as u8).collect();
    let z = gzip(&bytes).unwrap();
    assert_eq!(z[..4], [0x1f, 0x8b, 8, 0]);
    assert!(z.len() < bytes.len());
    assert_eq!(gunzip(&z), bytes);
    assert_eq!(gunzip(&gzip(&[]).unwrap()), Vec::<u8>::new());
}
