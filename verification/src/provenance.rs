//! What a store says of the run that made it: the resolved configuration, and the facts of the run.

use vstd::prelude::*;

use crate::config::{LayerSpec, RunConfig, Slice};
use crate::json::{text, Doc, Json, ListOf, ObjectOf};

verus! {

/// A double that may be left out.
pub open spec fn optional(x: Option<u64>) -> Doc {
    match x {
        Some(bits) => Doc::Double(bits),
        None => Doc::Null,
    }
}

/// The whole configuration, each setting under its name.
pub open spec fn config_doc(cfg: RunConfig) -> Doc {
    Doc::Object(
        seq![
            ("run_tag"@, Doc::Text(cfg.run_tag@)),
            ("provenance_link"@, Doc::Text(cfg.provenance_link@)),
            ("code_version"@, Doc::Text(cfg.code_version@)),
            ("var_name"@, Doc::Text(cfg.var_name@)),
            ("model_name"@, Doc::Text(cfg.model_name@)),
            (
                "latitude_range_to_keep"@,
                Doc::List(
                    seq![Doc::Double(cfg.latitude_range_to_keep@[0]), Doc::Double(cfg.latitude_range_to_keep@[1])],
                ),
            ),
            ("basins_to_remove"@, Doc::List(cfg.basins_to_remove@.map_values(|id: i16| Doc::Int(id as int)))),
            ("bathy_floor_m"@, optional(cfg.bathy_floor_m)),
            ("missing_sentinel"@, optional(cfg.missing_sentinel)),
            ("dir_mean"@, Doc::Text(cfg.dir_mean@)),
            ("dir_ensemble"@, Doc::Text(cfg.dir_ensemble@)),
            ("dir_out"@, Doc::Text(cfg.dir_out@)),
            ("etopo_path"@, Doc::Text(cfg.etopo_path@)),
            ("basinmask_path"@, Doc::Text(cfg.basinmask_path@)),
            ("cp0"@, Doc::Double(cfg.cp0)),
            ("rho0"@, Doc::Double(cfg.rho0)),
        ],
    )
}

/// The facts of a run: the years that were discovered, the layer, how many members the ensemble has
/// (none in a mean-only run), and the extents of the grid.
pub open spec fn facts_doc(slice: Slice, members: int, nlat: int, nlon: int) -> Doc {
    Doc::Object(
        seq![
            ("years"@, Doc::List(seq![Doc::Int(slice.years@[0] as int), Doc::Int(slice.years@[1] as int)])),
            ("layer_top"@, Doc::Int(slice.layer.top as int)),
            ("layer_bottom"@, Doc::Int(slice.layer.bottom as int)),
            ("members"@, Doc::Int(members)),
            ("nlat"@, Doc::Int(nlat)),
            ("nlon"@, Doc::Int(nlon)),
        ],
    )
}

/// Makes a double that may be left out.
fn optional_of(x: Option<u64>) -> (r: Json)
    ensures
        r.doc() == optional(x),
{
    match x {
        Some(bits) => Json::Double(bits),
        None => Json::Null,
    }
}

/// Makes a list of two parts.
fn pair_of(a: Json, b: Json) -> (r: Json)
    ensures
        r.doc() == Doc::List(seq![a.doc(), b.doc()]),
{
    let mut list = ListOf::new();
    list.push(a);
    list.push(b);
    assert(list.said() =~= seq![a.doc(), b.doc()]);
    list.done()
}

/// Makes a list of basin numbers.
fn basins_of(ids: &Vec<i16>) -> (r: Json)
    ensures
        r.doc() == Doc::List(ids@.map_values(|id: i16| Doc::Int(id as int))),
{
    let ghost all = ids@.map_values(|id: i16| Doc::Int(id as int));
    let mut list = ListOf::new();
    let mut k: usize = 0;
    assert(all.take(0) =~= Seq::<Doc>::empty());
    while k < ids.len()
        invariant
            k <= ids.len(),
            all == ids@.map_values(|id: i16| Doc::Int(id as int)),
            list.said() == all.take(k as int),
        decreases ids.len() - k,
    {
        list.push(Json::Int(ids[k] as i64));
        assert(all.take(k + 1) =~= all.take(k as int).push(all[k as int]));
        k = k + 1;
    }
    assert(all.take(k as int) =~= all);
    list.done()
}

/// Makes the document of the whole configuration.
pub fn config_json(cfg: &RunConfig) -> (r: Json)
    ensures
        r.doc() == config_doc(*cfg),
{
    let range: [u64; 2] = cfg.latitude_range_to_keep;
    let mut o = ObjectOf::new();
    o.put("run_tag", text(cfg.run_tag.as_str()));
    o.put("provenance_link", text(cfg.provenance_link.as_str()));
    o.put("code_version", text(cfg.code_version.as_str()));
    o.put("var_name", text(cfg.var_name.as_str()));
    o.put("model_name", text(cfg.model_name.as_str()));
    o.put("latitude_range_to_keep", pair_of(Json::Double(range[0]), Json::Double(range[1])));
    o.put("basins_to_remove", basins_of(&cfg.basins_to_remove));
    o.put("bathy_floor_m", optional_of(cfg.bathy_floor_m));
    o.put("missing_sentinel", optional_of(cfg.missing_sentinel));
    o.put("dir_mean", text(cfg.dir_mean.as_str()));
    o.put("dir_ensemble", text(cfg.dir_ensemble.as_str()));
    o.put("dir_out", text(cfg.dir_out.as_str()));
    o.put("etopo_path", text(cfg.etopo_path.as_str()));
    o.put("basinmask_path", text(cfg.basinmask_path.as_str()));
    o.put("cp0", Json::Double(cfg.cp0));
    o.put("rho0", Json::Double(cfg.rho0));
    assert(o.said() =~= config_doc(*cfg)->Object_0);
    o.done()
}

/// Makes the document of the facts of a run.
pub fn facts_json(slice: &Slice, members: usize, nlat: usize, nlon: usize) -> (r: Json)
    ensures
        r.doc() == facts_doc(*slice, members as int, nlat as int, nlon as int),
{
    let years: [i32; 2] = slice.years;
    let layer: LayerSpec = slice.layer;
    let mut o = ObjectOf::new();
    o.put("years", pair_of(Json::Int(years[0] as i64), Json::Int(years[1] as i64)));
    o.put("layer_top", Json::Int(layer.top as i64));
    o.put("layer_bottom", Json::Int(layer.bottom as i64));
    o.put("members", Json::Nat(members as u64));
    o.put("nlat", Json::Nat(nlat as u64));
    o.put("nlon", Json::Nat(nlon as u64));
    assert(o.said() =~= facts_doc(*slice, members as int, nlat as int, nlon as int)->Object_0);
    o.done()
}

} // verus!
