//! The zarr v3 store of a layer: which files it has and what is in them.
//!
//! A store is a directory tree. Each array has a directory with a metadata document and one file
//! per chunk, little-endian values in C order, compressed with gzip. Every array is one chunk but
//! the ensemble, which has one chunk per member.

use vstd::prelude::*;
use vstd::string::StringExecFns;

use crate::bytes::{encoded, lemma_encoded_joins, lemma_encoded_push, push_le};
use crate::codec::{gzip_at, gzip_stream};
use crate::config::{civil_day, is_whole, joined, months_between, store_name, LayerSpec, RunConfig, Slice};
use crate::consts::NMEMBER;
use crate::grid::{Grid2, GridDef, MapStack};
use crate::ingest::LayerData;
use crate::json::{compact, text, Doc, Json, ListOf, ObjectOf};
use crate::masks::{FLAG_MASKS, FLAG_MEANINGS};
use crate::provenance::{config_doc, config_json, facts_doc, facts_json};
use crate::rounding::{narrow, narrowed};
use crate::text::{
    first_mark, int_text, lemma_first_mark_at, lemma_nat_text, nat_text, padded_text, push_int, push_nat, push_padded,
};

verus! {

/// The compression level of chunks.
pub const GZIP_LEVEL: u32 = 5;

/// The element types that are stored.
#[derive(Debug, Clone, Copy, PartialEq, Eq)]
pub enum DType {
    Float64,
    Float32,
    Int16,
    UInt8,
}

impl DType {
    /// How many bytes an element takes.
    pub open spec fn width(self) -> int {
        match self {
            DType::Float64 => 8,
            DType::Float32 => 4,
            DType::Int16 => 2,
            DType::UInt8 => 1,
        }
    }

    /// The name of the type in metadata.
    pub open spec fn label(self) -> Seq<char> {
        match self {
            DType::Float64 => "float64"@,
            DType::Float32 => "float32"@,
            DType::Int16 => "int16"@,
            DType::UInt8 => "uint8"@,
        }
    }

    /// What stands for a value that was never written.
    pub open spec fn blank(self) -> Doc {
        match self {
            DType::Float64 => Doc::Text("NaN"@),
            DType::Float32 => Doc::Text("NaN"@),
            DType::Int16 => Doc::Int(0),
            DType::UInt8 => Doc::Int(0),
        }
    }

    /// The name of the type in metadata.
    pub fn name(self) -> (r: &'static str)
        ensures
            r@ == self.label(),
    {
        match self {
            DType::Float64 => "float64",
            DType::Float32 => "float32",
            DType::Int16 => "int16",
            DType::UInt8 => "uint8",
        }
    }

    /// What stands for a value that was never written.
    pub fn fill(self) -> (r: Json)
        ensures
            r.doc() == self.blank(),
    {
        match self {
            DType::Float64 => text("NaN"),
            DType::Float32 => text("NaN"),
            DType::Int16 => Json::Int(0),
            DType::UInt8 => Json::Int(0),
        }
    }
}

/// Appends doubles as little-endian bytes.
fn push_doubles(out: &mut Vec<u8>, v: &Vec<u64>)
    ensures
        final(out)@ == old(out)@ + encoded(v@, 8),
{
    let ghost before = out@;
    let mut k: usize = 0;
    assert(encoded(v@.take(0), 8) =~= Seq::empty());
    assert(out@ =~= before + encoded(v@.take(0), 8));
    while k < v.len()
        invariant
            k <= v.len(),
            out@ == before + encoded(v@.take(k as int), 8),
        decreases v.len() - k,
    {
        proof {
            assert(v@.take(k + 1) =~= v@.take(k as int).push(v@[k as int]));
            lemma_encoded_push(v@.take(k as int), v@[k as int], 8);
        }
        push_le(out, v[k], 8);
        k = k + 1;
        assert(out@ =~= before + encoded(v@.take(k as int), 8));
    }
    assert(v@.take(k as int) =~= v@);
}

/// The values of a stack of maps, month by month.
pub open spec fn stack_values(maps: Seq<Grid2<u64>>) -> Seq<u64>
    decreases maps.len(),
{
    if maps.len() == 0 {
        Seq::empty()
    } else {
        stack_values(maps.drop_last()) + maps.last().cells@
    }
}

/// A 16-bit signed number as the unsigned number with the same bits.
pub open spec fn short_word(x: i16) -> u64 {
    if x < 0 {
        (0x1_0000 + x) as u64
    } else {
        x as u64
    }
}

/// The numbers of the ensemble members, from one on.
pub open spec fn member_numbers() -> Seq<u64> {
    Seq::new(NMEMBER as nat, |m: int| (m + 1) as u64)
}

/// What a chunk is made of.
#[derive(Debug, Clone, Copy, PartialEq, Eq)]
pub enum Source {
    Lon,
    Lat,
    Time,
    Member,
    Etopo,
    BasinId,
    CellArea,
    MaskFlags,
    OhcMean,
    OhcEnsemble(usize),
}

impl Source {
    /// The element type of the chunk.
    pub open spec fn dtype(self) -> DType {
        match self {
            Source::Lon => DType::Float64,
            Source::Lat => DType::Float64,
            Source::Time => DType::Float64,
            Source::Member => DType::Int16,
            Source::Etopo => DType::Float32,
            Source::BasinId => DType::Int16,
            Source::CellArea => DType::Float64,
            Source::MaskFlags => DType::UInt8,
            Source::OhcMean => DType::Float64,
            Source::OhcEnsemble(_) => DType::Float64,
        }
    }
}

/// What a store is made of.
pub struct StoreInput<'a> {
    pub cfg: &'a RunConfig,
    pub slice: &'a Slice,
    pub grid: &'a GridDef,
    pub data: &'a LayerData,
    pub mask_flags: &'a Grid2<u8>,
    pub etopo: &'a Grid2<u64>,
    pub basin_id: &'a Grid2<i16>,
    pub cell_area: &'a Grid2<u64>,
}

impl<'a> StoreInput<'a> {
    /// The values of a chunk, in C order, each as the unsigned number with the same bits.
    pub open spec fn values(&self, source: Source, time: Seq<u64>) -> Seq<u64> {
        match source {
            Source::Lon => self.grid.lon@,
            Source::Lat => self.grid.lat@,
            Source::Time => time,
            Source::Member => member_numbers(),
            Source::Etopo => self.etopo.cells@.map_values(|x: u64| narrowed(x) as u64),
            Source::BasinId => self.basin_id.cells@.map_values(|x: i16| short_word(x)),
            Source::CellArea => self.cell_area.cells@,
            Source::MaskFlags => self.mask_flags.cells@.map_values(|x: u8| x as u64),
            Source::OhcMean => stack_values(self.data.ohc_mean.maps@),
            Source::OhcEnsemble(m) => stack_values(self.data.ohc_ensemble->0@[m as int].maps@),
        }
    }

    /// The chunk exists: a member's is there only where the layer has that member.
    pub open spec fn has(&self, source: Source) -> bool {
        source matches Source::OhcEnsemble(m) ==> (self.data.ohc_ensemble matches Some(stacks) && m < stacks.len())
    }

    /// The years are in order, so that the time coordinate can be counted.
    pub open spec fn wf(&self) -> bool {
        i32::MIN < self.slice.years@[0] <= self.slice.years@[1]
    }

    /// The bytes of a chunk before compression; `time` is the time coordinate.
    pub fn raw_bytes(&self, source: Source, time: &Vec<u64>) -> (r: Vec<u8>)
        requires
            self.has(source),
        ensures
            r@ == encoded(self.values(source, time@), source.dtype().width()),
    {
        let mut out: Vec<u8> = Vec::new();
        match source {
            Source::Lon => {
                push_doubles(&mut out, &self.grid.lon);
            },
            Source::Lat => {
                push_doubles(&mut out, &self.grid.lat);
            },
            Source::Time => {
                push_doubles(&mut out, time);
            },
            Source::Member => {
                push_members(&mut out);
            },
            Source::Etopo => {
                push_singles(&mut out, &self.etopo.cells);
            },
            Source::BasinId => {
                push_shorts(&mut out, &self.basin_id.cells);
            },
            Source::CellArea => {
                push_doubles(&mut out, &self.cell_area.cells);
            },
            Source::MaskFlags => {
                push_flags(&mut out, &self.mask_flags.cells);
            },
            Source::OhcMean => {
                push_stack(&mut out, &self.data.ohc_mean);
            },
            Source::OhcEnsemble(m) => match &self.data.ohc_ensemble {
                Some(stacks) => {
                    push_stack(&mut out, &stacks[m]);
                },
                None => {},
            },
        }
        assert(out@ =~= encoded(self.values(source, time@), source.dtype().width()));
        out
    }
}

/// Appends the numbers of the ensemble members.
fn push_members(out: &mut Vec<u8>)
    ensures
        final(out)@ == old(out)@ + encoded(member_numbers(), 2),
{
    let ghost before = out@;
    let ghost all = member_numbers();
    let mut m: usize = 0;
    assert(encoded(all.take(0), 2) =~= Seq::empty());
    assert(out@ =~= before + encoded(all.take(0), 2));
    while m < NMEMBER
        invariant
            m <= NMEMBER,
            all == member_numbers(),
            out@ == before + encoded(all.take(m as int), 2),
        decreases NMEMBER - m,
    {
        proof {
            assert(all.take(m + 1) =~= all.take(m as int).push(all[m as int]));
            lemma_encoded_push(all.take(m as int), all[m as int], 2);
        }
        push_le(out, m as u64 + 1, 2);
        m = m + 1;
        assert(out@ =~= before + encoded(all.take(m as int), 2));
    }
    assert(all.take(m as int) =~= all);
}

/// Appends doubles, narrowed to singles.
fn push_singles(out: &mut Vec<u8>, v: &Vec<u64>)
    ensures
        final(out)@ == old(out)@ + encoded(v@.map_values(|x: u64| narrowed(x) as u64), 4),
{
    let ghost before = out@;
    let ghost all = v@.map_values(|x: u64| narrowed(x) as u64);
    let mut k: usize = 0;
    assert(encoded(all.take(0), 4) =~= Seq::empty());
    assert(out@ =~= before + encoded(all.take(0), 4));
    while k < v.len()
        invariant
            k <= v.len(),
            all == v@.map_values(|x: u64| narrowed(x) as u64),
            out@ == before + encoded(all.take(k as int), 4),
        decreases v.len() - k,
    {
        proof {
            assert(all.take(k + 1) =~= all.take(k as int).push(all[k as int]));
            lemma_encoded_push(all.take(k as int), all[k as int], 4);
        }
        push_le(out, narrow(v[k]) as u64, 4);
        k = k + 1;
        assert(out@ =~= before + encoded(all.take(k as int), 4));
    }
    assert(all.take(k as int) =~= all);
}

/// Appends 16-bit numbers.
fn push_shorts(out: &mut Vec<u8>, v: &Vec<i16>)
    ensures
        final(out)@ == old(out)@ + encoded(v@.map_values(|x: i16| short_word(x)), 2),
{
    let ghost before = out@;
    let ghost all = v@.map_values(|x: i16| short_word(x));
    let mut k: usize = 0;
    assert(encoded(all.take(0), 2) =~= Seq::empty());
    assert(out@ =~= before + encoded(all.take(0), 2));
    while k < v.len()
        invariant
            k <= v.len(),
            all == v@.map_values(|x: i16| short_word(x)),
            out@ == before + encoded(all.take(k as int), 2),
        decreases v.len() - k,
    {
        proof {
            assert(all.take(k + 1) =~= all.take(k as int).push(all[k as int]));
            lemma_encoded_push(all.take(k as int), all[k as int], 2);
        }
        let x: i32 = v[k] as i32;
        let word: u64 = if x < 0 {
            (0x1_0000 + x) as u64
        } else {
            x as u64
        };
        push_le(out, word, 2);
        k = k + 1;
        assert(out@ =~= before + encoded(all.take(k as int), 2));
    }
    assert(all.take(k as int) =~= all);
}

/// Appends flags.
fn push_flags(out: &mut Vec<u8>, v: &Vec<u8>)
    ensures
        final(out)@ == old(out)@ + encoded(v@.map_values(|x: u8| x as u64), 1),
{
    let ghost before = out@;
    let ghost all = v@.map_values(|x: u8| x as u64);
    let mut k: usize = 0;
    assert(encoded(all.take(0), 1) =~= Seq::empty());
    assert(out@ =~= before + encoded(all.take(0), 1));
    while k < v.len()
        invariant
            k <= v.len(),
            all == v@.map_values(|x: u8| x as u64),
            out@ == before + encoded(all.take(k as int), 1),
        decreases v.len() - k,
    {
        proof {
            assert(all.take(k + 1) =~= all.take(k as int).push(all[k as int]));
            lemma_encoded_push(all.take(k as int), all[k as int], 1);
        }
        push_le(out, v[k] as u64, 1);
        k = k + 1;
        assert(out@ =~= before + encoded(all.take(k as int), 1));
    }
    assert(all.take(k as int) =~= all);
}

/// Appends the maps of a stack.
fn push_stack(out: &mut Vec<u8>, stack: &MapStack)
    ensures
        final(out)@ == old(out)@ + encoded(stack_values(stack.maps@), 8),
{
    let ghost before = out@;
    let ghost all = stack.maps@;
    let mut t: usize = 0;
    assert(encoded(stack_values(all.take(0)), 8) =~= Seq::empty());
    assert(out@ =~= before + encoded(stack_values(all.take(0)), 8));
    while t < stack.maps.len()
        invariant
            t <= stack.maps.len(),
            all == stack.maps@,
            out@ == before + encoded(stack_values(all.take(t as int)), 8),
        decreases stack.maps.len() - t,
    {
        proof {
            assert(all.take(t + 1).drop_last() =~= all.take(t as int));
            lemma_encoded_joins(stack_values(all.take(t as int)), all[t as int].cells@, 8);
        }
        push_doubles(out, &stack.maps[t].cells);
        t = t + 1;
        assert(out@ =~= before + encoded(stack_values(all.take(t as int)), 8));
    }
    assert(all.take(t as int) =~= all);
}

/// Why a chunk could not be compressed.
#[derive(Debug, Clone, Copy, PartialEq, Eq)]
pub enum ZipError {
    Failed,
}

/// Compresses bytes.
pub fn gzip(bytes: &[u8]) -> (r: Result<Vec<u8>, ZipError>)
    ensures
        match r {
            Ok(stream) => gzip_stream(bytes@, GZIP_LEVEL) == Some(stream@),
            Err(_) => gzip_stream(bytes@, GZIP_LEVEL) is None,
        },
{
    match gzip_at(bytes, GZIP_LEVEL) {
        Ok(stream) => Ok(stream),
        Err(_) => Err(ZipError::Failed),
    }
}

/// The bytes of a chunk's file.
pub fn chunk_bytes(input: &StoreInput, source: Source, time: &Vec<u64>) -> (r: Result<Vec<u8>, ZipError>)
    requires
        input.has(source),
    ensures
        ({
            let raw = encoded(input.values(source, time@), source.dtype().width());
            match r {
                Ok(stream) => gzip_stream(raw, GZIP_LEVEL) == Some(stream@),
                Err(_) => gzip_stream(raw, GZIP_LEVEL) is None,
            }
        }),
{
    let raw = input.raw_bytes(source, time);
    gzip(raw.as_slice())
}

/// Numbers as a list.
pub open spec fn numbers(shape: Seq<usize>) -> Doc {
    Doc::List(shape.map_values(|n: usize| Doc::Int(n as int)))
}

/// Texts as a list.
pub open spec fn texts(names: Seq<Seq<char>>) -> Doc {
    Doc::List(names.map_values(|s: Seq<char>| Doc::Text(s)))
}

/// A named thing with one setting.
pub open spec fn configured(name: Seq<char>, key: Seq<char>, value: Doc) -> Doc {
    Doc::Object(
        seq![
            ("name"@, Doc::Text(name)),
            ("configuration"@, Doc::Object(seq![(key, value)])),
        ],
    )
}

/// The metadata of an array.
pub open spec fn array_doc(
    dtype: DType,
    shape: Seq<usize>,
    chunk_shape: Seq<usize>,
    dim_names: Seq<Seq<char>>,
    attrs: Doc,
) -> Doc {
    Doc::Object(
        seq![
            ("zarr_format"@, Doc::Int(3)),
            ("node_type"@, Doc::Text("array"@)),
            ("shape"@, numbers(shape)),
            ("data_type"@, Doc::Text(dtype.label())),
            ("chunk_grid"@, configured("regular"@, "chunk_shape"@, numbers(chunk_shape))),
            ("chunk_key_encoding"@, configured("default"@, "separator"@, Doc::Text("/"@))),
            ("fill_value"@, dtype.blank()),
            (
                "codecs"@,
                Doc::List(
                    seq![
                        configured("bytes"@, "endian"@, Doc::Text("little"@)),
                        configured("gzip"@, "level"@, Doc::Int(GZIP_LEVEL as int)),
                    ],
                ),
            ),
            ("attributes"@, attrs),
            ("dimension_names"@, texts(dim_names)),
        ],
    )
}

/// Numbers as a list.
fn number_list(shape: &Vec<usize>) -> (r: Json)
    ensures
        r.doc() == numbers(shape@),
{
    let ghost all = shape@.map_values(|n: usize| Doc::Int(n as int));
    let mut list = ListOf::new();
    let mut k: usize = 0;
    assert(all.take(0) =~= Seq::<Doc>::empty());
    while k < shape.len()
        invariant
            k <= shape.len(),
            all == shape@.map_values(|n: usize| Doc::Int(n as int)),
            list.said() == all.take(k as int),
        decreases shape.len() - k,
    {
        list.push(Json::Nat(shape[k] as u64));
        assert(all.take(k + 1) =~= all.take(k as int).push(all[k as int]));
        k = k + 1;
    }
    assert(all.take(k as int) =~= all);
    list.done()
}

/// The texts of some string slices.
pub open spec fn views(names: Seq<&'static str>) -> Seq<Seq<char>> {
    names.map_values(|s: &'static str| s@)
}

/// Texts as a list.
fn text_list(names: &Vec<&'static str>) -> (r: Json)
    ensures
        r.doc() == texts(views(names@)),
{
    let ghost all = views(names@).map_values(|s: Seq<char>| Doc::Text(s));
    let mut list = ListOf::new();
    let mut k: usize = 0;
    assert(all.take(0) =~= Seq::<Doc>::empty());
    while k < names.len()
        invariant
            k <= names.len(),
            all == views(names@).map_values(|s: Seq<char>| Doc::Text(s)),
            list.said() == all.take(k as int),
        decreases names.len() - k,
    {
        list.push(text(names[k]));
        assert(all.take(k + 1) =~= all.take(k as int).push(all[k as int]));
        k = k + 1;
    }
    assert(all.take(k as int) =~= all);
    list.done()
}

/// A named thing with one setting.
fn configured_with(name: &str, key: &str, value: Json) -> (r: Json)
    ensures
        r.doc() == configured(name@, key@, value.doc()),
{
    let mut inner = ObjectOf::new();
    inner.put(key, value);
    assert(inner.said() =~= seq![(key@, value.doc())]);
    let mut outer = ObjectOf::new();
    outer.put("name", text(name));
    outer.put("configuration", inner.done());
    let r = outer.done();
    assert(outer.said() =~= seq![
        ("name"@, Doc::Text(name@)),
        ("configuration"@, Doc::Object(seq![(key@, value.doc())])),
    ]);
    r
}

/// Makes the metadata of an array.
pub fn array_meta(
    dtype: DType,
    shape: &Vec<usize>,
    chunk_shape: &Vec<usize>,
    dim_names: &Vec<&'static str>,
    attrs: Json,
) -> (r: Json)
    ensures
        r.doc() == array_doc(dtype, shape@, chunk_shape@, views(dim_names@), attrs.doc()),
{
    let mut codecs = ListOf::new();
    codecs.push(configured_with("bytes", "endian", text("little")));
    codecs.push(configured_with("gzip", "level", Json::Nat(GZIP_LEVEL as u64)));
    assert(codecs.said() =~= seq![
        configured("bytes"@, "endian"@, Doc::Text("little"@)),
        configured("gzip"@, "level"@, Doc::Int(GZIP_LEVEL as int)),
    ]);
    let mut o = ObjectOf::new();
    o.put("zarr_format", Json::Int(3));
    o.put("node_type", text("array"));
    o.put("shape", number_list(shape));
    o.put("data_type", text(dtype.name()));
    o.put("chunk_grid", configured_with("regular", "chunk_shape", number_list(chunk_shape)));
    o.put("chunk_key_encoding", configured_with("default", "separator", text("/")));
    o.put("fill_value", dtype.fill());
    o.put("codecs", codecs.done());
    o.put("attributes", attrs);
    o.put("dimension_names", text_list(dim_names));
    let r = o.done();
    proof {
        let want = array_doc(dtype, shape@, chunk_shape@, views(dim_names@), attrs.doc());
        assert(o.said() =~= want->Object_0);
    }
    r
}

/// The title of a store.
pub open spec fn title_text(tag: Seq<char>, layer: LayerSpec) -> Seq<char> {
    "LocalGP ocean heat content — "@ + tag + ", "@ + int_text(layer.top as int) + "-"@ + int_text(layer.bottom as int)
        + " dbar"@
}

/// Where a store's data come from.
pub open spec fn source_text(model: Seq<char>, var: Seq<char>, tag: Seq<char>) -> Seq<char> {
    "LocalGP "@ + model + "; var="@ + var + "; run="@ + tag
}

impl<'a> StoreInput<'a> {
    /// How many members the ensemble has; none in a mean-only layer.
    pub open spec fn member_count(&self) -> int {
        match self.data.ohc_ensemble {
            Some(stacks) => stacks.len() as int,
            None => 0,
        }
    }

    /// The facts of the run that made the store.
    pub open spec fn facts(&self) -> Doc {
        facts_doc(*self.slice, self.member_count(), self.grid.lat.len() as int, self.grid.lon.len() as int)
    }

    /// The attributes of the store that describe its data.
    pub open spec fn data_attrs(&self) -> Seq<(Seq<char>, Doc)> {
        let (cfg, layer) = (*self.cfg, self.slice.layer);
        seq![
            ("Conventions"@, Doc::Text("CF-1.10"@)),
            ("title"@, Doc::Text(title_text(cfg.run_tag@, layer))),
            ("source"@, Doc::Text(source_text(cfg.model_name@, cfg.var_name@, cfg.run_tag@))),
            ("mapped_fields_tag"@, Doc::Text(cfg.run_tag@)),
            ("var_name"@, Doc::Text(cfg.var_name@)),
            ("model_name"@, Doc::Text(cfg.model_name@)),
            ("layer_top"@, Doc::Int(layer.top as int)),
            ("layer_bottom"@, Doc::Int(layer.bottom as int)),
            ("cp0"@, Doc::Double(cfg.cp0)),
            ("rho0"@, Doc::Double(cfg.rho0)),
            ("domain"@, Doc::Text("lon 20.5..379.5E, lat -89.5..89.5N, 1deg"@)),
        ]
    }

    /// The attributes of the store that say where it comes from. The configuration and the facts of the
    /// run are kept as texts, so that later steps can hand them on untouched.
    pub open spec fn provenance_attrs(&self) -> Seq<(Seq<char>, Doc)> {
        seq![
            ("provenance_tag"@, Doc::Text(self.cfg.run_tag@)),
            ("provenance_link"@, Doc::Text(self.cfg.provenance_link@)),
            ("localgp_ingest_code_version"@, Doc::Text(self.cfg.code_version@)),
            ("localgp_ingest_run_config"@, Doc::Compact(Box::new(config_doc(*self.cfg)))),
            ("localgp_ingest_run_facts"@, Doc::Compact(Box::new(self.facts()))),
        ]
    }

    /// The metadata of the store.
    pub open spec fn group_doc(&self) -> Doc {
        Doc::Object(
            seq![
                ("zarr_format"@, Doc::Int(3)),
                ("node_type"@, Doc::Text("group"@)),
                ("attributes"@, Doc::Object(self.data_attrs() + self.provenance_attrs())),
            ],
        )
    }

    /// Adds the attributes that describe the data.
    fn put_data_attrs(&self, a: &mut ObjectOf)
        ensures
            final(a).said() == old(a).said() + self.data_attrs(),
    {
        let cfg: &RunConfig = self.cfg;
        let layer: LayerSpec = self.slice.layer;
        let mut title = String::from_str("LocalGP ocean heat content — ");
        title.append(cfg.run_tag.as_str());
        title.append(", ");
        push_int(&mut title, layer.top as i64);
        title.append("-");
        push_int(&mut title, layer.bottom as i64);
        title.append(" dbar");
        let mut source = String::from_str("LocalGP ");
        source.append(cfg.model_name.as_str());
        source.append("; var=");
        source.append(cfg.var_name.as_str());
        source.append("; run=");
        source.append(cfg.run_tag.as_str());
        a.put("Conventions", text("CF-1.10"));
        a.put("title", text(title.as_str()));
        a.put("source", text(source.as_str()));
        a.put("mapped_fields_tag", text(cfg.run_tag.as_str()));
        a.put("var_name", text(cfg.var_name.as_str()));
        a.put("model_name", text(cfg.model_name.as_str()));
        a.put("layer_top", Json::Int(layer.top as i64));
        a.put("layer_bottom", Json::Int(layer.bottom as i64));
        a.put("cp0", Json::Double(cfg.cp0));
        a.put("rho0", Json::Double(cfg.rho0));
        a.put("domain", text("lon 20.5..379.5E, lat -89.5..89.5N, 1deg"));
        assert(a.said() =~= old(a).said() + self.data_attrs());
    }

    /// Adds the attributes that say where the store comes from.
    fn put_provenance_attrs(&self, a: &mut ObjectOf)
        ensures
            final(a).said() == old(a).said() + self.provenance_attrs(),
    {
        let cfg: &RunConfig = self.cfg;
        let members: usize = match &self.data.ohc_ensemble {
            Some(stacks) => stacks.len(),
            None => 0,
        };
        let facts = facts_json(self.slice, members, self.grid.nlat(), self.grid.nlon());
        a.put("provenance_tag", text(cfg.run_tag.as_str()));
        a.put("provenance_link", text(cfg.provenance_link.as_str()));
        a.put("localgp_ingest_code_version", text(cfg.code_version.as_str()));
        a.put("localgp_ingest_run_config", compact(config_json(cfg)));
        a.put("localgp_ingest_run_facts", compact(facts));
        assert(a.said() =~= old(a).said() + self.provenance_attrs());
    }
}

/// Makes the metadata of a store.
pub fn group_meta(input: &StoreInput) -> (r: Json)
    ensures
        r.doc() == input.group_doc(),
{
    let mut a = ObjectOf::new();
    input.put_data_attrs(&mut a);
    input.put_provenance_attrs(&mut a);
    assert(a.said() =~= input.data_attrs() + input.provenance_attrs());
    let mut o = ObjectOf::new();
    o.put("zarr_format", Json::Int(3));
    o.put("node_type", text("group"));
    o.put("attributes", a.done());
    let r = o.done();
    assert(o.said() =~= input.group_doc()->Object_0);
    r
}

/// Attributes that are two texts.
pub open spec fn two_texts(k0: Seq<char>, v0: Seq<char>, k1: Seq<char>, v1: Seq<char>) -> Doc {
    Doc::Object(seq![(k0, Doc::Text(v0)), (k1, Doc::Text(v1))])
}

/// Attributes that are one text.
pub open spec fn one_text(key: Seq<char>, value: Seq<char>) -> Doc {
    Doc::Object(seq![(key, Doc::Text(value))])
}

/// Makes attributes that are two texts.
fn attrs_of_two(k0: &str, v0: &str, k1: &str, v1: &str) -> (r: Json)
    ensures
        r.doc() == two_texts(k0@, v0@, k1@, v1@),
{
    let mut o = ObjectOf::new();
    o.put(k0, text(v0));
    o.put(k1, text(v1));
    let r = o.done();
    assert(o.said() =~= seq![(k0@, Doc::Text(v0@)), (k1@, Doc::Text(v1@))]);
    r
}

/// Makes attributes that are one text.
fn attrs_of_one(key: &str, value: &str) -> (r: Json)
    ensures
        r.doc() == one_text(key@, value@),
{
    let mut o = ObjectOf::new();
    o.put(key, text(value));
    let r = o.done();
    assert(o.said() =~= seq![(key@, Doc::Text(value@))]);
    r
}

/// The unit of the time coordinate: days since the middle of the first month.
pub open spec fn time_units(year: int, month: int) -> Seq<char> {
    "days since "@ + padded_text(year, 4) + "-"@ + padded_text(month, 2) + "-15"@
}

/// The values of the CF flag masks as a list.
pub open spec fn flag_masks() -> Doc {
    Doc::List(FLAG_MASKS@.map_values(|b: u8| Doc::Int(b as int)))
}

/// The attributes of the flag band.
pub open spec fn flag_attrs() -> Doc {
    Doc::Object(
        seq![
            ("long_name"@, Doc::Text("mask flag band"@)),
            ("flag_masks"@, flag_masks()),
            ("flag_meanings"@, Doc::Text(FLAG_MEANINGS@)),
        ],
    )
}

/// Makes the attributes of the flag band.
fn attrs_of_flags() -> (r: Json)
    ensures
        r.doc() == flag_attrs(),
{
    let masks: [u8; 7] = FLAG_MASKS;
    let ghost all = masks@.map_values(|b: u8| Doc::Int(b as int));
    let mut list = ListOf::new();
    let mut k: usize = 0;
    assert(all.take(0) =~= Seq::<Doc>::empty());
    while k < 7
        invariant
            k <= 7,
            masks@.len() == 7,
            all == masks@.map_values(|b: u8| Doc::Int(b as int)),
            list.said() == all.take(k as int),
        decreases 7 - k,
    {
        list.push(Json::Nat(masks[k] as u64));
        assert(all.take(k + 1) =~= all.take(k as int).push(all[k as int]));
        k = k + 1;
    }
    assert(all.take(k as int) =~= all);
    let mut o = ObjectOf::new();
    o.put("long_name", text("mask flag band"));
    o.put("flag_masks", list.done());
    o.put("flag_meanings", text(FLAG_MEANINGS));
    let r = o.done();
    assert(o.said() =~= flag_attrs()->Object_0);
    r
}

/// What a file of a store holds.
#[derive(Debug)]
pub enum Content {
    /// A metadata document.
    Doc(Json),
    /// A compressed chunk.
    Chunk(Source),
}

/// One file of a store: its path below the store's directory, and what it holds.
#[derive(Debug)]
pub struct StoreFile {
    pub path: String,
    pub content: Content,
}

/// What a file of a store holds.
pub enum ContentModel {
    Doc(Doc),
    Chunk(Source),
}

/// One file of a store.
pub struct FileModel {
    pub path: Seq<char>,
    pub content: ContentModel,
}

impl StoreFile {
    /// The file's path and content.
    pub open spec fn model(&self) -> FileModel {
        FileModel {
            path: self.path@,
            content: match self.content {
                Content::Doc(json) => ContentModel::Doc(json.doc()),
                Content::Chunk(source) => ContentModel::Chunk(source),
            },
        }
    }
}

/// The paths and contents of files.
pub open spec fn models(files: Seq<StoreFile>) -> Seq<FileModel> {
    files.map_values(|f: StoreFile| f.model())
}

/// The key of the chunk with index zero in each of `ndim` dimensions.
pub open spec fn zero_key(ndim: nat) -> Seq<char>
    decreases ndim,
{
    if ndim == 0 {
        "c"@
    } else {
        zero_key((ndim - 1) as nat) + "/0"@
    }
}

/// The metadata file of an array.
pub open spec fn meta_file(
    name: Seq<char>,
    dtype: DType,
    shape: Seq<usize>,
    chunk_shape: Seq<usize>,
    dims: Seq<Seq<char>>,
    attrs: Doc,
) -> FileModel {
    FileModel {
        path: name + "/zarr.json"@,
        content: ContentModel::Doc(array_doc(dtype, shape, chunk_shape, dims, attrs)),
    }
}

/// The files of an array that is one chunk.
pub open spec fn single_chunk(
    name: Seq<char>,
    source: Source,
    shape: Seq<usize>,
    dims: Seq<Seq<char>>,
    attrs: Doc,
) -> Seq<FileModel> {
    seq![
        meta_file(name, source.dtype(), shape, shape, dims, attrs),
        FileModel { path: name + "/"@ + zero_key(shape.len()), content: ContentModel::Chunk(source) },
    ]
}

/// Adds the files of an array that is one chunk.
fn add_single_chunk(
    files: &mut Vec<StoreFile>,
    name: &str,
    source: Source,
    dtype: DType,
    shape: Vec<usize>,
    dims: Vec<&'static str>,
    attrs: Json,
)
    requires
        dtype == source.dtype(),
    ensures
        models(final(files)@) == models(old(files)@) + single_chunk(name@, source, shape@, views(dims@), attrs.doc()),
{
    let mut meta_path = String::from_str(name);
    meta_path.append("/zarr.json");
    let mut chunk_path = String::from_str(name);
    chunk_path.append("/");
    let ghost start = chunk_path@;
    chunk_path.append("c");
    let mut k: usize = 0;
    while k < shape.len()
        invariant
            k <= shape.len(),
            chunk_path@ == start + zero_key(k as nat),
        decreases shape.len() - k,
    {
        chunk_path.append("/0");
        k = k + 1;
        assert(chunk_path@ =~= start + zero_key(k as nat));
    }
    files.push(StoreFile { path: meta_path, content: Content::Doc(array_meta(dtype, &shape, &shape, &dims, attrs)) });
    files.push(StoreFile { path: chunk_path, content: Content::Chunk(source) });
    assert(models(files@) =~= models(old(files)@) + single_chunk(name@, source, shape@, views(dims@), attrs.doc()));
}

/// One dimension's name.
fn names1(a: &'static str) -> (r: Vec<&'static str>)
    ensures
        views(r@) == seq![a@],
{
    let mut v: Vec<&'static str> = Vec::new();
    v.push(a);
    assert(views(v@) =~= seq![a@]);
    v
}

/// Two dimensions' names.
fn names2(a: &'static str, b: &'static str) -> (r: Vec<&'static str>)
    ensures
        views(r@) == seq![a@, b@],
{
    let mut v: Vec<&'static str> = Vec::new();
    v.push(a);
    v.push(b);
    assert(views(v@) =~= seq![a@, b@]);
    v
}

/// Three dimensions' names.
fn names3(a: &'static str, b: &'static str, c: &'static str) -> (r: Vec<&'static str>)
    ensures
        views(r@) == seq![a@, b@, c@],
{
    let mut v: Vec<&'static str> = Vec::new();
    v.push(a);
    v.push(b);
    v.push(c);
    assert(views(v@) =~= seq![a@, b@, c@]);
    v
}

/// Four dimensions' names.
fn names4(a: &'static str, b: &'static str, c: &'static str, d: &'static str) -> (r: Vec<&'static str>)
    ensures
        views(r@) == seq![a@, b@, c@, d@],
{
    let mut v: Vec<&'static str> = Vec::new();
    v.push(a);
    v.push(b);
    v.push(c);
    v.push(d);
    assert(views(v@) =~= seq![a@, b@, c@, d@]);
    v
}

/// One extent.
fn shape1(a: usize) -> (r: Vec<usize>)
    ensures
        r@ == seq![a],
{
    let mut v: Vec<usize> = Vec::new();
    v.push(a);
    assert(v@ =~= seq![a]);
    v
}

/// Two extents.
fn shape2(a: usize, b: usize) -> (r: Vec<usize>)
    ensures
        r@ == seq![a, b],
{
    let mut v: Vec<usize> = Vec::new();
    v.push(a);
    v.push(b);
    assert(v@ =~= seq![a, b]);
    v
}

/// Three extents.
fn shape3(a: usize, b: usize, c: usize) -> (r: Vec<usize>)
    ensures
        r@ == seq![a, b, c],
{
    let mut v: Vec<usize> = Vec::new();
    v.push(a);
    v.push(b);
    v.push(c);
    assert(v@ =~= seq![a, b, c]);
    v
}

/// Four extents.
fn shape4(a: usize, b: usize, c: usize, d: usize) -> (r: Vec<usize>)
    ensures
        r@ == seq![a, b, c, d],
{
    let mut v: Vec<usize> = Vec::new();
    v.push(a);
    v.push(b);
    v.push(c);
    v.push(d);
    assert(v@ =~= seq![a, b, c, d]);
    v
}

impl<'a> StoreInput<'a> {
    /// How many months the slice has.
    pub open spec fn months(&self) -> usize {
        months_between(self.slice.years@[0] as int, self.slice.years@[1] as int).len() as usize
    }

    /// The files of the coordinates.
    pub open spec fn coordinate_files(&self) -> Seq<FileModel> {
        single_chunk(
            "lon"@,
            Source::Lon,
            seq![self.grid.lon.len()],
            seq!["lon"@],
            two_texts("units"@, "degrees_east"@, "standard_name"@, "longitude"@),
        ) + single_chunk(
            "lat"@,
            Source::Lat,
            seq![self.grid.lat.len()],
            seq!["lat"@],
            two_texts("units"@, "degrees_north"@, "standard_name"@, "latitude"@),
        ) + single_chunk(
            "time"@,
            Source::Time,
            seq![self.months()],
            seq!["time"@],
            two_texts("units"@, time_units(self.slice.years@[0] as int, 1), "calendar"@, "proleptic_gregorian"@),
        ) + single_chunk(
            "member"@,
            Source::Member,
            seq![NMEMBER],
            seq!["member"@],
            one_text("long_name"@, "conditional simulation member"@),
        )
    }

    /// The files of the grids that go with the data.
    pub open spec fn ancillary_files(&self) -> Seq<FileModel> {
        single_chunk(
            "etopo"@,
            Source::Etopo,
            seq![self.etopo.nrow, self.etopo.ncol],
            seq!["lat"@, "lon"@],
            two_texts("units"@, "m"@, "long_name"@, "bathymetry (relief), negative below sea level"@),
        ) + single_chunk(
            "basin_id"@,
            Source::BasinId,
            seq![self.basin_id.nrow, self.basin_id.ncol],
            seq!["lat"@, "lon"@],
            one_text("long_name"@, "WOA basin id (surface)"@),
        ) + single_chunk(
            "cell_area"@,
            Source::CellArea,
            seq![self.cell_area.nrow, self.cell_area.ncol],
            seq!["lat"@, "lon"@],
            two_texts("units"@, "m2"@, "long_name"@, "grid cell area"@),
        ) + single_chunk(
            "mask_flags"@,
            Source::MaskFlags,
            seq![self.mask_flags.nrow, self.mask_flags.ncol],
            seq!["lat"@, "lon"@],
            flag_attrs(),
        )
    }

    /// The files of the mean.
    pub open spec fn mean_files(&self) -> Seq<FileModel> {
        single_chunk(
            "ohc_mean"@,
            Source::OhcMean,
            seq![self.data.ohc_mean.maps.len(), self.data.ohc_mean.nlat, self.data.ohc_mean.nlon],
            seq!["time"@, "lat"@, "lon"@],
            two_texts("units"@, "J/m2"@, "long_name"@, "ocean heat content (posterior mean)"@),
        )
    }

    /// The file of one member's chunk.
    pub open spec fn member_file(&self, m: int) -> FileModel {
        FileModel {
            path: "ohc_ensemble/c/"@ + nat_text(m as nat) + "/0/0/0"@,
            content: ContentModel::Chunk(Source::OhcEnsemble(m as usize)),
        }
    }

    /// The months, rows and columns of every member: those of the first. Where there is no member, they
    /// are those of the mean.
    pub open spec fn member_extents(&self) -> (usize, usize, usize) {
        let stack = match self.data.ohc_ensemble {
            Some(stacks) => if stacks.len() > 0 {
                stacks@[0]
            } else {
                self.data.ohc_mean
            },
            None => self.data.ohc_mean,
        };
        (stack.maps.len(), stack.nlat, stack.nlon)
    }

    /// The files of the ensemble: one chunk per member. A mean-only layer has none.
    pub open spec fn ensemble_files(&self) -> Seq<FileModel> {
        match self.data.ohc_ensemble {
            None => Seq::empty(),
            Some(stacks) => {
                let (nt, nlat, nlon) = self.member_extents();
                seq![
                    meta_file(
                        "ohc_ensemble"@,
                        DType::Float64,
                        seq![stacks.len(), nt, nlat, nlon],
                        seq![1usize, nt, nlat, nlon],
                        seq!["member"@, "time"@, "lat"@, "lon"@],
                        two_texts("units"@, "J/m2"@, "long_name"@, "ocean heat content (conditional simulations)"@),
                    ),
                ] + Seq::new(stacks.len() as nat, |m: int| self.member_file(m))
            },
        }
    }

    /// The files of the store, in the order in which they are written.
    pub open spec fn store_files(&self) -> Seq<FileModel> {
        seq![
            FileModel {
                path: "zarr.json"@,
                content: ContentModel::Doc(self.group_doc()),
            },
        ] + self.coordinate_files() + self.ancillary_files() + self.mean_files() + self.ensemble_files()
    }

    /// Adds the files of the coordinates.
    fn add_coordinates(&self, files: &mut Vec<StoreFile>, months: usize, first: (i32, u32))
        requires
            months == self.months(),
            first == (self.slice.years@[0], 1u32),
        ensures
            models(final(files)@) == models(old(files)@) + self.coordinate_files(),
    {
        add_single_chunk(
            files,
            "lon",
            Source::Lon,
            DType::Float64,
            shape1(self.grid.nlon()),
            names1("lon"),
            attrs_of_two("units", "degrees_east", "standard_name", "longitude"),
        );
        add_single_chunk(
            files,
            "lat",
            Source::Lat,
            DType::Float64,
            shape1(self.grid.nlat()),
            names1("lat"),
            attrs_of_two("units", "degrees_north", "standard_name", "latitude"),
        );
        let mut units = String::from_str("days since ");
        push_padded(&mut units, first.0 as i64, 4);
        units.append("-");
        push_padded(&mut units, first.1 as i64, 2);
        units.append("-15");
        add_single_chunk(
            files,
            "time",
            Source::Time,
            DType::Float64,
            shape1(months),
            names1("time"),
            attrs_of_two("units", units.as_str(), "calendar", "proleptic_gregorian"),
        );
        add_single_chunk(
            files,
            "member",
            Source::Member,
            DType::Int16,
            shape1(NMEMBER),
            names1("member"),
            attrs_of_one("long_name", "conditional simulation member"),
        );
        assert(models(files@) =~= models(old(files)@) + self.coordinate_files());
    }

    /// Adds the files of the grids that go with the data.
    fn add_ancillaries(&self, files: &mut Vec<StoreFile>)
        ensures
            models(final(files)@) == models(old(files)@) + self.ancillary_files(),
    {
        add_single_chunk(
            files,
            "etopo",
            Source::Etopo,
            DType::Float32,
            shape2(self.etopo.nrow, self.etopo.ncol),
            names2("lat", "lon"),
            attrs_of_two("units", "m", "long_name", "bathymetry (relief), negative below sea level"),
        );
        add_single_chunk(
            files,
            "basin_id",
            Source::BasinId,
            DType::Int16,
            shape2(self.basin_id.nrow, self.basin_id.ncol),
            names2("lat", "lon"),
            attrs_of_one("long_name", "WOA basin id (surface)"),
        );
        add_single_chunk(
            files,
            "cell_area",
            Source::CellArea,
            DType::Float64,
            shape2(self.cell_area.nrow, self.cell_area.ncol),
            names2("lat", "lon"),
            attrs_of_two("units", "m2", "long_name", "grid cell area"),
        );
        add_single_chunk(
            files,
            "mask_flags",
            Source::MaskFlags,
            DType::UInt8,
            shape2(self.mask_flags.nrow, self.mask_flags.ncol),
            names2("lat", "lon"),
            attrs_of_flags(),
        );
        assert(models(files@) =~= models(old(files)@) + self.ancillary_files());
    }

    /// Adds the files of the ensemble, where there is one.
    fn add_ensemble(&self, files: &mut Vec<StoreFile>)
        ensures
            models(final(files)@) == models(old(files)@) + self.ensemble_files(),
    {
        let ghost before = models(files@);
        let stacks = match &self.data.ohc_ensemble {
            None => {
                assert(models(files@) =~= before + self.ensemble_files());
                return ;
            },
            Some(stacks) => stacks,
        };
        let stack: &MapStack = if stacks.len() > 0 {
            &stacks[0]
        } else {
            &self.data.ohc_mean
        };
        let (nt, nlat, nlon) = (stack.maps.len(), stack.nlat, stack.nlon);
        let meta = array_meta(
            DType::Float64,
            &shape4(stacks.len(), nt, nlat, nlon),
            &shape4(1, nt, nlat, nlon),
            &names4("member", "time", "lat", "lon"),
            attrs_of_two("units", "J/m2", "long_name", "ocean heat content (conditional simulations)"),
        );
        let mut path = String::from_str("ohc_ensemble");
        path.append("/zarr.json");
        files.push(StoreFile { path, content: Content::Doc(meta) });
        let ghost head = self.ensemble_files().take(1);
        let ghost chunks = Seq::new(stacks.len() as nat, |m: int| self.member_file(m));
        proof {
            assert(self.ensemble_files() =~= head + chunks);
            assert(models(files@) =~= before + head + chunks.take(0));
        }
        let mut m: usize = 0;
        while m < stacks.len()
            invariant
                m <= stacks.len(),
                chunks == Seq::new(stacks.len() as nat, |m: int| self.member_file(m)),
                models(files@) == before + head + chunks.take(m as int),
            decreases stacks.len() - m,
        {
            let mut path = String::from_str("ohc_ensemble/c/");
            push_nat(&mut path, m as u64);
            path.append("/0/0/0");
            let ghost now = models(files@);
            files.push(StoreFile { path, content: Content::Chunk(Source::OhcEnsemble(m)) });
            proof {
                assert(chunks.take(m + 1) =~= chunks.take(m as int).push(chunks[m as int]));
                assert(models(files@) =~= now.push(self.member_file(m as int)));
                assert(now.push(self.member_file(m as int)) =~= before + head + chunks.take(m + 1));
            }
            m = m + 1;
        }
        proof {
            assert(chunks.take(m as int) =~= chunks);
            assert(before + head + chunks =~= before + (head + chunks));
        }
    }
}

/// What is to be written: the store's directory, the time coordinate, and the files.
pub struct Store {
    pub root: String,
    pub time: Vec<u64>,
    pub files: Vec<StoreFile>,
}

/// Lays out the store of a layer: its directory, and every file in the order of writing.
/// [`chunk_bytes`] gives the bytes of a chunk.
pub fn write_layer_store(input: &StoreInput) -> (r: Store)
    requires
        input.wf(),
    ensures
        r.root@ == joined(input.cfg.dir_out@, store_name(input.cfg.run_tag@, input.slice.layer)),
        models(r.files@) == input.store_files(),
        input.data.ohc_ensemble is None ==> r.files.len() == 19,
        input.data.ohc_ensemble matches Some(stacks) ==> r.files.len() == 20 + stacks.len(),
        forall|k: int|
            20 <= k < r.files.len() ==> (#[trigger] r.files@[k]).path@ == "ohc_ensemble/c/"@ + nat_text((k - 20) as nat)
                + "/0/0/0"@,
        forall|k: int|
            20 <= k < r.files.len() ==> (#[trigger] r.files@[k]).content == Content::Chunk(
                Source::OhcEnsemble((k - 20) as usize),
            ),
        r.time.len() == months_between(input.slice.years@[0] as int, input.slice.years@[1] as int).len(),
        forall|k: int|
            0 <= k < r.time.len() ==> is_whole(
                #[trigger] r.time@[k],
                civil_day(input.slice.years@[0] + k / 12, k % 12 + 1, 15) - civil_day(input.slice.years@[0] as int, 1, 15),
            ),
{
    let root = input.cfg.store_path(&input.slice.layer);
    let (time, first) = input.slice.time_days_since_start();
    let mut files: Vec<StoreFile> = Vec::new();
    files.push(
        StoreFile {
            path: String::from_str("zarr.json"),
            content: Content::Doc(group_meta(input)),
        },
    );
    let ghost head = models(files@);
    assert(head =~= input.store_files().take(1));
    input.add_coordinates(&mut files, time.len(), first);
    input.add_ancillaries(&mut files);
    let stack = &input.data.ohc_mean;
    add_single_chunk(
        &mut files,
        "ohc_mean",
        Source::OhcMean,
        DType::Float64,
        shape3(stack.maps.len(), stack.nlat, stack.nlon),
        names3("time", "lat", "lon"),
        attrs_of_two("units", "J/m2", "long_name", "ocean heat content (posterior mean)"),
    );
    input.add_ensemble(&mut files);
    proof {
        assert(head =~= seq![
            FileModel {
                path: "zarr.json"@,
                content: ContentModel::Doc(input.group_doc()),
            },
        ]);
        assert(models(files@) == input.store_files());
        crate::laws::store::law_store_has_no_other_files(*input);
        assert forall|k: int| 20 <= k < files.len() implies (#[trigger] files@[k]).path@ == "ohc_ensemble/c/"@ + nat_text(
            (k - 20) as nat,
        ) + "/0/0/0"@ && files@[k].content == Content::Chunk(Source::OhcEnsemble((k - 20) as usize)) by {
            assert(models(files@)[k] == files@[k].model());
            assert(input.store_files()[k] == input.ensemble_files()[k - 19]);
        }
    }
    Store { root, time, files }
}

/// A stack has as many values as months, rows and columns multiply to.
proof fn lemma_stack_length(maps: Seq<Grid2<u64>>, nlat: int, nlon: int)
    requires
        forall|t: int| 0 <= t < maps.len() ==> (#[trigger] maps[t]).shaped(nlat, nlon),
    ensures
        stack_values(maps).len() == maps.len() * (nlat * nlon),
    decreases maps.len(),
{
    if maps.len() > 0 {
        assert forall|t: int| 0 <= t < maps.drop_last().len() implies (#[trigger] maps.drop_last()[t]).shaped(
            nlat,
            nlon,
        ) by {
            assert(maps[t].shaped(nlat, nlon));
        }
        lemma_stack_length(maps.drop_last(), nlat, nlon);
        assert(maps[maps.len() - 1].shaped(nlat, nlon));
        let (n, c) = (maps.len() as int, nlat * nlon);
        assert((n - 1) * c + c == n * c) by (nonlinear_arith);
    } else {
        let c = nlat * nlon;
        assert(0 * c == 0) by (nonlinear_arith);
    }
}

/// The chunk of the mean, and that of each member, has a value for every month, row and column that
/// its metadata announces.
pub proof fn law_chunks_fill_their_shape(input: StoreInput, time: Seq<u64>, m: usize)
    requires
        input.data.wf(),
    ensures
        input.values(Source::OhcMean, time).len() == input.data.ohc_mean.maps.len() * (input.data.ohc_mean.nlat
            * input.data.ohc_mean.nlon),
        input.has(Source::OhcEnsemble(m)) ==> input.values(Source::OhcEnsemble(m), time).len()
            == input.member_extents().0 * (input.member_extents().1 * input.member_extents().2),
{
    let (nlat, nlon) = (input.data.ohc_mean.nlat as int, input.data.ohc_mean.nlon as int);
    lemma_stack_length(input.data.ohc_mean.maps@, nlat, nlon);
    if input.has(Source::OhcEnsemble(m)) {
        let stacks = input.data.ohc_ensemble->0;
        assert(stacks@[m as int].wf());
        assert(stacks@[0].wf());
        lemma_stack_length(stacks@[m as int].maps@, nlat, nlon);
    }
}

/// A store carries its provenance: the first file holds the tag and the two links as they were
/// settled, the whole configuration, and the facts of the run.
pub proof fn law_store_carries_its_provenance(input: StoreInput)
    ensures
        input.store_files().len() > 0,
        input.store_files()[0].path == "zarr.json"@,
        input.store_files()[0].content == ContentModel::Doc(input.group_doc()),
        ({
            let attrs = input.data_attrs() + input.provenance_attrs();
            &&& input.group_doc()->Object_0[2] == ("attributes"@, Doc::Object(attrs))
            &&& attrs.contains(("provenance_tag"@, Doc::Text(input.cfg.run_tag@)))
            &&& attrs.contains(("provenance_link"@, Doc::Text(input.cfg.provenance_link@)))
            &&& attrs.contains(("localgp_ingest_code_version"@, Doc::Text(input.cfg.code_version@)))
            &&& attrs.contains(("localgp_ingest_run_config"@, Doc::Compact(Box::new(config_doc(*input.cfg)))))
            &&& attrs.contains(("localgp_ingest_run_facts"@, Doc::Compact(Box::new(input.facts()))))
        }),
{
    let attrs = input.data_attrs() + input.provenance_attrs();
    assert(attrs[11] == ("provenance_tag"@, Doc::Text(input.cfg.run_tag@)));
    assert(attrs[12] == ("provenance_link"@, Doc::Text(input.cfg.provenance_link@)));
    assert(attrs[13] == ("localgp_ingest_code_version"@, Doc::Text(input.cfg.code_version@)));
    assert(attrs[14] == ("localgp_ingest_run_config"@, Doc::Compact(Box::new(config_doc(*input.cfg)))));
    assert(attrs[15] == ("localgp_ingest_run_facts"@, Doc::Compact(Box::new(input.facts()))));
}

/// The arrays of a store, in the order of writing.
pub open spec fn array_names() -> Seq<Seq<char>> {
    seq![
        "lon"@,
        "lat"@,
        "time"@,
        "member"@,
        "etopo"@,
        "basin_id"@,
        "cell_area"@,
        "mask_flags"@,
        "ohc_mean"@,
        "ohc_ensemble"@,
    ]
}

/// The first part of a path.
pub open spec fn top(path: Seq<char>) -> Seq<char> {
    path.take(first_mark(path, '/'))
}

/// The arrays have distinct names without a slash, and none is named as the metadata file.
proof fn lemma_array_names()
    ensures
        array_names().len() == 10,
        forall|i: int, k: int| 0 <= i < 10 && 0 <= k < array_names()[i].len() ==> #[trigger] array_names()[i][k] != '/',
        forall|i: int, j: int| 0 <= i < j < 10 ==> #[trigger] array_names()[i] != #[trigger] array_names()[j],
        forall|i: int| 0 <= i < 10 ==> #[trigger] array_names()[i] != "zarr.json"@,
        top("zarr.json"@) == "zarr.json"@,
{
    reveal_strlit("lon");
    reveal_strlit("lat");
    reveal_strlit("time");
    reveal_strlit("member");
    reveal_strlit("etopo");
    reveal_strlit("basin_id");
    reveal_strlit("cell_area");
    reveal_strlit("mask_flags");
    reveal_strlit("ohc_mean");
    reveal_strlit("ohc_ensemble");
    reveal_strlit("zarr.json");
    let n = array_names();
    assert(n[0][1] == 'o' && n[1][1] == 'a');
    assert(n[5][0] == 'b' && n[8][0] == 'o');
    assert(n[0].len() == 3 && n[1].len() == 3 && n[2].len() == 4 && n[3].len() == 6 && n[4].len() == 5);
    assert(n[5].len() == 8 && n[6].len() == 9 && n[7].len() == 10 && n[8].len() == 8 && n[9].len() == 12);
    assert forall|i: int, j: int| 0 <= i < j < 10 implies #[trigger] n[i] != #[trigger] n[j] by {
        if n[i].len() == n[j].len() {
            assert((i == 0 && j == 1) || (i == 5 && j == 8));
        }
    }
    assert("zarr.json"@[0] == 'z' && n[6][0] == 'c');
    lemma_first_mark_at("zarr.json"@, '/', 9);
    assert("zarr.json"@.take(9) =~= "zarr.json"@);
}

/// The first part of a path below a directory is the directory's name.
proof fn lemma_top(name: Seq<char>, rest: Seq<char>)
    requires
        forall|k: int| 0 <= k < name.len() ==> name[k] != '/',
    ensures
        top(name + "/"@ + rest) == name,
        (name + "/"@ + rest).skip(name.len() as int + 1) == rest,
{
    reveal_strlit("/");
    let path = name + "/"@ + rest;
    assert forall|k: int| 0 <= k < name.len() implies path[k] != '/' by {
        assert(path[k] == name[k]);
    }
    lemma_first_mark_at(path, '/', name.len() as int);
    assert(path.take(name.len() as int) =~= name);
    assert(path.skip(name.len() as int + 1) =~= rest);
}

/// Chunk keys begin with `c`.
proof fn lemma_zero_key(ndim: nat)
    ensures
        zero_key(ndim).len() > 0,
        zero_key(ndim)[0] == 'c',
    decreases ndim,
{
    reveal_strlit("c");
    if ndim > 0 {
        lemma_zero_key((ndim - 1) as nat);
    }
}

/// Which array a file belongs to.
pub open spec fn array_of_file(k: int) -> int {
    if k < 19 {
        (k - 1) / 2
    } else {
        9
    }
}

/// The path of a file: its array's name, a slash, and a part that begins with `z` in metadata files
/// and with `c` in chunk files.
proof fn lemma_path(input: StoreInput, k: int) -> (rest: Seq<char>)
    requires
        1 <= k < input.store_files().len(),
    ensures
        0 <= array_of_file(k) < 10,
        input.store_files()[k].path == array_names()[array_of_file(k)] + "/"@ + rest,
        rest.len() > 0,
        rest[0] == if (k < 19 && k % 2 == 1) || k == 19 {
            'z'
        } else {
            'c'
        },
        k >= 20 ==> rest == "c/"@ + nat_text((k - 20) as nat) + "/0/0/0"@,
{
    reveal_strlit("/zarr.json");
    reveal_strlit("zarr.json");
    reveal_strlit("/");
    reveal_strlit("c/");
    reveal_strlit("ohc_ensemble/c/");
    reveal_strlit("ohc_ensemble");
    lemma_zero_key(1);
    lemma_zero_key(2);
    lemma_zero_key(3);
    let name = array_names()[array_of_file(k)];
    let path = input.store_files()[k].path;
    if k < 19 {
        let files = input.coordinate_files() + input.ancillary_files() + input.mean_files();
        assert(input.store_files()[k] == files[k - 1]);
        if k % 2 == 1 {
            assert(path == name + "/zarr.json"@);
            assert(path =~= name + "/"@ + "zarr.json"@);
            "zarr.json"@
        } else {
            let key = zero_key(if k <= 8 {
                1
            } else if k <= 16 {
                2
            } else {
                3
            });
            assert(path == name + "/"@ + key);
            key
        }
    } else if k == 19 {
        assert(input.store_files()[k] == input.ensemble_files()[0]);
        assert(path =~= name + "/"@ + "zarr.json"@);
        "zarr.json"@
    } else {
        let m = k - 20;
        assert(input.store_files()[k] == input.ensemble_files()[1 + m]);
        assert(input.ensemble_files()[1 + m] == input.member_file(m));
        let rest = "c/"@ + nat_text(m as nat) + "/0/0/0"@;
        assert(path =~= name + "/"@ + rest);
        rest
    }
}

/// No two files of a store have the same path: nothing is overwritten.
pub proof fn law_files_have_distinct_paths(input: StoreInput, a: int, b: int)
    requires
        0 <= a < b < input.store_files().len(),
    ensures
        input.store_files()[a].path != input.store_files()[b].path,
{
    lemma_array_names();
    let names = array_names();
    let (p, q) = (input.store_files()[a].path, input.store_files()[b].path);
    let y = lemma_path(input, b);
    lemma_top(names[array_of_file(b)], y);
    if a == 0 {
        assert(p == "zarr.json"@);
    } else {
        let x = lemma_path(input, a);
        lemma_top(names[array_of_file(a)], x);
        if p == q {
            assert(names[array_of_file(a)] == names[array_of_file(b)]);
            assert(array_of_file(a) == array_of_file(b));
            assert(x == y);
            if b >= 20 && a >= 20 {
                reveal_strlit("c/");
                reveal_strlit("/0/0/0");
                let (s, t) = (nat_text((a - 20) as nat), nat_text((b - 20) as nat));
                assert(x.subrange(2, x.len() - 6) =~= s);
                assert(y.subrange(2, y.len() - 6) =~= t);
                lemma_nat_text((a - 20) as nat);
                lemma_nat_text((b - 20) as nat);
            }
        }
    }
}

/// A store has one chunk per member, under the member's place in the ensemble. A mean-only store
/// has no file below `ohc_ensemble`.
pub proof fn law_one_chunk_per_member(input: StoreInput, k: int)
    requires
        0 <= k < input.store_files().len(),
    ensures
        input.data.ohc_ensemble is None ==> top(input.store_files()[k].path) != "ohc_ensemble"@,
        input.data.ohc_ensemble matches Some(stacks) ==> input.store_files().len() == 20 + stacks.len() && (k >= 20
            ==> input.store_files()[k] == input.member_file(k - 20)),
{
    lemma_array_names();
    let names = array_names();
    if k == 0 {
        assert(names[9] != "zarr.json"@);
    } else if input.data.ohc_ensemble is None {
        let rest = lemma_path(input, k);
        lemma_top(names[array_of_file(k)], rest);
        assert(names[array_of_file(k)] != names[9]);
    }
    if k >= 20 {
        assert(input.store_files()[k] == input.ensemble_files()[k - 19]);
        assert(input.ensemble_files()[k - 19] == input.member_file(k - 20));
    }
}

} // verus!
