//! The store of a layer: which file holds what, and where a value stands in its chunk.

use vstd::arithmetic::power::{lemma_pow0, lemma_pow_positive, pow};
use vstd::prelude::*;

use crate::bytes::{byte_at, encoded};
use crate::config::{RunConfig, Slice};
use crate::grid::{Grid2, MapStack};
use crate::json::Doc;
use crate::laws::text::law_padding_keeps_every_digit;
use crate::provenance::{config_doc, facts_doc, optional};
use crate::rounding::narrowed;
use crate::text::{int_text, nat_text, padded_text};
use crate::zarrwrite::{
    array_doc, flag_attrs, numbers, stack_values, texts, time_units, zero_key, ContentModel, DType, FileModel, Source,
    StoreInput,
};

verus! {

/// Every member of the ensemble is written: the store has a file for it whose path is the member's place
/// in decimal, and which holds the chunk of that member itself.
pub proof fn law_every_member_is_written(input: StoreInput, m: int) -> (k: int)
    requires
        input.data.ohc_ensemble matches Some(stacks) && 0 <= m < stacks.len(),
    ensures
        0 <= k < input.store_files().len(),
        input.store_files()[k].path == "ohc_ensemble/c/"@ + nat_text(m as nat) + "/0/0/0"@,
        input.store_files()[k].content == ContentModel::Chunk(Source::OhcEnsemble(m as usize)),
{
    assert(input.ensemble_files()[1 + m] == input.member_file(m));
    assert(input.store_files()[20 + m] == input.ensemble_files()[1 + m]);
    20 + m
}

/// No two chunk files hold the same chunk, so that nothing is written twice.
pub proof fn law_no_chunk_is_written_twice(input: StoreInput, a: int, b: int)
    requires
        0 <= a < input.store_files().len(),
        0 <= b < input.store_files().len(),
        a != b,
        input.store_files()[a].content is Chunk,
    ensures
        input.store_files()[a].content != input.store_files()[b].content,
{
    lemma_content(input, a);
    lemma_content(input, b);
}

/// Which chunk the file at a place holds.
pub open spec fn source_at(k: int) -> Source {
    if k == 2 {
        Source::Lon
    } else if k == 4 {
        Source::Lat
    } else if k == 6 {
        Source::Time
    } else if k == 8 {
        Source::Member
    } else if k == 10 {
        Source::Etopo
    } else if k == 12 {
        Source::BasinId
    } else if k == 14 {
        Source::CellArea
    } else if k == 16 {
        Source::MaskFlags
    } else if k == 18 {
        Source::OhcMean
    } else {
        Source::OhcEnsemble((k - 20) as usize)
    }
}

/// The chunk that a file holds, by its place.
proof fn lemma_content(input: StoreInput, k: int)
    requires
        0 <= k < input.store_files().len(),
    ensures
        (k < 20 && k % 2 == 1) || k == 0 ==> input.store_files()[k].content is Doc,
        k >= 20 || (k > 0 && k % 2 == 0) ==> input.store_files()[k].content == ContentModel::Chunk(source_at(k)),
{
    if k >= 19 {
        assert(input.store_files()[k] == input.ensemble_files()[k - 19]);
        if k >= 20 {
            assert(input.ensemble_files()[k - 19] == input.member_file(k - 20));
        }
    } else if k >= 1 {
        let files = input.coordinate_files() + input.ancillary_files() + input.mean_files();
        assert(input.store_files()[k] == files[k - 1]);
    }
}

/// An array in one chunk stands under its own name: the file at the place `k` is its metadata, the next
/// one its chunk.
pub open spec fn stands_at(
    input: StoreInput,
    k: int,
    name: Seq<char>,
    key: Seq<char>,
    source: Source,
    label: Seq<char>,
    shape: Seq<usize>,
    dims: Seq<Seq<char>>,
    attrs: Seq<(Seq<char>, Doc)>,
) -> bool {
    let files = input.store_files();
    &&& k + 1 < files.len()
    &&& files[k].path == name + "/zarr.json"@
    &&& files[k].content matches ContentModel::Doc(Doc::Object(o)) && {
        &&& o.contains(("data_type"@, Doc::Text(label)))
        &&& o.contains(("attributes"@, Doc::Object(attrs)))
        &&& o.contains(("shape"@, Doc::List(Seq::new(shape.len(), |i: int| Doc::Int(shape[i] as int)))))
        &&& o.contains(("dimension_names"@, Doc::List(Seq::new(dims.len(), |i: int| Doc::Text(dims[i])))))
        &&& o.contains(
            (
                "chunk_grid"@,
                Doc::Object(
                    seq![
                        ("name"@, Doc::Text("regular"@)),
                        (
                            "configuration"@,
                            Doc::Object(
                                seq![
                                    (
                                        "chunk_shape"@,
                                        Doc::List(Seq::new(shape.len(), |i: int| Doc::Int(shape[i] as int))),
                                    ),
                                ],
                            ),
                        ),
                    ],
                ),
            ),
        )
    }
    &&& files[k + 1].path == name + "/c"@ + key
    &&& files[k + 1].content == ContentModel::Chunk(source)
}

/// The metadata of an array hold its type, its shape, its chunks and its dimensions.
proof fn lemma_meta(dtype: DType, shape: Seq<usize>, chunk: Seq<usize>, dims: Seq<Seq<char>>, attrs: Doc)
    ensures
        ({
            let o = array_doc(dtype, shape, chunk, dims, attrs)->Object_0;
            let said = |s: Seq<usize>| Doc::List(Seq::new(s.len(), |i: int| Doc::Int(s[i] as int)));
            &&& o.contains(("zarr_format"@, Doc::Int(3)))
            &&& o.contains(("node_type"@, Doc::Text("array"@)))
            &&& o.contains(("data_type"@, Doc::Text(dtype.label())))
            &&& o.contains(("shape"@, said(shape)))
            &&& o.contains(("attributes"@, attrs))
            &&& o.contains(("fill_value"@, dtype.blank()))
            &&& o.contains(("dimension_names"@, Doc::List(Seq::new(dims.len(), |i: int| Doc::Text(dims[i])))))
            &&& o.contains(
                (
                    "chunk_grid"@,
                    Doc::Object(
                        seq![
                            ("name"@, Doc::Text("regular"@)),
                            ("configuration"@, Doc::Object(seq![("chunk_shape"@, said(chunk))])),
                        ],
                    ),
                ),
            )
        }),
{
    let o = array_doc(dtype, shape, chunk, dims, attrs)->Object_0;
    let said = |s: Seq<usize>| Doc::List(Seq::new(s.len(), |i: int| Doc::Int(s[i] as int)));
    assert(shape.map_values(|n: usize| Doc::Int(n as int)) =~= Seq::new(shape.len(), |i: int| Doc::Int(shape[i] as int)));
    assert(chunk.map_values(|n: usize| Doc::Int(n as int)) =~= Seq::new(chunk.len(), |i: int| Doc::Int(chunk[i] as int)));
    assert(dims.map_values(|s: Seq<char>| Doc::Text(s)) =~= Seq::new(dims.len(), |i: int| Doc::Text(dims[i])));
    assert(o[0] == ("zarr_format"@, Doc::Int(3)));
    assert(o[1] == ("node_type"@, Doc::Text("array"@)));
    assert(o[2] == ("shape"@, said(shape)));
    assert(o[3] == ("data_type"@, Doc::Text(dtype.label())));
    assert(o[4] == (
        "chunk_grid"@,
        Doc::Object(
            seq![
                ("name"@, Doc::Text("regular"@)),
                ("configuration"@, Doc::Object(seq![("chunk_shape"@, said(chunk))])),
            ],
        ),
    ));
    assert(o[6] == ("fill_value"@, dtype.blank()));
    assert(o[8] == ("attributes"@, attrs));
    assert(o[9] == ("dimension_names"@, Doc::List(Seq::new(dims.len(), |i: int| Doc::Text(dims[i])))));
}

/// The metadata of an array say what it is: its shape, its type, its chunks, its dimensions, the value
/// that stands for what was never written, and the two codecs.
pub proof fn law_metadata_say_what_an_array_is(
    dtype: DType,
    shape: Seq<usize>,
    chunk: Seq<usize>,
    dims: Seq<Seq<char>>,
    attrs: Doc,
    i: int,
)
    ensures
        ({
            let o = array_doc(dtype, shape, chunk, dims, attrs)->Object_0;
            &&& o.contains(("zarr_format"@, Doc::Int(3)))
            &&& o.contains(("node_type"@, Doc::Text("array"@)))
            &&& o.contains(("shape"@, numbers(shape)))
            &&& o.contains(("data_type"@, Doc::Text(dtype.label())))
            &&& o.contains(("fill_value"@, dtype.blank()))
            &&& o.contains(("attributes"@, attrs))
            &&& o.contains(("dimension_names"@, texts(dims)))
            &&& o.contains(
                (
                    "chunk_key_encoding"@,
                    Doc::Object(
                        seq![
                            ("name"@, Doc::Text("default"@)),
                            ("configuration"@, Doc::Object(seq![("separator"@, Doc::Text("/"@))])),
                        ],
                    ),
                ),
            )
            &&& o.contains(
                (
                    "codecs"@,
                    Doc::List(
                        seq![
                            Doc::Object(
                                seq![
                                    ("name"@, Doc::Text("bytes"@)),
                                    ("configuration"@, Doc::Object(seq![("endian"@, Doc::Text("little"@))])),
                                ],
                            ),
                            Doc::Object(
                                seq![
                                    ("name"@, Doc::Text("gzip"@)),
                                    ("configuration"@, Doc::Object(seq![("level"@, Doc::Int(5))])),
                                ],
                            ),
                        ],
                    ),
                ),
            )
        }),
        numbers(shape)->List_0.len() == shape.len(),
        0 <= i < shape.len() ==> numbers(shape)->List_0[i] == Doc::Int(shape[i] as int),
        texts(dims)->List_0.len() == dims.len(),
        0 <= i < dims.len() ==> texts(dims)->List_0[i] == Doc::Text(dims[i]),
{
    let o = array_doc(dtype, shape, chunk, dims, attrs)->Object_0;
    lemma_meta(dtype, shape, chunk, dims, attrs);
    assert(o[2] == ("shape"@, numbers(shape)));
    assert(o[9] == ("dimension_names"@, texts(dims)));
    assert(o[5] == (
        "chunk_key_encoding"@,
        Doc::Object(
            seq![
                ("name"@, Doc::Text("default"@)),
                ("configuration"@, Doc::Object(seq![("separator"@, Doc::Text("/"@))])),
            ],
        ),
    ));
    assert(o[7] == (
        "codecs"@,
        Doc::List(
            seq![
                Doc::Object(
                    seq![
                        ("name"@, Doc::Text("bytes"@)),
                        ("configuration"@, Doc::Object(seq![("endian"@, Doc::Text("little"@))])),
                    ],
                ),
                Doc::Object(
                    seq![
                        ("name"@, Doc::Text("gzip"@)),
                        ("configuration"@, Doc::Object(seq![("level"@, Doc::Int(5))])),
                    ],
                ),
            ],
        ),
    ));
}

/// The key of a single chunk has a zero for every dimension.
proof fn lemma_keys()
    ensures
        zero_key(1) == "c"@ + "/0"@,
        zero_key(2) == "c"@ + "/0/0"@,
        zero_key(3) == "c"@ + "/0/0/0"@,
{
    reveal_strlit("c");
    reveal_strlit("/0");
    reveal_strlit("/0/0");
    reveal_strlit("/0/0/0");
    reveal_with_fuel(zero_key, 4);
    assert(zero_key(1) =~= "c"@ + "/0"@);
    assert(zero_key(2) =~= "c"@ + "/0/0"@);
    assert(zero_key(3) =~= "c"@ + "/0/0/0"@);
}

/// One array of the store.
proof fn lemma_stands(
    input: StoreInput,
    k: int,
    name: Seq<char>,
    key: Seq<char>,
    source: Source,
    shape: Seq<usize>,
    dims: Seq<Seq<char>>,
    attrs: Seq<(Seq<char>, Doc)>,
)
    requires
        1 <= k,
        k + 1 < input.store_files().len(),
        zero_key(shape.len()) == "c"@ + key,
        input.store_files()[k] == (FileModel {
            path: name + "/zarr.json"@,
            content: ContentModel::Doc(array_doc(source.dtype(), shape, shape, dims, Doc::Object(attrs))),
        }),
        input.store_files()[k + 1] == (FileModel {
            path: name + "/"@ + zero_key(shape.len()),
            content: ContentModel::Chunk(source),
        }),
    ensures
        stands_at(input, k, name, key, source, source.dtype().label(), shape, dims, attrs),
{
    reveal_strlit("/");
    reveal_strlit("c");
    reveal_strlit("/c");
    lemma_meta(source.dtype(), shape, shape, dims, Doc::Object(attrs));
    assert(name + "/"@ + ("c"@ + key) =~= name + "/c"@ + key);
}

/// Attributes that are one text.
pub open spec fn one(key: Seq<char>, value: Seq<char>) -> Seq<(Seq<char>, Doc)> {
    seq![(key, Doc::Text(value))]
}

/// Attributes that are two texts.
pub open spec fn two(k0: Seq<char>, v0: Seq<char>, k1: Seq<char>, v1: Seq<char>) -> Seq<(Seq<char>, Doc)> {
    seq![(k0, Doc::Text(v0)), (k1, Doc::Text(v1))]
}

/// Every array is written under its own name, in its own type and shape and with its own unit: the
/// coordinates, the grids that go with the data, and the mean.
pub proof fn law_every_array_is_written(input: StoreInput)
    ensures
        stands_at(
            input,
            1,
            "lon"@,
            "/0"@,
            Source::Lon,
            "float64"@,
            seq![input.grid.lon.len()],
            seq!["lon"@],
            two("units"@, "degrees_east"@, "standard_name"@, "longitude"@),
        ),
        stands_at(
            input,
            3,
            "lat"@,
            "/0"@,
            Source::Lat,
            "float64"@,
            seq![input.grid.lat.len()],
            seq!["lat"@],
            two("units"@, "degrees_north"@, "standard_name"@, "latitude"@),
        ),
        stands_at(
            input,
            5,
            "time"@,
            "/0"@,
            Source::Time,
            "float64"@,
            seq![input.months()],
            seq!["time"@],
            two(
                "units"@,
                "days since "@ + padded_text(input.slice.years@[0] as int, 4) + "-"@ + padded_text(1, 2) + "-15"@,
                "calendar"@,
                "proleptic_gregorian"@,
            ),
        ),
        stands_at(
            input,
            7,
            "member"@,
            "/0"@,
            Source::Member,
            "int16"@,
            seq![100usize],
            seq!["member"@],
            one("long_name"@, "conditional simulation member"@),
        ),
        stands_at(
            input,
            9,
            "etopo"@,
            "/0/0"@,
            Source::Etopo,
            "float32"@,
            seq![input.etopo.nrow, input.etopo.ncol],
            seq!["lat"@, "lon"@],
            two("units"@, "m"@, "long_name"@, "bathymetry (relief), negative below sea level"@),
        ),
        stands_at(
            input,
            11,
            "basin_id"@,
            "/0/0"@,
            Source::BasinId,
            "int16"@,
            seq![input.basin_id.nrow, input.basin_id.ncol],
            seq!["lat"@, "lon"@],
            one("long_name"@, "WOA basin id (surface)"@),
        ),
        stands_at(
            input,
            13,
            "cell_area"@,
            "/0/0"@,
            Source::CellArea,
            "float64"@,
            seq![input.cell_area.nrow, input.cell_area.ncol],
            seq!["lat"@, "lon"@],
            two("units"@, "m2"@, "long_name"@, "grid cell area"@),
        ),
        stands_at(
            input,
            15,
            "mask_flags"@,
            "/0/0"@,
            Source::MaskFlags,
            "uint8"@,
            seq![input.mask_flags.nrow, input.mask_flags.ncol],
            seq!["lat"@, "lon"@],
            flag_attrs()->Object_0,
        ),
        stands_at(
            input,
            17,
            "ohc_mean"@,
            "/0/0/0"@,
            Source::OhcMean,
            "float64"@,
            seq![input.data.ohc_mean.maps.len(), input.data.ohc_mean.nlat, input.data.ohc_mean.nlon],
            seq!["time"@, "lat"@, "lon"@],
            two("units"@, "J/m2"@, "long_name"@, "ocean heat content (posterior mean)"@),
        ),
{
    lemma_keys();
    let files = input.store_files();
    let nine = input.coordinate_files() + input.ancillary_files() + input.mean_files();
    assert forall|k: int| 1 <= k < 19 implies #[trigger] files[k] == nine[k - 1] by {}
    lemma_stands(
        input,
        1,
        "lon"@,
        "/0"@,
        Source::Lon,
        seq![input.grid.lon.len()],
        seq!["lon"@],
        two("units"@, "degrees_east"@, "standard_name"@, "longitude"@),
    );
    lemma_stands(
        input,
        3,
        "lat"@,
        "/0"@,
        Source::Lat,
        seq![input.grid.lat.len()],
        seq!["lat"@],
        two("units"@, "degrees_north"@, "standard_name"@, "latitude"@),
    );
    lemma_stands(
        input,
        5,
        "time"@,
        "/0"@,
        Source::Time,
        seq![input.months()],
        seq!["time"@],
        two(
            "units"@,
            "days since "@ + padded_text(input.slice.years@[0] as int, 4) + "-"@ + padded_text(1, 2) + "-15"@,
            "calendar"@,
            "proleptic_gregorian"@,
        ),
    );
    lemma_stands(
        input,
        7,
        "member"@,
        "/0"@,
        Source::Member,
        seq![100usize],
        seq!["member"@],
        one("long_name"@, "conditional simulation member"@),
    );
    lemma_stands(
        input,
        9,
        "etopo"@,
        "/0/0"@,
        Source::Etopo,
        seq![input.etopo.nrow, input.etopo.ncol],
        seq!["lat"@, "lon"@],
        two("units"@, "m"@, "long_name"@, "bathymetry (relief), negative below sea level"@),
    );
    lemma_stands(
        input,
        11,
        "basin_id"@,
        "/0/0"@,
        Source::BasinId,
        seq![input.basin_id.nrow, input.basin_id.ncol],
        seq!["lat"@, "lon"@],
        one("long_name"@, "WOA basin id (surface)"@),
    );
    lemma_stands(
        input,
        13,
        "cell_area"@,
        "/0/0"@,
        Source::CellArea,
        seq![input.cell_area.nrow, input.cell_area.ncol],
        seq!["lat"@, "lon"@],
        two("units"@, "m2"@, "long_name"@, "grid cell area"@),
    );
    lemma_stands(
        input,
        15,
        "mask_flags"@,
        "/0/0"@,
        Source::MaskFlags,
        seq![input.mask_flags.nrow, input.mask_flags.ncol],
        seq!["lat"@, "lon"@],
        flag_attrs()->Object_0,
    );
    lemma_stands(
        input,
        17,
        "ohc_mean"@,
        "/0/0/0"@,
        Source::OhcMean,
        seq![input.data.ohc_mean.maps.len(), input.data.ohc_mean.nlat, input.data.ohc_mean.nlon],
        seq!["time"@, "lat"@, "lon"@],
        two("units"@, "J/m2"@, "long_name"@, "ocean heat content (posterior mean)"@),
    );
}

/// A store has these nine arrays and its own metadata, and beyond them only the ensemble: none where the
/// layer has only a mean, and otherwise its metadata and one file per member.
pub proof fn law_store_has_no_other_files(input: StoreInput)
    ensures
        input.data.ohc_ensemble is None ==> input.store_files().len() == 19,
        input.data.ohc_ensemble matches Some(stacks) ==> input.store_files().len() == 20 + stacks.len(),
{
}

/// The metadata of the ensemble announce all members, one chunk each, with the months and extents of the
/// members themselves.
pub proof fn law_ensemble_metadata_announce_all_members(input: StoreInput)
    requires
        input.data.ohc_ensemble matches Some(stacks) && stacks.len() > 0,
    ensures
        ({
            let stacks = input.data.ohc_ensemble->0@;
            let (nt, nlat, nlon) = (stacks[0].maps.len() as int, stacks[0].nlat as int, stacks[0].nlon as int);
            let file = input.store_files()[19];
            &&& file.path == "ohc_ensemble/zarr.json"@
            &&& file.content matches ContentModel::Doc(Doc::Object(o)) && {
                &&& o.contains(
                    (
                        "shape"@,
                        Doc::List(seq![Doc::Int(stacks.len() as int), Doc::Int(nt), Doc::Int(nlat), Doc::Int(nlon)]),
                    ),
                )
                &&& o.contains(("data_type"@, Doc::Text("float64"@)))
                &&& o.contains(
                    (
                        "attributes"@,
                        Doc::Object(
                            two("units"@, "J/m2"@, "long_name"@, "ocean heat content (conditional simulations)"@),
                        ),
                    ),
                )
                &&& o.contains(
                    (
                        "dimension_names"@,
                        Doc::List(
                            seq![Doc::Text("member"@), Doc::Text("time"@), Doc::Text("lat"@), Doc::Text("lon"@)],
                        ),
                    ),
                )
                &&& o.contains(
                    (
                        "chunk_grid"@,
                        Doc::Object(
                            seq![
                                ("name"@, Doc::Text("regular"@)),
                                (
                                    "configuration"@,
                                    Doc::Object(
                                        seq![
                                            (
                                                "chunk_shape"@,
                                                Doc::List(seq![Doc::Int(1), Doc::Int(nt), Doc::Int(nlat), Doc::Int(nlon)]),
                                            ),
                                        ],
                                    ),
                                ),
                            ],
                        ),
                    ),
                )
            }
        }),
{
    reveal_strlit("ohc_ensemble");
    reveal_strlit("/zarr.json");
    reveal_strlit("ohc_ensemble/zarr.json");
    let stacks = input.data.ohc_ensemble->0;
    let (nt, nlat, nlon) = (stacks@[0].maps.len(), stacks@[0].nlat, stacks@[0].nlon);
    let (shape, chunk) = (seq![stacks.len(), nt, nlat, nlon], seq![1usize, nt, nlat, nlon]);
    assert(input.store_files()[19] == input.ensemble_files()[0]);
    assert("ohc_ensemble"@ + "/zarr.json"@ =~= "ohc_ensemble/zarr.json"@);
    let dims = seq!["member"@, "time"@, "lat"@, "lon"@];
    let attrs = two("units"@, "J/m2"@, "long_name"@, "ocean heat content (conditional simulations)"@);
    lemma_meta(DType::Float64, shape, chunk, dims, Doc::Object(attrs));
    assert(Seq::new(dims.len(), |i: int| Doc::Text(dims[i])) =~= seq![
        Doc::Text("member"@),
        Doc::Text("time"@),
        Doc::Text("lat"@),
        Doc::Text("lon"@),
    ]);
    assert(Seq::new(shape.len(), |i: int| Doc::Int(shape[i] as int)) =~= seq![
        Doc::Int(stacks.len() as int),
        Doc::Int(nt as int),
        Doc::Int(nlat as int),
        Doc::Int(nlon as int),
    ]);
    assert(Seq::new(chunk.len(), |i: int| Doc::Int(chunk[i] as int)) =~= seq![
        Doc::Int(1),
        Doc::Int(nt as int),
        Doc::Int(nlat as int),
        Doc::Int(nlon as int),
    ]);
}

/// What stands for a value that was never written: NaN in arrays of doubles and singles, zero in arrays of
/// whole numbers; and how many bytes a value of each type takes.
pub proof fn law_types_have_their_width_and_fill()
    ensures
        DType::Float64.blank() == Doc::Text("NaN"@) && DType::Float32.blank() == Doc::Text("NaN"@),
        DType::Int16.blank() == Doc::Int(0) && DType::UInt8.blank() == Doc::Int(0),
        DType::Float64.width() == 8 && DType::Float32.width() == 4 && DType::Int16.width() == 2 && DType::UInt8.width() == 1,
        Source::Etopo.dtype() == DType::Float32,
        Source::Member.dtype() == DType::Int16 && Source::BasinId.dtype() == DType::Int16,
        Source::MaskFlags.dtype() == DType::UInt8,
        Source::Lon.dtype() == DType::Float64 && Source::Lat.dtype() == DType::Float64,
        Source::Time.dtype() == DType::Float64 && Source::CellArea.dtype() == DType::Float64,
        Source::OhcMean.dtype() == DType::Float64,
        forall|m: usize| #[trigger] Source::OhcEnsemble(m).dtype() == DType::Float64,
{
}

/// A number's bytes are its digits in base 256, the least significant first.
proof fn lemma_byte(x: int, n: nat)
    requires
        x >= 0,
    ensures
        byte_at(x, n as int) as int == (x / pow(256, n)) % 256,
    decreases n,
{
    if n == 0 {
        lemma_pow0(256);
        assert(x / 1 == x) by (nonlinear_arith);
    } else {
        lemma_byte(x / 256, (n - 1) as nat);
        reveal(pow);
        lemma_pow_positive(256, (n - 1) as nat);
        vstd::arithmetic::div_mod::lemma_div_denominator(x, 256, pow(256, (n - 1) as nat));
    }
}

/// The bytes of a chunk before compression are its values one behind the other, each in `width` bytes,
/// the least significant first.
pub proof fn law_chunks_are_little_endian(values: Seq<u64>, width: int, k: int, n: int)
    requires
        0 <= k < values.len(),
        0 <= n < width,
    ensures
        encoded(values, width).len() == values.len() * width,
        encoded(values, width)[k * width + n] as int == (values[k] as int / pow(256, n as nat)) % 256,
{
    let at = k * width + n;
    assert(at < values.len() * width && at >= 0) by (nonlinear_arith)
        requires
            0 <= k < values.len(),
            0 <= n < width,
            at == k * width + n,
    ;
    assert(k * width == width * k) by (nonlinear_arith);
    vstd::arithmetic::div_mod::lemma_fundamental_div_mod_converse(at, width, k, n);
    lemma_byte(values[k] as int, n as nat);
}

/// The value of a month at a cell stands in the chunk at its place: month by month, row by row.
pub proof fn law_values_run_month_by_month(stack: MapStack, t: int, j: int, i: int)
    requires
        stack.wf(),
        0 <= t < stack.maps.len(),
        0 <= j < stack.nlat,
        0 <= i < stack.nlon,
    ensures
        stack_values(stack.maps@).len() == stack.maps.len() * (stack.nlat * stack.nlon),
        stack_values(stack.maps@)[t * (stack.nlat * stack.nlon) + j * stack.nlon + i] == stack.maps@[t].cells@[j
            * stack.nlon + i],
{
    let (nlat, nlon) = (stack.nlat as int, stack.nlon as int);
    crate::grid::lemma_place(nlat, nlon, j, i);
    lemma_stack_place(stack.maps@, nlat * nlon, t, j * nlon + i);
}

/// Where a cell of a map stands among the values of all maps.
proof fn lemma_stack_place(maps: Seq<Grid2<u64>>, size: int, t: int, c: int)
    requires
        size >= 0,
        forall|s: int| 0 <= s < maps.len() ==> (#[trigger] maps[s]).cells@.len() == size,
        0 <= t < maps.len() ==> 0 <= c < size,
    ensures
        stack_values(maps).len() == maps.len() * size,
        0 <= t < maps.len() ==> 0 <= t * size + c < maps.len() * size && stack_values(maps)[t * size + c] == maps[t].cells@[c],
    decreases maps.len(),
{
    if maps.len() > 0 {
        let less = maps.drop_last();
        let n = maps.len() as int;
        assert forall|s: int| 0 <= s < less.len() implies (#[trigger] less[s]).cells@.len() == size by {
            assert(maps[s].cells@.len() == size);
        }
        lemma_stack_place(less, size, t, c);
        assert(maps[n - 1].cells@.len() == size);
        assert((n - 1) * size + size == n * size) by (nonlinear_arith);
        if 0 <= t < n - 1 {
            assert(less[t] == maps[t]);
        } else if t == n - 1 {
            assert((n - 1) * size >= 0) by (nonlinear_arith)
                requires
                    n >= 1,
                    size >= 0,
            ;
        }
    } else {
        assert(0 * size == 0) by (nonlinear_arith);
    }
}

/// Each chunk holds what it is named for: coordinates and areas as they are, the time coordinate, the
/// members counted from one, heights as singles, basins as sixteen-bit numbers, the flags, the mean, and
/// each member's own record.
pub proof fn law_chunks_hold_what_they_are_named_for(input: StoreInput, time: Seq<u64>, k: int, m: usize)
    ensures
        input.values(Source::Lon, time) == input.grid.lon@,
        input.values(Source::Lat, time) == input.grid.lat@,
        input.values(Source::Time, time) == time,
        input.values(Source::CellArea, time) == input.cell_area.cells@,
        input.values(Source::Member, time).len() == 100,
        0 <= k < 100 ==> input.values(Source::Member, time)[k] == k + 1,
        input.values(Source::Etopo, time).len() == input.etopo.cells.len(),
        0 <= k < input.etopo.cells.len() ==> input.values(Source::Etopo, time)[k] == narrowed(input.etopo.cells@[k]),
        input.values(Source::BasinId, time).len() == input.basin_id.cells.len(),
        0 <= k < input.basin_id.cells.len() ==> (input.values(Source::BasinId, time)[k] - input.basin_id.cells@[k]) % 0x1_0000
            == 0 && 0 <= input.values(Source::BasinId, time)[k] < 0x1_0000,
        input.values(Source::MaskFlags, time).len() == input.mask_flags.cells.len(),
        0 <= k < input.mask_flags.cells.len() ==> input.values(Source::MaskFlags, time)[k] == input.mask_flags.cells@[k],
        input.values(Source::OhcMean, time) == stack_values(input.data.ohc_mean.maps@),
        input.data.ohc_ensemble matches Some(stacks) ==> (m < stacks.len() ==> input.values(Source::OhcEnsemble(m), time)
            == stack_values(stacks@[m as int].maps@)),
        input.data.ohc_ensemble matches Some(stacks) ==> (m < stacks.len() <==> input.has(Source::OhcEnsemble(m))),
{
}

/// The unit of the time coordinate names the fifteenth of the first month: the year in at least four
/// digits, the month in two.
pub proof fn law_time_counts_from_the_middle_of_a_month(year: nat, month: nat, i: int)
    requires
        1 <= month <= 12,
    ensures
        time_units(year as int, month as int) == "days since "@ + padded_text(year as int, 4) + "-"@ + padded_text(
            month as int,
            2,
        ) + "-15"@,
        0 <= i < padded_text(year as int, 4).len() ==> padded_text(year as int, 4)[padded_text(year as int, 4).len() - 1 - i]
            as int == 48 + (year as int / pow(10, i as nat)) % 10,
        padded_text(year as int, 4).len() >= 4,
{
    crate::text::lemma_padded_text(year as int, 4);
    if 0 <= i < padded_text(year as int, 4).len() {
        law_padding_keeps_every_digit(year, 4, i);
    }
    law_padding_keeps_every_digit(year, 4, 0);
}

/// The store says what it is: the title names the tag and the layer, and the layer's bounds, the variable,
/// the model and the constants of the scaling are there.
pub proof fn law_store_says_what_it_holds(input: StoreInput)
    ensures
        ({
            let (cfg, layer) = (*input.cfg, input.slice.layer);
            let root = input.store_files()[0];
            let attrs = root.content->Doc_0->Object_0[2].1->Object_0;
            let (top, bottom) = (int_text(layer.top as int), int_text(layer.bottom as int));
            &&& root.path == "zarr.json"@
            &&& root.content->Doc_0->Object_0[0] == ("zarr_format"@, Doc::Int(3))
            &&& root.content->Doc_0->Object_0[1] == ("node_type"@, Doc::Text("group"@))
            &&& root.content->Doc_0->Object_0[2].0 == "attributes"@
            &&& attrs.contains(("provenance_tag"@, Doc::Text(cfg.run_tag@)))
            &&& attrs.contains(("provenance_link"@, Doc::Text(cfg.provenance_link@)))
            &&& attrs.contains(("localgp_ingest_code_version"@, Doc::Text(cfg.code_version@)))
            &&& attrs.contains(("localgp_ingest_run_config"@, Doc::Compact(Box::new(config_doc(cfg)))))
            &&& attrs.contains(("Conventions"@, Doc::Text("CF-1.10"@)))
            &&& attrs.contains(
                (
                    "title"@,
                    Doc::Text(
                        "LocalGP ocean heat content — "@ + cfg.run_tag@ + ", "@ + top + "-"@ + bottom + " dbar"@,
                    ),
                ),
            )
            &&& attrs.contains(
                (
                    "source"@,
                    Doc::Text("LocalGP "@ + cfg.model_name@ + "; var="@ + cfg.var_name@ + "; run="@ + cfg.run_tag@),
                ),
            )
            &&& attrs.contains(("mapped_fields_tag"@, Doc::Text(cfg.run_tag@)))
            &&& attrs.contains(("var_name"@, Doc::Text(cfg.var_name@)))
            &&& attrs.contains(("model_name"@, Doc::Text(cfg.model_name@)))
            &&& attrs.contains(("layer_top"@, Doc::Int(layer.top as int)))
            &&& attrs.contains(("layer_bottom"@, Doc::Int(layer.bottom as int)))
            &&& attrs.contains(("cp0"@, Doc::Double(cfg.cp0)))
            &&& attrs.contains(("rho0"@, Doc::Double(cfg.rho0)))
            &&& attrs.contains(("domain"@, Doc::Text("lon 20.5..379.5E, lat -89.5..89.5N, 1deg"@)))
            &&& attrs.contains(
                (
                    "localgp_ingest_run_facts"@,
                    Doc::Compact(
                        Box::new(
                            facts_doc(
                                *input.slice,
                                match input.data.ohc_ensemble {
                                    Some(stacks) => stacks.len() as int,
                                    None => 0,
                                },
                                input.grid.lat.len() as int,
                                input.grid.lon.len() as int,
                            ),
                        ),
                    ),
                ),
            )
        }),
{
    let (cfg, layer) = (*input.cfg, input.slice.layer);
    let attrs = input.data_attrs() + input.provenance_attrs();
    let (top, bottom) = (int_text(layer.top as int), int_text(layer.bottom as int));
    assert(attrs[0] == ("Conventions"@, Doc::Text("CF-1.10"@)));
    assert(attrs[1] == (
        "title"@,
        Doc::Text("LocalGP ocean heat content — "@ + cfg.run_tag@ + ", "@ + top + "-"@ + bottom + " dbar"@),
    ));
    assert(attrs[2] == (
        "source"@,
        Doc::Text("LocalGP "@ + cfg.model_name@ + "; var="@ + cfg.var_name@ + "; run="@ + cfg.run_tag@),
    ));
    assert(attrs[3] == ("mapped_fields_tag"@, Doc::Text(cfg.run_tag@)));
    assert(attrs[4] == ("var_name"@, Doc::Text(cfg.var_name@)));
    assert(attrs[5] == ("model_name"@, Doc::Text(cfg.model_name@)));
    assert(attrs[6] == ("layer_top"@, Doc::Int(layer.top as int)));
    assert(attrs[7] == ("layer_bottom"@, Doc::Int(layer.bottom as int)));
    assert(attrs[8] == ("cp0"@, Doc::Double(cfg.cp0)));
    assert(attrs[9] == ("rho0"@, Doc::Double(cfg.rho0)));
    assert(attrs[10] == ("domain"@, Doc::Text("lon 20.5..379.5E, lat -89.5..89.5N, 1deg"@)));
    assert(attrs[11] == ("provenance_tag"@, Doc::Text(cfg.run_tag@)));
    assert(attrs[12] == ("provenance_link"@, Doc::Text(cfg.provenance_link@)));
    assert(attrs[13] == ("localgp_ingest_code_version"@, Doc::Text(cfg.code_version@)));
    assert(attrs[14] == ("localgp_ingest_run_config"@, Doc::Compact(Box::new(config_doc(cfg)))));
    assert(attrs[15] == ("localgp_ingest_run_facts"@, Doc::Compact(Box::new(input.facts()))));
}

/// The recorded configuration has every setting under its name, and the recorded facts the years, the
/// layer, the number of members and the grid.
pub proof fn law_run_is_recorded_whole(cfg: RunConfig, slice: Slice, members: int, nlat: int, nlon: int, k: int)
    ensures
        ({
            let o = config_doc(cfg)->Object_0;
            &&& o.contains(("run_tag"@, Doc::Text(cfg.run_tag@)))
            &&& o.contains(("provenance_link"@, Doc::Text(cfg.provenance_link@)))
            &&& o.contains(("code_version"@, Doc::Text(cfg.code_version@)))
            &&& o.contains(("var_name"@, Doc::Text(cfg.var_name@)))
            &&& o.contains(("model_name"@, Doc::Text(cfg.model_name@)))
            &&& o.contains(("bathy_floor_m"@, optional(cfg.bathy_floor_m)))
            &&& o.contains(("missing_sentinel"@, optional(cfg.missing_sentinel)))
            &&& o.contains(("dir_mean"@, Doc::Text(cfg.dir_mean@)))
            &&& o.contains(("dir_ensemble"@, Doc::Text(cfg.dir_ensemble@)))
            &&& o.contains(("dir_out"@, Doc::Text(cfg.dir_out@)))
            &&& o.contains(("etopo_path"@, Doc::Text(cfg.etopo_path@)))
            &&& o.contains(("basinmask_path"@, Doc::Text(cfg.basinmask_path@)))
            &&& o.contains(("cp0"@, Doc::Double(cfg.cp0)))
            &&& o.contains(("rho0"@, Doc::Double(cfg.rho0)))
            &&& o[5].0 == "latitude_range_to_keep"@
            &&& o[5].1->List_0 == seq![
                Doc::Double(cfg.latitude_range_to_keep@[0]),
                Doc::Double(cfg.latitude_range_to_keep@[1]),
            ]
            &&& o[6].0 == "basins_to_remove"@
            &&& o[6].1->List_0.len() == cfg.basins_to_remove.len()
            &&& 0 <= k < cfg.basins_to_remove.len() ==> o[6].1->List_0[k] == Doc::Int(cfg.basins_to_remove@[k] as int)
        }),
        forall|x: u64| #[trigger] optional(Some(x)) == Doc::Double(x),
        optional(None) == Doc::Null,
        ({
            let f = facts_doc(slice, members, nlat, nlon)->Object_0;
            &&& f.contains(
                ("years"@, Doc::List(seq![Doc::Int(slice.years@[0] as int), Doc::Int(slice.years@[1] as int)])),
            )
            &&& f.contains(("layer_top"@, Doc::Int(slice.layer.top as int)))
            &&& f.contains(("layer_bottom"@, Doc::Int(slice.layer.bottom as int)))
            &&& f.contains(("members"@, Doc::Int(members)))
            &&& f.contains(("nlat"@, Doc::Int(nlat)))
            &&& f.contains(("nlon"@, Doc::Int(nlon)))
        }),
{
    let o = config_doc(cfg)->Object_0;
    assert(o[0] == ("run_tag"@, Doc::Text(cfg.run_tag@)));
    assert(o[1] == ("provenance_link"@, Doc::Text(cfg.provenance_link@)));
    assert(o[2] == ("code_version"@, Doc::Text(cfg.code_version@)));
    assert(o[3] == ("var_name"@, Doc::Text(cfg.var_name@)));
    assert(o[4] == ("model_name"@, Doc::Text(cfg.model_name@)));
    assert(o[7] == ("bathy_floor_m"@, optional(cfg.bathy_floor_m)));
    assert(o[8] == ("missing_sentinel"@, optional(cfg.missing_sentinel)));
    assert(o[9] == ("dir_mean"@, Doc::Text(cfg.dir_mean@)));
    assert(o[10] == ("dir_ensemble"@, Doc::Text(cfg.dir_ensemble@)));
    assert(o[11] == ("dir_out"@, Doc::Text(cfg.dir_out@)));
    assert(o[12] == ("etopo_path"@, Doc::Text(cfg.etopo_path@)));
    assert(o[13] == ("basinmask_path"@, Doc::Text(cfg.basinmask_path@)));
    assert(o[14] == ("cp0"@, Doc::Double(cfg.cp0)));
    assert(o[15] == ("rho0"@, Doc::Double(cfg.rho0)));
    let f = facts_doc(slice, members, nlat, nlon)->Object_0;
    assert(f[0] == ("years"@, Doc::List(seq![Doc::Int(slice.years@[0] as int), Doc::Int(slice.years@[1] as int)])));
    assert(f[1] == ("layer_top"@, Doc::Int(slice.layer.top as int)));
    assert(f[2] == ("layer_bottom"@, Doc::Int(slice.layer.bottom as int)));
    assert(f[3] == ("members"@, Doc::Int(members)));
    assert(f[4] == ("nlat"@, Doc::Int(nlat)));
    assert(f[5] == ("nlon"@, Doc::Int(nlon)));
}

/// The flag band lists its bits in the order of their meanings.
pub proof fn law_flag_band_names_its_bits(k: int)
    requires
        0 <= k < 7,
    ensures
        flag_attrs()->Object_0[1].0 == "flag_masks"@,
        flag_attrs()->Object_0[1].1->List_0.len() == 7,
        flag_attrs()->Object_0[1].1->List_0[k] == Doc::Int(vstd::arithmetic::power2::pow2(k as nat) as int),
        flag_attrs()->Object_0[2] == (
            "flag_meanings"@,
            Doc::Text(
                "bed_above_shallow bed_above_deep outside_latitude removed_basin never_estimated incomplete_timeseries bed_above_floor"@,
            ),
        ),
{
    vstd::arithmetic::power2::lemma2_to64();
}

} // verus!
