//! The command line and the environment: which of them decides a setting.

use vstd::arithmetic::power2::{lemma2_to64, lemma2_to64_rest, lemma_pow2_adds, lemma_pow2_pos, pow2};
use vstd::prelude::*;

use crate::cli::{
    built_in_constants, run_layer, run_setting, said, setting_fault, text_in, CliFault, CliModel, Environment, Flag,
    SettingError,
};
use crate::config::{layer_of, LayerSpec, RunConfig};
use crate::consts::{EARTH_RADIUS_M, NLAT, NLON, NMEMBER};
use crate::double::{exponent, fraction, magnitude, one, units};

verus! {

/// The eight flags differ.
proof fn lemma_flags()
    ensures
        "--no-ensemble"@.len() == 13,
        "--dir_mean"@.len() == 10,
        "--dir_ensemble"@.len() == 14,
        "--dir_out"@.len() == 9,
        "--tag"@.len() == 5,
        "--provenance-link"@.len() == 17,
        "--code-version"@.len() == 14,
        "--layer"@.len() == 7,
        "--dir_ensemble"@[2] == 'd',
        "--code-version"@[2] == 'c',
{
    reveal_strlit("--no-ensemble");
    reveal_strlit("--dir_mean");
    reveal_strlit("--dir_ensemble");
    reveal_strlit("--dir_out");
    reveal_strlit("--tag");
    reveal_strlit("--provenance-link");
    reveal_strlit("--code-version");
    reveal_strlit("--layer");
}

/// Two arguments, and what follows them.
pub open spec fn before(flag: Seq<char>, value: Seq<char>, rest: Seq<Seq<char>>) -> Seq<Seq<char>> {
    seq![flag, value] + rest
}

/// Every flag with a value sets the setting that it is named for, and leaves the others alone; what
/// follows is read as if it stood alone.
pub proof fn law_flags_set_what_they_are_named_for(value: Seq<char>, rest: Seq<Seq<char>>, cli: CliModel)
    ensures
        said(before("--dir_mean"@, value, rest), cli) == said(rest, CliModel { dir_mean: Some(value), ..cli }),
        said(before("--dir_ensemble"@, value, rest), cli) == said(rest, CliModel { dir_ensemble: Some(value), ..cli }),
        said(before("--dir_out"@, value, rest), cli) == said(rest, CliModel { dir_out: Some(value), ..cli }),
        said(before("--tag"@, value, rest), cli) == said(rest, CliModel { tag: Some(value), ..cli }),
        said(before("--provenance-link"@, value, rest), cli) == said(
            rest,
            CliModel { provenance_link: Some(value), ..cli },
        ),
        said(before("--code-version"@, value, rest), cli) == said(rest, CliModel { code_version: Some(value), ..cli }),
        said(before("--layer"@, value, rest), cli) == match layer_of(value) {
            Ok(layer) => said(rest, CliModel { layer: Some(layer), ..cli }),
            Err(e) => Err(CliFault::Layer(e)),
        },
        said(seq!["--no-ensemble"@] + rest, cli) == said(rest, CliModel { no_ensemble: true, ..cli }),
        said(Seq::empty(), cli) == Ok::<CliModel, CliFault>(cli),
{
    lemma_flags();
    assert(before("--dir_mean"@, value, rest).skip(2) =~= rest);
    assert(before("--dir_ensemble"@, value, rest).skip(2) =~= rest);
    assert(before("--dir_out"@, value, rest).skip(2) =~= rest);
    assert(before("--tag"@, value, rest).skip(2) =~= rest);
    assert(before("--provenance-link"@, value, rest).skip(2) =~= rest);
    assert(before("--code-version"@, value, rest).skip(2) =~= rest);
    assert(before("--layer"@, value, rest).skip(2) =~= rest);
    assert((seq!["--no-ensemble"@] + rest).skip(1) =~= rest);
}

/// A flag that needs a value is refused at the end of the line.
pub proof fn law_flags_need_their_value(cli: CliModel)
    ensures
        said(seq!["--dir_mean"@], cli) == Err::<CliModel, CliFault>(CliFault::MissingValue(Flag::DirMean)),
        said(seq!["--dir_ensemble"@], cli) == Err::<CliModel, CliFault>(CliFault::MissingValue(Flag::DirEnsemble)),
        said(seq!["--dir_out"@], cli) == Err::<CliModel, CliFault>(CliFault::MissingValue(Flag::DirOut)),
        said(seq!["--tag"@], cli) == Err::<CliModel, CliFault>(CliFault::MissingValue(Flag::Tag)),
        said(seq!["--provenance-link"@], cli) == Err::<CliModel, CliFault>(CliFault::MissingValue(Flag::ProvenanceLink)),
        said(seq!["--code-version"@], cli) == Err::<CliModel, CliFault>(CliFault::MissingValue(Flag::CodeVersion)),
        said(seq!["--layer"@], cli) == Err::<CliModel, CliFault>(CliFault::MissingValue(Flag::Layer)),
{
    lemma_flags();
}

/// An argument that does not begin with two dashes names the configuration file; one that does and is
/// none of the flags is refused.
pub proof fn law_other_arguments_name_the_file(arg: Seq<char>, rest: Seq<Seq<char>>, cli: CliModel)
    requires
        arg != "--no-ensemble"@ && arg != "--dir_mean"@ && arg != "--dir_ensemble"@ && arg != "--dir_out"@,
        arg != "--tag"@ && arg != "--provenance-link"@ && arg != "--code-version"@ && arg != "--layer"@,
    ensures
        arg.len() < 2 || arg[0] != '-' || arg[1] != '-' ==> said(seq![arg] + rest, cli) == said(
            rest,
            CliModel { config_path: Some(arg), ..cli },
        ),
        arg.len() >= 2 && arg[0] == '-' && arg[1] == '-' ==> said(seq![arg] + rest, cli) == Err::<CliModel, CliFault>(
            CliFault::UnknownFlag(arg),
        ),
{
    assert((seq![arg] + rest).skip(1) =~= rest);
}

/// The command line decides a setting before the environment does, and a run without its tag, its two
/// links or its layer does not begin.
pub proof fn law_run_has_its_settings(cli: CliModel, env: Environment)
    ensures
        forall|a: Seq<char>, e: Option<Seq<char>>| #[trigger] run_setting(Some(a), e) == Some(a),
        forall|e: Option<Seq<char>>| #[trigger] run_setting(None, e) == e,
        forall|l: LayerSpec, e: Option<Seq<char>>| #[trigger]
            run_layer(Some(l), e) == Ok::<LayerSpec, SettingError>(l),
        forall|e: Seq<char>|
            (#[trigger] run_layer(None, Some(e))) == match layer_of(e) {
                Ok(l) => Ok::<LayerSpec, SettingError>(l),
                Err(x) => Err(SettingError::BadLayer(x)),
            },
        run_layer(None, None) == Err::<LayerSpec, SettingError>(SettingError::Layer),
        setting_fault(cli, env) is None <==> {
            &&& cli.tag is Some || env.tag is Some
            &&& cli.provenance_link is Some || env.provenance_link is Some
            &&& cli.code_version is Some || env.code_version is Some
            &&& cli.layer is Some || (env.layer is Some && layer_of(env.layer->0@) is Ok)
        },
        cli.tag is None && env.tag is None ==> setting_fault(cli, env) == Some(SettingError::Tag),
        forall|s: String| #[trigger] text_in(Some(s)) == Some(s@),
        text_in(None) == None::<Seq<char>>,
{
}

/// A double whose fields are known is so many times a power of two, and so is one.
proof fn lemma_fields_known(bits: u64, e: nat, f: int, rest: nat, ones: int)
    requires
        exponent(bits) == e,
        1 <= e < 2047,
        fraction(bits) + 0x10_0000_0000_0000 == f,
        e - 1 + rest == 1074,
        pow2(rest) == ones,
    ensures
        magnitude(bits) == f * pow2((e - 1) as nat),
        one() == ones * pow2((e - 1) as nat),
        pow2((e - 1) as nat) > 0,
{
    lemma_pow2_adds(rest, (e - 1) as nat);
    lemma_pow2_pos((e - 1) as nat);
}

/// The built-in constants are those of the mapping: latitudes up to 64.5 degrees either way, seven basins
/// left out, no floor and no stand-in for missing values, 1030 kg/m3, and 3989.244 J/(kg K) to within a
/// billionth.
pub proof fn law_built_in_constants(c: RunConfig)
    requires
        built_in_constants(c),
    ensures
        2 * units(c.latitude_range_to_keep@[0]) == -129 * one(),
        2 * units(c.latitude_range_to_keep@[1]) == 129 * one(),
        c.basins_to_remove@ == seq![0i16, 5, 6, 7, 8, 9, 53],
        c.bathy_floor_m is None && c.missing_sentinel is None,
        units(c.rho0) == 1030 * one(),
        -one() < 1_000_000_000 * units(c.cp0) - 3_989_244_000_000 * one() < one(),
        c.var_name@ == "potentialTemperature"@,
        c.model_name@ == "SpaceTimeTrend"@,
{
    lemma2_to64_rest();
    let (lo, hi) = (c.latitude_range_to_keep@[0], c.latitude_range_to_keep@[1]);
    assert(lo == 0xc050_2000_0000_0000u64 && hi == 0x4050_2000_0000_0000u64);
    lemma_fields_known(lo, 1029, 0x10_2000_0000_0000, 46, 0x4000_0000_0000);
    lemma_fields_known(hi, 1029, 0x10_2000_0000_0000, 46, 0x4000_0000_0000);
    lemma_fields_known(c.rho0, 1033, 0x10_1800_0000_0000, 42, 0x400_0000_0000);
    lemma_fields_known(c.cp0, 1034, 0x1f_2a7c_ed91_6873, 41, 0x200_0000_0000);
}

/// The grid has 360 longitudes and 180 latitudes, the ensemble a hundred members, and the earth a radius of
/// 6371 kilometres.
pub proof fn law_product_has_its_extents()
    ensures
        NLON == 360,
        NLAT == 180,
        NMEMBER == 100,
        units(EARTH_RADIUS_M) == 6_371_000 * one(),
{
    lemma2_to64();
    lemma_fields_known(EARTH_RADIUS_M, 1045, 0x18_4dae_0000_0000, 30, 0x4000_0000);
}

} // verus!
