//! The command line and the precedence of settings.

use ohc_ingest::cli::{load_run_config, parse_cli, resolve, Cli, CliError, Environment, Flag, SettingError};
use ohc_ingest::config::{LayerError, LayerSpec, RunConfig};

fn parse(args: &[&str]) -> Result<Cli, CliError> {
    parse_cli(&args.iter().map(|s| s.to_string()).collect(), false)
}

fn some(s: &str) -> Option<String> {
    Some(s.to_string())
}

fn bare() -> Environment {
    Environment {
        tag: None,
        provenance_link: None,
        code_version: None,
        layer: None,
        dir_mean: None,
        dir_ensemble: None,
        dir_out: None,
        etopo: None,
        basinmask: None,
    }
}

#[test]
fn every_flag_is_read() {
    let c = parse(&[
        "config.toml", "--tag", "T", "--provenance-link", "P", "--code-version", "C", "--layer", "15-20",
        "--dir_mean", "m", "--dir_ensemble", "e", "--dir_out", "o", "--no-ensemble",
    ])
    .unwrap();
    assert_eq!(c.config_path, some("config.toml"));
    assert_eq!((c.tag, c.provenance_link, c.code_version), (some("T"), some("P"), some("C")));
    assert_eq!(c.layer, Some(LayerSpec { top: 15, bottom: 20 }));
    assert_eq!((c.dir_mean, c.dir_ensemble, c.dir_out), (some("m"), some("e"), some("o")));
    assert!(c.no_ensemble);
}

#[test]
fn nothing_said_is_nothing_set() {
    let c = parse(&[]).unwrap();
    assert!(c.config_path.is_none() && c.tag.is_none() && c.layer.is_none() && !c.no_ensemble);
    assert!(parse_cli(&Vec::new(), true).unwrap().no_ensemble);
}

#[test]
fn later_arguments_replace_earlier_ones() {
    let c = parse(&["a.toml", "--tag", "x", "b.toml", "--tag", "--layer"]).unwrap();
    assert_eq!(c.config_path, some("b.toml"));
    assert_eq!(c.tag, some("--layer")); // a value may look like a flag
}

#[test]
fn faulty_command_lines() {
    assert!(matches!(parse(&["--tag"]), Err(CliError::MissingValue(Flag::Tag))));
    assert!(matches!(parse(&["--layer"]), Err(CliError::MissingValue(Flag::Layer))));
    assert!(matches!(parse(&["--dir_mean"]), Err(CliError::MissingValue(Flag::DirMean))));
    assert!(matches!(parse(&["--layer", "15"]), Err(CliError::Layer(LayerError::Parts))));
    match parse(&["--years", "2016"]) {
        Err(CliError::UnknownFlag(s)) => assert_eq!(s, "--years"),
        other => panic!("{other:?}"),
    }
    assert!(parse(&["-x"]).is_ok()); // one dash is a file name
}

#[test]
fn directories_by_precedence() {
    let mut env = bare();
    env.dir_mean = some("env-mean");
    env.etopo = some("env.cdf");
    let base = load_run_config(None, &env);
    assert_eq!((base.dir_mean.as_str(), base.dir_out.as_str()), ("env-mean", "."));
    assert_eq!((base.etopo_path.as_str(), base.basinmask_path.as_str()), ("env.cdf", "basinmask_04.msk"));
    let mut file = RunConfig::defaults();
    file.dir_mean = "file-mean".to_string();
    let base = load_run_config(Some(file), &env);
    assert_eq!((base.dir_mean.as_str(), base.etopo_path.as_str()), ("file-mean", "etopo60.cdf"));
    let cli = parse(&["--tag", "t", "--provenance-link", "p", "--code-version", "c", "--layer", "1-2", "--dir_mean", "m"])
        .unwrap();
    let (cfg, _) = resolve(base, &cli, &bare()).unwrap();
    assert_eq!((cfg.dir_mean.as_str(), cfg.dir_ensemble.as_str()), ("m", "."));
}

#[test]
fn run_settings_by_precedence() {
    let mut env = bare();
    env.tag = some(" OP 2026\t0110\n");
    env.provenance_link = some("env-p");
    env.code_version = some("env-c");
    env.layer = some("300_700");
    let cli = parse(&["--provenance-link", "cli-p"]).unwrap();
    let (cfg, layer) = resolve(RunConfig::defaults(), &cli, &env).unwrap();
    assert_eq!(cfg.run_tag, "OP20260110");
    assert_eq!((cfg.provenance_link.as_str(), cfg.code_version.as_str()), ("cli-p", "env-c"));
    assert_eq!(layer, LayerSpec { top: 300, bottom: 700 });
    let cli = parse(&["--layer", "0:5", "--tag", "MiXed"]).unwrap();
    let (cfg, layer) = resolve(RunConfig::defaults(), &cli, &env).unwrap();
    assert_eq!((cfg.run_tag.as_str(), layer), ("MiXed", LayerSpec { top: 0, bottom: 5 }));
}

#[test]
fn required_settings() {
    let need = |cli: &[&str], env: &Environment| {
        resolve(RunConfig::defaults(), &parse(cli).unwrap(), env).map(|_| ()).unwrap_err()
    };
    assert_eq!(need(&[], &bare()), SettingError::Tag);
    assert_eq!(need(&["--tag", "t"], &bare()), SettingError::ProvenanceLink);
    assert_eq!(need(&["--tag", "t", "--provenance-link", "p"], &bare()), SettingError::CodeVersion);
    let three = ["--tag", "t", "--provenance-link", "p", "--code-version", "c"];
    assert_eq!(need(&three, &bare()), SettingError::Layer);
    let mut env = bare();
    env.layer = some("1,2");
    assert_eq!(need(&three, &env), SettingError::BadLayer(LayerError::List));
}
