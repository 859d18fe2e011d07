//! The command line, and which setting wins.

use vstd::prelude::*;
use vstd::string::StringExecFns;

use crate::config::{layer_of, parse_layer, texts, LayerError, LayerSpec, RunConfig};
use crate::text::{chars_of, strip_blanks, without_blanks};

verus! {

/// The flags of the command line.
#[derive(Debug, Clone, Copy, PartialEq, Eq)]
pub enum Flag {
    NoEnsemble,
    DirMean,
    DirEnsemble,
    DirOut,
    Tag,
    ProvenanceLink,
    CodeVersion,
    Layer,
}

/// What the command line says.
#[derive(Debug, Clone)]
pub struct Cli {
    pub config_path: Option<String>,
    pub tag: Option<String>,
    pub provenance_link: Option<String>,
    pub code_version: Option<String>,
    pub layer: Option<LayerSpec>,
    pub no_ensemble: bool,
    pub dir_mean: Option<String>,
    pub dir_ensemble: Option<String>,
    pub dir_out: Option<String>,
}

/// What a command line says.
pub struct CliModel {
    pub config_path: Option<Seq<char>>,
    pub tag: Option<Seq<char>>,
    pub provenance_link: Option<Seq<char>>,
    pub code_version: Option<Seq<char>>,
    pub layer: Option<LayerSpec>,
    pub no_ensemble: bool,
    pub dir_mean: Option<Seq<char>>,
    pub dir_ensemble: Option<Seq<char>>,
    pub dir_out: Option<Seq<char>>,
}

/// The text of a string that may be absent.
pub open spec fn text_in(s: Option<String>) -> Option<Seq<char>> {
    match s {
        Some(s) => Some(s@),
        None => None,
    }
}

impl View for Cli {
    type V = CliModel;

    open spec fn view(&self) -> CliModel {
        CliModel {
            config_path: text_in(self.config_path),
            tag: text_in(self.tag),
            provenance_link: text_in(self.provenance_link),
            code_version: text_in(self.code_version),
            layer: self.layer,
            no_ensemble: self.no_ensemble,
            dir_mean: text_in(self.dir_mean),
            dir_ensemble: text_in(self.dir_ensemble),
            dir_out: text_in(self.dir_out),
        }
    }
}

/// Why a command line is faulty.
#[derive(Debug, Clone)]
pub enum CliError {
    /// A flag needs a value and is the last argument.
    MissingValue(Flag),
    /// The layer is faulty.
    Layer(LayerError),
    /// No such flag.
    UnknownFlag(String),
}

/// Why a command line is faulty.
pub enum CliFault {
    MissingValue(Flag),
    Layer(LayerError),
    UnknownFlag(Seq<char>),
}

impl CliError {
    /// What is wrong.
    pub open spec fn fault(&self) -> CliFault {
        match *self {
            CliError::MissingValue(f) => CliFault::MissingValue(f),
            CliError::Layer(e) => CliFault::Layer(e),
            CliError::UnknownFlag(s) => CliFault::UnknownFlag(s@),
        }
    }
}

/// The flag that an argument is.
pub open spec fn flag_of(arg: Seq<char>) -> Option<Flag> {
    if arg == "--no-ensemble"@ {
        Some(Flag::NoEnsemble)
    } else if arg == "--dir_mean"@ {
        Some(Flag::DirMean)
    } else if arg == "--dir_ensemble"@ {
        Some(Flag::DirEnsemble)
    } else if arg == "--dir_out"@ {
        Some(Flag::DirOut)
    } else if arg == "--tag"@ {
        Some(Flag::Tag)
    } else if arg == "--provenance-link"@ {
        Some(Flag::ProvenanceLink)
    } else if arg == "--code-version"@ {
        Some(Flag::CodeVersion)
    } else if arg == "--layer"@ {
        Some(Flag::Layer)
    } else {
        None
    }
}

/// An argument looks like a flag.
pub open spec fn looks_like_flag(arg: Seq<char>) -> bool {
    arg.len() >= 2 && arg[0] == '-' && arg[1] == '-'
}

/// What is said once a flag got its value.
pub open spec fn with_value(cli: CliModel, flag: Flag, value: Seq<char>) -> Result<CliModel, CliFault> {
    match flag {
        Flag::NoEnsemble => Ok(cli),
        Flag::DirMean => Ok(CliModel { dir_mean: Some(value), ..cli }),
        Flag::DirEnsemble => Ok(CliModel { dir_ensemble: Some(value), ..cli }),
        Flag::DirOut => Ok(CliModel { dir_out: Some(value), ..cli }),
        Flag::Tag => Ok(CliModel { tag: Some(value), ..cli }),
        Flag::ProvenanceLink => Ok(CliModel { provenance_link: Some(value), ..cli }),
        Flag::CodeVersion => Ok(CliModel { code_version: Some(value), ..cli }),
        Flag::Layer => match layer_of(value) {
            Ok(layer) => Ok(CliModel { layer: Some(layer), ..cli }),
            Err(e) => Err(CliFault::Layer(e)),
        },
    }
}

/// What is said once the arguments were read, one after the other. A later argument replaces an
/// earlier one of its kind; an argument that is no flag names the configuration file.
pub open spec fn said(args: Seq<Seq<char>>, cli: CliModel) -> Result<CliModel, CliFault>
    decreases args.len(),
{
    if args.len() == 0 {
        Ok(cli)
    } else {
        match flag_of(args[0]) {
            Some(Flag::NoEnsemble) => said(args.skip(1), CliModel { no_ensemble: true, ..cli }),
            Some(flag) => if args.len() == 1 {
                Err(CliFault::MissingValue(flag))
            } else {
                match with_value(cli, flag, args[1]) {
                    Ok(next) => said(args.skip(2), next),
                    Err(x) => Err(x),
                }
            },
            None => if looks_like_flag(args[0]) {
                Err(CliFault::UnknownFlag(args[0]))
            } else {
                said(args.skip(1), CliModel { config_path: Some(args[0]), ..cli })
            },
        }
    }
}

/// A command line that says nothing.
pub open spec fn silent(no_ensemble: bool) -> CliModel {
    CliModel {
        config_path: None,
        tag: None,
        provenance_link: None,
        code_version: None,
        layer: None,
        no_ensemble,
        dir_mean: None,
        dir_ensemble: None,
        dir_out: None,
    }
}

/// Whether two texts are the same.
fn same_text(a: &Vec<char>, b: &str) -> (r: bool)
    ensures
        r == (a@ == b@),
{
    let c: Vec<char> = chars_of(b);
    if a.len() != c.len() {
        return false;
    }
    let mut k: usize = 0;
    while k < a.len()
        invariant
            k <= a.len(),
            a.len() == c.len(),
            c@ == b@,
            forall|m: int| 0 <= m < k ==> a@[m] == c@[m],
        decreases a.len() - k,
    {
        if a[k] != c[k] {
            return false;
        }
        k = k + 1;
    }
    assert(a@ =~= b@);
    true
}

/// Which flag an argument is.
fn read_flag(arg: &Vec<char>) -> (r: Option<Flag>)
    ensures
        r == flag_of(arg@),
{
    if same_text(arg, "--no-ensemble") {
        Some(Flag::NoEnsemble)
    } else if same_text(arg, "--dir_mean") {
        Some(Flag::DirMean)
    } else if same_text(arg, "--dir_ensemble") {
        Some(Flag::DirEnsemble)
    } else if same_text(arg, "--dir_out") {
        Some(Flag::DirOut)
    } else if same_text(arg, "--tag") {
        Some(Flag::Tag)
    } else if same_text(arg, "--provenance-link") {
        Some(Flag::ProvenanceLink)
    } else if same_text(arg, "--code-version") {
        Some(Flag::CodeVersion)
    } else if same_text(arg, "--layer") {
        Some(Flag::Layer)
    } else {
        None
    }
}

/// Gives a flag its value.
fn set_value(cli: &mut Cli, flag: Flag, value: &String) -> (r: Result<(), CliError>)
    requires
        flag != Flag::NoEnsemble,
    ensures
        match r {
            Ok(()) => with_value(old(cli)@, flag, value@) == Ok::<CliModel, CliFault>(final(cli)@),
            Err(e) => with_value(old(cli)@, flag, value@) == Err::<CliModel, CliFault>(e.fault()),
        },
{
    let copy = String::from_str(value.as_str());
    match flag {
        Flag::NoEnsemble => {},
        Flag::DirMean => {
            cli.dir_mean = Some(copy);
        },
        Flag::DirEnsemble => {
            cli.dir_ensemble = Some(copy);
        },
        Flag::DirOut => {
            cli.dir_out = Some(copy);
        },
        Flag::Tag => {
            cli.tag = Some(copy);
        },
        Flag::ProvenanceLink => {
            cli.provenance_link = Some(copy);
        },
        Flag::CodeVersion => {
            cli.code_version = Some(copy);
        },
        Flag::Layer => match parse_layer(value.as_str()) {
            Ok(layer) => {
                cli.layer = Some(layer);
            },
            Err(e) => {
                return Err(CliError::Layer(e));
            },
        },
    }
    Ok(())
}

/// Parses the arguments behind the program's name. `no_ensemble` is what the environment says.
pub fn parse_cli(args: &Vec<String>, no_ensemble: bool) -> (r: Result<Cli, CliError>)
    ensures
        match r {
            Ok(cli) => said(texts(args@), silent(no_ensemble)) == Ok::<CliModel, CliFault>(cli@),
            Err(e) => said(texts(args@), silent(no_ensemble)) == Err::<CliModel, CliFault>(e.fault()),
        },
{
    let mut cli = Cli {
        config_path: None,
        tag: None,
        provenance_link: None,
        code_version: None,
        layer: None,
        no_ensemble,
        dir_mean: None,
        dir_ensemble: None,
        dir_out: None,
    };
    let ghost all = texts(args@);
    let ghost outcome = said(all, silent(no_ensemble));
    let mut i: usize = 0;
    assert(all.skip(0) =~= all);
    while i < args.len()
        invariant
            i <= args.len(),
            all == texts(args@),
            outcome == said(all, silent(no_ensemble)),
            outcome == said(all.skip(i as int), cli@),
        decreases args.len() - i,
    {
        let arg: Vec<char> = chars_of(args[i].as_str());
        let ghost rest = all.skip(i as int);
        assert(rest[0] == arg@);
        assert(rest.skip(1) =~= all.skip(i + 1));
        match read_flag(&arg) {
            Some(Flag::NoEnsemble) => {
                cli.no_ensemble = true;
            },
            Some(flag) => {
                i = i + 1;
                if i >= args.len() {
                    return Err(CliError::MissingValue(flag));
                }
                proof {
                    assert(rest[1] == args@[i as int]@);
                    assert(rest.skip(2) =~= all.skip(i + 1));
                }
                match set_value(&mut cli, flag, &args[i]) {
                    Ok(()) => {},
                    Err(e) => {
                        return Err(e);
                    },
                }
            },
            None => {
                if arg.len() >= 2 && arg[0] == '-' && arg[1] == '-' {
                    return Err(CliError::UnknownFlag(String::from_str(args[i].as_str())));
                }
                cli.config_path = Some(String::from_str(args[i].as_str()));
            },
        }
        i = i + 1;
    }
    assert(all.skip(i as int) =~= Seq::empty());
    Ok(cli)
}

/// What the environment says.
#[derive(Debug, Clone)]
pub struct Environment {
    pub tag: Option<String>,
    pub provenance_link: Option<String>,
    pub code_version: Option<String>,
    pub layer: Option<String>,
    pub dir_mean: Option<String>,
    pub dir_ensemble: Option<String>,
    pub dir_out: Option<String>,
    pub etopo: Option<String>,
    pub basinmask: Option<String>,
}

/// Why a run cannot begin.
#[derive(Debug, Clone, Copy, PartialEq, Eq)]
pub enum SettingError {
    /// No run tag is given.
    Tag,
    /// No provenance link is given.
    ProvenanceLink,
    /// No code version is given.
    CodeVersion,
    /// No layer is given.
    Layer,
    /// The layer that the environment gives is faulty.
    BadLayer(LayerError),
}

/// A setting of the run: the command line wins over the environment.
pub open spec fn run_setting(cli: Option<Seq<char>>, env: Option<Seq<char>>) -> Option<Seq<char>> {
    match cli {
        Some(s) => Some(s),
        None => env,
    }
}

/// A path without the command line: a configuration file is authoritative, and the environment
/// counts only where there is none.
pub open spec fn base_path(file: Option<Seq<char>>, env: Option<Seq<char>>, default: Seq<char>) -> Seq<char> {
    match file {
        Some(s) => s,
        None => match env {
            Some(s) => s,
            None => default,
        },
    }
}

/// A directory: the command line wins over everything else.
pub open spec fn directory(
    cli: Option<Seq<char>>,
    file: Option<Seq<char>>,
    env: Option<Seq<char>>,
    default: Seq<char>,
) -> Seq<char> {
    match cli {
        Some(s) => s,
        None => base_path(file, env, default),
    }
}

/// The layer of a run: the command line wins over the environment.
pub open spec fn run_layer(cli: Option<LayerSpec>, env: Option<Seq<char>>) -> Result<LayerSpec, SettingError> {
    match cli {
        Some(layer) => Ok(layer),
        None => match env {
            None => Err(SettingError::Layer),
            Some(s) => match layer_of(s) {
                Ok(layer) => Ok(layer),
                Err(e) => Err(SettingError::BadLayer(e)),
            },
        },
    }
}

/// Two configurations have the same constants: everything but the run's settings and the paths.
pub open spec fn same_constants(a: RunConfig, b: RunConfig) -> bool {
    &&& a.var_name@ == b.var_name@
    &&& a.model_name@ == b.model_name@
    &&& a.latitude_range_to_keep == b.latitude_range_to_keep
    &&& a.basins_to_remove@ == b.basins_to_remove@
    &&& a.bathy_floor_m == b.bathy_floor_m
    &&& a.missing_sentinel == b.missing_sentinel
    &&& a.cp0 == b.cp0
    &&& a.rho0 == b.rho0
}

/// The constants are the built-in ones.
pub open spec fn built_in_constants(c: RunConfig) -> bool {
    &&& c.var_name@ == "potentialTemperature"@
    &&& c.model_name@ == "SpaceTimeTrend"@
    &&& c.latitude_range_to_keep@ == seq![0xc050_2000_0000_0000u64, 0x4050_2000_0000_0000]
    &&& c.basins_to_remove@ == seq![0i16, 5, 6, 7, 8, 9, 53]
    &&& c.bathy_floor_m is None
    &&& c.missing_sentinel is None
    &&& c.cp0 == crate::consts::CP0
    &&& c.rho0 == crate::consts::RHO0
}

/// Takes a copy of a text in place of another, where there is one.
fn replace(field: &mut String, with: &Option<String>)
    ensures
        final(field)@ == match *with {
            Some(s) => s@,
            None => old(field)@,
        },
{
    match with {
        Some(s) => {
            *field = String::from_str(s.as_str());
        },
        None => {},
    }
}

/// The configuration before the command line: the file's, or without a file the built-in one with
/// the paths that the environment gives.
pub fn load_run_config(file: Option<RunConfig>, env: &Environment) -> (r: RunConfig)
    ensures
        match file {
            Some(c) => r == c,
            None => {
                &&& built_in_constants(r)
                &&& r.run_tag@ == "UNSET"@
                &&& r.provenance_link@ == Seq::<char>::empty()
                &&& r.code_version@ == Seq::<char>::empty()
                &&& r.dir_mean@ == base_path(None, text_in(env.dir_mean), "."@)
                &&& r.dir_ensemble@ == base_path(None, text_in(env.dir_ensemble), "."@)
                &&& r.dir_out@ == base_path(None, text_in(env.dir_out), "."@)
                &&& r.etopo_path@ == base_path(None, text_in(env.etopo), "etopo60.cdf"@)
                &&& r.basinmask_path@ == base_path(None, text_in(env.basinmask), "basinmask_04.msk"@)
            },
        },
{
    match file {
        Some(c) => c,
        None => {
            let mut c = RunConfig::defaults();
            replace(&mut c.dir_mean, &env.dir_mean);
            replace(&mut c.dir_ensemble, &env.dir_ensemble);
            replace(&mut c.dir_out, &env.dir_out);
            replace(&mut c.etopo_path, &env.etopo);
            replace(&mut c.basinmask_path, &env.basinmask);
            c
        },
    }
}

/// The layer of a run.
pub fn resolve_layer(cli: &Cli, env: &Environment) -> (r: Result<LayerSpec, SettingError>)
    ensures
        r == run_layer(cli.layer, text_in(env.layer)),
{
    match cli.layer {
        Some(layer) => Ok(layer),
        None => match &env.layer {
            None => Err(SettingError::Layer),
            Some(s) => match parse_layer(s.as_str()) {
                Ok(layer) => Ok(layer),
                Err(e) => Err(SettingError::BadLayer(e)),
            },
        },
    }
}

/// A setting of the run.
fn resolve_setting(cli: &Option<String>, env: &Option<String>) -> (r: Option<String>)
    ensures
        text_in(r) == run_setting(text_in(*cli), text_in(*env)),
{
    match cli {
        Some(s) => Some(String::from_str(s.as_str())),
        None => match env {
            Some(s) => Some(String::from_str(s.as_str())),
            None => None,
        },
    }
}

/// Why a run cannot begin, where it cannot: the tag, the two links and the layer are required, and
/// are asked for in this order.
pub open spec fn setting_fault(cli: CliModel, env: Environment) -> Option<SettingError> {
    if run_setting(cli.tag, text_in(env.tag)) is None {
        Some(SettingError::Tag)
    } else if run_setting(cli.provenance_link, text_in(env.provenance_link)) is None {
        Some(SettingError::ProvenanceLink)
    } else if run_setting(cli.code_version, text_in(env.code_version)) is None {
        Some(SettingError::CodeVersion)
    } else {
        match run_layer(cli.layer, text_in(env.layer)) {
            Ok(_) => None,
            Err(e) => Some(e),
        }
    }
}

/// Settles the configuration and the layer of a run. Blanks are taken out of the tag; it is not
/// changed otherwise.
pub fn resolve(base: RunConfig, cli: &Cli, env: &Environment) -> (r: Result<(RunConfig, LayerSpec), SettingError>)
    ensures
        match setting_fault(cli@, *env) {
            Some(e) => r == Err::<(RunConfig, LayerSpec), SettingError>(e),
            None => {
                &&& r matches Ok((c, layer))
                &&& same_constants(c, base)
                &&& c.etopo_path@ == base.etopo_path@
                &&& c.basinmask_path@ == base.basinmask_path@
                &&& c.dir_mean@ == directory(cli@.dir_mean, Some(base.dir_mean@), None, "."@)
                &&& c.dir_ensemble@ == directory(cli@.dir_ensemble, Some(base.dir_ensemble@), None, "."@)
                &&& c.dir_out@ == directory(cli@.dir_out, Some(base.dir_out@), None, "."@)
                &&& c.run_tag@ == without_blanks(run_setting(cli@.tag, text_in(env.tag))->0)
                &&& c.provenance_link@ == run_setting(cli@.provenance_link, text_in(env.provenance_link))->0
                &&& c.code_version@ == run_setting(cli@.code_version, text_in(env.code_version))->0
                &&& run_layer(cli@.layer, text_in(env.layer)) == Ok::<LayerSpec, SettingError>(layer)
            },
        },
{
    let mut c = base;
    replace(&mut c.dir_mean, &cli.dir_mean);
    replace(&mut c.dir_ensemble, &cli.dir_ensemble);
    replace(&mut c.dir_out, &cli.dir_out);
    match resolve_setting(&cli.tag, &env.tag) {
        Some(s) => {
            c.run_tag = strip_blanks(s.as_str());
        },
        None => {
            return Err(SettingError::Tag);
        },
    }
    match resolve_setting(&cli.provenance_link, &env.provenance_link) {
        Some(s) => {
            c.provenance_link = s;
        },
        None => {
            return Err(SettingError::ProvenanceLink);
        },
    }
    match resolve_setting(&cli.code_version, &env.code_version) {
        Some(s) => {
            c.code_version = s;
        },
        None => {
            return Err(SettingError::CodeVersion);
        },
    }
    match resolve_layer(cli, env) {
        Ok(layer) => Ok((c, layer)),
        Err(e) => Err(e),
    }
}

/// Of a directory that more than one source gives, the command line's wins, then a configuration
/// file's, then the environment's, and the built-in one comes last. With a file the environment
/// does not count.
pub proof fn law_directory_precedence(
    cli: Option<Seq<char>>,
    file: Option<Seq<char>>,
    env: Option<Seq<char>>,
    default: Seq<char>,
)
    ensures
        cli is Some ==> directory(cli, file, env, default) == cli->0,
        cli is None && file is Some ==> directory(cli, file, env, default) == file->0,
        cli is None && file is None && env is Some ==> directory(cli, file, env, default) == env->0,
        cli is None && file is None && env is None ==> directory(cli, file, env, default) == default,
{
}

/// The last of several values of a flag counts: what was said of a directory before is forgotten.
pub proof fn law_last_value_counts(cli: CliModel, flag: Flag, first: Seq<char>, second: Seq<char>)
    requires
        flag != Flag::NoEnsemble,
        with_value(cli, flag, first) is Ok,
    ensures
        with_value(with_value(cli, flag, first)->Ok_0, flag, second) == with_value(cli, flag, second),
{
}

/// The tag of a run has no blanks, and a tag without blanks is not changed.
pub proof fn law_tag_keeps_its_characters(tag: Seq<char>)
    ensures
        forall|i: int| 0 <= i < without_blanks(tag).len() ==> !crate::text::is_blank(#[trigger] without_blanks(tag)[i]),
        (forall|i: int| 0 <= i < tag.len() ==> !crate::text::is_blank(#[trigger] tag[i])) ==> without_blanks(tag) == tag,
    decreases tag.len(),
{
    let keep = |c: char| !crate::text::is_blank(c);
    reveal(Seq::filter);
    if tag.len() > 0 {
        law_tag_keeps_its_characters(tag.drop_last());
        let shorter = without_blanks(tag.drop_last());
        if forall|i: int| 0 <= i < tag.len() ==> !crate::text::is_blank(#[trigger] tag[i]) {
            assert forall|i: int| 0 <= i < tag.drop_last().len() implies !crate::text::is_blank(
                #[trigger] tag.drop_last()[i],
            ) by {
                assert(tag[i] == tag.drop_last()[i]);
            }
            assert(shorter.push(tag.last()) =~= tag);
        }
    }
}

} // verus!
