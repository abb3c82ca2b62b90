//! The configuration: runtime settings (`config.pkgs_dir`,
//! `config.backup_dir`), named paths and template variables, evaluated
//! against the process environment.
use crate::path::{is_absolute, join, path_is_absolute, path_join};
use crate::resolve::{
    close_brace, dollar_brace, environment_reference_error, interpolate_spec, res_view,
    resolve_all_spec, validate_environment_reference, EvalErr, EvaluationError,
    VariableResolver,
};
use crate::resolve::evaluation_message_spec;
use crate::text::{
    cat, chars_of, find, find_from, io_error_text, occurs_at, string_of_range, to_string,
};
use crate::values::{map_of, ordered_pairs, Pair, Values};
use vstd::prelude::*;

verus! {

/// Declares `std::io::Error`, carried opaque in the errors of file-system
/// calls; nothing is claimed of it.
#[verifier::external_type_specification]
#[verifier::external_body]
pub struct ExIoError(std::io::Error);

/// Declares `serde_yaml::Error`, carried opaque in parse and serialization
/// errors; nothing is claimed of it.
#[verifier::external_type_specification]
#[verifier::external_body]
pub struct ExYamlError(serde_yaml::Error);

/// The evaluated configuration.
#[derive(Debug)]
pub struct Config {
    pub config: RuntimeConfig,
    pub paths: Values,
    pub variables: Values,
}

/// The runtime settings, with the packages directory decided.
#[derive(Debug, PartialEq, Eq)]
pub struct RuntimeConfig {
    pub pkgs_dir: String,
    pub backup_dir: Option<String>,
}

/// The runtime settings that the configuration file states.
#[derive(Debug, Default, PartialEq, Eq)]
pub struct ConfiguredRuntimeConfig {
    pub pkgs_dir: Option<String>,
    pub backup_dir: Option<String>,
}

/// The `config` section of the file, as written.
#[derive(Debug, Default, PartialEq, Eq)]
pub struct RawRuntimeConfig {
    pub pkgs_dir: Option<String>,
    pub backup_dir: Option<String>,
}

/// The configuration file, as written; a missing file reads as the default.
#[derive(Debug, PartialEq, Eq)]
pub struct RawConfig {
    pub config: RawRuntimeConfig,
    pub path: Values,
    pub variables: Values,
}

/// What reading an environment variable gave.
#[derive(Debug, PartialEq, Eq)]
pub enum EnvLookup {
    Value(String),
    NotPresent,
    NotUnicode,
}

/// What the configuration reads from the process: `HOME`,
/// `XDG_CONFIG_HOME`, the current directory and the environment variables
/// that the file refers to.
#[derive(Debug)]
pub struct SystemSnapshot {
    pub home: Option<String>,
    pub xdg_config_home: Option<String>,
    pub current_dir: Result<String, std::io::Error>,
    pub environment: Vec<(String, EnvLookup)>,
}

/// The values that evaluation starts from.
#[derive(Debug)]
pub struct EvaluationContext {
    pub home: String,
    pub root: String,
    pub current_dir: String,
    pub environment: Values,
}

/// A configuration failure.
#[derive(Debug)]
#[allow(inconsistent_fields)]
pub enum ConfigError {
    HomeNotFound,
    CurrentDirectory(std::io::Error),
    RelativePkgsDirectory { path: String },
    RelativeBackupDirectory { path: String },
    ResolveBackupDirectory { path: String, source: std::io::Error },
    CreateBackupDirectory { path: String, source: std::io::Error },
    ResolvePkgsDirectory { path: String, source: std::io::Error },
    PkgsDirectoryNotDirectory { path: String },
    CreateConfigDirectory { path: String, source: std::io::Error },
    WriteConfig { path: String, source: std::io::Error },
    ReplaceConfig { path: String, source: std::io::Error },
    Read { path: String, source: std::io::Error },
    Parse { path: String, source: serde_yaml::Error },
    Evaluate { path: String, source: EvaluationError },
}

/// A configuration failure that the evaluation decides, as characters.
pub enum ConfigErr {
    HomeNotFound,
    CurrentDirectory,
    RelativePkgsDirectory { path: Seq<char> },
    RelativeBackupDirectory { path: Seq<char> },
    PkgsDirectoryNotDirectory { path: Seq<char> },
    Evaluate { path: Seq<char>, source: EvalErr },
    ResolveBackupDirectory { path: Seq<char> },
    CreateBackupDirectory { path: Seq<char> },
    ResolvePkgsDirectory { path: Seq<char> },
    CreateConfigDirectory { path: Seq<char> },
    WriteConfig { path: Seq<char> },
    ReplaceConfig { path: Seq<char> },
    Read { path: Seq<char> },
    Parse { path: Seq<char> },
}

impl ConfigError {
    pub open spec fn kind(&self) -> ConfigErr {
        match self {
            ConfigError::HomeNotFound => ConfigErr::HomeNotFound,
            ConfigError::CurrentDirectory(_) => ConfigErr::CurrentDirectory,
            ConfigError::RelativePkgsDirectory { path } => ConfigErr::RelativePkgsDirectory {
                path: path@,
            },
            ConfigError::RelativeBackupDirectory { path } => ConfigErr::RelativeBackupDirectory {
                path: path@,
            },
            ConfigError::PkgsDirectoryNotDirectory { path } =>
                ConfigErr::PkgsDirectoryNotDirectory { path: path@ },
            ConfigError::Evaluate { path, source } => ConfigErr::Evaluate {
                path: path@,
                source: source@,
            },
            ConfigError::ResolveBackupDirectory { path, .. } => ConfigErr::ResolveBackupDirectory {
                path: path@,
            },
            ConfigError::CreateBackupDirectory { path, .. } => ConfigErr::CreateBackupDirectory {
                path: path@,
            },
            ConfigError::ResolvePkgsDirectory { path, .. } => ConfigErr::ResolvePkgsDirectory {
                path: path@,
            },
            ConfigError::CreateConfigDirectory { path, .. } => ConfigErr::CreateConfigDirectory {
                path: path@,
            },
            ConfigError::WriteConfig { path, .. } => ConfigErr::WriteConfig { path: path@ },
            ConfigError::ReplaceConfig { path, .. } => ConfigErr::ReplaceConfig { path: path@ },
            ConfigError::Read { path, .. } => ConfigErr::Read { path: path@ },
            ConfigError::Parse { path, .. } => ConfigErr::Parse { path: path@ },
        }
    }
}

/// The text that reports a configuration failure; the failure to read the
/// current directory also carries the system's wording, which is not part of
/// this text.
pub open spec fn config_message_spec(k: ConfigErr) -> Seq<char> {
    match k {
        ConfigErr::HomeNotFound => "could not determine the home directory"@,
        ConfigErr::CurrentDirectory => "could not determine the current directory: "@,
        ConfigErr::RelativePkgsDirectory { path } => "config.pkgs_dir must be an absolute path: "@ + path,
        ConfigErr::RelativeBackupDirectory { path } => "config.backup_dir must be an absolute path: "@ + path,
        ConfigErr::PkgsDirectoryNotDirectory { path } => "packages directory is not a directory: "@ + path,
        ConfigErr::Evaluate { path, source } => "could not evaluate config "@ + path + ": "@ + evaluation_message_spec(source),
        ConfigErr::ResolveBackupDirectory { path } => "could not resolve backup directory "@ + path + ": "@,
        ConfigErr::CreateBackupDirectory { path } => "could not create backup directory "@ + path + ": "@,
        ConfigErr::ResolvePkgsDirectory { path } => "could not resolve packages directory "@ + path + ": "@,
        ConfigErr::CreateConfigDirectory { path } => "could not create config directory "@ + path + ": "@,
        ConfigErr::WriteConfig { path } => "could not write config "@ + path + ": "@,
        ConfigErr::ReplaceConfig { path } => "could not replace config "@ + path + ": "@,
        ConfigErr::Read { path } => "could not read config "@ + path + ": "@,
        ConfigErr::Parse { path } => "could not parse config "@ + path + ": "@,
    }
}

/// A failure of a file-system call or of the YAML parser, whose message ends
/// with that error's own wording after the text of `config_message_spec`.
pub open spec fn config_system_worded(k: ConfigErr) -> bool {
    ||| k is CurrentDirectory
    ||| k is ResolveBackupDirectory
    ||| k is CreateBackupDirectory
    ||| k is ResolvePkgsDirectory
    ||| k is CreateConfigDirectory
    ||| k is WriteConfig
    ||| k is ReplaceConfig
    ||| k is Read
    ||| k is Parse
}

/// Calls `ToString::to_string` on a `serde_yaml::Error`; nothing is claimed of
/// the text.
#[verifier::external_body]
fn yaml_error_text(error: &serde_yaml::Error) -> (res: String) {
    error.to_string()
}

impl ConfigError {
    /// The text that reports the failure; for a failed file-system call or a
    /// parse error it ends with that error's own wording.
    pub fn message(&self) -> (res: String)
        ensures
            config_message_spec(self.kind()).is_prefix_of(res@),
            !config_system_worded(self.kind()) ==> res@ == config_message_spec(self.kind()),
    {
        let res = match self {
            ConfigError::HomeNotFound => to_string("could not determine the home directory"),
            ConfigError::CurrentDirectory(source) => cat(to_string("could not determine the current directory: "), io_error_text(source).as_str()),
            ConfigError::RelativePkgsDirectory { path } => cat(to_string("config.pkgs_dir must be an absolute path: "), path.as_str()),
            ConfigError::RelativeBackupDirectory { path } => cat(to_string("config.backup_dir must be an absolute path: "), path.as_str()),
            ConfigError::ResolveBackupDirectory { path, source } => cat(cat(cat(to_string("could not resolve backup directory "), path.as_str()), ": "), io_error_text(source).as_str()),
            ConfigError::CreateBackupDirectory { path, source } => cat(cat(cat(to_string("could not create backup directory "), path.as_str()), ": "), io_error_text(source).as_str()),
            ConfigError::ResolvePkgsDirectory { path, source } => cat(cat(cat(to_string("could not resolve packages directory "), path.as_str()), ": "), io_error_text(source).as_str()),
            ConfigError::PkgsDirectoryNotDirectory { path } => cat(to_string("packages directory is not a directory: "), path.as_str()),
            ConfigError::CreateConfigDirectory { path, source } => cat(cat(cat(to_string("could not create config directory "), path.as_str()), ": "), io_error_text(source).as_str()),
            ConfigError::WriteConfig { path, source } => cat(cat(cat(to_string("could not write config "), path.as_str()), ": "), io_error_text(source).as_str()),
            ConfigError::ReplaceConfig { path, source } => cat(cat(cat(to_string("could not replace config "), path.as_str()), ": "), io_error_text(source).as_str()),
            ConfigError::Read { path, source } => cat(cat(cat(to_string("could not read config "), path.as_str()), ": "), io_error_text(source).as_str()),
            ConfigError::Parse { path, source } => cat(cat(cat(to_string("could not parse config "), path.as_str()), ": "), yaml_error_text(source).as_str()),
            ConfigError::Evaluate { path, source } => cat(cat(cat(to_string("could not evaluate config "), path.as_str()), ": "), source.message().as_str()),
        };
        proof {
            let head = config_message_spec(self.kind());
            assert(head =~= res@.take(head.len() as int));
        }
        res
    }
}

// ---------------------------------------------------------------------------
// Environment references.
// ---------------------------------------------------------------------------
/// The environment variables that `remaining`, a value of `variable`, refers
/// to as `${$NAME}`, added to `refs` (the first variable to name one is kept).
/// A reference without its closing brace ends the scan.
pub open spec fn environment_references(
    variable: Seq<char>,
    remaining: Seq<char>,
    refs: Map<Seq<char>, Seq<char>>,
) -> Result<Map<Seq<char>, Seq<char>>, EvalErr>
    decreases remaining.len(),
{
    match find(remaining, dollar_brace()) {
        None => Ok(refs),
        Some(start) => {
            if start < 0 || start + 2 > remaining.len() {
                Ok(refs)
            } else {
                let rest = remaining.skip(start + 2);
                match find(rest, close_brace()) {
                    None => Ok(refs),
                    Some(end) => {
                        if end < 0 || end >= rest.len() {
                            Ok(refs)
                        } else {
                            let reference = rest.take(end);
                            let next = rest.skip(end + 1);
                            if reference.len() > 0 && reference[0] == '$' {
                                let environment = reference.skip(1);
                                match environment_reference_error(variable, environment) {
                                    Some(e) => Err(e),
                                    None => environment_references(
                                        variable,
                                        next,
                                        if refs.contains_key(environment) {
                                            refs
                                        } else {
                                            refs.insert(environment, variable)
                                        },
                                    ),
                                }
                            } else {
                                environment_references(variable, next, refs)
                            }
                        }
                    },
                }
            }
        },
    }
}

/// The environment references of every entry of `pairs` from index `i` on.
pub open spec fn pairs_environment_references(
    pairs: Seq<Pair>,
    i: int,
    refs: Map<Seq<char>, Seq<char>>,
) -> Result<Map<Seq<char>, Seq<char>>, EvalErr>
    decreases pairs.len() - i,
{
    if i < 0 || i >= pairs.len() {
        Ok(refs)
    } else {
        match environment_references(pairs[i].0, pairs[i].1, refs) {
            Err(e) => Err(e),
            Ok(r) => pairs_environment_references(pairs, i + 1, r),
        }
    }
}

pub open spec fn pkgs_dir_name() -> Seq<char> {
    seq!['c', 'o', 'n', 'f', 'i', 'g', '.', 'p', 'k', 'g', 's', '_', 'd', 'i', 'r']
}

pub open spec fn backup_dir_name() -> Seq<char> {
    seq!['c', 'o', 'n', 'f', 'i', 'g', '.', 'b', 'a', 'c', 'k', 'u', 'p', '_', 'd', 'i', 'r']
}

pub open spec fn optional_references(
    name: Seq<char>,
    value: Option<Seq<char>>,
    refs: Result<Map<Seq<char>, Seq<char>>, EvalErr>,
) -> Result<Map<Seq<char>, Seq<char>>, EvalErr> {
    match refs {
        Err(e) => Err(e),
        Ok(r) => match value {
            None => Ok(r),
            Some(v) => environment_references(name, v, r),
        },
    }
}

pub open spec fn opt_view(o: Option<String>) -> Option<Seq<char>> {
    match o {
        Some(s) => Some(s@),
        None => None,
    }
}

/// The environment variables that a configuration file refers to, each with
/// the first entry that refers to it: paths, then variables, then
/// `config.pkgs_dir` and `config.backup_dir`.
pub open spec fn referenced_environment_spec(raw: &RawConfig) -> Result<
    Map<Seq<char>, Seq<char>>,
    EvalErr,
> {
    let after_paths = pairs_environment_references(raw.path.pairs(), 0, Map::empty());
    let after_variables = match after_paths {
        Err(e) => Err(e),
        Ok(r) => pairs_environment_references(raw.variables.pairs(), 0, r),
    };
    let after_pkgs = optional_references(
        pkgs_dir_name(),
        opt_view(raw.config.pkgs_dir),
        after_variables,
    );
    optional_references(backup_dir_name(), opt_view(raw.config.backup_dir), after_pkgs)
}

/// Adds to `references` the environment variables that `template`, a value
/// of `variable`, refers to.
#[verifier::loop_isolation(false)]
pub fn collect_environment_references(
    variable: &str,
    template: &str,
    references: &mut Values,
) -> (res: Result<(), EvaluationError>)
    ensures
        match res {
            Ok(()) => environment_references(variable@, template@, old(references).map()) == Ok::<
                Map<Seq<char>, Seq<char>>,
                EvalErr,
            >(final(references).map()),
            Err(e) => environment_references(variable@, template@, old(references).map()) == Err::<
                Map<Seq<char>, Seq<char>>,
                EvalErr,
            >(e@),
        },
{
    let t = chars_of(template);
    let tlen = t.len();
    let mut pos: usize = 0;
    let ghost whole = environment_references(variable@, template@, references.map());
    let open_marker: [char; 2] = ['$', '{'];
    let close_marker: [char; 1] = ['}'];
    assert(open_marker@ =~= dollar_brace());
    assert(close_marker@ =~= close_brace());
    assert(t@.skip(0) =~= t@);
    loop
        invariant
            pos <= t@.len(),
            tlen == t@.len(),
            t@ == template@,
            open_marker@ == dollar_brace(),
            close_marker@ == close_brace(),
            whole == environment_references(variable@, t@.skip(pos as int), references.map()),
        decreases t@.len() - pos,
    {
        let ghost remaining = t@.skip(pos as int);
        let found = crate::text::find_chars(t.as_slice(), &open_marker, pos);
        proof {
            crate::text::lemma_find_shift(t@, dollar_brace(), pos as int);
        }
        let start = match found {
            None => {
                return Ok(());
            },
            Some(s) => s,
        };
        proof {
            crate::text::lemma_find_from_bounds(t@, dollar_brace(), pos as int);
        }
        assert(occurs_at(t@, start as int, dollar_brace()));
        let after_open = start + 2;
        let ghost rest = remaining.skip(start - pos + 2);
        assert(rest =~= t@.skip(after_open as int));
        let found_end = crate::text::find_chars(t.as_slice(), &close_marker, after_open);
        proof {
            crate::text::lemma_find_shift(t@, close_brace(), after_open as int);
        }
        let end = match found_end {
            None => {
                return Ok(());
            },
            Some(e) => e,
        };
        proof {
            crate::text::lemma_find_from_bounds(t@, close_brace(), after_open as int);
        }
        assert(occurs_at(t@, end as int, close_brace()));
        let ghost reference = rest.take(end - after_open);
        assert(rest.skip(end - after_open + 1) =~= t@.skip(end + 1));
        if after_open < end && t[after_open] == '$' {
            let environment = string_of_range(t.as_slice(), after_open + 1, end);
            let env_chars = chars_of(environment.as_str());
            assert(env_chars@ =~= reference.skip(1));
            match validate_environment_reference(variable, env_chars.as_slice()) {
                Err(e) => {
                    return Err(e);
                },
                Ok(()) => {},
            }
            if !references.contains_key(environment.as_str()) {
                references.insert(environment, to_string(variable));
            }
        } else {
            assert(!(reference.len() > 0 && reference[0] == '$'));
        }
        pos = end + 1;
    }
}

/// The environment variables that `raw` refers to, each mapped to the first
/// entry that refers to it.
pub fn referenced_environment(raw: &RawConfig) -> (res: Result<Values, EvaluationError>)
    ensures
        match res {
            Ok(m) => referenced_environment_spec(raw) == Ok::<Map<Seq<char>, Seq<char>>, EvalErr>(
                m.map(),
            ),
            Err(e) => referenced_environment_spec(raw) == Err::<Map<Seq<char>, Seq<char>>, EvalErr>(
                e@,
            ),
        },
{
    let mut references = Values::new();
    collect_pairs_references(&raw.path, &mut references)?;
    collect_pairs_references(&raw.variables, &mut references)?;
    if let Some(path) = &raw.config.pkgs_dir {
        let name = pkgs_dir_text();
        collect_environment_references(name.as_str(), path.as_str(), &mut references)?;
    }
    if let Some(path) = &raw.config.backup_dir {
        let name = backup_dir_text();
        collect_environment_references(name.as_str(), path.as_str(), &mut references)?;
    }
    Ok(references)
}

pub fn pkgs_dir_text() -> (res: String)
    ensures
        res@ == pkgs_dir_name(),
{
    let s = to_string("config.pkgs_dir");
    proof {
        reveal_strlit("config.pkgs_dir");
    }
    assert(s@ =~= pkgs_dir_name());
    s
}

pub fn backup_dir_text() -> (res: String)
    ensures
        res@ == backup_dir_name(),
{
    let s = to_string("config.backup_dir");
    proof {
        reveal_strlit("config.backup_dir");
    }
    assert(s@ =~= backup_dir_name());
    s
}

#[verifier::loop_isolation(false)]
fn collect_pairs_references(values: &Values, references: &mut Values) -> (res: Result<
    (),
    EvaluationError,
>)
    ensures
        match res {
            Ok(()) => pairs_environment_references(values.pairs(), 0, old(references).map())
                == Ok::<Map<Seq<char>, Seq<char>>, EvalErr>(final(references).map()),
            Err(e) => pairs_environment_references(values.pairs(), 0, old(references).map())
                == Err::<Map<Seq<char>, Seq<char>>, EvalErr>(e@),
        },
{
    let ghost whole = pairs_environment_references(values.pairs(), 0, references.map());
    let mut i: usize = 0;
    while i < values.len()
        invariant
            i <= values.pairs().len(),
            whole == pairs_environment_references(values.pairs(), i as int, references.map()),
        decreases values.pairs().len() - i,
    {
        collect_environment_references(
            values.key_at(i).as_str(),
            values.value_at(i).as_str(),
            references,
        )?;
        i += 1;
    }
    Ok(())
}

/// What the snapshot gives for the environment variable `name`; a variable
/// that it does not list is not set.
pub open spec fn snapshot_lookup(env: Seq<(String, EnvLookup)>, name: Seq<char>) -> Option<
    Option<Seq<char>>,
>
    decreases env.len(),
{
    if env.len() == 0 {
        None
    } else if env[0].0@ == name {
        match env[0].1 {
            EnvLookup::Value(v) => Some(Some(v@)),
            EnvLookup::NotUnicode => Some(None),
            EnvLookup::NotPresent => None,
        }
    } else {
        snapshot_lookup(env.drop_first(), name)
    }
}

/// The values of the referenced environment variables, in name order; the
/// first that is unset or not Unicode is an error.
pub open spec fn environment_values(
    refs: Seq<Pair>,
    env: Seq<(String, EnvLookup)>,
    i: int,
    acc: Map<Seq<char>, Seq<char>>,
) -> Result<Map<Seq<char>, Seq<char>>, EvalErr>
    decreases refs.len() - i,
{
    if i < 0 || i >= refs.len() {
        Ok(acc)
    } else {
        match snapshot_lookup(env, refs[i].0) {
            None => Err(
                EvalErr::MissingEnvironmentVariable { variable: refs[i].1, environment: refs[i].0 },
            ),
            Some(None) => Err(
                EvalErr::NonUnicodeEnvironmentVariable { variable: refs[i].1, environment: refs[i].0 },
            ),
            Some(Some(v)) => environment_values(refs, env, i + 1, acc.insert(refs[i].0, v)),
        }
    }
}

#[verifier::loop_isolation(false)]
fn lookup_snapshot(env: &Vec<(String, EnvLookup)>, name: &str) -> (res: Option<Option<String>>)
    ensures
        match res {
            None => snapshot_lookup(env@, name@) is None,
            Some(None) => snapshot_lookup(env@, name@) == Some(None::<Seq<char>>),
            Some(Some(v)) => snapshot_lookup(env@, name@) == Some(Some(v@)),
        },
{
    let mut i: usize = 0;
    assert(env@.skip(0) =~= env@);
    while i < env.len()
        invariant
            i <= env@.len(),
            snapshot_lookup(env@, name@) == snapshot_lookup(env@.skip(i as int), name@),
        decreases env@.len() - i,
    {
        assert(env@.skip(i as int)[0] == env@[i as int]);
        assert(env@.skip(i as int).drop_first() =~= env@.skip(i + 1));
        if crate::text::str_equal(env[i].0.as_str(), name) {
            return match &env[i].1 {
                EnvLookup::Value(v) => Some(Some(v.clone())),
                EnvLookup::NotUnicode => Some(None),
                EnvLookup::NotPresent => None,
            };
        }
        i += 1;
    }
    None
}

/// The values of the environment variables in `references` (name to the
/// entry that refers to it).
#[verifier::loop_isolation(false)]
pub fn environment_from_snapshot(
    references: &Values,
    env: &Vec<(String, EnvLookup)>,
) -> (res: Result<Values, EvaluationError>)
    ensures
        match res {
            Ok(m) => environment_values(references.pairs(), env@, 0, Map::empty()) == Ok::<
                Map<Seq<char>, Seq<char>>,
                EvalErr,
            >(m.map()),
            Err(e) => environment_values(references.pairs(), env@, 0, Map::empty()) == Err::<
                Map<Seq<char>, Seq<char>>,
                EvalErr,
            >(e@),
        },
{
    let mut values = Values::new();
    let ghost whole = environment_values(references.pairs(), env@, 0, Map::empty());
    let mut i: usize = 0;
    while i < references.len()
        invariant
            i <= references.pairs().len(),
            whole == environment_values(references.pairs(), env@, i as int, values.map()),
        decreases references.pairs().len() - i,
    {
        let name = references.key_at(i);
        match lookup_snapshot(env, name.as_str()) {
            None => {
                return Err(
                    EvaluationError::MissingEnvironmentVariable {
                        variable: references.value_at(i).clone(),
                        environment: name.clone(),
                    },
                );
            },
            Some(None) => {
                return Err(
                    EvaluationError::NonUnicodeEnvironmentVariable {
                        variable: references.value_at(i).clone(),
                        environment: name.clone(),
                    },
                );
            },
            Some(Some(v)) => {
                values.insert(name.clone(), v);
            },
        }
        i += 1;
    }
    Ok(values)
}

} // verus!

verus! {

// ---------------------------------------------------------------------------
// Paths and variables.
// ---------------------------------------------------------------------------
pub open spec fn home_name() -> Seq<char> {
    seq!['h', 'o', 'm', 'e']
}

pub open spec fn root_name() -> Seq<char> {
    seq!['r', 'o', 'o', 't']
}

/// The first name of `pairs`, in order, that `other` also holds.
pub open spec fn first_shared(pairs: Seq<Pair>, other: Map<Seq<char>, Seq<char>>) -> Option<
    Seq<char>,
>
    decreases pairs.len(),
{
    if pairs.len() == 0 {
        None
    } else if other.contains_key(pairs[0].0) {
        Some(pairs[0].0)
    } else {
        first_shared(pairs.drop_first(), other)
    }
}

/// When no name of `pairs` is in `other`, none is.
pub proof fn lemma_first_shared_none(pairs: Seq<Pair>, other: Map<Seq<char>, Seq<char>>)
    requires
        first_shared(pairs, other) is None,
    ensures
        forall|j: int| 0 <= j < pairs.len() ==> !other.contains_key(#[trigger] pairs[j].0),
    decreases pairs.len(),
{
    if pairs.len() > 0 {
        lemma_first_shared_none(pairs.drop_first(), other);
        assert forall|j: int| 0 <= j < pairs.len() implies !other.contains_key(#[trigger] pairs[j].0) by {
            if j > 0 {
                assert(pairs[j] == pairs.drop_first()[j - 1]);
            }
        }
    }
}

/// The tables of a loaded configuration: the paths hold `home` and `root`,
/// every path is absolute, and no name is both a path and a variable.
pub open spec fn sound_tables(paths: Map<Seq<char>, Seq<char>>, variables: Map<Seq<char>, Seq<char>>) -> bool {
    &&& paths.contains_key(home_name())
    &&& paths.contains_key(root_name())
    &&& forall|n: Seq<char>| #[trigger] paths.contains_key(n) ==> is_absolute(paths[n])
    &&& forall|n: Seq<char>| #[trigger] paths.contains_key(n) ==> !variables.contains_key(n)
}

/// The first name of `pairs`, in order, whose value in `resolved` is not an
/// absolute path.
pub open spec fn first_relative(pairs: Seq<Pair>, resolved: Map<Seq<char>, Seq<char>>) -> Option<
    Seq<char>,
>
    decreases pairs.len(),
{
    if pairs.len() == 0 {
        None
    } else if !is_absolute(resolved[pairs[0].0]) {
        Some(pairs[0].0)
    } else {
        first_relative(pairs.drop_first(), resolved)
    }
}

/// The predefined paths `home` and `root`, then the configured paths.
pub open spec fn raw_paths(
    paths: Map<Seq<char>, Seq<char>>,
    home: Seq<char>,
    root: Seq<char>,
) -> Map<Seq<char>, Seq<char>> {
    map![home_name() => home, root_name() => root].union_prefer_right(paths)
}

/// Evaluates the configured paths and variables: a name may not be both a path
/// and a variable; every path must resolve to an absolute path; the result
/// is the resolved paths (with `home` and `root`) and the resolved variables.
pub open spec fn resolve_values_spec(
    paths: Map<Seq<char>, Seq<char>>,
    variables: Map<Seq<char>, Seq<char>>,
    home: Seq<char>,
    root: Seq<char>,
    env: Map<Seq<char>, Seq<char>>,
) -> Result<(Map<Seq<char>, Seq<char>>, Map<Seq<char>, Seq<char>>), EvalErr> {
    match first_shared(ordered_pairs(paths), variables) {
        Some(name) => Err(EvalErr::DuplicateName { name }),
        None => {
            let rp = raw_paths(paths, home, root);
            match first_shared(ordered_pairs(variables), rp) {
                Some(name) => Err(EvalErr::DuplicateName { name }),
                None => {
                    let raw = rp.union_prefer_right(variables);
                    match resolve_all_spec(ordered_pairs(raw), env) {
                        Err(e) => Err(e),
                        Ok(resolved) => match first_relative(ordered_pairs(rp), resolved) {
                            Some(name) => Err(
                                EvalErr::RelativePath { name, value: resolved[name] },
                            ),
                            None => Ok(
                                (
                                    resolved.restrict(rp.dom()),
                                    resolved.restrict(variables.dom()),
                                ),
                            ),
                        },
                    }
                },
            }
        },
    }
}

/// The first name of `names` that `other` also holds.
fn find_shared(names: &Values, other: &Values) -> (res: Option<String>)
    ensures
        match res {
            Some(n) => first_shared(names.pairs(), other.map()) == Some(n@),
            None => first_shared(names.pairs(), other.map()) is None,
        },
{
    let mut i: usize = 0;
    assert(names.pairs().skip(0) =~= names.pairs());
    while i < names.len()
        invariant
            i <= names.pairs().len(),
            first_shared(names.pairs(), other.map()) == first_shared(
                names.pairs().skip(i as int),
                other.map(),
            ),
        decreases names.pairs().len() - i,
    {
        assert(names.pairs().skip(i as int)[0] == names.pairs()[i as int]);
        assert(names.pairs().skip(i as int).drop_first() =~= names.pairs().skip(i + 1));
        let name = names.key_at(i);
        if other.contains_key(name.as_str()) {
            return Some(name.clone());
        }
        i += 1;
    }
    None
}

/// Resolves the configured paths and variables.
#[verifier::loop_isolation(false)]
pub fn resolve_values(
    configured_paths: &Values,
    configured_variables: &Values,
    context: &EvaluationContext,
) -> (res: Result<(Values, Values), EvaluationError>)
    ensures
        match res {
            Ok((p, v)) => resolve_values_spec(
                configured_paths.map(),
                configured_variables.map(),
                context.home@,
                context.root@,
                context.environment.map(),
            ) == Ok::<(Map<Seq<char>, Seq<char>>, Map<Seq<char>, Seq<char>>), EvalErr>(
                (p.map(), v.map()),
            ),
            Err(e) => resolve_values_spec(
                configured_paths.map(),
                configured_variables.map(),
                context.home@,
                context.root@,
                context.environment.map(),
            ) == Err::<(Map<Seq<char>, Seq<char>>, Map<Seq<char>, Seq<char>>), EvalErr>(e@),
        },
        res matches Ok((p, v)) ==> p.map().dom() == raw_paths(
            configured_paths.map(),
            context.home@,
            context.root@,
        ).dom() && v.map().dom() == configured_variables.map().dom() && forall|n: Seq<char>|
            #[trigger] p.map().contains_key(n) ==> is_absolute(p.map()[n]),
        res matches Ok((p, v)) ==> sound_tables(p.map(), v.map()),
{
    proof {
        use_type_invariant(configured_paths);
        use_type_invariant(configured_variables);
        configured_paths.lemma_canonical();
        configured_variables.lemma_canonical();
    }
    if let Some(name) = find_shared(configured_paths, configured_variables) {
        return Err(EvaluationError::DuplicateName { name });
    }
    let mut raw_paths_values = Values::new();
    raw_paths_values.insert(to_string("home"), context.home.clone());
    raw_paths_values.insert(to_string("root"), context.root.clone());
    proof {
        reveal_strlit("home");
        reveal_strlit("root");
        assert("home"@ =~= home_name());
        assert("root"@ =~= root_name());
    }
    raw_paths_values.extend(configured_paths);
    let ghost rp = raw_paths(configured_paths.map(), context.home@, context.root@);
    assert(raw_paths_values.map() =~= rp);
    if let Some(name) = find_shared(configured_variables, &raw_paths_values) {
        return Err(EvaluationError::DuplicateName { name });
    }
    proof {
        lemma_first_shared_none(configured_variables.pairs(), raw_paths_values.map());
    }
    let mut raw = raw_paths_values.copy();
    raw.extend(configured_variables);
    proof {
        use_type_invariant(&raw);
        raw.lemma_canonical();
        use_type_invariant(&raw_paths_values);
        raw_paths_values.lemma_canonical();
    }
    let resolver = VariableResolver::new(&raw, &context.environment);
    let resolved = resolver.resolve_all()?;
    proof {
        crate::resolve::lemma_resolve_from_complete(raw.pairs(), context.environment.map(), Map::empty(), 0);
        use_type_invariant(&resolved);
    }
    let ghost all = resolved.map();
    let mut paths = Values::new();
    let mut i: usize = 0;
    assert(raw_paths_values.pairs().skip(0) =~= raw_paths_values.pairs());
    while i < raw_paths_values.len()
        invariant
            i <= raw_paths_values.pairs().len(),
            resolved.map() == all,
            first_relative(ordered_pairs(rp), all) == first_relative(
                raw_paths_values.pairs().skip(i as int),
                all,
            ),
            paths.map() == all.restrict(
                Set::new(|k: Seq<char>| exists|j: int| 0 <= j < i && #[trigger] raw_paths_values.pairs()[j].0 == k),
            ),
            forall|n: Seq<char>| #[trigger] paths.map().contains_key(n) ==> is_absolute(paths.map()[n]),
        decreases raw_paths_values.pairs().len() - i,
    {
        let name = raw_paths_values.key_at(i);
        proof {
            raw_paths_values.lemma_entry(i as int);
            assert(raw.map().contains_key(name@));
            raw.lemma_key(name@);
            let j = choose|j: int| 0 <= j < raw.pairs().len() && #[trigger] raw.pairs()[j].0 == name@;
            assert(all.contains_key(raw.pairs()[j].0));
            assert(raw_paths_values.pairs().skip(i as int)[0] == raw_paths_values.pairs()[i as int]);
            assert(raw_paths_values.pairs().skip(i as int).drop_first() =~= raw_paths_values.pairs().skip(i + 1));
        }
        let value = match resolved.get(name.as_str()) {
            Some(v) => v.clone(),
            None => {
                return Err(EvaluationError::UnknownVariable { variable: name.clone() });
            },
        };
        if !path_is_absolute(value.as_str()) {
            return Err(EvaluationError::RelativePath { name: name.clone(), value });
        }
        paths.insert(name.clone(), value);
        proof {
            assert(paths.map() =~= all.restrict(
                Set::new(|k: Seq<char>| exists|j: int| 0 <= j < i + 1 && #[trigger] raw_paths_values.pairs()[j].0 == k),
            ));
        }
        i += 1;
    }
    proof {
        assert forall|k: Seq<char>| (exists|j: int| 0 <= j < i && #[trigger] raw_paths_values.pairs()[j].0 == k) <==> rp.contains_key(k) by {
            raw_paths_values.lemma_key(k);
        }
        assert(paths.map() =~= all.restrict(rp.dom()));
        assert forall|k: Seq<char>| rp.contains_key(k) implies all.contains_key(k) by {
            assert(raw.map().contains_key(k));
            raw.lemma_key(k);
            let j = choose|j: int| 0 <= j < raw.pairs().len() && #[trigger] raw.pairs()[j].0 == k;
            assert(all.contains_key(raw.pairs()[j].0));
        }
        assert(paths.map().dom() =~= rp.dom());
    }
    let mut variables = Values::new();
    let mut i: usize = 0;
    while i < configured_variables.len()
        invariant
            i <= configured_variables.pairs().len(),
            resolved.map() == all,
            variables.map() == all.restrict(
                Set::new(|k: Seq<char>| exists|j: int| 0 <= j < i && #[trigger] configured_variables.pairs()[j].0 == k),
            ),
        decreases configured_variables.pairs().len() - i,
    {
        let name = configured_variables.key_at(i);
        proof {
            configured_variables.lemma_entry(i as int);
            assert(raw.map().contains_key(name@));
            raw.lemma_key(name@);
            let j = choose|j: int| 0 <= j < raw.pairs().len() && #[trigger] raw.pairs()[j].0 == name@;
            assert(all.contains_key(raw.pairs()[j].0));
        }
        let value = match resolved.get(name.as_str()) {
            Some(v) => v.clone(),
            None => {
                return Err(EvaluationError::UnknownVariable { variable: name.clone() });
            },
        };
        variables.insert(name.clone(), value);
        proof {
            assert(variables.map() =~= all.restrict(
                Set::new(|k: Seq<char>| exists|j: int| 0 <= j < i + 1 && #[trigger] configured_variables.pairs()[j].0 == k),
            ));
        }
        i += 1;
    }
    proof {
        assert forall|k: Seq<char>| (exists|j: int| 0 <= j < i && #[trigger] configured_variables.pairs()[j].0 == k) <==> configured_variables.map().contains_key(k) by {
            configured_variables.lemma_key(k);
        }
        assert(variables.map() =~= all.restrict(configured_variables.map().dom()));
        assert forall|k: Seq<char>| configured_variables.map().contains_key(k) implies all.contains_key(k) by {
            assert(raw.map().contains_key(k));
            raw.lemma_key(k);
            let j = choose|j: int| 0 <= j < raw.pairs().len() && #[trigger] raw.pairs()[j].0 == k;
            assert(all.contains_key(raw.pairs()[j].0));
        }
        assert(variables.map().dom() =~= configured_variables.map().dom());
        assert forall|n: Seq<char>| #[trigger] paths.map().contains_key(n) implies !variables.map().contains_key(n) by {
            if variables.map().contains_key(n) {
                configured_variables.lemma_key(n);
                let j = choose|j: int|
                    0 <= j < configured_variables.pairs().len() && #[trigger] configured_variables.pairs()[j].0 == n;
                assert(!raw_paths_values.map().contains_key(configured_variables.pairs()[j].0));
            }
        }
        assert(rp.contains_key(home_name()));
        assert(rp.contains_key(root_name()));
    }
    Ok((paths, variables))
}

} // verus!

verus! {

// ---------------------------------------------------------------------------
// Runtime settings.
// ---------------------------------------------------------------------------
/// Which runtime directory a configured path is.
#[derive(Debug, Clone, Copy, PartialEq, Eq, Structural)]
pub enum RuntimeDirectory {
    Packages,
    Backup,
}

/// Why a configured runtime path could not be evaluated.
#[derive(Debug)]
pub enum RuntimePathError {
    Evaluate(EvaluationError),
}

pub open spec fn runtime_name(which: RuntimeDirectory) -> Seq<char> {
    match which {
        RuntimeDirectory::Packages => pkgs_dir_name(),
        RuntimeDirectory::Backup => backup_dir_name(),
    }
}

/// A configured runtime path: its references replaced by the paths and
/// variables (`values`) and environment variables, as written otherwise.
/// Evaluation errors are reported against the configuration file.
pub open spec fn configured_path_spec(
    which: RuntimeDirectory,
    configured: Option<Seq<char>>,
    values: Map<Seq<char>, Seq<char>>,
    env: Map<Seq<char>, Seq<char>>,
    config_path: Seq<char>,
) -> Result<Option<Seq<char>>, ConfigErr> {
    match configured {
        None => Ok(None),
        Some(p) => match interpolate_spec(ordered_pairs(values), env, runtime_name(which), p) {
            Err(e) => Err(ConfigErr::Evaluate { path: config_path, source: e }),
            Ok(v) => Ok(Some(v)),
        },
    }
}

pub open spec fn runtime_error_kind(e: RuntimePathError, config_path: Seq<char>) -> ConfigErr {
    match e {
        RuntimePathError::Evaluate(s) => ConfigErr::Evaluate { path: config_path, source: s@ },
    }
}

/// The value of `path`, named `name`, with its references replaced.
pub fn resolve_runtime_path(name: &str, path: &str, values: &Values, environment: &Values) -> (res:
    Result<String, RuntimePathError>)
    ensures
        match res {
            Ok(v) => interpolate_spec(ordered_pairs(values.map()), environment.map(), name@, path@)
                == Ok::<Seq<char>, EvalErr>(v@),
            Err(RuntimePathError::Evaluate(e)) => interpolate_spec(
                ordered_pairs(values.map()),
                environment.map(),
                name@,
                path@,
            ) == Err::<Seq<char>, EvalErr>(e@),
        },
{
    proof {
        use_type_invariant(values);
        values.lemma_canonical();
    }
    let mut resolver = VariableResolver::new(values, environment);
    match resolver.interpolate(name, path) {
        Ok(v) => Ok(v),
        Err(e) => Err(RuntimePathError::Evaluate(e)),
    }
}

/// A configured runtime path, with its references replaced.
pub fn resolve_configured_path(
    which: RuntimeDirectory,
    configured: Option<&String>,
    values: &Values,
    environment: &Values,
) -> (res: Result<Option<String>, RuntimePathError>)
    ensures
        match configured {
            None => res is Ok && res->Ok_0 is None,
            Some(p) => match interpolate_spec(
                ordered_pairs(values.map()),
                environment.map(),
                runtime_name(which),
                p@,
            ) {
                Err(e) => res matches Err(RuntimePathError::Evaluate(x)) && x@ == e,
                Ok(v) => res matches Ok(Some(x)) && x@ == v,
            },
        },
{
    let path = match configured {
        None => {
            return Ok(None);
        },
        Some(p) => p,
    };
    let name = match which {
        RuntimeDirectory::Packages => pkgs_dir_text(),
        RuntimeDirectory::Backup => backup_dir_text(),
    };
    let resolved = resolve_runtime_path(name.as_str(), path.as_str(), values, environment)?;
    Ok(Some(resolved))
}

/// The configuration error for a refused runtime path.
pub fn map_runtime_path_error(error: RuntimePathError, config_path: &str) -> (res: ConfigError)
    ensures
        res.kind() == runtime_error_kind(error, config_path@),
{
    match error {
        RuntimePathError::Evaluate(source) => ConfigError::Evaluate {
            path: to_string(config_path),
            source,
        },
    }
}

/// The runtime settings that the file states, evaluated; `config.pkgs_dir` is
/// only evaluated when `resolve_pkgs_dir` holds.
pub open spec fn configured_runtime_spec(
    pkgs_dir: Option<Seq<char>>,
    backup_dir: Option<Seq<char>>,
    values: Map<Seq<char>, Seq<char>>,
    env: Map<Seq<char>, Seq<char>>,
    config_path: Seq<char>,
    resolve_pkgs_dir: bool,
) -> Result<(Option<Seq<char>>, Option<Seq<char>>), ConfigErr> {
    let pkgs = if resolve_pkgs_dir {
        configured_path_spec(RuntimeDirectory::Packages, pkgs_dir, values, env, config_path)
    } else {
        Ok(None)
    };
    match pkgs {
        Err(e) => Err(e),
        Ok(p) => match configured_path_spec(
            RuntimeDirectory::Backup,
            backup_dir,
            values,
            env,
            config_path,
        ) {
            Err(e) => Err(e),
            Ok(b) => Ok((p, b)),
        },
    }
}

pub open spec fn opt_ref_view(o: Option<&String>) -> Option<Seq<char>> {
    match o {
        Some(s) => Some(s@),
        None => None,
    }
}

fn configured_path_checked(
    which: RuntimeDirectory,
    configured: Option<&String>,
    values: &Values,
    environment: &Values,
    config_path: &str,
) -> (res: Result<Option<String>, ConfigError>)
    ensures
        match res {
            Ok(v) => configured_path_spec(which, opt_ref_view(configured), values.map(), environment.map(), config_path@)
                == Ok::<Option<Seq<char>>, ConfigErr>(opt_view(v)),
            Err(e) => configured_path_spec(which, opt_ref_view(configured), values.map(), environment.map(), config_path@)
                == Err::<Option<Seq<char>>, ConfigErr>(e.kind()),
        },
{
    match resolve_configured_path(which, configured, values, environment) {
        Ok(v) => Ok(v),
        Err(e) => Err(map_runtime_path_error(e, config_path)),
    }
}

/// Evaluates the `config` section of the file.
pub fn resolve_configured_runtime(
    configured: &RawRuntimeConfig,
    values: &Values,
    environment: &Values,
    config_path: &str,
    resolve_pkgs_dir: bool,
) -> (res: Result<ConfiguredRuntimeConfig, ConfigError>)
    ensures
        match res {
            Ok(c) => configured_runtime_spec(
                opt_view(configured.pkgs_dir),
                opt_view(configured.backup_dir),
                values.map(),
                environment.map(),
                config_path@,
                resolve_pkgs_dir,
            ) == Ok::<(Option<Seq<char>>, Option<Seq<char>>), ConfigErr>(
                (opt_view(c.pkgs_dir), opt_view(c.backup_dir)),
            ),
            Err(e) => configured_runtime_spec(
                opt_view(configured.pkgs_dir),
                opt_view(configured.backup_dir),
                values.map(),
                environment.map(),
                config_path@,
                resolve_pkgs_dir,
            ) == Err::<(Option<Seq<char>>, Option<Seq<char>>), ConfigErr>(e.kind()),
        },
{
    let pkgs_dir = if resolve_pkgs_dir {
        configured_path_checked(
            RuntimeDirectory::Packages,
            configured.pkgs_dir.as_ref(),
            values,
            environment,
            config_path,
        )?
    } else {
        None
    };
    let backup_dir = configured_path_checked(
        RuntimeDirectory::Backup,
        configured.backup_dir.as_ref(),
        values,
        environment,
        config_path,
    )?;
    Ok(ConfiguredRuntimeConfig { pkgs_dir, backup_dir })
}

// ---------------------------------------------------------------------------
// The process: home, current directory, configuration file location.
// ---------------------------------------------------------------------------
pub open spec fn nonempty(o: Option<String>) -> Option<Seq<char>> {
    match o {
        Some(s) => if s@.len() > 0 {
            Some(s@)
        } else {
            None
        },
        None => None,
    }
}

/// The home directory: `HOME` when it is set and not empty.
pub fn home_directory(home: &Option<String>) -> (res: Result<String, ConfigError>)
    ensures
        match nonempty(*home) {
            Some(h) => res matches Ok(x) && x@ == h,
            None => res matches Err(e) && e.kind() == ConfigErr::HomeNotFound,
        },
{
    match home {
        Some(h) => {
            if chars_of(h.as_str()).len() > 0 {
                Ok(h.clone())
            } else {
                Err(ConfigError::HomeNotFound)
            }
        },
        None => Err(ConfigError::HomeNotFound),
    }
}

pub open spec fn dtm_name() -> Seq<char> {
    seq!['d', 't', 'm']
}

pub open spec fn config_file_name() -> Seq<char> {
    seq!['c', 'o', 'n', 'f', 'i', 'g', '.', 'y', 'a', 'm', 'l']
}

pub open spec fn dot_config_name() -> Seq<char> {
    seq!['.', 'c', 'o', 'n', 'f', 'i', 'g']
}

/// The configuration file under the configuration directory `config_home`:
/// `config_home/dtm/config.yaml`.
pub open spec fn config_path_spec(config_home: Seq<char>) -> Seq<char> {
    join(join(config_home, dtm_name()), config_file_name())
}

/// `config_home/dtm/config.yaml`.
pub fn config_path(config_home: &str) -> (res: String)
    ensures
        res@ == config_path_spec(config_home@),
{
    proof {
        reveal_strlit("dtm");
        reveal_strlit("config.yaml");
        assert("dtm"@ =~= dtm_name());
        assert("config.yaml"@ =~= config_file_name());
    }
    let directory = path_join(config_home, "dtm");
    path_join(directory.as_str(), "config.yaml")
}

/// The default configuration file: under `XDG_CONFIG_HOME` when it is set and
/// not empty, else under `HOME/.config`.
pub open spec fn default_config_path_spec(
    xdg_config_home: Option<String>,
    home: Option<String>,
) -> Option<Seq<char>> {
    match nonempty(xdg_config_home) {
        Some(x) => Some(config_path_spec(x)),
        None => match nonempty(home) {
            Some(h) => Some(config_path_spec(join(h, dot_config_name()))),
            None => None,
        },
    }
}

/// The default configuration file, from `XDG_CONFIG_HOME` and `HOME`.
pub fn default_config_path(system: &SystemSnapshot) -> (res: Result<String, ConfigError>)
    ensures
        match default_config_path_spec(system.xdg_config_home, system.home) {
            Some(p) => res matches Ok(x) && x@ == p,
            None => res matches Err(e) && e.kind() == ConfigErr::HomeNotFound,
        },
{
    if let Some(x) = &system.xdg_config_home {
        if chars_of(x.as_str()).len() > 0 {
            return Ok(config_path(x.as_str()));
        }
    }
    let home = home_directory(&system.home)?;
    proof {
        reveal_strlit(".config");
        assert(".config"@ =~= dot_config_name());
    }
    let config_home = path_join(home.as_str(), ".config");
    Ok(config_path(config_home.as_str()))
}

/// The configuration file to read: `path`, or the default one.
pub fn config_file_path(path: Option<&str>, system: &SystemSnapshot) -> (res: Result<
    String,
    ConfigError,
>)
    ensures
        match path {
            Some(p) => res matches Ok(x) && x@ == p@,
            None => match default_config_path_spec(system.xdg_config_home, system.home) {
                Some(p) => res matches Ok(x) && x@ == p,
                None => res matches Err(e) && e.kind() == ConfigErr::HomeNotFound,
            },
        },
{
    match path {
        Some(p) => Ok(to_string(p)),
        None => default_config_path(system),
    }
}

// ---------------------------------------------------------------------------
// Evaluating a configuration file.
// ---------------------------------------------------------------------------
/// The environment variables that `raw` refers to, read from `env`: each
/// must be set and Unicode.
pub open spec fn load_referenced_environment_spec(
    raw: &RawConfig,
    env: Seq<(String, EnvLookup)>,
) -> Result<Map<Seq<char>, Seq<char>>, EvalErr> {
    match referenced_environment_spec(raw) {
        Err(e) => Err(e),
        Ok(refs) => environment_values(ordered_pairs(refs), env, 0, Map::empty()),
    }
}

/// Reads the environment variables that `raw` refers to.
pub fn load_referenced_environment(raw: &RawConfig, env: &Vec<(String, EnvLookup)>) -> (res:
    Result<Values, EvaluationError>)
    ensures
        match res {
            Ok(m) => load_referenced_environment_spec(raw, env@) == Ok::<
                Map<Seq<char>, Seq<char>>,
                EvalErr,
            >(m.map()),
            Err(e) => load_referenced_environment_spec(raw, env@) == Err::<
                Map<Seq<char>, Seq<char>>,
                EvalErr,
            >(e@),
        },
{
    let references = referenced_environment(raw)?;
    proof {
        use_type_invariant(&references);
        references.lemma_canonical();
    }
    environment_from_snapshot(&references, env)
}

pub open spec fn root_path() -> Seq<char> {
    seq!['/']
}

/// The current directory, when it could be read.
pub open spec fn dir_view(d: Result<String, std::io::Error>) -> Option<Seq<char>> {
    match d {
        Ok(s) => Some(s@),
        Err(_) => None,
    }
}

impl EvaluationContext {
    /// The context of an evaluation: the home directory (`HOME`), the root
    /// `/`, the current directory and the referenced environment variables.
    pub fn from_environment(
        environment: Values,
        home: &Option<String>,
        current_dir: Result<String, std::io::Error>,
    ) -> (res: Result<Self, ConfigError>)
        ensures
            match nonempty(*home) {
                None => res matches Err(e) && e.kind() == ConfigErr::HomeNotFound,
                Some(h) => match dir_view(current_dir) {
                    None => res matches Err(e) && e.kind() == ConfigErr::CurrentDirectory,
                    Some(c) => res matches Ok(x) && x.home@ == h && x.root@ == root_path()
                        && x.current_dir@ == c && x.environment.map() == environment.map(),
                },
            },
    {
        let home = home_directory(home)?;
        let current_dir = match current_dir {
            Ok(d) => d,
            Err(e) => {
                return Err(ConfigError::CurrentDirectory(e));
            },
        };
        proof {
            reveal_strlit("/");
            assert("/"@ =~= root_path());
        }
        Ok(EvaluationContext { home, root: to_string("/"), current_dir, environment })
    }
}

/// The packages directory: the command-line override, made absolute against
/// the current directory; else the configured one, which must be absolute;
/// else the current directory.
pub open spec fn pkgs_dir_spec(
    configured: Option<Seq<char>>,
    current_dir: Seq<char>,
    override_path: Option<Seq<char>>,
) -> Result<Seq<char>, ConfigErr> {
    match override_path {
        Some(p) => Ok(
            if is_absolute(p) {
                p
            } else {
                join(current_dir, p)
            },
        ),
        None => match configured {
            Some(c) => if is_absolute(c) {
                Ok(c)
            } else {
                Err(ConfigErr::RelativePkgsDirectory { path: c })
            },
            None => Ok(current_dir),
        },
    }
}

/// The packages directory is absolute whenever the current directory is.
pub proof fn lemma_pkgs_dir_absolute(
    configured: Option<Seq<char>>,
    current_dir: Seq<char>,
    override_path: Option<Seq<char>>,
)
    requires
        is_absolute(current_dir),
        pkgs_dir_spec(configured, current_dir, override_path) is Ok,
    ensures
        is_absolute(pkgs_dir_spec(configured, current_dir, override_path)->Ok_0),
{
    if let Some(p) = override_path {
        if !is_absolute(p) {
            let j = join(current_dir, p);
            if current_dir.last() == '/' {
                assert(j == current_dir + p);
            } else {
                assert(j == current_dir + seq!['/'] + p);
            }
            assert(j[0] == current_dir[0]);
        }
    }
}

/// The backup directory to use: a configured one must be absolute.
pub open spec fn backup_dir_spec(configured: Option<Seq<char>>) -> Result<Option<Seq<char>>, ConfigErr> {
    match configured {
        Some(c) => if is_absolute(c) {
            Ok(Some(c))
        } else {
            Err(ConfigErr::RelativeBackupDirectory { path: c })
        },
        None => Ok(None),
    }
}

/// Decides the backup directory: a configured one must be absolute.
pub fn resolve_backup_dir(configured: Option<&str>) -> (res: Result<Option<String>, ConfigError>)
    ensures
        match backup_dir_spec(opt_str_view(configured)) {
            Ok(b) => res matches Ok(x) && opt_view(x) == b,
            Err(e) => res matches Err(x) && x.kind() == e,
        },
{
    match configured {
        None => Ok(None),
        Some(c) => if path_is_absolute(c) {
            Ok(Some(to_string(c)))
        } else {
            Err(ConfigError::RelativeBackupDirectory { path: to_string(c) })
        },
    }
}

pub open spec fn opt_str_view(o: Option<&str>) -> Option<Seq<char>> {
    match o {
        Some(s) => Some(s@),
        None => None,
    }
}

/// Decides the packages directory.
pub fn resolve_pkgs_dir(
    configured: Option<&str>,
    context: &EvaluationContext,
    override_path: Option<&str>,
) -> (res: Result<String, ConfigError>)
    ensures
        match pkgs_dir_spec(opt_str_view(configured), context.current_dir@, opt_str_view(override_path)) {
            Ok(p) => res matches Ok(x) && x@ == p,
            Err(e) => res matches Err(x) && x.kind() == e,
        },
{
    if let Some(path) = override_path {
        return Ok(
            if path_is_absolute(path) {
                to_string(path)
            } else {
                path_join(context.current_dir.as_str(), path)
            },
        );
    }
    match configured {
        Some(c) => {
            if path_is_absolute(c) {
                Ok(to_string(c))
            } else {
                Err(ConfigError::RelativePkgsDirectory { path: to_string(c) })
            }
        },
        None => Ok(context.current_dir.clone()),
    }
}

/// What evaluating a configuration file gives.
pub struct EvaluatedFile {
    pub pkgs_dir: Option<Seq<char>>,
    pub backup_dir: Option<Seq<char>>,
    pub paths: Map<Seq<char>, Seq<char>>,
    pub variables: Map<Seq<char>, Seq<char>>,
    pub current_dir: Seq<char>,
}

/// Evaluates the configuration file `raw`, found at `config_path`: the
/// referenced environment variables are read, then the home and current
/// directories, then the paths and variables are resolved, then the runtime
/// settings (`config.pkgs_dir` only when `resolve_pkgs_dir` holds).
pub open spec fn evaluate_spec(
    raw: &RawConfig,
    home: Option<String>,
    current_dir: Option<Seq<char>>,
    env: Seq<(String, EnvLookup)>,
    config_path: Seq<char>,
    resolve_pkgs_dir: bool,
) -> Result<EvaluatedFile, ConfigErr> {
    match load_referenced_environment_spec(raw, env) {
        Err(e) => Err(ConfigErr::Evaluate { path: config_path, source: e }),
        Ok(environment) => match nonempty(home) {
            None => Err(ConfigErr::HomeNotFound),
            Some(h) => match current_dir {
                None => Err(ConfigErr::CurrentDirectory),
                Some(cwd) => match resolve_values_spec(
                    raw.path.map(),
                    raw.variables.map(),
                    h,
                    root_path(),
                    environment,
                ) {
                    Err(e) => Err(ConfigErr::Evaluate { path: config_path, source: e }),
                    Ok((p, v)) => match configured_runtime_spec(
                        opt_view(raw.config.pkgs_dir),
                        opt_view(raw.config.backup_dir),
                        p.union_prefer_right(v),
                        environment,
                        config_path,
                        resolve_pkgs_dir,
                    ) {
                        Err(e) => Err(e),
                        Ok((pk, bk)) => Ok(
                            EvaluatedFile {
                                pkgs_dir: pk,
                                backup_dir: bk,
                                paths: p,
                                variables: v,
                                current_dir: cwd,
                            },
                        ),
                    },
                },
            },
        },
    }
}

/// An evaluated configuration file, with its evaluation context.
pub struct ResolvedConfigFile {
    pub config: ConfiguredRuntimeConfig,
    pub paths: Values,
    pub variables: Values,
    pub context: EvaluationContext,
}

pub open spec fn resolved_matches(r: &ResolvedConfigFile, ev: EvaluatedFile) -> bool {
    &&& opt_view(r.config.pkgs_dir) == ev.pkgs_dir
    &&& opt_view(r.config.backup_dir) == ev.backup_dir
    &&& r.paths.map() == ev.paths
    &&& r.variables.map() == ev.variables
    &&& r.context.current_dir@ == ev.current_dir
}

/// Evaluates the configuration file `raw`, found at `path`, against what
/// `system` read from the process.
pub fn resolve_config_file(
    path: &str,
    raw: &RawConfig,
    system: SystemSnapshot,
    resolve_pkgs_dir: bool,
) -> (res: Result<ResolvedConfigFile, ConfigError>)
    ensures
        match evaluate_spec(
            raw,
            system.home,
            dir_view(system.current_dir),
            system.environment@,
            path@,
            resolve_pkgs_dir,
        ) {
            Err(e) => res matches Err(x) && x.kind() == e,
            Ok(ev) => res matches Ok(r) && resolved_matches(&r, ev),
        },
        res matches Ok(r) ==> sound_tables(r.paths.map(), r.variables.map()),
{
    let environment = match load_referenced_environment(raw, &system.environment) {
        Ok(e) => e,
        Err(source) => {
            return Err(ConfigError::Evaluate { path: to_string(path), source });
        },
    };
    let context = EvaluationContext::from_environment(environment, &system.home, system.current_dir)?;
    let (paths, variables) = match resolve_values(&raw.path, &raw.variables, &context) {
        Ok(r) => r,
        Err(source) => {
            return Err(ConfigError::Evaluate { path: to_string(path), source });
        },
    };
    let mut values = paths.copy();
    values.extend(&variables);
    let config = resolve_configured_runtime(
        &raw.config,
        &values,
        &context.environment,
        path,
        resolve_pkgs_dir,
    )?;
    Ok(ResolvedConfigFile { config, paths, variables, context })
}

/// What a successful load gives, as characters.
pub struct LoadedConfig {
    pub pkgs_dir: Seq<char>,
    pub backup_dir: Option<Seq<char>>,
    pub paths: Map<Seq<char>, Seq<char>>,
    pub variables: Map<Seq<char>, Seq<char>>,
}

/// Loads the configuration file `raw`, found at `config_path`; the packages
/// directory comes from `override_path` when it is given.
pub open spec fn from_path_spec(
    raw: &RawConfig,
    system: &SystemSnapshot,
    config_path: Seq<char>,
    override_path: Option<Seq<char>>,
) -> Result<LoadedConfig, ConfigErr> {
    match evaluate_spec(
        raw,
        system.home,
        dir_view(system.current_dir),
        system.environment@,
        config_path,
        override_path is None,
    ) {
        Err(e) => Err(e),
        Ok(ev) => match pkgs_dir_spec(ev.pkgs_dir, ev.current_dir, override_path) {
            Err(e) => Err(e),
            Ok(p) => match backup_dir_spec(ev.backup_dir) {
                Err(e) => Err(e),
                Ok(b) => Ok(LoadedConfig { pkgs_dir: p, backup_dir: b, paths: ev.paths, variables: ev.variables }),
            },
        },
    }
}

/// A load's outcome, as characters.
pub open spec fn loaded_view(res: &Result<Config, ConfigError>) -> Result<LoadedConfig, ConfigErr> {
    match res {
        Ok(c) => Ok(
            LoadedConfig {
                pkgs_dir: c.config.pkgs_dir@,
                backup_dir: opt_view(c.config.backup_dir),
                paths: c.paths.map(),
                variables: c.variables.map(),
            },
        ),
        Err(e) => Err(e.kind()),
    }
}

/// The configuration file that `path` names, or the default one.
pub open spec fn config_file_spec(path: Option<Seq<char>>, system: &SystemSnapshot) -> Option<
    Seq<char>,
> {
    match path {
        Some(p) => Some(p),
        None => default_config_path_spec(system.xdg_config_home, system.home),
    }
}

impl Config {
    /// Every path and variable by name, the variables taking precedence.
    pub fn template_values(&self) -> (res: Values)
        ensures
            res.map() == self.paths.map().union_prefer_right(self.variables.map()),
    {
        let mut values = self.paths.copy();
        values.extend(&self.variables);
        values
    }

    /// Loads the configuration file `path` (or the default file when it is
    /// `None`), whose contents are `raw`.
    pub fn load(
        path: Option<&str>,
        raw: &RawConfig,
        system: SystemSnapshot,
        pkgs_dir_override: Option<&str>,
    ) -> (res: Result<Self, ConfigError>)
        ensures
            match config_file_spec(opt_str_view(path), &system) {
                None => res matches Err(e) && e.kind() == ConfigErr::HomeNotFound,
                Some(p) => loaded_view(&res) == from_path_spec(
                    raw,
                    &system,
                    p,
                    opt_str_view(pkgs_dir_override),
                ),
            },
            res matches Ok(c) ==> sound_tables(c.paths.map(), c.variables.map()) && (c.config.backup_dir matches Some(
                b,
            ) ==> is_absolute(b@)) && (dir_view(system.current_dir) matches Some(d) && is_absolute(d)
                ==> is_absolute(c.config.pkgs_dir@)),
    {
        let path = config_file_path(path, &system)?;
        Self::from_path(path.as_str(), raw, system, pkgs_dir_override)
    }

    /// Loads the configuration file at `path`, whose contents are `raw`.
    pub fn from_path(
        path: &str,
        raw: &RawConfig,
        system: SystemSnapshot,
        pkgs_dir_override: Option<&str>,
    ) -> (res: Result<Self, ConfigError>)
        ensures
            loaded_view(&res) == from_path_spec(raw, &system, path@, opt_str_view(pkgs_dir_override)),
            res matches Ok(c) ==> sound_tables(c.paths.map(), c.variables.map()) && (c.config.backup_dir matches Some(
                b,
            ) ==> is_absolute(b@)) && (dir_view(system.current_dir) matches Some(d) && is_absolute(d)
                ==> is_absolute(c.config.pkgs_dir@)),
    {
        let resolved = resolve_config_file(path, raw, system, pkgs_dir_override.is_none())?;
        let pkgs_dir = resolve_pkgs_dir(
            match &resolved.config.pkgs_dir {
                Some(p) => Some(p.as_str()),
                None => None,
            },
            &resolved.context,
            pkgs_dir_override,
        )?;
        proof {
            if dir_view(system.current_dir) matches Some(d) && is_absolute(d) {
                lemma_pkgs_dir_absolute(
                    opt_view(resolved.config.pkgs_dir),
                    resolved.context.current_dir@,
                    opt_str_view(pkgs_dir_override),
                );
            }
        }
        let backup_dir = resolve_backup_dir(
            match &resolved.config.backup_dir {
                Some(b) => Some(b.as_str()),
                None => None,
            },
        )?;
        let ResolvedConfigFile { config: _, paths, variables, context: _ } = resolved;
        Ok(Config { config: RuntimeConfig { pkgs_dir, backup_dir }, paths, variables })
    }
}

/// The runtime settings that the configuration file `path` (or the default
/// file) states, with their references replaced and otherwise as written
/// (a relative directory is kept); `raw` is its contents.
pub fn configured_runtime_config(
    path: Option<&str>,
    raw: &RawConfig,
    system: SystemSnapshot,
) -> (res: Result<ConfiguredRuntimeConfig, ConfigError>)
    ensures
        match config_file_spec(opt_str_view(path), &system) {
            None => res matches Err(e) && e.kind() == ConfigErr::HomeNotFound,
            Some(p) => match evaluate_spec(
                raw,
                system.home,
                dir_view(system.current_dir),
                system.environment@,
                p,
                true,
            ) {
                Err(e) => res matches Err(x) && x.kind() == e,
                Ok(ev) => res matches Ok(c) && opt_view(c.pkgs_dir) == ev.pkgs_dir && opt_view(
                    c.backup_dir,
                ) == ev.backup_dir,
            },
        },
{
    let path = config_file_path(path, &system)?;
    let resolved = resolve_config_file(path.as_str(), raw, system, true)?;
    Ok(resolved.config)
}

/// A configuration file that is about to be edited must parse (checked by
/// the caller) and its environment references must be readable.
pub fn check_config_for_update(path: &str, raw: &RawConfig, env: &Vec<(String, EnvLookup)>) -> (res: Result<
    (),
    ConfigError,
>)
    ensures
        match load_referenced_environment_spec(raw, env@) {
            Ok(_) => res is Ok,
            Err(e) => res matches Err(x) && x.kind() == (ConfigErr::Evaluate { path: path@, source: e }),
        },
{
    match load_referenced_environment(raw, env) {
        Ok(_) => Ok(()),
        Err(source) => Err(ConfigError::Evaluate { path: to_string(path), source }),
    }
}

/// The backup directory to configure: `backup_dir` made absolute against the
/// current directory.
pub fn absolute_backup_dir(backup_dir: &str, current_dir: Result<String, std::io::Error>) -> (res: Result<
    String,
    ConfigError,
>)
    ensures
        if is_absolute(backup_dir@) {
            res matches Ok(x) && x@ == backup_dir@
        } else {
            match dir_view(current_dir) {
                Some(c) => res matches Ok(x) && x@ == join(c, backup_dir@),
                None => res matches Err(e) && e.kind() == ConfigErr::CurrentDirectory,
            }
        },
{
    if path_is_absolute(backup_dir) {
        return Ok(to_string(backup_dir));
    }
    match current_dir {
        Ok(c) => Ok(path_join(c.as_str(), backup_dir)),
        Err(e) => Err(ConfigError::CurrentDirectory(e)),
    }
}

} // verus!
