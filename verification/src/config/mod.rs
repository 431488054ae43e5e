//! A project's configuration: where it is kept, and what follows from it
//! for a source that is edited.

pub mod model;
pub mod path;

use vstd::prelude::*;
use vstd::string::StringExecFns;

pub use self::model::{Config, Generate, Gitignore, TomlConfig};
use self::path::{absolute_of, joined, name_of, parent_of, parts_of, stem_of, stripped};

verus! {

/// The name of the file that marks a project's root.
pub const CONFIG_FILE: &'static str = "boxednix.toml";

/// The extension of a Nix file.
pub const NIX_EXTENSION: &'static str = ".nix";

/// Why there is no configuration to work with.
#[derive(Clone, Copy, Debug, PartialEq, Eq, Structural)]
pub enum ConfigError {
    /// The directory has a configuration already.
    Exists,
    /// No directory from here upward holds a configuration.
    NoRoot,
    /// The source has no directory above it.
    NoParent,
    /// The source has no name to take a stem from.
    NoStem,
    /// The user has no directory for configurations.
    NoUserDir,
    /// The working directory has no name.
    NoName,
    /// The source does not lie in the project.
    Outside,
}

/// The nearest directory that holds the configuration file, among a
/// directory and its ancestors, the directory itself first. `has_config`
/// says of each whether the file is in it; the result is the place of the
/// first for which it is.
pub fn find_project_root(has_config: &[bool]) -> (root: Option<usize>)
    ensures
        match root {
            Some(i) => i < has_config@.len() && has_config@[i as int] && forall|j: int|
                0 <= j < i ==> !has_config@[j],
            None => forall|j: int| 0 <= j < has_config@.len() ==> !has_config@[j],
        },
{
    let mut i: usize = 0;
    while i < has_config.len()
        invariant
            0 <= i <= has_config@.len(),
            forall|j: int| 0 <= j < i ==> !has_config@[j],
        decreases has_config@.len() - i,
    {
        if has_config[i] {
            return Some(i);
        }
        i += 1;
    }
    None
}

/// The project's root among the ancestors, or the error that there is none.
pub fn project_root(has_config: &[bool]) -> (root: Result<usize, ConfigError>)
    ensures
        match root {
            Ok(i) => i < has_config@.len() && has_config@[i as int] && forall|j: int|
                0 <= j < i ==> !has_config@[j],
            Err(e) => e == ConfigError::NoRoot && forall|j: int|
                0 <= j < has_config@.len() ==> !has_config@[j],
        },
{
    match find_project_root(has_config) {
        Some(i) => Ok(i),
        None => Err(ConfigError::NoRoot),
    }
}

/// The name of the plain text's file for a source with this stem: the stem
/// with the extension of a Nix file.
pub fn nix_name(stem: &str) -> (name: String)
    ensures
        name@ == stem@ + NIX_EXTENSION@,
{
    let mut name = String::from_str(stem);
    name.append(NIX_EXTENSION);
    name
}

/// The name of the plain text's file for a source, if the source has a stem.
pub fn name_of_stem(stem: Option<String>) -> (name: Result<String, ConfigError>)
    ensures
        match stem {
            Some(s) => (name matches Ok(n) && n@ == s@ + NIX_EXTENSION@),
            None => name == Err::<String, ConfigError>(ConfigError::NoStem),
        },
{
    match stem {
        Some(s) => Ok(nix_name(s.as_str())),
        None => Err(ConfigError::NoStem),
    }
}

/// The text of a result, or its error.
pub open spec fn result_text(result: Result<String, ConfigError>) -> Result<Seq<char>, ConfigError> {
    match result {
        Ok(text) => Ok(text@),
        Err(e) => Err(e),
    }
}

/// The text of a directory that may be given.
pub open spec fn given_text(dir: Option<&str>) -> Option<Seq<char>> {
    match dir {
        Some(text) => Some(text@),
        None => None,
    }
}

/// The name of the plain text's file for a source: the stem of the source's
/// last part with the extension of a Nix file; a source without a stem has
/// none.
pub open spec fn name_of_source(source: Seq<char>) -> Result<Seq<char>, ConfigError> {
    match stem_of(source) {
        Some(stem) => Ok(stem + NIX_EXTENSION@),
        None => Err(ConfigError::NoStem),
    }
}

/// The name of the plain text's file for the source at `source`: the stem
/// of its last part, with the extension of a Nix file.
pub fn file_name(source: &str) -> (name: Result<String, ConfigError>)
    ensures
        result_text(name) == name_of_source(source@),
{
    name_of_stem(path::file_stem(source))
}

/// The target directory, from what is known of the paths: where the
/// configured directory is absolute, the source's directory below it, as it
/// lies below the project's root, and an error where it does not lie there;
/// else the configured directory below the source's directory.
pub fn choose_target(absolute: bool, below: Option<String>, beside: String) -> (dir: Result<
    String,
    ConfigError,
>)
    ensures
        dir == if absolute {
            match below {
                Some(d) => Ok::<String, ConfigError>(d),
                None => Err::<String, ConfigError>(ConfigError::Outside),
            }
        } else {
            Ok::<String, ConfigError>(beside)
        },
{
    if absolute {
        match below {
            Some(d) => Ok(d),
            None => Err(ConfigError::Outside),
        }
    } else {
        Ok(beside)
    }
}

/// The directory for the file without secrets of a source in `source_dir`.
/// With an absolute directory `generated`, the project's directories are
/// mirrored below it: the source's directory, taken from `cwd`, has to lie
/// below `root`, and what is left of it without `root` is adjoined to
/// `generated`. A relative `generated` is adjoined to the source's
/// directory.
pub open spec fn target_of(
    cwd: Seq<char>,
    root: Seq<char>,
    source_dir: Seq<char>,
    generated: Seq<char>,
) -> Result<Seq<char>, ConfigError> {
    if absolute_of(generated) {
        match stripped(joined(cwd, source_dir), root) {
            Some(sub) => Ok(joined(generated, sub)),
            None => Err(ConfigError::Outside),
        }
    } else {
        Ok(joined(source_dir, generated))
    }
}

/// The directory for the file without secrets of a source in `source_dir`:
/// with an absolute directory `generated`, the project's directories are
/// mirrored below it; a relative one lies below the source's directory.
pub fn target_dir(cwd: &str, root: &str, source_dir: &str, generated: &str) -> (dir: Result<
    String,
    ConfigError,
>)
    ensures
        result_text(dir) == target_of(cwd@, root@, source_dir@, generated@),
{
    let absolute = path::is_absolute(generated);
    let below = match path::strip_prefix(path::join(cwd, source_dir).as_str(), root) {
        Some(sub) => Some(path::join(generated, sub.as_str())),
        None => None,
    };
    choose_target(absolute, below, path::join(source_dir, generated))
}

/// A path of the configuration, from what is known of it: a single name
/// that is no absolute path lies in the user's directory for
/// configurations, which has to exist then; any other path stands as it is.
pub fn choose_resolved(
    input: String,
    single: bool,
    absolute: bool,
    in_user_dir: Option<String>,
) -> (path: Result<String, ConfigError>)
    ensures
        path == if single && !absolute {
            match in_user_dir {
                Some(p) => Ok::<String, ConfigError>(p),
                None => Err::<String, ConfigError>(ConfigError::NoUserDir),
            }
        } else {
            Ok::<String, ConfigError>(input)
        },
{
    if single && !absolute {
        match in_user_dir {
            Some(p) => Ok(p),
            None => Err(ConfigError::NoUserDir),
        }
    } else {
        Ok(input)
    }
}

/// A path of the configuration, resolved: a path of one part that is not
/// absolute is adjoined to the user's directory for configurations, which
/// has to exist then; any other path stands as it is.
pub open spec fn resolved_of(input: Seq<char>, user_dir: Option<Seq<char>>) -> Result<
    Seq<char>,
    ConfigError,
> {
    if parts_of(input) == 1 && !absolute_of(input) {
        match user_dir {
            Some(root) => Ok(joined(root, input)),
            None => Err(ConfigError::NoUserDir),
        }
    } else {
        Ok(input)
    }
}

/// Resolves a path of the configuration against the user's directory for
/// configurations.
pub fn resolve_path(input: String, user_dir: Option<&str>) -> (path: Result<String, ConfigError>)
    ensures
        result_text(path) == resolved_of(input@, given_text(user_dir)),
{
    let single = path::parts(input.as_str()) == 1;
    let absolute = path::is_absolute(input.as_str());
    let in_user_dir = match user_dir {
        Some(root) => Some(path::join(root, input.as_str())),
        None => None,
    };
    choose_resolved(input, single, absolute, in_user_dir)
}

/// Every path of the list can be resolved.
pub open spec fn all_resolve(inputs: Seq<String>, user_dir: Option<Seq<char>>) -> bool {
    forall|i: int| 0 <= i < inputs.len() ==> resolved_of((#[trigger] inputs[i])@, user_dir) is Ok
}

/// `paths` are the paths of `inputs`, resolved one by one.
pub open spec fn resolved_all(
    inputs: Seq<String>,
    user_dir: Option<Seq<char>>,
    paths: Seq<String>,
) -> bool {
    &&& paths.len() == inputs.len()
    &&& forall|i: int|
        0 <= i < inputs.len() ==> resolved_of((#[trigger] inputs[i])@, user_dir) == Ok::<
            Seq<char>,
            ConfigError,
        >(paths[i]@)
}

/// Resolves each path of a list; one that cannot be resolved fails the
/// whole.
pub fn resolve_paths(inputs: Vec<String>, user_dir: Option<&str>) -> (paths: Result<
    Vec<String>,
    ConfigError,
>)
    ensures
        match paths {
            Ok(p) => resolved_all(inputs@, given_text(user_dir), p@),
            Err(e) => e == ConfigError::NoUserDir && !all_resolve(inputs@, given_text(user_dir)),
        },
{
    let mut paths: Vec<String> = Vec::new();
    let mut i: usize = 0;
    while i < inputs.len()
        invariant
            0 <= i <= inputs@.len(),
            paths@.len() == i,
            forall|k: int|
                0 <= k < i ==> resolved_of((#[trigger] inputs@[k])@, given_text(user_dir)) == Ok::<
                    Seq<char>,
                    ConfigError,
                >(paths@[k]@),
        decreases inputs@.len() - i,
    {
        let ghost before = paths@;
        match resolve_path(inputs[i].clone(), user_dir) {
            Ok(p) => {
                paths.push(p);
                assert forall|k: int| 0 <= k < i + 1 implies resolved_of(
                    (#[trigger] inputs@[k])@,
                    given_text(user_dir),
                ) == Ok::<Seq<char>, ConfigError>(paths@[k]@) by {
                    if k < i {
                        assert(paths@[k] == before[k]);
                    }
                }
            },
            Err(e) => {
                assert(resolved_of(inputs@[i as int]@, given_text(user_dir)) is Err);
                return Err(e);
            },
        }
        i += 1;
    }
    Ok(paths)
}

/// The directory for generated files of the project in `cwd`, where none is
/// configured: in the user's directory for configurations, which has to
/// exist, the directory `generated`, and in it one with the name of `cwd`,
/// which has to have one.
pub open spec fn generated_of(cwd: Seq<char>, user_dir: Option<Seq<char>>) -> Result<
    Seq<char>,
    ConfigError,
> {
    match user_dir {
        Some(root) => match name_of(cwd) {
            Some(name) => Ok(joined(joined(root, "generated"@), name)),
            None => Err(ConfigError::NoName),
        },
        None => Err(ConfigError::NoUserDir),
    }
}

/// The directory for generated files, from what is known of the paths: the
/// user's directory has to exist, and the working directory to have a name.
pub fn choose_generated(user_dir: bool, named: Option<String>) -> (dir: Result<String, ConfigError>)
    ensures
        dir == if !user_dir {
            Err::<String, ConfigError>(ConfigError::NoUserDir)
        } else {
            match named {
                Some(d) => Ok::<String, ConfigError>(d),
                None => Err::<String, ConfigError>(ConfigError::NoName),
            }
        },
{
    if !user_dir {
        Err(ConfigError::NoUserDir)
    } else {
        match named {
            Some(d) => Ok(d),
            None => Err(ConfigError::NoName),
        }
    }
}

/// The directory for generated files of the project in `cwd`, where none is
/// configured: the directory `generated` in the user's directory for
/// configurations, and in it one with the name of `cwd`.
pub fn generated_dir(cwd: &str, user_dir: Option<&str>) -> (dir: Result<String, ConfigError>)
    ensures
        result_text(dir) == generated_of(cwd@, given_text(user_dir)),
{
    let named = match (user_dir, path::file_name(cwd)) {
        (Some(root), Some(name)) => Some(
            path::join(path::join(root, "generated").as_str(), name.as_str()),
        ),
        _ => None,
    };
    choose_generated(user_dir.is_some(), named)
}

/// The directory for the generated files of a new project: the one that is
/// given, or the one in the user's directory.
pub open spec fn default_dir(dir: Option<String>, cwd: Seq<char>, user_dir: Option<Seq<char>>) -> Result<
    Seq<char>,
    ConfigError,
> {
    match dir {
        Some(d) => Ok(d@),
        None => generated_of(cwd, user_dir),
    }
}

/// Why there is no configuration for a new project, if there is none: the
/// first of the key's path, the recipients, the recipients' files and the
/// directory for generated files that cannot be had.
pub open spec fn default_failure(
    cwd: Seq<char>,
    user_dir: Option<Seq<char>>,
    identity: Seq<char>,
    dir: Option<String>,
    recipients: Seq<String>,
    recipients_files: Seq<String>,
) -> Option<ConfigError> {
    if resolved_of(identity, user_dir) is Err {
        Some(ConfigError::NoUserDir)
    } else if !all_resolve(recipients, user_dir) {
        Some(ConfigError::NoUserDir)
    } else if !all_resolve(recipients_files, user_dir) {
        Some(ConfigError::NoUserDir)
    } else {
        match default_dir(dir, cwd, user_dir) {
            Ok(_) => None,
            Err(e) => Some(e),
        }
    }
}

/// The configuration of a new project. `exists` says whether the directory
/// has a configuration already, which is an error. The paths are resolved
/// against the user's directory, and the generated files go to `dir`, or
/// where none is given to the user's directory.
pub fn create_default(
    exists: bool,
    cwd: &str,
    user_dir: Option<&str>,
    identity: String,
    dir: Option<String>,
    recipients: Vec<String>,
    recipients_files: Vec<String>,
) -> (config: Result<TomlConfig, ConfigError>)
    ensures
        exists ==> (config matches Err(e) && e == ConfigError::Exists),
        !exists ==> match config {
            Ok(c) => {
                &&& resolved_of(identity@, given_text(user_dir)) == Ok::<Seq<char>, ConfigError>(
                    c.identity@,
                )
                &&& resolved_all(recipients@, given_text(user_dir), c.recipients@)
                &&& resolved_all(recipients_files@, given_text(user_dir), c.recipients_files@)
                &&& default_dir(dir, cwd@, given_text(user_dir)) == Ok::<Seq<char>, ConfigError>(
                    c.generated_dir@,
                )
                &&& c.update_flake_input is None
            },
            Err(e) => default_failure(
                cwd@,
                given_text(user_dir),
                identity@,
                dir,
                recipients@,
                recipients_files@,
            ) == Some(e),
        },
{
    if exists {
        return Err(ConfigError::Exists);
    }
    let ghost given = identity@;
    let identity = resolve_path(identity, user_dir)?;
    let recipients = resolve_paths(recipients, user_dir)?;
    let recipients_files = resolve_paths(recipients_files, user_dir)?;
    let generated = match dir {
        Some(dir) => dir,
        None => generated_dir(cwd, user_dir)?,
    };
    Ok(
        TomlConfig {
            identity,
            recipients,
            recipients_files,
            generated_dir: generated,
            update_flake_input: None,
        },
    )
}

/// Whether a new project gets a flake beside its generated files: it does
/// where they go to an absolute directory, or to the user's directory as no
/// other is given.
pub fn wants_flake(dir: Option<&str>) -> (yes: bool)
    ensures
        yes == match dir {
            Some(d) => absolute_of(d@),
            None => true,
        },
{
    let absolute = match dir {
        Some(dir) => Some(path::is_absolute(dir)),
        None => None,
    };
    choose_flake(absolute)
}

/// Whether a new project gets a flake, from what is known of the directory
/// that is given for its generated files: whether it is absolute, or that
/// none is given.
pub fn choose_flake(absolute: Option<bool>) -> (yes: bool)
    ensures
        yes == match absolute {
            Some(a) => a,
            None => true,
        },
{
    match absolute {
        Some(a) => a,
        None => true,
    }
}

/// The directory of a source: the path without its last part; a source
/// without one has none.
pub open spec fn dir_of_source(source: Seq<char>) -> Result<Seq<char>, ConfigError> {
    match parent_of(source) {
        Some(dir) => Ok(dir),
        None => Err(ConfigError::NoParent),
    }
}

/// The directory of a source. A source without a path has none.
pub fn source_dir(source: &str) -> (dir: Result<String, ConfigError>)
    ensures
        result_text(dir) == dir_of_source(source@),
        source@.len() == 0 ==> dir is Err,
{
    dir_of_parent(path::parent(source))
}

/// The directory of a source, from the path that lies above it: to have
/// none is an error.
pub fn dir_of_parent(parent: Option<String>) -> (dir: Result<String, ConfigError>)
    ensures
        dir == match parent {
            Some(d) => Ok::<String, ConfigError>(d),
            None => Err::<String, ConfigError>(ConfigError::NoParent),
        },
{
    match parent {
        Some(d) => Ok(d),
        None => Err(ConfigError::NoParent),
    }
}

/// Why there is no configuration for a session on `source`, if there is
/// none: the source has no directory, or else no stem, or else does not lie
/// in the project, where that is asked.
pub open spec fn load_failure(
    cwd: Seq<char>,
    root: Seq<char>,
    source: Seq<char>,
    generated: Seq<char>,
) -> Option<ConfigError> {
    match dir_of_source(source) {
        Err(e) => Some(e),
        Ok(dir) => match name_of_source(source) {
            Err(e) => Some(e),
            Ok(_) => match target_of(cwd, root, dir, generated) {
                Err(e) => Some(e),
                Ok(_) => None,
            },
        },
    }
}

/// The configuration of a session on `source`, from the project's
/// configuration: its keys and recipients, the name of the plain text's
/// file, and the directory for the file without secrets.
pub fn load(toml: TomlConfig, cwd: &str, root: &str, source: &str) -> (config: Result<
    Config,
    ConfigError,
>)
    ensures
        match config {
            Ok(c) => {
                &&& c.identity == toml.identity
                &&& c.recipients == toml.recipients
                &&& c.recipients_files == toml.recipients_files
                &&& c.flake_input == toml.update_flake_input
                &&& name_of_source(source@) == Ok::<Seq<char>, ConfigError>(c.file_name@)
                &&& dir_of_source(source@) is Ok
                &&& target_of(cwd@, root@, dir_of_source(source@)->Ok_0, toml.generated_dir@) == Ok::<
                    Seq<char>,
                    ConfigError,
                >(c.target_dir@)
            },
            Err(e) => load_failure(cwd@, root@, source@, toml.generated_dir@) == Some(e),
        },
{
    let dir = source_dir(source)?;
    let name = file_name(source)?;
    let target = target_dir(cwd, root, dir.as_str(), toml.generated_dir.as_str())?;
    Ok(
        Config {
            identity: toml.identity,
            recipients: toml.recipients,
            recipients_files: toml.recipients_files,
            file_name: name,
            target_dir: target,
            flake_input: toml.update_flake_input,
        },
    )
}

} // verus!
