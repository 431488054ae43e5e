//! What a project's configuration holds.

use vstd::prelude::*;

verus! {

/// The configuration of one session: the project's configuration, and what
/// follows from it for the source that is edited.
pub struct Config {
    pub identity: String,
    pub recipients: Vec<String>,
    pub recipients_files: Vec<String>,
    /// The name of the plain text's file.
    pub file_name: String,
    /// The directory of the file without secrets.
    pub target_dir: String,
    pub flake_input: Option<String>,
}

/// A project's configuration as its file holds it.
pub struct TomlConfig {
    /// The file that holds the key.
    pub identity: String,
    /// Those who can decrypt beside the key's owner.
    pub recipients: Vec<String>,
    /// Files that list more of them.
    pub recipients_files: Vec<String>,
    /// The directory of the files without secrets.
    pub generated_dir: String,
    /// The input to update in the flake's lock file after a change.
    pub update_flake_input: Option<String>,
}

/// Where files without secrets go.
pub struct Generate {
    pub dir: String,
}

/// Whether a `.gitignore` is written beside the files without secrets.
#[derive(Clone, Copy, Debug, PartialEq, Eq, Structural)]
pub enum Gitignore {
    Always,
    Never,
}

/// An empty list of paths: what a configuration has where it names none.
pub fn empty_pathbuf_vec() -> (paths: Vec<String>)
    ensures
        paths@.len() == 0,
{
    Vec::new()
}

} // verus!
