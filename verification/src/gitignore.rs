//! The `.gitignore` that keeps a directory of generated files out of a
//! repository.

use vstd::prelude::*;
use vstd::string::{StringExecFns, StringSliceAdditionalSpecFns};
use vstd::utf8::encode_utf8;

use crate::file_io::GenerationContext;
use crate::redact::replace::RedactError;

verus! {

/// A `.gitignore` file that ignores everything beside itself.
pub struct Gitignore {
    target: String,
    content: String,
}

impl Gitignore {
    /// The text of the file.
    pub open spec fn text() -> Seq<char> {
        "*\n!.gitignore\n"@
    }

    /// Where the file goes.
    pub closed spec fn path(&self) -> Seq<char> {
        self.target@
    }

    /// What the file holds.
    pub closed spec fn content(&self) -> Seq<char> {
        self.content@
    }

    /// The file, to be written to `file`.
    pub fn new(file: String) -> (gitignore: Self)
        ensures
            gitignore.path() == file@,
            gitignore.content() == Self::text(),
    {
        Self { target: file, content: String::from_str("*\n!.gitignore\n") }
    }

}

impl GenerationContext for Gitignore {
    open spec fn generated(&self, bytes: Result<Vec<u8>, RedactError>) -> bool {
        bytes matches Ok(b) && b@ == encode_utf8(self.content())
    }

    open spec fn target(&self) -> Option<Seq<char>> {
        Some(self.path())
    }

    fn input(&self) -> (bytes: Result<Vec<u8>, RedactError>) {
        Ok(vstd::slice::slice_to_vec(self.content.as_str().as_bytes()))
    }

    fn output(&self) -> (path: Option<String>) {
        Some(self.target.clone())
    }
}

} // verus!
