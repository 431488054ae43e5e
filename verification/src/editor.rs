//! What the editor is started on.

use vstd::prelude::*;

verus! {

/// Something that an editor can open.
pub trait EditorContext {
    /// The file that the editor opens.
    spec fn edited(&self) -> Seq<char>;

    /// The path of the file that the editor opens.
    fn input(&self) -> (path: String)
        ensures
            path@ == self.edited(),
    ;
}

} // verus!
