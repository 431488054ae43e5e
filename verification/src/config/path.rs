//! Paths as text. What a path means is for `std::path` to say, and differs
//! from one platform to the next: each function here has a name for what it
//! returns, and the rules of the configuration are stated over those names.

use vstd::prelude::*;

verus! {

/// Whether a path is absolute, as `Path::is_absolute` says.
pub uninterp spec fn absolute_of(path: Seq<char>) -> bool;

/// How many parts a path has, as `Path::components` hands them out.
pub uninterp spec fn parts_of(path: Seq<char>) -> nat;

/// A path adjoined to a base, as `Path::join` does it.
pub uninterp spec fn joined(base: Seq<char>, path: Seq<char>) -> Seq<char>;

/// What is left of a path without a base at its start, as
/// `Path::strip_prefix` says, if the path starts with the base.
pub uninterp spec fn stripped(path: Seq<char>, base: Seq<char>) -> Option<Seq<char>>;

/// The path without its last part, as `Path::parent` says, if it has one.
pub uninterp spec fn parent_of(path: Seq<char>) -> Option<Seq<char>>;

/// The last part of a path, as `Path::file_name` says, if it is a name.
pub uninterp spec fn name_of(path: Seq<char>) -> Option<Seq<char>>;

/// The last part of a path without its extension, as `Path::file_stem`
/// says, if the path has a name.
pub uninterp spec fn stem_of(path: Seq<char>) -> Option<Seq<char>>;

/// The text in `found`, where there is one.
pub open spec fn found_text(found: Option<String>) -> Option<Seq<char>> {
    match found {
        Some(text) => Some(text@),
        None => None,
    }
}

/// `Path::is_absolute`: whether the path is absolute.
#[verifier::external_body]
pub(crate) fn is_absolute(path: &str) -> (yes: bool)
    ensures
        yes == absolute_of(path@),
{
    std::path::Path::new(path).is_absolute()
}

/// `Path::components`, counted: how many parts the path has.
#[verifier::external_body]
pub(crate) fn parts(path: &str) -> (count: usize)
    ensures
        count == parts_of(path@),
{
    std::path::Path::new(path).components().count()
}

/// `Path::join`: `path` adjoined to `base`.
#[verifier::external_body]
pub(crate) fn join(base: &str, path: &str) -> (whole: String)
    ensures
        whole@ == joined(base@, path@),
{
    std::path::Path::new(base).join(path).to_string_lossy().into_owned()
}

/// `Path::strip_prefix`: what is left of `path` without `base` at its
/// start, if it starts with `base`.
#[verifier::external_body]
pub(crate) fn strip_prefix(path: &str, base: &str) -> (rest: Option<String>)
    ensures
        found_text(rest) == stripped(path@, base@),
{
    std::path::Path::new(path).strip_prefix(base).ok().map(|rest| rest.to_string_lossy().into_owned())
}

/// `Path::parent`: the path without its last part, if it has one. The empty
/// path has none.
#[verifier::external_body]
pub(crate) fn parent(path: &str) -> (dir: Option<String>)
    ensures
        found_text(dir) == parent_of(path@),
        path@.len() == 0 ==> dir is None,
{
    std::path::Path::new(path).parent().map(|dir| dir.to_string_lossy().into_owned())
}

/// `Path::file_name`: the last part of the path, if it is a name.
#[verifier::external_body]
pub(crate) fn file_name(path: &str) -> (name: Option<String>)
    ensures
        found_text(name) == name_of(path@),
{
    std::path::Path::new(path).file_name().map(|name| name.to_string_lossy().into_owned())
}

/// `Path::file_stem`: the last part of the path without its extension.
#[verifier::external_body]
pub(crate) fn file_stem(path: &str) -> (stem: Option<String>)
    ensures
        found_text(stem) == stem_of(path@),
{
    std::path::Path::new(path).file_stem().map(|stem| stem.to_string_lossy().into_owned())
}

} // verus!
