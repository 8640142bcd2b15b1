//! The two operations on file-system paths that the library takes from `std::path`.
use std::path::Path;
use vstd::prelude::*;

verus! {

/// The last part of a path as `std::path::Path::file_name` gives it (none
/// for a root, an empty path or one that ends in `..`), as text.
pub uninterp spec fn spec_file_name(path: Seq<char>) -> Option<Seq<char>>;

/// A path with another appended as `std::path::Path::join` does it, as text.
pub uninterp spec fn spec_join(base: Seq<char>, rest: Seq<char>) -> Seq<char>;

/// The last part of a path (`Path::file_name`); the result is what the named
/// function gives.
#[verifier::external_body]
pub(crate) fn file_name(path: &str) -> (r: Option<String>)
    ensures
        r matches Some(n) ==> spec_file_name(path@) == Some(n@),
        r is None ==> spec_file_name(path@) is None,
{
    match Path::new(path).file_name() {
        Some(n) => Some(n.to_string_lossy().to_string()),
        None => None,
    }
}

/// A path with another appended (`Path::join`); the result is what the named
/// function gives.
#[verifier::external_body]
pub(crate) fn join(base: &str, rest: &str) -> (r: String)
    ensures
        r@ == spec_join(base@, rest@),
{
    Path::new(base).join(rest).to_string_lossy().to_string()
}

} // verus!
