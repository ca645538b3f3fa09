//! File paths as text, and the std path operations the library relies on.
use vstd::prelude::*;
use std::path::Path;

verus! {

/// The parent directory of a path, if it has one.
pub uninterp spec fn parent_of(p: Seq<char>) -> Option<Seq<char>>;

/// A path joined onto a base directory.
pub uninterp spec fn joined(base: Seq<char>, p: Seq<char>) -> Seq<char>;

/// The extension of a path's file name, if it has one.
pub uninterp spec fn extension_of(p: Seq<char>) -> Option<Seq<char>>;

/// A path with the extension of its file name replaced.
pub uninterp spec fn with_extension_of(p: Seq<char>, ext: Seq<char>) -> Seq<char>;

/// Relies on `Path::parent`: the path without its final component, or
/// nothing for a root or an empty path.
#[verifier::external_body]
pub(crate) fn path_parent(p: &str) -> (r: Option<String>)
    ensures
        r.is_some() == parent_of(p@).is_some(),
        r.is_some() ==> r->Some_0@ == parent_of(p@)->Some_0,
{
    Path::new(p).parent().map(|q| q.to_string_lossy().into_owned())
}

/// Relies on `Path::join`: `p` appended to `base`, or `p` itself when it is
/// absolute.
#[verifier::external_body]
pub(crate) fn path_join(base: &str, p: &str) -> (r: String)
    ensures
        r@ == joined(base@, p@),
{
    Path::new(base).join(p).to_string_lossy().into_owned()
}

/// Relies on `Path::extension`: the part of the file name after its last
/// dot, if any.
#[verifier::external_body]
pub(crate) fn path_extension(p: &str) -> (r: Option<String>)
    ensures
        r.is_some() == extension_of(p@).is_some(),
        r.is_some() ==> r->Some_0@ == extension_of(p@)->Some_0,
{
    Path::new(p).extension().map(|e| e.to_string_lossy().into_owned())
}

/// Relies on `Path::with_extension`: the path with its extension set to
/// `ext`; it panics when `ext` holds a path separator.
#[verifier::external_body]
pub(crate) fn path_with_extension(p: &str, ext: &str) -> (r: String)
    requires
        !ext@.contains('/'),
        !ext@.contains('\\'),
    ensures
        r@ == with_extension_of(p@, ext@),
{
    Path::new(p).with_extension(ext).to_string_lossy().into_owned()
}

} // verus!
