//! File paths, held as strings. What a path means (its parent, joining, when
//! two spellings name the same path) is std's `std::path`, called through
//! the wrappers below.
use vstd::prelude::*;

verus! {

/// The path's components put back together: two paths get the same key
/// exactly when `std::path::Path` compares them equal.
pub uninterp spec fn path_key(p: Seq<char>) -> Seq<char>;

/// The path without its last component (`Path::parent`), if it has one.
pub uninterp spec fn path_parent(p: Seq<char>) -> Option<Seq<char>>;

/// `base` with `rel` appended as a further component (`Path::join`).
pub uninterp spec fn path_join(base: Seq<char>, rel: Seq<char>) -> Seq<char>;

/// Calls `Path::components` and collects the components into a `PathBuf`
/// again. The result is named by `path_key`; nothing more is claimed of it.
#[verifier::external_body]
pub(crate) fn normalized_path(p: &str) -> (r: String)
    ensures
        r@ == path_key(p@),
{
    std::path::Path::new(p).components().collect::<std::path::PathBuf>().to_string_lossy().into_owned()
}

/// Calls `Path::parent`. The result is named by `path_parent`; std's
/// documentation adds that a parent is the path with its final component
/// removed, so it is never longer than the path.
#[verifier::external_body]
pub(crate) fn parent_path(p: &str) -> (r: Option<String>)
    ensures
        r matches Some(q) ==> q@.len() < p@.len(),
        match path_parent(p@) {
            Some(q) => r matches Some(s) && s@ == q,
            None => r is None,
        },
{
    std::path::Path::new(p).parent().map(|q| q.to_string_lossy().into_owned())
}

/// Calls `Path::join`. The result is named by `path_join`.
#[verifier::external_body]
pub(crate) fn join_path(base: &str, rel: &str) -> (r: String)
    ensures
        r@ == path_join(base@, rel@),
{
    std::path::Path::new(base).join(rel).to_string_lossy().into_owned()
}


/// The path's components, each as text (`Path::components`).
pub uninterp spec fn path_components(p: Seq<char>) -> Seq<Seq<char>>;

/// The path's extension (`Path::extension`), if it has one.
pub uninterp spec fn path_extension(p: Seq<char>) -> Option<Seq<char>>;

/// Calls `Path::components`, each component taken as its `OsStr` text. The
/// result is named by `path_components`.
#[verifier::external_body]
pub(crate) fn components_of(p: &str) -> (r: Vec<String>)
    ensures
        r@.len() == path_components(p@).len(),
        forall|i: int| 0 <= i < r@.len() ==> #[trigger] r@[i]@ == path_components(p@)[i],
{
    std::path::Path::new(p).components().map(|c| c.as_os_str().to_string_lossy().into_owned()).collect()
}

/// Calls `Path::extension`. The result is named by `path_extension`.
#[verifier::external_body]
pub(crate) fn extension_of(p: &str) -> (r: Option<String>)
    ensures
        match path_extension(p@) {
            Some(e) => r matches Some(s) && s@ == e,
            None => r is None,
        },
{
    std::path::Path::new(p).extension().map(|e| e.to_string_lossy().into_owned())
}

} // verus!
