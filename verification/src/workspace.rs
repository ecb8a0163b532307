//! Finding the workspace and the Sea sources in it.
use vstd::prelude::*;
use crate::paths::{
    path_parent, path_join, path_components, path_extension, parent_path, join_path,
    components_of, extension_of,
};
use crate::text::str_eq;

verus! {

/// The file whose presence marks a directory as a workspace root.
pub open spec fn marker_file(dir: Seq<char>) -> Seq<char> {
    path_join(dir, "sea.toml"@)
}

/// The path of the workspace marker in `dir`.
pub fn workspace_marker(dir: &str) -> (r: String)
    ensures
        r@ == marker_file(dir@),
{
    join_path(dir, "sea.toml")
}

/// One step of the search for the workspace root, upward from the start
/// directory.
pub enum RootSearch {
    /// This directory holds the marker: it is the root.
    Found(String),
    /// Look next in this directory (the parent of the one just looked at).
    Next(String),
    /// The search reached a directory without a parent.
    NotFound,
}

/// Decides one step of the upward search for the workspace root, given
/// whether `current` holds the marker file (`marker_file(current)`): a
/// directory with the marker is the root; otherwise the search moves to the
/// parent, and ends when there is none. Each `Next` is shorter than
/// `current`, so the search ends.
pub fn find_workspace_root(current: String, has_marker: bool) -> (r: RootSearch)
    ensures
        has_marker ==> (r matches RootSearch::Found(d) && d@ == current@),
        !has_marker ==> match path_parent(current@) {
            Some(p) => r matches RootSearch::Next(d) && d@ == p,
            None => r is NotFound,
        },
        r matches RootSearch::Next(d) ==> d@.len() < current@.len(),
        forall|marked: Set<Seq<char>>|
            marked.contains(current@) == has_marker ==> match r {
                RootSearch::Found(d) => #[trigger] root_from(current@, marked) == Some(d@),
                RootSearch::Next(d) => root_from(current@, marked) == root_from(d@, marked),
                RootSearch::NotFound => root_from(current@, marked) is None,
            },
{
    if has_marker {
        return RootSearch::Found(current);
    }
    match parent_path(current.as_str()) {
        Some(parent) => RootSearch::Next(parent),
        None => RootSearch::NotFound,
    }
}

/// The workspace root that the upward search from `dir` ends at, when
/// `marked` holds the directories that have the marker file: the first of
/// `dir` and its ancestors that is marked.
pub open spec fn root_from(dir: Seq<char>, marked: Set<Seq<char>>) -> Option<Seq<char>>
    decreases dir.len(),
{
    if marked.contains(dir) {
        Some(dir)
    } else {
        match path_parent(dir) {
            Some(p) => if p.len() < dir.len() {
                root_from(p, marked)
            } else {
                None
            },
            None => None,
        }
    }
}

/// The root the search finds holds the marker.
pub proof fn lemma_root_is_marked(dir: Seq<char>, marked: Set<Seq<char>>)
    ensures
        root_from(dir, marked) matches Some(r) ==> marked.contains(r),
    decreases dir.len(),
{
    if !marked.contains(dir) {
        match path_parent(dir) {
            Some(p) => if p.len() < dir.len() {
                lemma_root_is_marked(p, marked);
            },
            None => {},
        }
    }
}

/// With the disk unchanged, searching again from the root that a search
/// found finds that same root.
pub proof fn law_root_search_idempotent(dir: Seq<char>, marked: Set<Seq<char>>)
    ensures
        root_from(dir, marked) matches Some(r) ==> root_from(r, marked) == Some(r),
{
    lemma_root_is_marked(dir, marked);
}

/// Directories whose contents are never indexed.
pub open spec fn is_excluded_component(c: Seq<char>) -> bool {
    c == "target"@ || c == ".git"@ || c == "node_modules"@ || c == ".cargo"@
}

/// A path is indexed when it has the `sea` extension and no component of
/// it is an excluded directory.
pub open spec fn is_indexed_source(p: Seq<char>) -> bool {
    &&& forall|i: int|
        0 <= i < path_components(p).len() ==> !is_excluded_component(
            #[trigger] path_components(p)[i],
        )
    &&& path_extension(p) == Some("sea"@)
}

/// Whether the file at `path` is a Sea source to index.
pub fn is_sea_source(path: &str) -> (r: bool)
    ensures
        r == is_indexed_source(path@),
{
    let comps = components_of(path);
    let mut i: usize = 0;
    while i < comps.len()
        invariant
            i <= comps.len(),
            comps@.len() == path_components(path@).len(),
            forall|k: int| 0 <= k < comps@.len() ==> #[trigger] comps@[k]@ == path_components(path@)[k],
            forall|k: int| 0 <= k < i ==> !is_excluded_component(#[trigger] path_components(path@)[k]),
        decreases comps.len() - i,
    {
        let c = comps[i].as_str();
        if str_eq(c, "target") || str_eq(c, ".git") || str_eq(c, "node_modules") || str_eq(c, ".cargo") {
            assert(is_excluded_component(path_components(path@)[i as int]));
            return false;
        }
        i = i + 1;
    }
    match extension_of(path) {
        Some(ext) => str_eq(ext.as_str(), "sea"),
        None => false,
    }
}

} // verus!
