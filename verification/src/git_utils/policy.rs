//! The policy of included and excluded paths, and what it decides for one
//! tree entry.

use vstd::prelude::*;
use crate::git_utils::path::{
    is_prefix, is_strict_prefix, lemma_prefix_of_equal_length, RepoPath, Segments,
};

verus! {

/// What becomes of one tree entry.
#[derive(Clone, Copy, Debug, PartialEq, Eq, Structural)]
pub enum Decision {
    /// The entry stays as it is; what lies below it is never read.
    Keep,
    /// The entry is a tree of which only a part stays: it is rebuilt.
    Rebuild,
    /// The entry leaves the tree.
    Drop,
}

/// `path` itself is one of `list`.
pub open spec fn names(list: Seq<RepoPath>, path: Segments) -> bool {
    exists|i: int| 0 <= i < list.len() && (#[trigger] list[i])@ == path
}

/// `list` holds a path that lies strictly below `path`.
pub open spec fn names_below(list: Seq<RepoPath>, path: Segments) -> bool {
    exists|i: int| 0 <= i < list.len() && is_strict_prefix(path, (#[trigger] list[i])@)
}

/// `list` holds `path` or a path below it.
pub open spec fn names_within(list: Seq<RepoPath>, path: Segments) -> bool {
    exists|i: int| 0 <= i < list.len() && is_prefix(path, (#[trigger] list[i])@)
}

/// `path` is not excluded, and it is included: by name, or because nothing
/// but the exclusions restricts the tree.
pub open spec fn admitted(included: Seq<RepoPath>, excluded: Seq<RepoPath>, path: Segments) -> bool {
    !names(excluded, path) && (included.len() == 0 || names(included, path))
}

/// The outcome for the entry at `path`.
///
/// An admitted entry is kept as it is unless an exclusion reaches into it; then
/// it is rebuilt. An entry that is not admitted is rebuilt where an included
/// path lies strictly below it, and dropped otherwise. So below an included
/// path that is rebuilt for an exclusion's sake, only what is itself included
/// stays.
pub open spec fn decide(included: Seq<RepoPath>, excluded: Seq<RepoPath>, path: Segments) -> Decision {
    if admitted(included, excluded, path) && !names_within(excluded, path) {
        Decision::Keep
    } else if names_below(included, path) || (admitted(included, excluded, path) && names_within(
        excluded,
        path,
    )) {
        Decision::Rebuild
    } else {
        Decision::Drop
    }
}

/// Without inclusions and exclusions every entry is kept as it is.
pub proof fn lemma_empty_policy_keeps(included: Seq<RepoPath>, excluded: Seq<RepoPath>, path: Segments)
    requires
        included.len() == 0,
        excluded.len() == 0,
    ensures
        decide(included, excluded, path) == Decision::Keep,
{
}

/// An excluded path is never kept as it is, whatever the inclusions say; it is
/// dropped unless an included path lies strictly below it.
pub proof fn lemma_excluded_is_not_kept(included: Seq<RepoPath>, excluded: Seq<RepoPath>, path: Segments)
    requires
        names(excluded, path),
    ensures
        decide(included, excluded, path) != Decision::Keep,
        !names_below(included, path) ==> decide(included, excluded, path) == Decision::Drop,
{
}

/// With no inclusions, an entry is dropped exactly when it is excluded by name,
/// and rebuilt exactly when an exclusion lies strictly below it.
pub proof fn lemma_exclude_only(excluded: Seq<RepoPath>, path: Segments)
    ensures
        decide(Seq::empty(), excluded, path) == Decision::Drop <==> names(excluded, path),
        decide(Seq::empty(), excluded, path) == Decision::Rebuild <==> names_below(excluded, path)
            && !names(excluded, path),
{
    if names_within(excluded, path) && !names(excluded, path) {
        let i = choose|i: int| 0 <= i < excluded.len() && is_prefix(path, (#[trigger] excluded[i])@);
        if path.len() == excluded[i]@.len() {
            lemma_prefix_of_equal_length(path, excluded[i]@);
        }
    }
}

/// With inclusions, an entry that is neither included by name nor lies above
/// an included path is dropped.
pub proof fn lemma_allow_list(included: Seq<RepoPath>, excluded: Seq<RepoPath>, path: Segments)
    requires
        included.len() > 0,
        !names(included, path),
        !names_below(included, path),
    ensures
        decide(included, excluded, path) == Decision::Drop,
{
}

/// Whether `path` itself is one of `list`.
pub fn list_names(list: &[RepoPath], path: &RepoPath) -> (r: bool)
    ensures
        r == names(list@, path@),
{
    let mut i: usize = 0;
    while i < list.len()
        invariant
            i <= list.len(),
            forall|j: int| 0 <= j < i ==> (#[trigger] list@[j])@ != path@,
        decreases list.len() - i,
    {
        if list[i].same(path) {
            return true;
        }
        i += 1;
    }
    false
}

/// Whether `list` holds a path that lies strictly below `path`.
pub fn list_names_below(list: &[RepoPath], path: &RepoPath) -> (r: bool)
    ensures
        r == names_below(list@, path@),
{
    let mut i: usize = 0;
    while i < list.len()
        invariant
            i <= list.len(),
            forall|j: int| 0 <= j < i ==> !is_strict_prefix(path@, (#[trigger] list@[j])@),
        decreases list.len() - i,
    {
        if path.len() < list[i].len() && list[i].starts_with(path) {
            return true;
        }
        i += 1;
    }
    false
}

/// Whether `list` holds `path` or a path below it.
pub fn list_names_within(list: &[RepoPath], path: &RepoPath) -> (r: bool)
    ensures
        r == names_within(list@, path@),
{
    let mut i: usize = 0;
    while i < list.len()
        invariant
            i <= list.len(),
            forall|j: int| 0 <= j < i ==> !is_prefix(path@, (#[trigger] list@[j])@),
        decreases list.len() - i,
    {
        if list[i].starts_with(path) {
            return true;
        }
        i += 1;
    }
    false
}

/// Decides what becomes of the entry at `path` under the two lists.
pub fn classify(included: &[RepoPath], excluded: &[RepoPath], path: &RepoPath) -> (d: Decision)
    ensures
        d == decide(included@, excluded@, path@),
{
    let admitted = !list_names(excluded, path) && (included.len() == 0 || list_names(included, path));
    let cut = list_names_within(excluded, path);
    if admitted && !cut {
        Decision::Keep
    } else if list_names_below(included, path) || (admitted && cut) {
        Decision::Rebuild
    } else {
        Decision::Drop
    }
}

} // verus!
