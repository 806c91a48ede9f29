//! What a rebuilt tree and a rebuilt commit are, stated over the record of
//! what was rebuilt so far.

use vstd::prelude::*;
use crate::git_utils::object::{CommitNode, ObjectId, TreeEntry, TreeNode, TREE_MODE};
use crate::git_utils::path::{is_strict_prefix, RepoPath, Segments};
use crate::git_utils::policy::{decide, Decision};
use crate::git_utils::store::{commit_digest, tree_digest, TreeContent};

verus! {

/// The record of rebuilt digests as contracts see it.
pub type Rebuilt = Map<ObjectId, ObjectId>;

/// Every entry bears a name.
pub open spec fn all_named(entries: Seq<TreeEntry>) -> bool {
    forall|i: int| 0 <= i < entries.len() ==> (#[trigger] entries[i]).name is Some
}

/// The full path of an entry of the tree at `prefix`.
pub open spec fn entry_path(prefix: Segments, entry: TreeEntry) -> Segments {
    prefix.push(entry.name.unwrap()@)
}

/// What the policy decides for an entry of the tree at `prefix`.
pub open spec fn entry_outcome(
    included: Seq<RepoPath>,
    excluded: Seq<RepoPath>,
    prefix: Segments,
    entry: TreeEntry,
) -> Decision {
    decide(included, excluded, entry_path(prefix, entry))
}

/// The entry cannot be dealt with: it bears no name, or only a part of it is
/// to stay and it is no tree.
pub open spec fn entry_refused(
    included: Seq<RepoPath>,
    excluded: Seq<RepoPath>,
    prefix: Segments,
    entry: TreeEntry,
) -> bool {
    entry.name is None || (entry_outcome(included, excluded, prefix, entry) == Decision::Rebuild
        && entry.mode != TREE_MODE)
}

/// Every entry can be dealt with.
pub open spec fn all_sound(
    included: Seq<RepoPath>,
    excluded: Seq<RepoPath>,
    prefix: Segments,
    entries: Seq<TreeEntry>,
) -> bool {
    forall|i: int|
        0 <= i < entries.len() ==> !entry_refused(included, excluded, prefix, #[trigger] entries[i])
}

/// The entry at `index` is the first that cannot be dealt with.
pub open spec fn first_refused(
    included: Seq<RepoPath>,
    excluded: Seq<RepoPath>,
    prefix: Segments,
    entries: Seq<TreeEntry>,
    index: int,
) -> bool {
    &&& 0 <= index < entries.len()
    &&& entry_refused(included, excluded, prefix, entries[index])
    &&& forall|j: int|
        0 <= j < index ==> !entry_refused(included, excluded, prefix, #[trigger] entries[j])
}

/// The digest that stands for the entry's child in the rebuilt tree.
pub open spec fn entry_target(
    included: Seq<RepoPath>,
    excluded: Seq<RepoPath>,
    prefix: Segments,
    map: Rebuilt,
    entry: TreeEntry,
) -> ObjectId {
    if entry_outcome(included, excluded, prefix, entry) == Decision::Rebuild {
        map[entry.id]
    } else {
        entry.id
    }
}

/// The entry makes the rebuilt tree differ from the one it was read from: it
/// is dropped,
/// or it is rebuilt to another digest.
pub open spec fn entry_changed(
    included: Seq<RepoPath>,
    excluded: Seq<RepoPath>,
    prefix: Segments,
    map: Rebuilt,
    entry: TreeEntry,
) -> bool {
    match entry_outcome(included, excluded, prefix, entry) {
        Decision::Keep => false,
        Decision::Rebuild => map[entry.id] != entry.id,
        Decision::Drop => true,
    }
}

/// Some entry makes the rebuilt tree differ from the one it was read from.
pub open spec fn tree_changed(
    included: Seq<RepoPath>,
    excluded: Seq<RepoPath>,
    prefix: Segments,
    map: Rebuilt,
    entries: Seq<TreeEntry>,
) -> bool {
    exists|i: int|
        0 <= i < entries.len() && entry_changed(included, excluded, prefix, map, #[trigger] entries[i])
}

/// The child of every entry that is to be rebuilt has its result in `map`.
pub open spec fn children_known(
    included: Seq<RepoPath>,
    excluded: Seq<RepoPath>,
    prefix: Segments,
    map: Rebuilt,
    entries: Seq<TreeEntry>,
) -> bool {
    forall|i: int|
        0 <= i < entries.len() && entry_outcome(included, excluded, prefix, #[trigger] entries[i])
            == Decision::Rebuild ==> map.contains_key(entries[i].id)
}

/// Some entry is to be rebuilt: the tree is entered below these entries.
pub open spec fn descends(
    included: Seq<RepoPath>,
    excluded: Seq<RepoPath>,
    prefix: Segments,
    entries: Seq<TreeEntry>,
) -> bool {
    exists|i: int|
        0 <= i < entries.len() && entry_outcome(included, excluded, prefix, #[trigger] entries[i])
            == Decision::Rebuild
}

/// The policy names a path of more than `length` segments.
pub open spec fn lists_deeper(included: Seq<RepoPath>, excluded: Seq<RepoPath>, length: int) -> bool {
    (exists|i: int| 0 <= i < included.len() && (#[trigger] included[i])@.len() > length) || (exists|
        i: int,
    | 0 <= i < excluded.len() && (#[trigger] excluded[i])@.len() > length)
}

/// `path` is left out on account of `entry`: it is the path of the entry,
/// which is dropped, or it lies strictly below the entry, which is entered.
pub open spec fn left_out_by(
    included: Seq<RepoPath>,
    excluded: Seq<RepoPath>,
    prefix: Segments,
    entry: TreeEntry,
    path: Segments,
) -> bool {
    match entry_outcome(included, excluded, prefix, entry) {
        Decision::Keep => false,
        Decision::Rebuild => is_strict_prefix(entry_path(prefix, entry), path),
        Decision::Drop => path == entry_path(prefix, entry),
    }
}

/// The contents of the tree that replaces the one with `entries`: the entries
/// that are not dropped, each under its name and with its mode, a kept one
/// with its own child and a rebuilt one with what `map` gives for its child.
/// Of two entries with one name the later stands.
pub open spec fn rewritten(
    included: Seq<RepoPath>,
    excluded: Seq<RepoPath>,
    prefix: Segments,
    map: Rebuilt,
    entries: Seq<TreeEntry>,
) -> TreeContent
    decreases entries.len(),
{
    if entries.len() == 0 {
        Map::empty()
    } else {
        let front = rewritten(included, excluded, prefix, map, entries.drop_last());
        let entry = entries.last();
        if entry_outcome(included, excluded, prefix, entry) == Decision::Drop {
            front
        } else {
            front.insert(
                entry.name.unwrap()@,
                (entry.mode, entry_target(included, excluded, prefix, map, entry)),
            )
        }
    }
}

/// The digest of the tree that stands for `tree` at `prefix`: its own where no
/// entry changes, and else the digest of the rewritten contents.
pub open spec fn expected_tree(
    included: Seq<RepoPath>,
    excluded: Seq<RepoPath>,
    prefix: Segments,
    map: Rebuilt,
    tree: TreeNode,
) -> ObjectId {
    if tree_changed(included, excluded, prefix, map, tree.entries@) {
        tree_digest(rewritten(included, excluded, prefix, map, tree.entries@))
    } else {
        tree.id
    }
}

/// The tree and every parent of the commit have their result in `map`.
pub open spec fn commit_parts_known(map: Rebuilt, commit: CommitNode) -> bool {
    &&& map.contains_key(commit.tree)
    &&& forall|i: int| 0 <= i < commit.parents@.len() ==> map.contains_key(#[trigger] commit.parents@[i])
}

/// The parents of the rebuilt commit: what `map` gives for each parent of the
/// commit it stands for, in the same order.
pub open spec fn mapped_parents(map: Rebuilt, parents: Seq<ObjectId>) -> Seq<ObjectId> {
    Seq::new(parents.len(), |i: int| map[parents[i]])
}

/// The tree of the commit or one of its parents was rebuilt to another digest.
pub open spec fn commit_changed(map: Rebuilt, commit: CommitNode) -> bool {
    map[commit.tree] != commit.tree || exists|i: int|
        0 <= i < commit.parents@.len() && map[#[trigger] commit.parents@[i]] != commit.parents@[i]
}

/// The message that the rebuilt commit bears: that of the commit it stands
/// for, letter for letter. A commit whose message is not valid text cannot
/// be written anew.
pub open spec fn commit_message(commit: CommitNode) -> Seq<char> {
    commit.message.unwrap()@
}

/// The digest of the commit that stands for `commit`: its own where neither
/// its tree nor a parent changed, and else the digest of a commit with the
/// rebuilt tree, the rebuilt parents and the same message.
pub open spec fn expected_commit(map: Rebuilt, commit: CommitNode) -> ObjectId {
    if commit_changed(map, commit) {
        commit_digest(
            commit.id,
            map[commit.tree],
            mapped_parents(map, commit.parents@),
            commit_message(commit),
        )
    } else {
        commit.id
    }
}

/// What a digest in the record was rebuilt from: the tree as it was read and
/// the place where it stood, or the commit as it was read.
pub enum Source {
    Tree { node: TreeNode, at: Segments },
    Commit { node: CommitNode },
}

/// For each digest in the record, what it was rebuilt from.
pub type Account = Map<ObjectId, Source>;

/// The record's entry for `key` is what the policy and the record make of
/// `source`: of a tree, with every entry named and every entered child in
/// the record; of a commit, with its tree and parents in the record.
pub open spec fn follows_from(
    included: Seq<RepoPath>,
    excluded: Seq<RepoPath>,
    map: Rebuilt,
    key: ObjectId,
    source: Source,
) -> bool {
    match source {
        Source::Tree { node, at } => {
            &&& node.id == key
            &&& all_named(node.entries@)
            &&& children_known(included, excluded, at, map, node.entries@)
            &&& map[key] == expected_tree(included, excluded, at, map, node)
        },
        Source::Commit { node } => {
            &&& node.id == key
            &&& commit_parts_known(map, node)
            &&& map[key] == expected_commit(map, node)
            &&& commit_changed(map, node) ==> node.message is Some
        },
    }
}

/// What follows from a source stays so when the record grows.
pub proof fn lemma_follows_from_stable(
    included: Seq<RepoPath>,
    excluded: Seq<RepoPath>,
    before: Rebuilt,
    after: Rebuilt,
    key: ObjectId,
    source: Source,
)
    requires
        grows(before, after),
        before.contains_key(key),
        follows_from(included, excluded, before, key, source),
    ensures
        follows_from(included, excluded, after, key, source),
{
    match source {
        Source::Tree { node, at } => {
            lemma_rewritten_stable(included, excluded, at, before, after, node.entries@);
        },
        Source::Commit { node } => {
            assert(mapped_parents(after, node.parents@) =~= mapped_parents(before, node.parents@));
        },
    }
}

/// The record only grew: what `before` holds, `after` holds unchanged.
pub open spec fn grows(before: Rebuilt, after: Rebuilt) -> bool {
    forall|k: ObjectId| #[trigger]
        before.contains_key(k) ==> after.contains_key(k) && after[k] == before[k]
}

/// Every digest in `map` was rebuilt to itself.
pub open spec fn is_identity(map: Rebuilt) -> bool {
    forall|k: ObjectId| map.contains_key(k) ==> #[trigger] map[k] == k
}

/// What was decided for a tree stays decided when the record grows: the
/// rewritten contents and the verdict on change read the record only at the
/// children that are rebuilt.
pub proof fn lemma_rewritten_stable(
    included: Seq<RepoPath>,
    excluded: Seq<RepoPath>,
    prefix: Segments,
    before: Rebuilt,
    after: Rebuilt,
    entries: Seq<TreeEntry>,
)
    requires
        grows(before, after),
        children_known(included, excluded, prefix, before, entries),
    ensures
        children_known(included, excluded, prefix, after, entries),
        rewritten(included, excluded, prefix, after, entries) == rewritten(
            included,
            excluded,
            prefix,
            before,
            entries,
        ),
        tree_changed(included, excluded, prefix, after, entries) == tree_changed(
            included,
            excluded,
            prefix,
            before,
            entries,
        ),
    decreases entries.len(),
{
    if entries.len() > 0 {
        let front = entries.drop_last();
        lemma_rewritten_stable(included, excluded, prefix, before, after, front);
    }
}

/// Taking one more entry into account: the contents gain that entry unless it
/// is dropped, and the tree changes if it did before or the entry changes it.
pub proof fn lemma_rewritten_step(
    included: Seq<RepoPath>,
    excluded: Seq<RepoPath>,
    prefix: Segments,
    map: Rebuilt,
    entries: Seq<TreeEntry>,
    count: int,
)
    requires
        0 <= count < entries.len(),
    ensures
        rewritten(included, excluded, prefix, map, entries.subrange(0, count + 1)) == (if entry_outcome(
            included,
            excluded,
            prefix,
            entries[count],
        ) == Decision::Drop {
            rewritten(included, excluded, prefix, map, entries.subrange(0, count))
        } else {
            rewritten(included, excluded, prefix, map, entries.subrange(0, count)).insert(
                entries[count].name.unwrap()@,
                (entries[count].mode, entry_target(included, excluded, prefix, map, entries[count])),
            )
        }),
        tree_changed(included, excluded, prefix, map, entries.subrange(0, count + 1)) == (tree_changed(
            included,
            excluded,
            prefix,
            map,
            entries.subrange(0, count),
        ) || entry_changed(included, excluded, prefix, map, entries[count])),
        descends(included, excluded, prefix, entries.subrange(0, count + 1)) == (descends(
            included,
            excluded,
            prefix,
            entries.subrange(0, count),
        ) || entry_outcome(included, excluded, prefix, entries[count]) == Decision::Rebuild),
{
    let front = entries.subrange(0, count);
    let next = entries.subrange(0, count + 1);
    assert(next.drop_last() =~= front);
}

/// No two entries bear one name.
pub open spec fn distinct_names(entries: Seq<TreeEntry>) -> bool {
    forall|i: int, j: int|
        0 <= i < j < entries.len() ==> (#[trigger] entries[i]).name.unwrap()@ != (
        #[trigger] entries[j]).name.unwrap()@
}

/// What the rewritten tree holds, entry by entry: nothing under the name of a
/// dropped entry, and under the name of any other its mode and the digest
/// that stands for its child; and it holds no other name.
pub proof fn lemma_rewritten_entries(
    included: Seq<RepoPath>,
    excluded: Seq<RepoPath>,
    prefix: Segments,
    map: Rebuilt,
    entries: Seq<TreeEntry>,
)
    requires
        all_named(entries),
        distinct_names(entries),
    ensures
        forall|i: int|
            0 <= i < entries.len() && entry_outcome(included, excluded, prefix, #[trigger] entries[i])
                == Decision::Drop ==> !rewritten(included, excluded, prefix, map, entries).contains_key(
                entries[i].name.unwrap()@,
            ),
        forall|i: int|
            0 <= i < entries.len() && entry_outcome(included, excluded, prefix, #[trigger] entries[i])
                != Decision::Drop ==> rewritten(included, excluded, prefix, map, entries).contains_key(
                entries[i].name.unwrap()@,
            ) && rewritten(included, excluded, prefix, map, entries)[entries[i].name.unwrap()@] == (
                entries[i].mode,
                entry_target(included, excluded, prefix, map, entries[i]),
            ),
        forall|name: Seq<char>| #[trigger]
            rewritten(included, excluded, prefix, map, entries).contains_key(name) ==> exists|i: int|
                0 <= i < entries.len() && (#[trigger] entries[i]).name.unwrap()@ == name
                    && entry_outcome(included, excluded, prefix, entries[i]) != Decision::Drop,
    decreases entries.len(),
{
    if entries.len() > 0 {
        let front = entries.drop_last();
        let whole = rewritten(included, excluded, prefix, map, entries);
        let part = rewritten(included, excluded, prefix, map, front);
        lemma_rewritten_entries(included, excluded, prefix, map, front);
        assert forall|i: int|
            0 <= i < entries.len() && entry_outcome(included, excluded, prefix, #[trigger] entries[i])
                != Decision::Drop implies whole.contains_key(entries[i].name.unwrap()@) && whole[entries[i].name.unwrap()@]
            == (entries[i].mode, entry_target(included, excluded, prefix, map, entries[i])) by {
            if i < entries.len() - 1 {
                assert(front[i] == entries[i]);
            }
        }
    }
}

/// An entry that is kept as it is stands in the rewritten tree under its name
/// with its mode and with the digest that its child had.
pub proof fn lemma_kept_entry_keeps_child(
    included: Seq<RepoPath>,
    excluded: Seq<RepoPath>,
    prefix: Segments,
    map: Rebuilt,
    entries: Seq<TreeEntry>,
    index: int,
)
    requires
        all_named(entries),
        distinct_names(entries),
        0 <= index < entries.len(),
        entry_outcome(included, excluded, prefix, entries[index]) == Decision::Keep,
    ensures
        rewritten(included, excluded, prefix, map, entries).contains_key(entries[index].name.unwrap()@),
        rewritten(included, excluded, prefix, map, entries)[entries[index].name.unwrap()@] == (
            entries[index].mode,
            entries[index].id,
        ),
{
    lemma_rewritten_entries(included, excluded, prefix, map, entries);
}

/// Two entries that are rebuilt and have one child stand in the rewritten
/// trees with one digest, wherever the two lie.
pub proof fn lemma_shared_child_shares_result(
    included: Seq<RepoPath>,
    excluded: Seq<RepoPath>,
    map: Rebuilt,
    prefix: Segments,
    entries: Seq<TreeEntry>,
    index: int,
    other_prefix: Segments,
    other_entries: Seq<TreeEntry>,
    other_index: int,
)
    requires
        all_named(entries),
        distinct_names(entries),
        all_named(other_entries),
        distinct_names(other_entries),
        0 <= index < entries.len(),
        0 <= other_index < other_entries.len(),
        entry_outcome(included, excluded, prefix, entries[index]) == Decision::Rebuild,
        entry_outcome(included, excluded, other_prefix, other_entries[other_index]) == Decision::Rebuild,
        entries[index].id == other_entries[other_index].id,
    ensures
        rewritten(included, excluded, prefix, map, entries)[entries[index].name.unwrap()@].1 == rewritten(
            included,
            excluded,
            other_prefix,
            map,
            other_entries,
        )[other_entries[other_index].name.unwrap()@].1,
{
    lemma_rewritten_entries(included, excluded, prefix, map, entries);
    lemma_rewritten_entries(included, excluded, other_prefix, map, other_entries);
}

/// A commit of which a parent was rebuilt to another digest is rebuilt to a
/// new commit, even where its own tree stays as it is; and the parents of the
/// new commit are what the parents were rebuilt to, never the parents
/// themselves.
pub proof fn lemma_changed_parent_changes_commit(map: Rebuilt, commit: CommitNode, index: int)
    requires
        0 <= index < commit.parents@.len(),
        map[commit.parents@[index]] != commit.parents@[index],
    ensures
        commit_changed(map, commit),
        expected_commit(map, commit) == commit_digest(
            commit.id,
            map[commit.tree],
            mapped_parents(map, commit.parents@),
            commit_message(commit),
        ),
        mapped_parents(map, commit.parents@).len() == commit.parents@.len(),
        forall|i: int|
            0 <= i < commit.parents@.len() ==> #[trigger] mapped_parents(map, commit.parents@)[i]
                == map[commit.parents@[i]],
{
}

/// Without inclusions and exclusions no tree changes.
pub proof fn lemma_empty_policy_tree(
    included: Seq<RepoPath>,
    excluded: Seq<RepoPath>,
    prefix: Segments,
    map: Rebuilt,
    tree: TreeNode,
)
    requires
        included.len() == 0,
        excluded.len() == 0,
    ensures
        !tree_changed(included, excluded, prefix, map, tree.entries@),
        expected_tree(included, excluded, prefix, map, tree) == tree.id,
{
}

/// A commit whose tree and parents were all rebuilt to themselves is rebuilt
/// to itself.
pub proof fn lemma_identity_commit(map: Rebuilt, commit: CommitNode)
    requires
        commit_parts_known(map, commit),
        is_identity(map),
    ensures
        expected_commit(map, commit) == commit.id,
{
}

} // verus!
