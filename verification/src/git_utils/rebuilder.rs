//! Rebuilds trees and commits under a policy, each object once.

use vstd::prelude::*;
use crate::git_utils::id_map::{moved_keys, IdMap};
use crate::git_utils::object::{CommitNode, ObjectId, TreeEntry, TreeNode, TREE_MODE};
use crate::git_utils::order::{
    ascending, lemma_path_less_transitive, path_less_than, rank_paths, Rank,
};
use crate::git_utils::path::{is_prefix, is_strict_prefix, RepoPath, Segments};
use crate::git_utils::policy::{classify, decide, names, Decision};
use crate::git_utils::rewrite::{
    all_named, all_sound, children_known, commit_changed, commit_message, commit_parts_known,
    descends, entry_outcome, entry_path, entry_refused, expected_commit, expected_tree,
    first_refused, follows_from, grows, is_identity, left_out_by, lemma_empty_policy_tree,
    lemma_follows_from_stable, lists_deeper, Account, Source,
    lemma_rewritten_stable, lemma_rewritten_step, mapped_parents, rewritten, tree_changed, Rebuilt,
};
use crate::git_utils::store::{
    builder_entries, builder_insert, builder_write, commit_digest, load_commit, load_tree,
    new_builder, write_commit,
};

verus! {

/// How many trees below the one it is given the rebuilder follows. The
/// descent takes a call for each tree, so the limit bounds the stack.
pub const TREE_DEPTH_LIMIT: usize = 1024;

/// Why a rebuild stopped.
#[derive(Debug, PartialEq)]
pub enum RebuildError {
    /// A tree holds an entry without a name.
    MissingName,
    /// Only a part of the entry at this path is to stay, and it is no tree.
    NotATree(RepoPath),
    /// The object store failed to read or to write.
    Store(git2::Error),
    /// Trees are nested deeper than the rebuilder follows them.
    TooDeep,
    /// An object was met again before it was done: it lies below itself.
    Cycle,
    /// The history did not end within the steps allowed.
    OutOfSteps,
    /// A commit is to be written anew, and its message is not valid text, so
    /// that it cannot be handed on letter for letter.
    UnreadableMessage,
}

/// Rebuilds trees and commits under a policy of included and excluded paths,
/// and remembers what each digest it met was rebuilt to.
pub struct Rebuilder<'c, 'r> {
    repository: &'r git2::Repository,
    included: &'c [RepoPath],
    excluded: &'c [RepoPath],
    /// Each digest met, with the digest it was rebuilt to.
    id_map: IdMap,
    /// The paths left out so far, in ascending order.
    filtered: Vec<RepoPath>,
    /// What each digest in the record was rebuilt from.
    account: Ghost<Account>,
}

/// `error` is what the entry, which cannot be dealt with, is refused with.
pub open spec fn refusal_of(prefix: Segments, entry: TreeEntry, error: RebuildError) -> bool {
    match error {
        RebuildError::MissingName => entry.name is None,
        RebuildError::NotATree(path) => entry.name is Some && path@ == entry_path(prefix, entry),
        _ => false,
    }
}

/// `error` is what the first of the entries that cannot be dealt with is
/// refused with.
pub open spec fn refused_with(
    included: Seq<RepoPath>,
    excluded: Seq<RepoPath>,
    prefix: Segments,
    entries: Seq<TreeEntry>,
    error: RebuildError,
) -> bool {
    exists|i: int| #[trigger]
        first_refused(included, excluded, prefix, entries, i) && refusal_of(prefix, entries[i], error)
}

/// The decision for each entry of a tree at `prefix`, in the entries' order.
///
/// A tree is refused for the first of its entries that bears no name, or of
/// which only a part is to stay although it is no tree.
pub fn plan_entries(
    included: &[RepoPath],
    excluded: &[RepoPath],
    prefix: &RepoPath,
    entries: &Vec<TreeEntry>,
) -> (r: Result<Vec<Decision>, RebuildError>)
    ensures
        match r {
            Ok(plan) => all_sound(included@, excluded@, prefix@, entries@) && plan@.len()
                == entries@.len() && forall|i: int|
                0 <= i < entries@.len() ==> #[trigger] plan@[i] == entry_outcome(
                    included@,
                    excluded@,
                    prefix@,
                    entries@[i],
                ),
            Err(e) => refused_with(included@, excluded@, prefix@, entries@, e),
        },
{
    let mut plan: Vec<Decision> = Vec::new();
    let mut i: usize = 0;
    while i < entries.len()
        invariant
            i <= entries.len(),
            plan@.len() == i,
            forall|j: int|
                0 <= j < i ==> !entry_refused(included@, excluded@, prefix@, #[trigger] entries@[j]),
            forall|j: int|
                0 <= j < i ==> #[trigger] plan@[j] == entry_outcome(
                    included@,
                    excluded@,
                    prefix@,
                    entries@[j],
                ),
        decreases entries.len() - i,
    {
        match &entries[i].name {
            None => {
                assert(first_refused(included@, excluded@, prefix@, entries@, i as int));
                return Err(RebuildError::MissingName);
            },
            Some(name) => {
                let path = prefix.join(name.as_str());
                let decision = classify(included, excluded, &path);
                if decision == Decision::Rebuild && entries[i].mode != TREE_MODE {
                    assert(first_refused(included@, excluded@, prefix@, entries@, i as int));
                    return Err(RebuildError::NotATree(path));
                }
                plan.push(decision);
            },
        }
        i += 1;
    }
    Ok(plan)
}

impl<'c, 'r> Rebuilder<'c, 'r> {
    /// The paths that are included.
    pub closed spec fn included(&self) -> Seq<RepoPath> {
        self.included@
    }

    /// The paths that are excluded.
    pub closed spec fn excluded(&self) -> Seq<RepoPath> {
        self.excluded@
    }

    /// What each digest met so far was rebuilt to.
    pub closed spec fn id_map(&self) -> Rebuilt {
        self.id_map@
    }

    /// The paths left out so far.
    pub closed spec fn filtered(&self) -> Set<Segments> {
        Set::new(|path: Segments| names(self.filtered@, path))
    }

    /// What each digest in the record was rebuilt from: the tree or the
    /// commit as the store handed it out when it was rebuilt.
    pub closed spec fn account(&self) -> Account {
        self.account@
    }

    /// Every digest in the record, and no other, is accounted for, and its
    /// entry is what the policy and the record make of what it was rebuilt
    /// from.
    pub open spec fn accounted(&self) -> bool {
        forall|key: ObjectId|
            (#[trigger] self.id_map().contains_key(key) <==> self.account().contains_key(key)) && (
            self.id_map().contains_key(key) ==> follows_from(
                self.included(),
                self.excluded(),
                self.id_map(),
                key,
                self.account()[key],
            ))
    }

    /// The store that the rebuilder reads and writes.
    pub closed spec fn store(&self) -> &'r git2::Repository {
        self.repository
    }

    /// The record is sound and accounted for, the paths left out stand in
    /// ascending order and hold what the trees in the record drop, and under
    /// a policy without inclusions and exclusions the record sends every
    /// digest to itself.
    pub closed spec fn wf(&self) -> bool {
        &&& self.id_map.wf()
        &&& ascending(self.filtered@)
        &&& self.included@.len() == 0 && self.excluded@.len() == 0 ==> is_identity(self.id_map@)
        &&& self.accounted()
        &&& self.drops_recorded()
    }

    /// The policy has no inclusions and no exclusions: it keeps everything.
    pub open spec fn keeps_all(&self) -> bool {
        self.included().len() == 0 && self.excluded().len() == 0
    }

    /// This state came from `earlier` by rebuilding: same store and policy,
    /// the record, its account and the paths left out only grew.
    pub open spec fn follows(&self, earlier: Self) -> bool {
        &&& self.store() == earlier.store()
        &&& self.included() == earlier.included()
        &&& self.excluded() == earlier.excluded()
        &&& grows(earlier.id_map(), self.id_map())
        &&& earlier.filtered().subset_of(self.filtered())
        &&& forall|key: ObjectId| #[trigger]
            earlier.account().contains_key(key) ==> self.account().contains_key(key)
                && self.account()[key] == earlier.account()[key]
    }

    /// Every path left out since `earlier` lies strictly below `prefix` and is
    /// one that the policy drops.
    pub open spec fn dropped_below(&self, earlier: Self, prefix: Segments) -> bool {
        forall|path: Segments| #[trigger]
            self.filtered().contains(path) && !earlier.filtered().contains(path) ==> is_strict_prefix(
                prefix,
                path,
            ) && decide(self.included(), self.excluded(), path) == Decision::Drop
    }

    /// Every path left out since `earlier` is left out on account of one of
    /// the first `count` of `entries`, which stand at `prefix`: it is the path
    /// of an entry that is dropped, or it lies strictly below one that is
    /// entered.
    pub open spec fn dropped_from(
        &self,
        earlier: Self,
        entries: Seq<TreeEntry>,
        prefix: Segments,
        count: int,
    ) -> bool {
        forall|path: Segments| #[trigger]
            self.filtered().contains(path) && !earlier.filtered().contains(path) ==> exists|i: int|
                0 <= i < count && i < entries.len() && left_out_by(
                    self.included(),
                    self.excluded(),
                    prefix,
                    #[trigger] entries[i],
                    path,
                )
    }

    /// `key` was entered in the record since `earlier`.
    pub open spec fn entered_since(&self, earlier: Self, key: ObjectId) -> bool {
        self.id_map().contains_key(key) && !earlier.id_map().contains_key(key)
    }

    /// `key` was entered for the entry at `index` of the tree `parent`, which
    /// was itself entered since `earlier`: the entry is one that is entered,
    /// `key` is its child, and the child stood at the entry's path.
    pub open spec fn child_of(&self, earlier: Self, parent: ObjectId, index: int, key: ObjectId) -> bool {
        &&& self.entered_since(earlier, parent)
        &&& self.id_map().contains_key(key)
        &&& self.account()[parent] matches Source::Tree { node, at }
        &&& 0 <= index < node.entries@.len()
        &&& entry_outcome(self.included(), self.excluded(), at, node.entries@[index])
            == Decision::Rebuild
        &&& node.entries@[index].id == key
        &&& self.account()[key] matches Source::Tree { node: child, at: below }
        &&& below == entry_path(at, node.entries@[index])
    }

    /// `key`, which stood at `at`, was entered for `entry` of the tree at
    /// `prefix`.
    pub open spec fn entered_for(&self, prefix: Segments, entry: TreeEntry, key: ObjectId, at: Segments) -> bool {
        entry_outcome(self.included(), self.excluded(), prefix, entry) == Decision::Rebuild && entry.id
            == key && at == entry_path(prefix, entry)
    }

    /// Every digest entered since `earlier` is that of a tree that stood at
    /// `prefix` or below it.
    pub open spec fn entered_below(&self, earlier: Self, prefix: Segments) -> bool {
        forall|key: ObjectId| #[trigger]
            self.entered_since(earlier, key) ==> (self.account()[key] matches Source::Tree { node, at }
                && is_prefix(prefix, at))
    }

    /// Every digest entered since `earlier` is that of a tree below `prefix`
    /// that was reached from one of the first `count` of `entries`: it is the
    /// child of such an entry, or of an entry of a tree that was entered
    /// since `earlier` too.
    pub open spec fn entered_under(
        &self,
        earlier: Self,
        entries: Seq<TreeEntry>,
        prefix: Segments,
        count: int,
    ) -> bool {
        forall|key: ObjectId| #[trigger]
            self.entered_since(earlier, key) ==> {
                &&& self.account()[key] matches Source::Tree { node, at }
                &&& is_strict_prefix(prefix, at)
                &&& (exists|i: int|
                    0 <= i < count && i < entries.len() && self.entered_for(
                        prefix,
                        #[trigger] entries[i],
                        key,
                        at,
                    )) || (exists|parent: ObjectId, i: int| #[trigger]
                    self.child_of(earlier, parent, i, key))
            }
    }

    /// Every digest entered since `earlier` is that of a tree reached from
    /// `tree` at `prefix`: it is `tree` itself, accounted for as it was given,
    /// or the child of an entry of a tree that was entered since `earlier`
    /// too.
    pub open spec fn entered_from(&self, earlier: Self, tree: TreeNode, prefix: Segments) -> bool {
        forall|key: ObjectId| #[trigger]
            self.entered_since(earlier, key) ==> {
                &&& self.account()[key] matches Source::Tree { node, at }
                &&& is_prefix(prefix, at)
                &&& (key == tree.id && node == tree && at == prefix) || (exists|
                    parent: ObjectId,
                    i: int,
                | #[trigger] self.child_of(earlier, parent, i, key))
            }
    }

    /// `path` is that of the entry at `index` of the tree `key`, which is
    /// dropped; the tree was entered since `earlier`.
    pub open spec fn dropped_at(&self, earlier: Self, key: ObjectId, index: int, path: Segments) -> bool {
        &&& self.entered_since(earlier, key)
        &&& self.account()[key] matches Source::Tree { node, at }
        &&& 0 <= index < node.entries@.len()
        &&& entry_outcome(self.included(), self.excluded(), at, node.entries@[index]) == Decision::Drop
        &&& path == entry_path(at, node.entries@[index])
    }

    /// Every path left out since `earlier` is that of a dropped entry: of one
    /// of the first `count` of `entries`, which stand at `prefix`, or of a
    /// tree that was entered since `earlier`.
    pub open spec fn dropped_under(
        &self,
        earlier: Self,
        entries: Seq<TreeEntry>,
        prefix: Segments,
        count: int,
    ) -> bool {
        forall|path: Segments| #[trigger]
            self.filtered().contains(path) && !earlier.filtered().contains(path) ==> (exists|i: int|
                0 <= i < count && i < entries.len() && entry_outcome(
                    self.included(),
                    self.excluded(),
                    prefix,
                    #[trigger] entries[i],
                ) == Decision::Drop && path == entry_path(prefix, entries[i])) || (exists|
                key: ObjectId,
                i: int,
            | #[trigger] self.dropped_at(earlier, key, i, path))
    }

    /// Every path left out since `earlier` is that of a dropped entry of a
    /// tree that was entered since `earlier`.
    pub open spec fn dropped_by(&self, earlier: Self) -> bool {
        forall|path: Segments| #[trigger]
            self.filtered().contains(path) && !earlier.filtered().contains(path) ==> exists|
                key: ObjectId,
                i: int,
            | #[trigger] self.dropped_at(earlier, key, i, path)
    }

    /// The path of every dropped entry of every tree in the record is among
    /// the paths left out.
    pub open spec fn drops_recorded(&self) -> bool {
        forall|key: ObjectId, i: int|
            #![trigger self.account()[key], self.account()[key]->Tree_node.entries@[i]]
            self.id_map().contains_key(key) && (self.account()[key] matches Source::Tree { node, at }
                && 0 <= i < node.entries@.len() && entry_outcome(
                self.included(),
                self.excluded(),
                at,
                node.entries@[i],
            ) == Decision::Drop) ==> self.filtered().contains(
                entry_path(self.account()[key]->Tree_at, self.account()[key]->Tree_node.entries@[i]),
            )
    }

    /// The state after `tree` at `prefix` was rebuilt to `node`.
    ///
    /// The record sends the tree to `node`. Where it did so before, nothing
    /// has changed. Where it did not, every entry bears a name, every child
    /// that was rebuilt is in the record, `node` is what the record and the
    /// policy make of the tree, and every dropped entry is among the paths
    /// left out.
    pub open spec fn tree_done(&self, earlier: Self, tree: TreeNode, prefix: Segments, node: TreeNode) -> bool {
        &&& self.id_map().contains_key(tree.id)
        &&& self.id_map()[tree.id] == node.id
        &&& earlier.id_map().contains_key(tree.id) ==> self.id_map() == earlier.id_map()
            && self.filtered() == earlier.filtered()
        &&& !earlier.id_map().contains_key(tree.id) ==> {
            &&& all_named(tree.entries@)
            &&& children_known(self.included(), self.excluded(), prefix, self.id_map(), tree.entries@)
            &&& node.id == expected_tree(self.included(), self.excluded(), prefix, self.id_map(), tree)
            &&& forall|i: int|
                0 <= i < tree.entries@.len() && entry_outcome(
                    self.included(),
                    self.excluded(),
                    prefix,
                    #[trigger] tree.entries@[i],
                ) == Decision::Drop ==> self.filtered().contains(entry_path(prefix, tree.entries@[i]))
        }
    }

    /// What the failure `error` of a rebuild of `tree` at `prefix`, begun in
    /// this state, tells.
    ///
    /// The store can fail at any time. An entry is refused only in a tree that
    /// the record does not answer for: in this tree, and then it is the first
    /// such entry, or in one below it. The other failures come from below:
    /// `tree` is then not in the record, all its entries can be dealt with and
    /// one of them is to be rebuilt.
    pub open spec fn tree_failed(&self, tree: TreeNode, prefix: Segments, error: RebuildError) -> bool {
        match error {
            RebuildError::Store(_) => true,
            RebuildError::MissingName | RebuildError::NotATree(_) => !self.id_map().contains_key(
                tree.id,
            ) && (refused_with(self.included(), self.excluded(), prefix, tree.entries@, error) || (
            all_sound(self.included(), self.excluded(), prefix, tree.entries@) && descends(
                self.included(),
                self.excluded(),
                prefix,
                tree.entries@,
            ))),
            RebuildError::TooDeep | RebuildError::Cycle => !self.id_map().contains_key(tree.id)
                && all_sound(self.included(), self.excluded(), prefix, tree.entries@) && descends(
                self.included(),
                self.excluded(),
                prefix,
                tree.entries@,
            ),
            RebuildError::OutOfSteps | RebuildError::UnreadableMessage => false,
        }
    }

    /// What the failure `error` of a rebuild of `commit`, begun in this state,
    /// tells: where the record answers for the commit, only the store can
    /// fail; and trees are found too deep only where the policy names a path
    /// of more segments than the rebuilder follows.
    pub open spec fn commit_failed(&self, commit: CommitNode, error: RebuildError) -> bool {
        match error {
            RebuildError::Store(_) => true,
            RebuildError::TooDeep => !self.id_map().contains_key(commit.id) && lists_deeper(
                self.included(),
                self.excluded(),
                TREE_DEPTH_LIMIT as int,
            ),
            _ => !self.id_map().contains_key(commit.id),
        }
    }

    /// What the failure `error` tells of a commit with rebuilt parents that was
    /// to be finished in this state.
    ///
    /// A commit that the record holds already is refused as lying below
    /// itself, before the store is asked; so the store fails only for a commit
    /// that the record does not hold. The same refusal meets a commit that the
    /// rebuilding of its tree enters in the record. A failure of that
    /// rebuilding comes only where the record does not answer for the tree.
    /// A message is found unreadable only where the commit has none that is
    /// valid text.
    pub open spec fn finish_failed(&self, commit: CommitNode, error: RebuildError) -> bool {
        match error {
            RebuildError::Store(_) => !self.id_map().contains_key(commit.id),
            RebuildError::Cycle => self.id_map().contains_key(commit.id) || !self.id_map().contains_key(
                commit.tree,
            ),
            RebuildError::MissingName | RebuildError::NotATree(_) => !self.id_map().contains_key(
                commit.id,
            ) && !self.id_map().contains_key(commit.tree),
            RebuildError::TooDeep => !self.id_map().contains_key(commit.id)
                && !self.id_map().contains_key(commit.tree) && lists_deeper(
                self.included(),
                self.excluded(),
                TREE_DEPTH_LIMIT as int,
            ),
            RebuildError::UnreadableMessage => !self.id_map().contains_key(commit.id)
                && commit.message is None,
            RebuildError::OutOfSteps => false,
        }
    }

    /// The state after `commit` was rebuilt to `node`.
    ///
    /// The record sends the commit to `node`. Where it did so before, nothing
    /// has changed. Where it did not, the commit's tree and parents are in the
    /// record, and `node` is what the record makes of the commit: the commit
    /// itself where neither its tree nor a parent changed, and else a commit
    /// with the rebuilt tree, the rebuilt parents and the same message, which
    /// is then valid text; and the commit is accounted for as it was given.
    pub open spec fn commit_done(&self, earlier: Self, commit: CommitNode, node: CommitNode) -> bool {
        &&& self.id_map().contains_key(commit.id)
        &&& self.id_map()[commit.id] == node.id
        &&& earlier.id_map().contains_key(commit.id) ==> self.id_map() == earlier.id_map()
            && self.filtered() == earlier.filtered()
        &&& !earlier.id_map().contains_key(commit.id) ==> commit_parts_known(self.id_map(), commit)
            && node.id == expected_commit(self.id_map(), commit) && (commit_changed(
            self.id_map(),
            commit,
        ) ==> commit.message is Some) && self.account()[commit.id] == (Source::Commit { node: commit })
    }

    /// A rebuilder over `repository` that has rebuilt nothing yet.
    pub fn new(repository: &'r git2::Repository, included: &'c [RepoPath], excluded: &'c [RepoPath]) -> (rebuilder: Self)
        ensures
            rebuilder.wf(),
            rebuilder.store() == repository,
            rebuilder.included() == included@,
            rebuilder.excluded() == excluded@,
            rebuilder.id_map() == Rebuilt::empty(),
            rebuilder.account() == Account::empty(),
            rebuilder.filtered() == Set::<Segments>::empty(),
    {
        let rebuilder = Rebuilder {
            repository,
            included,
            excluded,
            id_map: IdMap::new(),
            filtered: Vec::new(),
            account: Ghost(Map::empty()),
        };
        rebuilder
    }

    /// Whether `id` was rebuilt to another digest than itself. A digest not
    /// met yet counts as unchanged.
    pub fn changed(&self, id: ObjectId) -> (r: bool)
        requires
            self.wf(),
        ensures
            r == (self.id_map().contains_key(id) && self.id_map()[id] != id),
    {
        match self.id_map.get(&id) {
            Some(rebuilt) => !rebuilt.same(&id),
            None => false,
        }
    }

    /// What `id` was rebuilt to, if it was met.
    pub fn rebuilt(&self, id: &ObjectId) -> (r: Option<ObjectId>)
        requires
            self.wf(),
        ensures
            r == (if self.id_map().contains_key(*id) {
                Some(self.id_map()[*id])
            } else {
                None
            }),
    {
        self.id_map.get(id)
    }

    /// How many objects were rewritten, and how many were met and left as
    /// they are.
    pub fn debug_changes(&self) -> (counts: (usize, usize))
        requires
            self.wf(),
        ensures
            counts.0 == moved_keys(self.id_map()).len(),
            counts.0 + counts.1 == self.id_map().dom().len(),
    {
        let changed = self.id_map.moved();
        let unchanged = self.id_map.len() - changed;
        (changed, unchanged)
    }

    /// Records `path` among the paths left out, at its place in the order,
    /// unless it is there already.
    fn note_dropped(&mut self, path: RepoPath)
        requires
            old(self).wf(),
        ensures
            final(self).wf(),
            final(self).follows(*old(self)),
            final(self).id_map() == old(self).id_map(),
            final(self).account() == old(self).account(),
            final(self).filtered() == old(self).filtered().insert(path@),
    {
        let ghost before = self.filtered@;
        let mut i: usize = 0;
        let mut found = false;
        while i < self.filtered.len() && !found
            invariant
                i <= self.filtered.len(),
                self.filtered@ == before,
                *self == *old(self),
                self.wf(),
                forall|j: int| 0 <= j < i ==> path_less_than(#[trigger] before[j], path),
                found ==> i < before.len() && path_less_than(path, before[i as int]),
            decreases self.filtered.len() - i + (if found {
                0int
            } else {
                1int
            }),
        {
            match rank_paths(&self.filtered[i], &path) {
                Rank::Before => {
                    i += 1;
                },
                Rank::Same => {
                    return;
                },
                Rank::After => {
                    found = true;
                },
            }
        }
        self.filtered.insert(i, path);
        proof {
            assert(self.accounted()) by {
                assert(self.id_map() == old(self).id_map() && self.account() == old(self).account());
            }
            let after = self.filtered@;
            assert forall|a: int, b: int| 0 <= a < b < after.len() implies path_less_than(
                #[trigger] after[a],
                #[trigger] after[b],
            ) by {
                if a == i && b - 1 > i {
                    lemma_path_less_transitive(path@, before[i as int]@, before[b - 1]@);
                }
            }
            assert(self.filtered() =~= old(self).filtered().insert(path@)) by {
                assert forall|p: Segments| old(self).filtered().insert(path@).contains(
                    p,
                ) implies self.filtered().contains(p) by {
                    if p == path@ {
                        assert(after[i as int]@ == p);
                    } else {
                        let j = choose|j: int| 0 <= j < before.len() && (#[trigger] before[j])@ == p;
                        if j < i {
                            assert(after[j]@ == p);
                        } else {
                            assert(after[j + 1]@ == p);
                        }
                    }
                }
            }
        }
    }

    /// The paths left out so far, in ascending order and each once. The list
    /// is empty where everything was kept.
    pub fn debug_filtered(&self) -> (paths: Vec<RepoPath>)
        requires
            self.wf(),
        ensures
            ascending(paths@),
            forall|path: Segments| names(paths@, path) <==> self.filtered().contains(path),
    {
        let mut paths: Vec<RepoPath> = Vec::new();
        let mut i: usize = 0;
        while i < self.filtered.len()
            invariant
                i <= self.filtered.len(),
                paths@.len() == i,
                forall|j: int| 0 <= j < i ==> (#[trigger] paths@[j])@ == self.filtered@[j]@,
            decreases self.filtered.len() - i,
        {
            paths.push(self.filtered[i].duplicate());
            i += 1;
        }
        proof {
            assert forall|path: Segments| names(paths@, path) <==> self.filtered().contains(path) by {
                if self.filtered().contains(path) {
                    let j = choose|j: int|
                        0 <= j < self.filtered@.len() && (#[trigger] self.filtered@[j])@ == path;
                    assert(paths@[j]@ == path);
                }
            }
        }
        paths
    }

    /// Rebuilds `tree`, which stands at `prefix`, and returns the tree that
    /// takes its place, read back from the store.
    ///
    /// A tree met before is answered from the record, and nothing changes. A
    /// tree with an entry that cannot be dealt with is refused before anything
    /// is done. What is entered in the record is the tree and the trees
    /// reached from it through entries that are entered, and what is left
    /// out are the dropped entries of those trees.
    pub fn rebuild_tree(&mut self, tree: &TreeNode, prefix: &RepoPath) -> (result: Result<
        TreeNode,
        RebuildError,
    >)
        requires
            old(self).wf(),
        ensures
            final(self).wf(),
            final(self).follows(*old(self)),
            final(self).dropped_below(*old(self), prefix@),
            result matches Ok(node) ==> final(self).tree_done(*old(self), *tree, prefix@, node),
            old(self).id_map().contains_key(tree.id) ==> final(self).id_map() == old(self).id_map()
                && final(self).filtered() == old(self).filtered(),
            !old(self).id_map().contains_key(tree.id) && !all_sound(
                old(self).included(),
                old(self).excluded(),
                prefix@,
                tree.entries@,
            ) ==> final(self).id_map() == old(self).id_map() && final(self).filtered() == old(
                self,
            ).filtered() && (result matches Err(error) && refused_with(
                old(self).included(),
                old(self).excluded(),
                prefix@,
                tree.entries@,
                error,
            )),
            final(self).keeps_all() ==> final(self).filtered() == old(self).filtered() && (
            result matches Ok(node) ==> node.id == tree.id),
            result matches Err(error) ==> old(self).tree_failed(*tree, prefix@, error),
            final(self).keeps_all() ==> is_identity(final(self).id_map()),
            final(self).dropped_from(*old(self), tree.entries@, prefix@, tree.entries@.len() as int),
            final(self).entered_below(*old(self), prefix@),
            result is Ok ==> final(self).entered_from(*old(self), *tree, prefix@),
            result is Ok ==> final(self).dropped_by(*old(self)),
            !descends(old(self).included(), old(self).excluded(), prefix@, tree.entries@) ==> (
            result matches Ok(node) ==> final(self).id_map() == old(self).id_map().insert(
                tree.id,
                node.id,
            )) && (forall|k: ObjectId| #[trigger]
                final(self).id_map().contains_key(k) ==> old(self).id_map().contains_key(k) || k
                    == tree.id),
            result matches Err(RebuildError::TooDeep) ==> lists_deeper(
                old(self).included(),
                old(self).excluded(),
                prefix@.len() + TREE_DEPTH_LIMIT,
            ),
    {
        self.rebuild_tree_within(tree, prefix, TREE_DEPTH_LIMIT)
    }

    /// `rebuild_tree`, following at most `depth` trees below `tree`.
    pub fn rebuild_tree_within(&mut self, tree: &TreeNode, prefix: &RepoPath, depth: usize) -> (result: Result<
        TreeNode,
        RebuildError,
    >)
        requires
            old(self).wf(),
        ensures
            final(self).wf(),
            final(self).follows(*old(self)),
            final(self).dropped_below(*old(self), prefix@),
            result matches Ok(node) ==> final(self).tree_done(*old(self), *tree, prefix@, node),
            old(self).id_map().contains_key(tree.id) ==> final(self).id_map() == old(self).id_map()
                && final(self).filtered() == old(self).filtered(),
            !old(self).id_map().contains_key(tree.id) && !all_sound(
                old(self).included(),
                old(self).excluded(),
                prefix@,
                tree.entries@,
            ) ==> final(self).id_map() == old(self).id_map() && final(self).filtered() == old(
                self,
            ).filtered() && (result matches Err(error) && refused_with(
                old(self).included(),
                old(self).excluded(),
                prefix@,
                tree.entries@,
                error,
            )),
            final(self).keeps_all() ==> final(self).filtered() == old(self).filtered() && (
            result matches Ok(node) ==> node.id == tree.id),
            result matches Err(error) ==> old(self).tree_failed(*tree, prefix@, error),
            final(self).keeps_all() ==> is_identity(final(self).id_map()),
            final(self).dropped_from(*old(self), tree.entries@, prefix@, tree.entries@.len() as int),
            final(self).entered_below(*old(self), prefix@),
            result is Ok ==> final(self).entered_from(*old(self), *tree, prefix@),
            result is Ok ==> final(self).dropped_by(*old(self)),
            !descends(old(self).included(), old(self).excluded(), prefix@, tree.entries@) ==> (
            result matches Ok(node) ==> final(self).id_map() == old(self).id_map().insert(
                tree.id,
                node.id,
            )) && (forall|k: ObjectId| #[trigger]
                final(self).id_map().contains_key(k) ==> old(self).id_map().contains_key(k) || k
                    == tree.id),
            result matches Err(RebuildError::TooDeep) ==> lists_deeper(
                old(self).included(),
                old(self).excluded(),
                prefix@.len() + depth,
            ),
            depth == 0 && !old(self).id_map().contains_key(tree.id) && all_sound(
                old(self).included(),
                old(self).excluded(),
                prefix@,
                tree.entries@,
            ) && descends(
                old(self).included(),
                old(self).excluded(),
                prefix@,
                tree.entries@,
            ) ==> result is Err,
        decreases depth,
    {
        let repository = self.repository;
        if let Some(cached) = self.id_map.get(&tree.id) {
            return match load_tree(repository, &cached) {
                Ok(node) => Ok(node),
                Err(e) => Err(RebuildError::Store(e)),
            };
        }
        let plan = match plan_entries(self.included, self.excluded, prefix, &tree.entries) {
            Ok(plan) => plan,
            Err(e) => {
                return Err(e);
            },
        };
        let mut builder = match new_builder(repository) {
            Ok(builder) => builder,
            Err(e) => {
                return Err(RebuildError::Store(e));
            },
        };
        let mut changed = false;
        let mut i: usize = 0;
        while i < tree.entries.len()
            invariant
                i <= tree.entries.len(),
                self.wf(),
                self.follows(*old(self)),
                self.dropped_below(*old(self), prefix@),
                self.repository == repository,
                !old(self).id_map().contains_key(tree.id),
                self.dropped_from(*old(self), tree.entries@, prefix@, i as int),
                self.entered_under(*old(self), tree.entries@, prefix@, i as int),
                self.dropped_under(*old(self), tree.entries@, prefix@, i as int),
                all_sound(self.included(), self.excluded(), prefix@, tree.entries@),
                !descends(
                    self.included(),
                    self.excluded(),
                    prefix@,
                    tree.entries@.subrange(0, i as int),
                ) ==> self.id_map() == old(self).id_map(),
                depth == 0 ==> !descends(
                    self.included(),
                    self.excluded(),
                    prefix@,
                    tree.entries@.subrange(0, i as int),
                ),
                plan@.len() == tree.entries@.len(),
                forall|j: int|
                    0 <= j < tree.entries@.len() ==> #[trigger] plan@[j] == entry_outcome(
                        self.included(),
                        self.excluded(),
                        prefix@,
                        tree.entries@[j],
                    ),
                builder_entries(&builder) == rewritten(
                    self.included(),
                    self.excluded(),
                    prefix@,
                    self.id_map(),
                    tree.entries@.subrange(0, i as int),
                ),
                changed == tree_changed(
                    self.included(),
                    self.excluded(),
                    prefix@,
                    self.id_map(),
                    tree.entries@.subrange(0, i as int),
                ),
                children_known(
                    self.included(),
                    self.excluded(),
                    prefix@,
                    self.id_map(),
                    tree.entries@.subrange(0, i as int),
                ),
                forall|j: int|
                    0 <= j < i && entry_outcome(
                        self.included(),
                        self.excluded(),
                        prefix@,
                        #[trigger] tree.entries@[j],
                    ) == Decision::Drop ==> self.filtered().contains(
                        entry_path(prefix@, tree.entries@[j]),
                    ),
            decreases tree.entries.len() - i,
        {
            let entry = &tree.entries[i];
            let ghost front = tree.entries@.subrange(0, i as int);
            let ghost before = *self;
            proof {
                lemma_rewritten_step(
                    self.included(),
                    self.excluded(),
                    prefix@,
                    self.id_map(),
                    tree.entries@,
                    i as int,
                );
            }
            let name: &str = entry.name.as_ref().unwrap().as_str();
            match plan[i] {
                Decision::Keep => {
                    match builder_insert(&mut builder, name, &entry.id, entry.mode) {
                        Ok(()) => {},
                        Err(e) => {
                            return Err(RebuildError::Store(e));
                        },
                    }
                    proof {
                        self.lemma_entered_nothing(before, *old(self), tree.entries@, prefix@, i as int);
                        self.lemma_dropped_step(before, *old(self), tree.entries@, prefix@, i as int);
                    }
                },
                Decision::Rebuild => {
                    if depth == 0 {
                        return Err(RebuildError::TooDeep);
                    }
                    let path = prefix.join(name);
                    let child = match load_tree(repository, &entry.id) {
                        Ok(child) => child,
                        Err(e) => {
                            return Err(RebuildError::Store(e));
                        },
                    };
                    let rebuilt = match self.rebuild_tree_within(&child, &path, depth - 1) {
                        Ok(rebuilt) => rebuilt,
                        Err(e) => {
                            proof {
                                self.lemma_dropped_deeper(before, *old(self), prefix@, name@);
                                self.lemma_entered_deeper(
                                    before,
                                    *old(self),
                                    tree.entries@,
                                    prefix@,
                                    i as int,
                                    name@,
                                );
                            }
                            return Err(e);
                        },
                    };
                    proof {
                        self.lemma_dropped_deeper(before, *old(self), prefix@, name@);
                        self.lemma_entered_child(
                            before,
                            *old(self),
                            tree.entries@,
                            prefix@,
                            i as int,
                            child,
                        );
                        self.lemma_dropped_step(before, *old(self), tree.entries@, prefix@, i as int);
                        lemma_rewritten_stable(
                            self.included(),
                            self.excluded(),
                            prefix@,
                            before.id_map(),
                            self.id_map(),
                            front,
                        );
                        lemma_rewritten_step(
                            self.included(),
                            self.excluded(),
                            prefix@,
                            self.id_map(),
                            tree.entries@,
                            i as int,
                        );
                    }
                    if !rebuilt.id.same(&entry.id) {
                        changed = true;
                    }
                    match builder_insert(&mut builder, name, &rebuilt.id, entry.mode) {
                        Ok(()) => {},
                        Err(e) => {
                            return Err(RebuildError::Store(e));
                        },
                    }
                },
                Decision::Drop => {
                    let path = prefix.join(name);
                    self.note_dropped(path);
                    changed = true;
                    proof {
                        self.lemma_entered_nothing(before, *old(self), tree.entries@, prefix@, i as int);
                        self.lemma_dropped_step(before, *old(self), tree.entries@, prefix@, i as int);
                    }
                },
            }
            i += 1;
        }
        assert(tree.entries@.subrange(0, i as int) =~= tree.entries@);
        let new_id = if changed {
            match builder_write(&builder) {
                Ok(id) => id,
                Err(e) => {
                    return Err(RebuildError::Store(e));
                },
            }
        } else {
            tree.id
        };
        if self.id_map.contains(&tree.id) {
            return Err(RebuildError::Cycle);
        }
        let ghost before = *self;
        self.id_map.insert(tree.id, new_id);
        self.account = Ghost(self.account@.insert(tree.id, Source::Tree { node: *tree, at: prefix@ }));
        proof {
            self.lemma_entered(before, tree.id);
            self.lemma_entered_root(before, *old(self), *tree, prefix@);
            self.lemma_dropped_root(before, *old(self), *tree, prefix@);
            lemma_rewritten_stable(
                self.included(),
                self.excluded(),
                prefix@,
                before.id_map(),
                self.id_map(),
                tree.entries@,
            );
            if self.keeps_all() {
                lemma_empty_policy_tree(self.included(), self.excluded(), prefix@, self.id_map(), *tree);
            }
        }
        match load_tree(repository, &new_id) {
            Ok(node) => Ok(node),
            Err(e) => Err(RebuildError::Store(e)),
        }
    }

    /// The first parent of `commit` that has not been rebuilt yet.
    fn pending_parent(&self, commit: &CommitNode) -> (r: Option<ObjectId>)
        requires
            self.wf(),
        ensures
            match r {
                Some(id) => !self.id_map().contains_key(id) && exists|i: int|
                    0 <= i < commit.parents@.len() && #[trigger] commit.parents@[i] == id,
                None => forall|i: int|
                    0 <= i < commit.parents@.len() ==> self.id_map().contains_key(
                        #[trigger] commit.parents@[i],
                    ),
            },
    {
        let mut i: usize = 0;
        while i < commit.parents.len()
            invariant
                i <= commit.parents.len(),
                self.wf(),
                forall|j: int| 0 <= j < i ==> self.id_map().contains_key(#[trigger] commit.parents@[j]),
            decreases commit.parents.len() - i,
        {
            if !self.id_map.contains(&commit.parents[i]) {
                return Some(commit.parents[i]);
            }
            i += 1;
        }
        None
    }

    /// What the parents were rebuilt to, in their order, and whether one of
    /// them was rebuilt to another digest than itself.
    fn rebuilt_parents(&self, parents: &Vec<ObjectId>) -> (r: (Vec<ObjectId>, bool))
        requires
            self.wf(),
            forall|i: int| 0 <= i < parents@.len() ==> self.id_map().contains_key(#[trigger] parents@[i]),
        ensures
            r.0@ == mapped_parents(self.id_map(), parents@),
            r.1 == exists|i: int|
                0 <= i < parents@.len() && self.id_map()[#[trigger] parents@[i]] != parents@[i],
    {
        let mut rebuilt: Vec<ObjectId> = Vec::new();
        let mut changed = false;
        let mut i: usize = 0;
        while i < parents.len()
            invariant
                i <= parents.len(),
                self.wf(),
                forall|j: int|
                    0 <= j < parents@.len() ==> self.id_map().contains_key(#[trigger] parents@[j]),
                rebuilt@.len() == i,
                forall|j: int| 0 <= j < i ==> #[trigger] rebuilt@[j] == self.id_map()[parents@[j]],
                changed == exists|j: int|
                    0 <= j < i && self.id_map()[#[trigger] parents@[j]] != parents@[j],
            decreases parents.len() - i,
        {
            let target = self.id_map.get(&parents[i]).unwrap();
            if !target.same(&parents[i]) {
                changed = true;
            }
            rebuilt.push(target);
            i += 1;
        }
        (rebuilt, changed)
    }

    /// Rebuilds a commit whose parents have all been rebuilt: rebuilds its
    /// tree, writes a new commit where the tree or a parent changed, and
    /// enters the result in the record.
    ///
    /// A commit that the record holds already is refused, and nothing is
    /// done. Where the record answers for the commit's tree, the record gains
    /// the commit and nothing else, and no path is left out. A commit that is
    /// to be written anew is refused where its message is not valid text.
    pub fn finish_commit(&mut self, commit: &CommitNode) -> (result: Result<ObjectId, RebuildError>)
        requires
            old(self).wf(),
            forall|i: int|
                0 <= i < commit.parents@.len() ==> old(self).id_map().contains_key(
                    #[trigger] commit.parents@[i],
                ),
        ensures
            final(self).wf(),
            final(self).follows(*old(self)),
            final(self).dropped_below(*old(self), Seq::empty()),
            result matches Ok(id) ==> {
                &&& !old(self).id_map().contains_key(commit.id)
                &&& final(self).id_map().contains_key(commit.id)
                &&& final(self).id_map()[commit.id] == id
                &&& commit_parts_known(final(self).id_map(), *commit)
                &&& id == expected_commit(final(self).id_map(), *commit)
                &&& commit_changed(final(self).id_map(), *commit) ==> commit.message is Some
                &&& final(self).dropped_by(*old(self))
                &&& final(self).account()[commit.id] == (Source::Commit { node: *commit })
            },
            final(self).keeps_all() ==> is_identity(final(self).id_map()),
            old(self).id_map().contains_key(commit.id) ==> (result matches Err(RebuildError::Cycle))
                && final(self).id_map() == old(self).id_map() && final(self).filtered() == old(
                self,
            ).filtered(),
            old(self).id_map().contains_key(commit.tree) ==> final(self).filtered() == old(
                self,
            ).filtered() && final(self).id_map() == (match result {
                Ok(id) => old(self).id_map().insert(commit.id, id),
                Err(_) => old(self).id_map(),
            }),
            result matches Err(error) ==> old(self).finish_failed(*commit, error),
    {
        if self.id_map.contains(&commit.id) {
            return Err(RebuildError::Cycle);
        }
        let repository = self.repository;
        let tree = match load_tree(repository, &commit.tree) {
            Ok(tree) => tree,
            Err(e) => {
                return Err(RebuildError::Store(e));
            },
        };
        let root = RepoPath::new();
        let new_tree = match self.rebuild_tree(&tree, &root) {
            Ok(node) => node.id,
            Err(e) => {
                return Err(e);
            },
        };
        if self.id_map.contains(&commit.id) {
            return Err(RebuildError::Cycle);
        }
        let (parents, parents_changed) = self.rebuilt_parents(&commit.parents);
        let changed = parents_changed || !new_tree.same(&commit.tree);
        let new_id = if changed {
            let message: &str = match &commit.message {
                Some(message) => message.as_str(),
                None => {
                    return Err(RebuildError::UnreadableMessage);
                },
            };
            match write_commit(repository, &commit.id, &new_tree, &parents, message) {
                Ok(id) => id,
                Err(e) => {
                    return Err(RebuildError::Store(e));
                },
            }
        } else {
            commit.id
        };
        let ghost earlier = *self;
        let ghost before = self.id_map();
        self.id_map.insert(commit.id, new_id);
        self.account = Ghost(self.account@.insert(commit.id, Source::Commit { node: *commit }));
        proof {
            let after = self.id_map();
            assert(mapped_parents(after, commit.parents@) =~= mapped_parents(before, commit.parents@));
            self.lemma_entered(earlier, commit.id);
            self.lemma_dropped_by_later(earlier, *old(self));
        }
        Ok(new_id)
    }

    /// Rebuilds `commit` with all that it descends from, parents first and in
    /// their order, and returns the commit that takes its place, read back
    /// from the store.
    ///
    /// A commit met before is answered from the record, and nothing changes.
    /// A commit that is written anew bears the message of the one it stands
    /// for, letter for letter; one whose message is not valid text is refused
    /// rather than written with another message.
    pub fn rebuild_commit(&mut self, commit: CommitNode) -> (result: Result<CommitNode, RebuildError>)
        requires
            old(self).wf(),
        ensures
            final(self).wf(),
            final(self).follows(*old(self)),
            final(self).dropped_below(*old(self), Seq::empty()),
            result matches Ok(node) ==> final(self).commit_done(*old(self), commit, node),
            result is Ok ==> final(self).dropped_by(*old(self)),
            final(self).keeps_all() ==> final(self).filtered() == old(self).filtered() && (
            result matches Ok(node) ==> node.id == commit.id),
            result matches Err(error) ==> old(self).commit_failed(commit, error),
            final(self).keeps_all() ==> is_identity(final(self).id_map()),
            old(self).id_map().contains_key(commit.id) ==> final(self).id_map() == old(self).id_map()
                && final(self).filtered() == old(self).filtered(),
            !old(self).id_map().contains_key(commit.id) && (forall|i: int|
                0 <= i < commit.parents@.len() ==> old(self).id_map().contains_key(
                    #[trigger] commit.parents@[i],
                )) ==> (result matches Err(error) ==> old(self).finish_failed(commit, error)),
    {
        self.rebuild_commit_within(commit, u64::MAX)
    }

    /// `rebuild_commit`, giving up after `steps` steps: a step reads one
    /// commit or rebuilds one.
    pub fn rebuild_commit_within(&mut self, commit: CommitNode, steps: u64) -> (result: Result<
        CommitNode,
        RebuildError,
    >)
        requires
            old(self).wf(),
        ensures
            final(self).wf(),
            final(self).follows(*old(self)),
            final(self).dropped_below(*old(self), Seq::empty()),
            result matches Ok(node) ==> final(self).commit_done(*old(self), commit, node),
            result is Ok ==> final(self).dropped_by(*old(self)),
            final(self).keeps_all() ==> final(self).filtered() == old(self).filtered() && (
            result matches Ok(node) ==> node.id == commit.id),
            result matches Err(error) ==> old(self).commit_failed(commit, error),
            final(self).keeps_all() ==> is_identity(final(self).id_map()),
            old(self).id_map().contains_key(commit.id) ==> final(self).id_map() == old(self).id_map()
                && final(self).filtered() == old(self).filtered(),
            steps >= 1 && !old(self).id_map().contains_key(commit.id) && (forall|i: int|
                0 <= i < commit.parents@.len() ==> old(self).id_map().contains_key(
                    #[trigger] commit.parents@[i],
                )) ==> (result matches Err(error) ==> old(self).finish_failed(commit, error)),
            steps == 0 && !old(self).id_map().contains_key(commit.id) ==> result matches Err(
                RebuildError::OutOfSteps,
            ),
    {
        let repository = self.repository;
        if let Some(cached) = self.id_map.get(&commit.id) {
            return match load_commit(repository, &cached) {
                Ok(node) => Ok(node),
                Err(e) => Err(RebuildError::Store(e)),
            };
        }
        let mut new_id = commit.id;
        let mut pending: Vec<CommitNode> = Vec::new();
        pending.push(commit);
        let mut left = steps;
        while pending.len() > 0
            invariant
                self.wf(),
                self.follows(*old(self)),
                self.dropped_below(*old(self), Seq::empty()),
                self.repository == repository,
                left <= steps,
                steps == 0 ==> pending@.len() > 0,
                !old(self).id_map().contains_key(commit.id),
                pending@.len() > 0 ==> pending@[0] == commit,
                pending@.len() == 0 ==> self.id_map().contains_key(commit.id) && commit_parts_known(
                    self.id_map(),
                    commit,
                ) && self.id_map()[commit.id] == expected_commit(self.id_map(), commit) && new_id
                    == self.id_map()[commit.id] && (commit_changed(self.id_map(), commit)
                    ==> commit.message is Some) && self.account()[commit.id] == (Source::Commit {
                    node: commit,
                }),
                left == steps ==> self.id_map() == old(self).id_map() && pending@.len() == 1,
                self.dropped_by(*old(self)),
                left < steps && steps >= 1 && (forall|i: int|
                    0 <= i < commit.parents@.len() ==> old(self).id_map().contains_key(
                        #[trigger] commit.parents@[i],
                    )) ==> pending@.len() == 0,
            decreases left,
        {
            if left == 0 {
                return Err(RebuildError::OutOfSteps);
            }
            left = left - 1;
            let ghost before = *self;
            match self.pending_parent(&pending[pending.len() - 1]) {
                Some(parent) => {
                    match load_commit(repository, &parent) {
                        Ok(node) => {
                            pending.push(node);
                        },
                        Err(e) => {
                            return Err(RebuildError::Store(e));
                        },
                    }
                },
                None => {
                    let top = pending.pop().unwrap();
                    new_id = match self.finish_commit(&top) {
                        Ok(id) => id,
                        Err(e) => {
                            proof {
                                self.lemma_dropped_later(before, *old(self), Seq::empty());
                            }
                            return Err(e);
                        },
                    };
                    proof {
                        self.lemma_dropped_later(before, *old(self), Seq::empty());
                        self.lemma_dropped_by_later(before, *old(self));
                    }
                },
            }
        }
        match load_commit(repository, &new_id) {
            Ok(node) => Ok(node),
            Err(e) => Err(RebuildError::Store(e)),
        }
    }

    /// What was entered for an entry stays so in a later state, and counts as
    /// entered since any state that did not hold the parent.
    proof fn lemma_child_of_kept(&self, middle: Self, from: Self, earlier: Self, parent: ObjectId, index: int, key: ObjectId)
        requires
            middle.child_of(from, parent, index, key),
            middle.accounted(),
            self.follows(middle),
            !earlier.id_map().contains_key(parent),
        ensures
            self.child_of(earlier, parent, index, key),
    {
    }

    /// An entry that is kept or dropped enters nothing.
    proof fn lemma_entered_nothing(&self, middle: Self, earlier: Self, entries: Seq<TreeEntry>, prefix: Segments, count: int)
        requires
            middle.entered_under(earlier, entries, prefix, count),
            middle.accounted(),
            self.follows(middle),
            self.id_map() == middle.id_map(),
        ensures
            self.entered_under(earlier, entries, prefix, count + 1),
    {
        assert forall|key: ObjectId| #[trigger] self.entered_since(earlier, key) implies {
            &&& self.account()[key] matches Source::Tree { node, at }
            &&& is_strict_prefix(prefix, at)
            &&& (exists|i: int|
                0 <= i < count + 1 && i < entries.len() && self.entered_for(
                    prefix,
                    #[trigger] entries[i],
                    key,
                    at,
                )) || (exists|parent: ObjectId, i: int| #[trigger]
                self.child_of(earlier, parent, i, key))
        } by {
            self.lemma_reached_kept(middle, earlier, entries, prefix, count, key);
        }
    }

    /// How a digest was reached stays so in a later state.
    proof fn lemma_reached_kept(&self, middle: Self, earlier: Self, entries: Seq<TreeEntry>, prefix: Segments, count: int, key: ObjectId)
        requires
            middle.entered_under(earlier, entries, prefix, count),
            middle.entered_since(earlier, key),
            middle.accounted(),
            self.follows(middle),
        ensures
            self.account()[key] == middle.account()[key],
            self.account()[key] matches Source::Tree { node, at } && is_strict_prefix(prefix, at) && ((exists|
                i: int,
            |
                0 <= i < count && i < entries.len() && self.entered_for(
                    prefix,
                    #[trigger] entries[i],
                    key,
                    at,
                )) || (exists|parent: ObjectId, i: int| #[trigger]
                self.child_of(earlier, parent, i, key))),
    {
        let at = middle.account()[key]->Tree_at;
        if !(exists|i: int|
            0 <= i < count && i < entries.len() && middle.entered_for(prefix, #[trigger] entries[i], key, at)) {
            let (parent, i) = choose|parent: ObjectId, i: int| #[trigger]
                middle.child_of(earlier, parent, i, key);
            self.lemma_child_of_kept(middle, earlier, earlier, parent, i, key);
        }
    }

    /// After the tree below the entry at `index` was rebuilt, every digest
    /// entered so far was reached from the entries up to that one.
    proof fn lemma_entered_child(
        &self,
        middle: Self,
        earlier: Self,
        entries: Seq<TreeEntry>,
        prefix: Segments,
        index: int,
        child: TreeNode,
    )
        requires
            0 <= index < entries.len(),
            entries[index].name is Some,
            entry_outcome(self.included(), self.excluded(), prefix, entries[index]) == Decision::Rebuild,
            child.id == entries[index].id,
            middle.entered_under(earlier, entries, prefix, index),
            middle.accounted(),
            middle.follows(earlier),
            self.follows(middle),
            self.entered_from(middle, child, entry_path(prefix, entries[index])),
        ensures
            self.entered_under(earlier, entries, prefix, index + 1),
    {
        let path = entry_path(prefix, entries[index]);
        assert forall|key: ObjectId| #[trigger] self.entered_since(earlier, key) implies {
            &&& self.account()[key] matches Source::Tree { node, at }
            &&& is_strict_prefix(prefix, at)
            &&& (exists|i: int|
                0 <= i < index + 1 && i < entries.len() && self.entered_for(
                    prefix,
                    #[trigger] entries[i],
                    key,
                    at,
                )) || (exists|parent: ObjectId, i: int| #[trigger]
                self.child_of(earlier, parent, i, key))
        } by {
            if middle.id_map().contains_key(key) {
                self.lemma_reached_kept(middle, earlier, entries, prefix, index, key);
            } else {
                assert(self.entered_since(middle, key));
                let at = self.account()[key]->Tree_at;
                assert(is_strict_prefix(prefix, at)) by {
                    assert forall|j: int| 0 <= j < prefix.len() implies prefix[j] == at[j] by {
                    }
                }
                if !(key == child.id && at == path) {
                    let (parent, i) = choose|parent: ObjectId, i: int| #[trigger]
                        self.child_of(middle, parent, i, key);
                    assert(self.child_of(earlier, parent, i, key));
                }
            }
        }
    }

    /// What a failed rebuild below an entry entered stood below the tree.
    proof fn lemma_entered_deeper(&self, middle: Self, earlier: Self, entries: Seq<TreeEntry>, prefix: Segments, count: int, name: Seq<char>)
        requires
            middle.entered_under(earlier, entries, prefix, count),
            middle.accounted(),
            middle.follows(earlier),
            self.follows(middle),
            self.entered_below(middle, prefix.push(name)),
        ensures
            self.entered_below(earlier, prefix),
    {
        assert forall|key: ObjectId| #[trigger] self.entered_since(earlier, key) implies (
        self.account()[key] matches Source::Tree { node, at } && is_prefix(prefix, at)) by {
            if middle.id_map().contains_key(key) {
                self.lemma_reached_kept(middle, earlier, entries, prefix, count, key);
            } else {
                assert(self.entered_since(middle, key));
                let at = self.account()[key]->Tree_at;
                assert forall|j: int| 0 <= j < prefix.len() implies prefix[j] == at[j] by {
                }
            }
        }
    }

    /// Once the tree itself is entered, every digest entered was reached from
    /// it.
    proof fn lemma_entered_root(&self, middle: Self, earlier: Self, tree: TreeNode, prefix: Segments)
        requires
            middle.entered_under(earlier, tree.entries@, prefix, tree.entries@.len() as int),
            middle.accounted(),
            middle.follows(earlier),
            self.follows(middle),
            !middle.id_map().contains_key(tree.id),
            self.id_map().contains_key(tree.id),
            self.id_map() == middle.id_map().insert(tree.id, self.id_map()[tree.id]),
            self.account()[tree.id] == (Source::Tree { node: tree, at: prefix }),
        ensures
            self.entered_from(earlier, tree, prefix),
    {
        assert forall|key: ObjectId| #[trigger] self.entered_since(earlier, key) implies {
            &&& self.account()[key] matches Source::Tree { node, at }
            &&& is_prefix(prefix, at)
            &&& (key == tree.id && node == tree && at == prefix) || (exists|parent: ObjectId, i: int| #[trigger]
                self.child_of(earlier, parent, i, key))
        } by {
            if key != tree.id {
                self.lemma_reached_kept(middle, earlier, tree.entries@, prefix, tree.entries@.len() as int, key);
                let at = self.account()[key]->Tree_at;
                if exists|i: int|
                    0 <= i < tree.entries@.len() && self.entered_for(prefix, #[trigger] tree.entries@[i], key, at) {
                    let i = choose|i: int|
                        0 <= i < tree.entries@.len() && self.entered_for(
                            prefix,
                            #[trigger] tree.entries@[i],
                            key,
                            at,
                        );
                    assert(self.child_of(earlier, tree.id, i, key));
                }
            }
        }
    }

    /// A path dropped by a tree stays so in a later state, and the tree counts
    /// as entered since any state that did not hold it.
    proof fn lemma_dropped_at_kept(&self, middle: Self, from: Self, earlier: Self, key: ObjectId, index: int, path: Segments)
        requires
            middle.dropped_at(from, key, index, path),
            middle.accounted(),
            self.follows(middle),
            !earlier.id_map().contains_key(key),
        ensures
            self.dropped_at(earlier, key, index, path),
    {
    }

    /// After one more entry was dealt with, every path left out so far is
    /// that of a dropped entry up to that one, or of a tree entered.
    proof fn lemma_dropped_step(&self, middle: Self, earlier: Self, entries: Seq<TreeEntry>, prefix: Segments, count: int)
        requires
            0 <= count < entries.len(),
            middle.dropped_under(earlier, entries, prefix, count),
            middle.accounted(),
            middle.follows(earlier),
            self.follows(middle),
            forall|path: Segments| #[trigger]
                self.filtered().contains(path) && !middle.filtered().contains(path) ==> (entry_outcome(
                    self.included(),
                    self.excluded(),
                    prefix,
                    entries[count],
                ) == Decision::Drop && path == entry_path(prefix, entries[count])) || (exists|
                    key: ObjectId,
                    i: int,
                | #[trigger] self.dropped_at(middle, key, i, path)),
        ensures
            self.dropped_under(earlier, entries, prefix, count + 1),
    {
        assert forall|path: Segments| #[trigger]
            self.filtered().contains(path) && !earlier.filtered().contains(path) implies (exists|i: int|
            0 <= i < count + 1 && i < entries.len() && entry_outcome(
                self.included(),
                self.excluded(),
                prefix,
                #[trigger] entries[i],
            ) == Decision::Drop && path == entry_path(prefix, entries[i])) || (exists|
            key: ObjectId,
            i: int,
        | #[trigger] self.dropped_at(earlier, key, i, path)) by {
            if middle.filtered().contains(path) {
                if !(exists|i: int|
                    0 <= i < count && i < entries.len() && entry_outcome(
                        self.included(),
                        self.excluded(),
                        prefix,
                        #[trigger] entries[i],
                    ) == Decision::Drop && path == entry_path(prefix, entries[i])) {
                    let (key, i) = choose|key: ObjectId, i: int| #[trigger]
                        middle.dropped_at(earlier, key, i, path);
                    self.lemma_dropped_at_kept(middle, earlier, earlier, key, i, path);
                }
            } else {
                if !(entry_outcome(self.included(), self.excluded(), prefix, entries[count])
                    == Decision::Drop && path == entry_path(prefix, entries[count])) {
                    let (key, i) = choose|key: ObjectId, i: int| #[trigger]
                        self.dropped_at(middle, key, i, path);
                    assert(self.dropped_at(earlier, key, i, path));
                }
            }
        }
    }

    /// What holds of the paths left out in each of two steps holds of both
    /// together.
    proof fn lemma_dropped_by_later(&self, middle: Self, earlier: Self)
        requires
            middle.dropped_by(earlier),
            self.dropped_by(middle),
            middle.accounted(),
            middle.follows(earlier),
            self.follows(middle),
        ensures
            self.dropped_by(earlier),
    {
        assert forall|path: Segments| #[trigger]
            self.filtered().contains(path) && !earlier.filtered().contains(path) implies exists|
            key: ObjectId,
            i: int,
        | #[trigger] self.dropped_at(earlier, key, i, path) by {
            if middle.filtered().contains(path) {
                let (key, i) = choose|key: ObjectId, i: int| #[trigger]
                    middle.dropped_at(earlier, key, i, path);
                self.lemma_dropped_at_kept(middle, earlier, earlier, key, i, path);
            } else {
                let (key, i) = choose|key: ObjectId, i: int| #[trigger]
                    self.dropped_at(middle, key, i, path);
                assert(self.dropped_at(earlier, key, i, path));
            }
        }
    }

    /// Once the tree itself is entered, every path left out is that of a
    /// dropped entry of a tree entered.
    proof fn lemma_dropped_root(&self, middle: Self, earlier: Self, tree: TreeNode, prefix: Segments)
        requires
            middle.dropped_under(earlier, tree.entries@, prefix, tree.entries@.len() as int),
            middle.accounted(),
            middle.follows(earlier),
            self.follows(middle),
            self.filtered() == middle.filtered(),
            !middle.id_map().contains_key(tree.id),
            self.id_map().contains_key(tree.id),
            self.account()[tree.id] == (Source::Tree { node: tree, at: prefix }),
        ensures
            self.dropped_by(earlier),
    {
        assert forall|path: Segments| #[trigger]
            self.filtered().contains(path) && !earlier.filtered().contains(path) implies exists|
            key: ObjectId,
            i: int,
        | #[trigger] self.dropped_at(earlier, key, i, path) by {
            if exists|i: int|
                0 <= i < tree.entries@.len() && entry_outcome(
                    self.included(),
                    self.excluded(),
                    prefix,
                    #[trigger] tree.entries@[i],
                ) == Decision::Drop && path == entry_path(prefix, tree.entries@[i]) {
                let i = choose|i: int|
                    0 <= i < tree.entries@.len() && entry_outcome(
                        self.included(),
                        self.excluded(),
                        prefix,
                        #[trigger] tree.entries@[i],
                    ) == Decision::Drop && path == entry_path(prefix, tree.entries@[i]);
                assert(self.dropped_at(earlier, tree.id, i, path));
            } else {
                let (key, i) = choose|key: ObjectId, i: int| #[trigger]
                    middle.dropped_at(earlier, key, i, path);
                self.lemma_dropped_at_kept(middle, earlier, earlier, key, i, path);
            }
        }
    }

    /// A commit in the record, whenever it was entered, stands there with what
    /// the record makes of it: where its tree or a parent was rebuilt to
    /// another digest, with a commit that lists, in the place of each parent,
    /// what the record holds for that parent.
    pub proof fn lemma_recorded_commit(&self, key: ObjectId)
        requires
            self.wf(),
            self.id_map().contains_key(key),
            self.account()[key] is Commit,
        ensures
            ({
                let node = self.account()[key]->Commit_node;
                &&& node.id == key
                &&& commit_parts_known(self.id_map(), node)
                &&& self.id_map()[key] == expected_commit(self.id_map(), node)
                &&& mapped_parents(self.id_map(), node.parents@).len() == node.parents@.len()
                &&& forall|i: int|
                    0 <= i < node.parents@.len() ==> #[trigger] mapped_parents(
                        self.id_map(),
                        node.parents@,
                    )[i] == self.id_map()[node.parents@[i]]
                &&& commit_changed(self.id_map(), node) ==> node.message is Some
            }),
    {
    }

    /// Every digest in the record is accounted for, and what the trees in the
    /// record drop is among the paths left out.
    pub proof fn lemma_accounted(&self)
        requires
            self.wf(),
        ensures
            self.accounted(),
            self.drops_recorded(),
    {
    }

    /// When one digest is entered, what was accounted for stays so.
    proof fn lemma_entered(&self, earlier: Self, key: ObjectId)
        requires
            earlier.accounted(),
            !earlier.id_map().contains_key(key),
            self.included() == earlier.included(),
            self.excluded() == earlier.excluded(),
            self.id_map().contains_key(key),
            self.id_map() == earlier.id_map().insert(key, self.id_map()[key]),
            self.account().contains_key(key),
            self.account() == earlier.account().insert(key, self.account()[key]),
        ensures
            forall|other: ObjectId|
                other != key && #[trigger] self.id_map().contains_key(other) ==> follows_from(
                    self.included(),
                    self.excluded(),
                    self.id_map(),
                    other,
                    self.account()[other],
                ),
            forall|other: ObjectId| #[trigger]
                self.id_map().contains_key(other) <==> self.account().contains_key(other),
    {
        assert forall|other: ObjectId|
            other != key && #[trigger] self.id_map().contains_key(other) implies follows_from(
            self.included(),
            self.excluded(),
            self.id_map(),
            other,
            self.account()[other],
        ) by {
            lemma_follows_from_stable(
                self.included(),
                self.excluded(),
                earlier.id_map(),
                self.id_map(),
                other,
                earlier.account()[other],
            );
        }
        assert forall|other: ObjectId| #[trigger]
            self.id_map().contains_key(other) <==> self.account().contains_key(other) by {
        }
    }

    /// Under a policy that keeps everything the record sends every digest to
    /// itself: nothing counts as changed.
    pub proof fn lemma_keeps_all_is_identity(&self)
        requires
            self.wf(),
            self.keeps_all(),
        ensures
            is_identity(self.id_map()),
    {
    }

    /// Under a policy that keeps everything nothing is left out.
    pub proof fn lemma_keeps_all_drops_nothing(&self, earlier: Self, prefix: Segments)
        requires
            self.follows(earlier),
            self.dropped_below(earlier, prefix),
            self.keeps_all(),
        ensures
            self.filtered() == earlier.filtered(),
    {
    }

    /// A tree that was rebuilt is answered alike when it is met again, at the
    /// same place or at another, and the second answer changes nothing.
    pub proof fn lemma_tree_answered_again(
        &self,
        middle: Self,
        earlier: Self,
        tree: TreeNode,
        prefix: Segments,
        node: TreeNode,
        other: TreeNode,
        other_prefix: Segments,
        again: TreeNode,
    )
        requires
            middle.tree_done(earlier, tree, prefix, node),
            self.tree_done(middle, other, other_prefix, again),
            other.id == tree.id,
        ensures
            again.id == node.id,
            self.id_map() == middle.id_map(),
            self.filtered() == middle.filtered(),
    {
    }

    /// A commit that was rebuilt is answered alike when it is rebuilt again,
    /// and the second answer changes nothing.
    pub proof fn lemma_commit_answered_again(
        &self,
        middle: Self,
        earlier: Self,
        commit: CommitNode,
        node: CommitNode,
        other: CommitNode,
        again: CommitNode,
    )
        requires
            middle.commit_done(earlier, commit, node),
            self.commit_done(middle, other, again),
            other.id == commit.id,
        ensures
            again.id == node.id,
            self.id_map() == middle.id_map(),
            self.filtered() == middle.filtered(),
    {
    }

    /// The commit that a commit was rebuilt to lists, in the place of each
    /// parent, what that parent was rebuilt to before.
    pub proof fn lemma_parent_results_listed(
        &self,
        later: Self,
        middle: Self,
        earlier: Self,
        parent: CommitNode,
        parent_node: CommitNode,
        child: CommitNode,
        child_node: CommitNode,
        index: int,
    )
        requires
            middle.commit_done(earlier, parent, parent_node),
            later.follows(middle),
            self.follows(later),
            self.commit_done(later, child, child_node),
            !later.id_map().contains_key(child.id),
            0 <= index < child.parents@.len(),
            child.parents@[index] == parent.id,
        ensures
            mapped_parents(self.id_map(), child.parents@)[index] == parent_node.id,
            commit_changed(self.id_map(), child) ==> child_node.id == commit_digest(
                child.id,
                self.id_map()[child.tree],
                mapped_parents(self.id_map(), child.parents@),
                commit_message(child),
            ),
    {
    }

    /// What was left out in two steps, each time below `prefix`, was left out
    /// below `prefix`.
    proof fn lemma_dropped_later(&self, middle: Self, earlier: Self, prefix: Segments)
        requires
            self.follows(middle),
            middle.follows(earlier),
            self.dropped_below(middle, prefix),
            middle.dropped_below(earlier, prefix),
        ensures
            self.follows(earlier),
            self.dropped_below(earlier, prefix),
    {
    }

    /// What was left out below an entry of the tree at `prefix` was left out
    /// below `prefix`.
    proof fn lemma_dropped_deeper(&self, middle: Self, earlier: Self, prefix: Segments, name: Seq<char>)
        requires
            self.follows(middle),
            middle.follows(earlier),
            self.dropped_below(middle, prefix.push(name)),
            middle.dropped_below(earlier, prefix),
        ensures
            self.follows(earlier),
            self.dropped_below(earlier, prefix),
    {
    }
}

} // verus!
