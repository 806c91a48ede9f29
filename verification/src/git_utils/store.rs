//! The object store: the calls into `git2` that the rebuilder makes, each with
//! what is taken on trust of it.

use vstd::prelude::*;
use crate::git_utils::object::{CommitNode, ObjectId, TreeEntry, TreeNode};

verus! {

/// `git2::Repository`: the object store, carried as it is.
#[verifier::external_type_specification]
#[verifier::external_body]
pub struct ExRepository(git2::Repository);

/// `git2::Error`: what the store says when it fails, carried as it is.
#[verifier::external_type_specification]
#[verifier::external_body]
pub struct ExStoreError(git2::Error);

/// `git2::TreeBuilder`: the entries of a tree that is about to be written.
#[verifier::external_type_specification]
#[verifier::external_body]
pub struct ExTreeBuilder<'repo>(git2::TreeBuilder<'repo>);

/// The contents of a tree as the store files them: each name with its mode and
/// the digest of its child.
pub type TreeContent = Map<Seq<char>, (i32, ObjectId)>;

/// What a `git2::TreeBuilder` holds at the moment: it keeps one entry for
/// each name.
pub uninterp spec fn builder_entries(builder: &git2::TreeBuilder<'_>) -> TreeContent;

/// The digest that `git2::TreeBuilder::write` gives to a tree with these
/// contents: the hash of the entries, written out in the store's own order.
pub uninterp spec fn tree_digest(content: TreeContent) -> ObjectId;

/// The digest that `git2::Repository::commit` gives to the commit that has the
/// author and the committer of `source`, the given message, tree and parents.
///
/// The store files a commit under the hash of its contents and checks that
/// hash when it reads one, so `source` stands for one author and one
/// committer wherever it is found.
pub uninterp spec fn commit_digest(
    source: ObjectId,
    tree: ObjectId,
    parents: Seq<ObjectId>,
    message: Seq<char>,
) -> ObjectId;

/// `git2::Repository::find_tree`, with each entry of the tree found turned into
/// plain values by `TreeEntry::name`, `filemode` and `id`.
///
/// The tree that comes back is the one filed under the digest asked for.
/// Nothing is claimed of its entries: they are what the store holds.
#[verifier::external_body]
pub(crate) fn load_tree(repo: &git2::Repository, id: &ObjectId) -> (r: Result<TreeNode, git2::Error>)
    ensures
        r matches Ok(tree) ==> tree.id == *id,
{
    let tree = repo.find_tree(git2::Oid::from_bytes(&id.bytes)?)?;
    let entries = tree.iter().map(|e| TreeEntry {
        name: e.name().map(String::from),
        mode: e.filemode(),
        id: ObjectId { bytes: e.id().as_bytes().try_into().unwrap() },
    }).collect();
    Ok(TreeNode { id: ObjectId { bytes: tree.id().as_bytes().try_into().unwrap() }, entries })
}

/// `git2::Repository::find_commit`, with the commit found turned into plain
/// values by `Commit::tree_id`, `parent_ids` and `message_raw`.
///
/// The commit that comes back is the one filed under the digest asked for.
#[verifier::external_body]
pub(crate) fn load_commit(repo: &git2::Repository, id: &ObjectId) -> (r: Result<
    CommitNode,
    git2::Error,
>)
    ensures
        r matches Ok(commit) ==> commit.id == *id,
{
    let commit = repo.find_commit(git2::Oid::from_bytes(&id.bytes)?)?;
    Ok(CommitNode {
        id: ObjectId { bytes: commit.id().as_bytes().try_into().unwrap() },
        tree: ObjectId { bytes: commit.tree_id().as_bytes().try_into().unwrap() },
        parents: commit.parent_ids().map(|p| ObjectId { bytes: p.as_bytes().try_into().unwrap() }).collect(),
        message: commit.message_raw().map(String::from),
    })
}

/// `git2::Repository::treebuilder` without a tree to start from: the builder
/// that comes back is empty.
#[verifier::external_body]
pub(crate) fn new_builder<'r>(repo: &'r git2::Repository) -> (r: Result<
    git2::TreeBuilder<'r>,
    git2::Error,
>)
    ensures
        r matches Ok(builder) ==> builder_entries(&builder) == TreeContent::empty(),
{
    repo.treebuilder(None)
}

/// `git2::TreeBuilder::insert`: where it succeeds the builder holds the entry
/// under `name`, in place of an earlier one of that name, and its other
/// entries are as before.
#[verifier::external_body]
pub(crate) fn builder_insert(
    builder: &mut git2::TreeBuilder<'_>,
    name: &str,
    id: &ObjectId,
    mode: i32,
) -> (r: Result<(), git2::Error>)
    ensures
        r is Ok ==> builder_entries(final(builder)) == builder_entries(old(builder)).insert(
            name@,
            (mode, *id),
        ),
{
    builder.insert(name, git2::Oid::from_bytes(&id.bytes)?, mode)?;
    Ok(())
}

/// `git2::TreeBuilder::write`: the digest that comes back is the one of the
/// builder's contents.
#[verifier::external_body]
pub(crate) fn builder_write(builder: &git2::TreeBuilder<'_>) -> (r: Result<ObjectId, git2::Error>)
    ensures
        r matches Ok(id) ==> id == tree_digest(builder_entries(builder)),
{
    let id = builder.write()?;
    Ok(ObjectId { bytes: id.as_bytes().try_into().unwrap() })
}

/// `git2::Repository::commit` without a reference to move, with the author
/// and the committer that `find_commit` reads of `source`, and with the tree
/// and the parents as `find_tree` and `find_commit` hand them out for the
/// digests given.
///
/// The digest that comes back is the one of a commit with exactly these
/// parts.
#[verifier::external_body]
pub(crate) fn write_commit(
    repo: &git2::Repository,
    source: &ObjectId,
    tree: &ObjectId,
    parents: &Vec<ObjectId>,
    message: &str,
) -> (r: Result<ObjectId, git2::Error>)
    ensures
        r matches Ok(id) ==> id == commit_digest(*source, *tree, parents@, message@),
{
    let source = repo.find_commit(git2::Oid::from_bytes(&source.bytes)?)?;
    let tree = repo.find_tree(git2::Oid::from_bytes(&tree.bytes)?)?;
    let mut found = Vec::new();
    for parent in parents {
        found.push(repo.find_commit(git2::Oid::from_bytes(&parent.bytes)?)?);
    }
    let parents: Vec<&git2::Commit> = found.iter().collect();
    let id = repo.commit(None, &source.author(), &source.committer(), message, &tree, &parents)?;
    Ok(ObjectId { bytes: id.as_bytes().try_into().unwrap() })
}

} // verus!
