use git2::{Commit, Odb, Oid, Repository, Signature, Time};
use git_publish::git_utils::object::{CommitNode, ObjectId, TreeEntry, TreeNode};
use git_publish::git_utils::path::RepoPath;
use git_publish::git_utils::policy::Decision;
use git_publish::git_utils::rebuilder::{plan_entries, RebuildError, Rebuilder, TREE_DEPTH_LIMIT};

const FILE: i32 = 0o100644;
const DIR: i32 = 0o040000;

fn memory_repository() -> Repository {
    let odb = Odb::new().unwrap();
    odb.add_new_mempack_backend(1000).unwrap();
    Repository::from_odb(odb).unwrap()
}

fn id_of(oid: Oid) -> ObjectId {
    ObjectId::from_bytes(oid.as_bytes().try_into().unwrap())
}

fn oid_of(id: ObjectId) -> Oid {
    Oid::from_bytes(&id.bytes).unwrap()
}

fn path(text: &str) -> RepoPath {
    let mut path = RepoPath::new();
    for segment in text.split('/') {
        if !segment.is_empty() {
            path = path.join(segment);
        }
    }
    path
}

fn paths(texts: &[&str]) -> Vec<RepoPath> {
    texts.iter().map(|text| path(text)).collect()
}

fn tree_with(repo: &Repository, entries: &[(&str, Oid, i32)]) -> Oid {
    let mut builder = repo.treebuilder(None).unwrap();
    for (name, oid, mode) in entries {
        builder.insert(*name, *oid, *mode).unwrap();
    }
    builder.write().unwrap()
}

fn tree_node(repo: &Repository, oid: Oid) -> TreeNode {
    let tree = repo.find_tree(oid).unwrap();
    TreeNode {
        id: id_of(tree.id()),
        entries: tree
            .iter()
            .map(|e| TreeEntry { name: e.name().map(String::from), mode: e.filemode(), id: id_of(e.id()) })
            .collect(),
    }
}

fn author() -> Signature<'static> {
    Signature::new("Ada", "ada@example.org", &Time::new(1_600_000_000, 60)).unwrap()
}

fn committer() -> Signature<'static> {
    Signature::new("Bob", "bob@example.org", &Time::new(1_700_000_000, -120)).unwrap()
}

fn commit_with(repo: &Repository, message: &str, tree: Oid, parents: &[Oid]) -> Oid {
    let tree = repo.find_tree(tree).unwrap();
    let parents: Vec<Commit> = parents.iter().map(|p| repo.find_commit(*p).unwrap()).collect();
    let parents: Vec<&Commit> = parents.iter().collect();
    repo.commit(None, &author(), &committer(), message, &tree, &parents).unwrap()
}

fn commit_node(repo: &Repository, oid: Oid) -> CommitNode {
    let commit = repo.find_commit(oid).unwrap();
    CommitNode {
        id: id_of(commit.id()),
        tree: id_of(commit.tree_id()),
        parents: commit.parent_ids().map(id_of).collect(),
        message: commit.message_raw().map(String::from),
    }
}

fn entry<'a>(node: &'a TreeNode, name: &str) -> Option<&'a TreeEntry> {
    node.entries.iter().find(|e| e.name.as_deref() == Some(name))
}

#[test]
fn excluded_file_leaves_the_tree() {
    let repo = memory_repository();
    let keep = repo.blob(b"keep").unwrap();
    let secret = repo.blob(b"secret").unwrap();
    let root = tree_with(&repo, &[("keep.txt", keep, FILE), ("drop.txt", secret, FILE)]);

    let included = paths(&[]);
    let excluded = paths(&["drop.txt"]);
    let mut rebuilder = Rebuilder::new(&repo, &included, &excluded);
    let rebuilt = rebuilder.rebuild_tree(&tree_node(&repo, root), &RepoPath::new()).unwrap();

    assert_eq!(rebuilt.id, id_of(tree_with(&repo, &[("keep.txt", keep, FILE)])));
    assert_ne!(rebuilt.id, id_of(root));
    assert_eq!(rebuilt.entries.len(), 1);
    assert_eq!(rebuilt.entries[0].name.as_deref(), Some("keep.txt"));
    assert_eq!(rebuilt.entries[0].id, id_of(keep));
    assert_eq!(rebuilt.entries[0].mode, FILE);
    assert!(rebuilder.changed(id_of(root)));
    assert_eq!(rebuilder.rebuilt(&id_of(root)), Some(rebuilt.id));
    assert_eq!(rebuilder.debug_filtered(), paths(&["drop.txt"]));
}

#[test]
fn drop_accounting_for_a_nested_exclusion() {
    let repo = memory_repository();
    let b = repo.blob(b"b").unwrap();
    let c = repo.blob(b"c").unwrap();
    let d = repo.blob(b"d").unwrap();
    let a = tree_with(&repo, &[("b.txt", b, FILE), ("c.txt", c, 0o100755)]);
    let other = tree_with(&repo, &[("b.txt", b, FILE)]);
    let root = tree_with(&repo, &[("a", a, DIR), ("d.txt", d, FILE), ("other", other, DIR)]);

    let included = paths(&[]);
    let excluded = paths(&["a/b.txt"]);
    let mut rebuilder = Rebuilder::new(&repo, &included, &excluded);
    let rebuilt = rebuilder.rebuild_tree(&tree_node(&repo, root), &RepoPath::new()).unwrap();

    // Exactly the excluded path was left out.
    assert_eq!(rebuilder.debug_filtered(), paths(&["a/b.txt"]));

    // The tree at a/ omits the entry and keeps its sibling as it was.
    let new_a = entry(&rebuilt, "a").unwrap();
    assert_eq!(new_a.mode, DIR);
    assert_eq!(new_a.id, id_of(tree_with(&repo, &[("c.txt", c, 0o100755)])));
    let new_a = tree_node(&repo, oid_of(new_a.id));
    assert_eq!(new_a.entries.len(), 1);
    assert_eq!(new_a.entries[0].name.as_deref(), Some("c.txt"));
    assert_eq!(new_a.entries[0].id, id_of(c));
    assert_eq!(new_a.entries[0].mode, 0o100755);

    // Every sibling of a/ has the digest it had, also the tree that holds
    // another b.txt.
    assert_eq!(entry(&rebuilt, "d.txt").unwrap().id, id_of(d));
    assert_eq!(entry(&rebuilt, "other").unwrap().id, id_of(other));
    assert_eq!(rebuilt.entries.len(), 3);

    assert!(rebuilder.changed(id_of(root)));
    assert!(rebuilder.changed(id_of(a)));
    assert!(!rebuilder.changed(id_of(other)));
    assert_eq!(rebuilder.rebuilt(&id_of(other)), None);
    assert_eq!(rebuilder.debug_changes(), (2, 0));
}

#[test]
fn inclusion_keeps_only_the_listed_paths() {
    let repo = memory_repository();
    let lib = repo.blob(b"lib").unwrap();
    let main = repo.blob(b"main").unwrap();
    let readme = repo.blob(b"readme").unwrap();
    let doc = repo.blob(b"doc").unwrap();
    let src = tree_with(&repo, &[("lib.rs", lib, FILE), ("main.rs", main, FILE)]);
    let docs = tree_with(&repo, &[("index.md", doc, FILE)]);
    let root = tree_with(&repo, &[("README", readme, FILE), ("docs", docs, DIR), ("src", src, DIR)]);

    let included = paths(&["src/lib.rs", "docs"]);
    let excluded = paths(&[]);
    let mut rebuilder = Rebuilder::new(&repo, &included, &excluded);
    let rebuilt = rebuilder.rebuild_tree(&tree_node(&repo, root), &RepoPath::new()).unwrap();

    let new_src = tree_with(&repo, &[("lib.rs", lib, FILE)]);
    assert_eq!(rebuilt.id, id_of(tree_with(&repo, &[("docs", docs, DIR), ("src", new_src, DIR)])));
    // In ascending order, as paths order themselves.
    assert_eq!(rebuilder.debug_filtered(), paths(&["README", "src/main.rs"]));
    assert_eq!(rebuilder.rebuilt(&id_of(docs)), None);
}

#[test]
fn unchanged_tree_keeps_its_digest() {
    let repo = memory_repository();
    let x = repo.blob(b"x").unwrap();
    let inner = tree_with(&repo, &[("x.txt", x, FILE)]);
    let root = tree_with(&repo, &[("inner", inner, DIR)]);

    // The exclusion reaches into inner/ but names nothing that is there.
    let included = paths(&[]);
    let excluded = paths(&["inner/absent.txt"]);
    let mut rebuilder = Rebuilder::new(&repo, &included, &excluded);
    let rebuilt = rebuilder.rebuild_tree(&tree_node(&repo, root), &RepoPath::new()).unwrap();

    assert_eq!(rebuilt.id, id_of(root));
    assert_eq!(rebuilt, tree_node(&repo, root));
    assert!(!rebuilder.changed(id_of(root)));
    assert!(!rebuilder.changed(id_of(inner)));
    assert_eq!(rebuilder.rebuilt(&id_of(inner)), Some(id_of(inner)));
    assert_eq!(rebuilder.rebuilt(&id_of(root)), Some(id_of(root)));
    assert!(rebuilder.debug_filtered().is_empty());
    assert_eq!(rebuilder.debug_changes(), (0, 2));
}

#[test]
fn tree_met_twice_is_rebuilt_once() {
    let repo = memory_repository();
    let secret = repo.blob(b"secret").unwrap();
    let ok = repo.blob(b"ok").unwrap();
    let shared = tree_with(&repo, &[("ok.txt", ok, FILE), ("secret.txt", secret, FILE)]);
    let root = tree_with(&repo, &[("x", shared, DIR), ("y", shared, DIR)]);

    let included = paths(&[]);
    let excluded = paths(&["x/secret.txt", "y/secret.txt"]);
    let mut rebuilder = Rebuilder::new(&repo, &included, &excluded);
    let rebuilt = rebuilder.rebuild_tree(&tree_node(&repo, root), &RepoPath::new()).unwrap();

    let stripped = id_of(tree_with(&repo, &[("ok.txt", ok, FILE)]));
    assert_eq!(entry(&rebuilt, "x").unwrap().id, stripped);
    assert_eq!(entry(&rebuilt, "y").unwrap().id, stripped);
    assert_eq!(rebuilder.rebuilt(&id_of(shared)), Some(stripped));
    // The shared tree was walked once, at the first place it was met.
    assert_eq!(rebuilder.debug_filtered(), paths(&["x/secret.txt"]));
    assert_eq!(rebuilder.debug_changes(), (2, 0));
}

#[test]
fn rebuilt_tree_is_answered_from_the_record() {
    let repo = memory_repository();
    let keep = repo.blob(b"keep").unwrap();
    let secret = repo.blob(b"secret").unwrap();
    let root = tree_with(&repo, &[("keep.txt", keep, FILE), ("drop.txt", secret, FILE)]);

    let included = paths(&[]);
    let excluded = paths(&["drop.txt"]);
    let mut rebuilder = Rebuilder::new(&repo, &included, &excluded);
    let first = rebuilder.rebuild_tree(&tree_node(&repo, root), &RepoPath::new()).unwrap();
    // The second call names another place: the record answers all the same.
    let second = rebuilder.rebuild_tree(&tree_node(&repo, root), &path("elsewhere")).unwrap();

    assert_eq!(first, second);
    assert_eq!(rebuilder.debug_filtered(), paths(&["drop.txt"]));
    assert_eq!(rebuilder.debug_changes(), (1, 0));
}

#[test]
fn nameless_entry_is_refused() {
    let repo = memory_repository();
    let blob = repo.blob(b"x").unwrap();
    let secret = repo.blob(b"secret").unwrap();
    let tree = TreeNode {
        id: id_of(Oid::from_bytes(&[7u8; 20]).unwrap()),
        entries: vec![
            TreeEntry { name: Some("drop.txt".to_string()), mode: FILE, id: id_of(secret) },
            TreeEntry { name: None, mode: FILE, id: id_of(blob) },
        ],
    };
    let included = paths(&[]);
    let excluded = paths(&["drop.txt"]);
    let mut rebuilder = Rebuilder::new(&repo, &included, &excluded);
    let result = rebuilder.rebuild_tree(&tree, &RepoPath::new());

    assert_eq!(result, Err(RebuildError::MissingName));
    // Nothing was done before the refusal.
    assert!(rebuilder.debug_filtered().is_empty());
    assert_eq!(rebuilder.rebuilt(&tree.id), None);
    assert_eq!(rebuilder.debug_changes(), (0, 0));
}

#[test]
fn missing_child_tree_is_a_store_error() {
    let repo = memory_repository();
    let absent = Oid::from_bytes(&[9u8; 20]).unwrap();
    let tree = TreeNode {
        id: id_of(Oid::from_bytes(&[7u8; 20]).unwrap()),
        entries: vec![TreeEntry { name: Some("a".to_string()), mode: DIR, id: id_of(absent) }],
    };
    let included = paths(&[]);
    let excluded = paths(&["a/b.txt"]);
    let mut rebuilder = Rebuilder::new(&repo, &included, &excluded);
    let result = rebuilder.rebuild_tree(&tree, &RepoPath::new());

    assert!(matches!(result, Err(RebuildError::Store(_))));
    assert_eq!(rebuilder.rebuilt(&tree.id), None);
}

#[test]
fn partial_inclusion_of_a_file_is_refused() {
    // A path is included below `file`, which is no tree: the policy cannot be met.
    let repo = memory_repository();
    let blob = repo.blob(b"x").unwrap();
    let root = tree_with(&repo, &[("drop.txt", blob, FILE), ("file", blob, FILE)]);
    let included = paths(&["file/inside"]);
    let excluded = paths(&[]);
    let mut rebuilder = Rebuilder::new(&repo, &included, &excluded);
    let result = rebuilder.rebuild_tree(&tree_node(&repo, root), &RepoPath::new());
    assert_eq!(result, Err(RebuildError::NotATree(path("file"))));
    // Nothing was done before the refusal.
    assert!(rebuilder.debug_filtered().is_empty());
    assert_eq!(rebuilder.rebuilt(&id_of(root)), None);
}

#[test]
fn partial_exclusion_of_a_file_below_is_refused_with_its_full_path() {
    let repo = memory_repository();
    let blob = repo.blob(b"x").unwrap();
    let dir = tree_with(&repo, &[("file", blob, 0o100755)]);
    let root = tree_with(&repo, &[("dir", dir, DIR)]);
    let included = paths(&[]);
    let excluded = paths(&["dir/file/inside"]);
    let mut rebuilder = Rebuilder::new(&repo, &included, &excluded);
    let result = rebuilder.rebuild_tree(&tree_node(&repo, root), &RepoPath::new());
    assert_eq!(result, Err(RebuildError::NotATree(path("dir/file"))));
}

#[test]
fn tree_is_refused_for_its_first_unsound_entry() {
    let repo = memory_repository();
    let blob = repo.blob(b"x").unwrap();
    let file = TreeEntry { name: Some("file".to_string()), mode: FILE, id: id_of(blob) };
    let nameless = TreeEntry { name: None, mode: FILE, id: id_of(blob) };
    let included = paths(&["file/inside"]);
    let excluded = paths(&[]);

    let tree = TreeNode { id: id_of(Oid::from_bytes(&[7u8; 20]).unwrap()), entries: vec![file.clone(), nameless.clone()] };
    let mut rebuilder = Rebuilder::new(&repo, &included, &excluded);
    assert_eq!(rebuilder.rebuild_tree(&tree, &RepoPath::new()), Err(RebuildError::NotATree(path("file"))));

    let tree = TreeNode { id: id_of(Oid::from_bytes(&[8u8; 20]).unwrap()), entries: vec![nameless, file] };
    let mut rebuilder = Rebuilder::new(&repo, &included, &excluded);
    assert_eq!(rebuilder.rebuild_tree(&tree, &RepoPath::new()), Err(RebuildError::MissingName));
}

#[test]
fn plan_gives_the_decision_for_each_entry() {
    let repo = memory_repository();
    let blob = repo.blob(b"x").unwrap();
    let entries = vec![
        TreeEntry { name: Some("a".to_string()), mode: DIR, id: id_of(blob) },
        TreeEntry { name: Some("b".to_string()), mode: FILE, id: id_of(blob) },
        TreeEntry { name: Some("c".to_string()), mode: FILE, id: id_of(blob) },
    ];
    let included = paths(&["top/a/x", "top/b"]);
    let excluded = paths(&[]);
    let plan = plan_entries(&included, &excluded, &path("top"), &entries).unwrap();
    assert_eq!(plan, vec![Decision::Rebuild, Decision::Keep, Decision::Drop]);
    // At another place the same entries fare otherwise.
    let plan = plan_entries(&included, &excluded, &path("elsewhere"), &entries).unwrap();
    assert_eq!(plan, vec![Decision::Drop, Decision::Drop, Decision::Drop]);
}

#[test]
fn depth_limit_stops_the_descent() {
    let repo = memory_repository();
    let secret = repo.blob(b"secret").unwrap();
    let c = tree_with(&repo, &[("secret.txt", secret, FILE)]);
    let b = tree_with(&repo, &[("c", c, DIR)]);
    let a = tree_with(&repo, &[("b", b, DIR)]);
    let root = tree_with(&repo, &[("a", a, DIR)]);
    let included = paths(&[]);
    let excluded = paths(&["a/b/c/secret.txt"]);

    let mut shallow = Rebuilder::new(&repo, &included, &excluded);
    let result = shallow.rebuild_tree_within(&tree_node(&repo, root), &RepoPath::new(), 2);
    assert_eq!(result, Err(RebuildError::TooDeep));
    assert_eq!(shallow.rebuilt(&id_of(root)), None);

    let mut flat = Rebuilder::new(&repo, &included, &excluded);
    let result = flat.rebuild_tree_within(&tree_node(&repo, root), &RepoPath::new(), 0);
    assert_eq!(result, Err(RebuildError::TooDeep));
    // A tree that needs no descent is rebuilt at any depth.
    let result = flat.rebuild_tree_within(&tree_node(&repo, c), &path("elsewhere"), 0);
    assert_eq!(result.unwrap().id, id_of(c));

    let mut deep = Rebuilder::new(&repo, &included, &excluded);
    let result = deep.rebuild_tree_within(&tree_node(&repo, root), &RepoPath::new(), 3);
    let empty = tree_with(&repo, &[]);
    let new_b = tree_with(&repo, &[("c", empty, DIR)]);
    let new_a = tree_with(&repo, &[("b", new_b, DIR)]);
    assert_eq!(result.unwrap().id, id_of(tree_with(&repo, &[("a", new_a, DIR)])));
    assert_eq!(deep.debug_filtered(), paths(&["a/b/c/secret.txt"]));
    assert_eq!(TREE_DEPTH_LIMIT, 1024);
}

#[test]
fn empty_policy_rebuilds_a_commit_to_itself() {
    let repo = memory_repository();
    let one = repo.blob(b"one").unwrap();
    let two = repo.blob(b"two").unwrap();
    let dir = tree_with(&repo, &[("one.txt", one, FILE)]);
    let first = commit_with(&repo, "first", tree_with(&repo, &[("dir", dir, DIR)]), &[]);
    let second =
        commit_with(&repo, "second", tree_with(&repo, &[("dir", dir, DIR), ("two.txt", two, FILE)]), &[first]);

    let none = paths(&[]);
    let mut rebuilder = Rebuilder::new(&repo, &none, &none);
    let rebuilt = rebuilder.rebuild_commit(commit_node(&repo, second)).unwrap();

    assert_eq!(rebuilt.id, id_of(second));
    assert_eq!(rebuilt, commit_node(&repo, second));
    assert!(!rebuilder.changed(id_of(second)));
    assert!(!rebuilder.changed(id_of(first)));
    assert!(rebuilder.debug_filtered().is_empty());
    // Two commits and two root trees were met; none was rewritten and the
    // tree below them was never entered.
    assert_eq!(rebuilder.debug_changes(), (0, 4));
    assert_eq!(rebuilder.rebuilt(&id_of(dir)), None);
}

#[test]
fn two_commit_history_without_the_excluded_file() {
    let repo = memory_repository();
    let keep_1 = repo.blob(b"keep, first").unwrap();
    let keep_2 = repo.blob(b"keep, second").unwrap();
    let secret = repo.blob(b"secret").unwrap();
    let tree_1 = tree_with(&repo, &[("keep.txt", keep_1, FILE), ("drop.txt", secret, FILE)]);
    let tree_2 = tree_with(&repo, &[("keep.txt", keep_2, FILE), ("drop.txt", secret, FILE)]);
    let commit_1 = commit_with(&repo, "add files", tree_1, &[]);
    let commit_2 = commit_with(&repo, "change keep.txt", tree_2, &[commit_1]);

    let included = paths(&[]);
    let excluded = paths(&["drop.txt"]);
    let mut rebuilder = Rebuilder::new(&repo, &included, &excluded);
    let rebuilt = rebuilder.rebuild_commit(commit_node(&repo, commit_2)).unwrap();

    // What is expected, made by the store itself.
    let new_tree_1 = tree_with(&repo, &[("keep.txt", keep_1, FILE)]);
    let new_tree_2 = tree_with(&repo, &[("keep.txt", keep_2, FILE)]);
    let new_commit_1 = commit_with(&repo, "add files", new_tree_1, &[]);
    let new_commit_2 = commit_with(&repo, "change keep.txt", new_tree_2, &[new_commit_1]);

    assert_ne!(rebuilt.id, id_of(commit_2));
    assert_eq!(rebuilt.id, id_of(new_commit_2));
    assert_eq!(rebuilt.parents, vec![id_of(new_commit_1)]);
    assert_ne!(rebuilt.parents[0], id_of(commit_1));
    assert_eq!(rebuilt.tree, id_of(new_tree_2));
    assert_eq!(rebuilt.message.as_deref(), Some("change keep.txt"));

    let tree = tree_node(&repo, oid_of(rebuilt.tree));
    assert_eq!(tree.entries.len(), 1);
    assert_eq!(tree.entries[0].name.as_deref(), Some("keep.txt"));
    assert_eq!(tree.entries[0].id, id_of(keep_2));

    let parent = commit_node(&repo, oid_of(rebuilt.parents[0]));
    assert!(parent.parents.is_empty());
    assert_eq!(parent.tree, id_of(new_tree_1));

    // Author, committer and message are those of commit_2.
    let written = repo.find_commit(oid_of(rebuilt.id)).unwrap();
    assert_eq!(written.author().name(), Some("Ada"));
    assert_eq!(written.author().email(), Some("ada@example.org"));
    assert_eq!(written.author().when().seconds(), 1_600_000_000);
    assert_eq!(written.author().when().offset_minutes(), 60);
    assert_eq!(written.committer().name(), Some("Bob"));
    assert_eq!(written.committer().when().seconds(), 1_700_000_000);
    assert_eq!(written.message(), Some("change keep.txt"));

    assert_eq!(rebuilder.rebuilt(&id_of(commit_1)), Some(id_of(new_commit_1)));
    assert_eq!(rebuilder.rebuilt(&id_of(commit_2)), Some(id_of(new_commit_2)));
    assert_eq!(rebuilder.rebuilt(&id_of(tree_1)), Some(id_of(new_tree_1)));
    assert_eq!(rebuilder.rebuilt(&id_of(tree_2)), Some(id_of(new_tree_2)));
    assert_eq!(rebuilder.debug_filtered(), paths(&["drop.txt"]));
    assert_eq!(rebuilder.debug_changes(), (4, 0));
}

#[test]
fn merge_is_rewritten_when_one_parent_changes() {
    let repo = memory_repository();
    let keep = repo.blob(b"keep").unwrap();
    let secret = repo.blob(b"secret").unwrap();
    let clean = tree_with(&repo, &[("keep.txt", keep, FILE)]);
    let dirty = tree_with(&repo, &[("keep.txt", keep, FILE), ("drop.txt", secret, FILE)]);
    let left = commit_with(&repo, "left", dirty, &[]);
    let right = commit_with(&repo, "right", clean, &[]);
    let merge = commit_with(&repo, "merge", clean, &[left, right]);

    let included = paths(&[]);
    let excluded = paths(&["drop.txt"]);
    let mut rebuilder = Rebuilder::new(&repo, &included, &excluded);
    let rebuilt = rebuilder.rebuild_commit(commit_node(&repo, merge)).unwrap();

    let new_left = commit_with(&repo, "left", clean, &[]);
    // The merge's own tree is the one it had.
    assert_eq!(rebuilt.tree, id_of(clean));
    assert!(!rebuilder.changed(id_of(clean)));
    // Yet the merge is a new commit: its parents are the rebuilt ones.
    assert_ne!(rebuilt.id, id_of(merge));
    assert_eq!(rebuilt.parents, vec![id_of(new_left), id_of(right)]);
    assert_eq!(rebuilt.id, id_of(commit_with(&repo, "merge", clean, &[new_left, right])));
    assert!(rebuilder.changed(id_of(left)));
    assert!(!rebuilder.changed(id_of(right)));
    assert!(rebuilder.changed(id_of(merge)));
    assert_eq!(rebuilder.debug_changes(), (3, 2));
}

#[test]
fn shared_ancestor_is_rebuilt_once() {
    let repo = memory_repository();
    let keep = repo.blob(b"keep").unwrap();
    let more = repo.blob(b"more").unwrap();
    let secret = repo.blob(b"secret").unwrap();
    let base_tree = tree_with(&repo, &[("keep.txt", keep, FILE), ("drop.txt", secret, FILE)]);
    let side_tree = tree_with(&repo, &[("keep.txt", more, FILE), ("drop.txt", secret, FILE)]);
    let base = commit_with(&repo, "base", base_tree, &[]);
    let left = commit_with(&repo, "left", base_tree, &[base]);
    let right = commit_with(&repo, "right", side_tree, &[base]);
    let merge = commit_with(&repo, "merge", side_tree, &[left, right]);

    let included = paths(&[]);
    let excluded = paths(&["drop.txt"]);
    let mut rebuilder = Rebuilder::new(&repo, &included, &excluded);
    let rebuilt = rebuilder.rebuild_commit(commit_node(&repo, merge)).unwrap();

    let new_base_tree = tree_with(&repo, &[("keep.txt", keep, FILE)]);
    let new_side_tree = tree_with(&repo, &[("keep.txt", more, FILE)]);
    let new_base = commit_with(&repo, "base", new_base_tree, &[]);
    let new_left = commit_with(&repo, "left", new_base_tree, &[new_base]);
    let new_right = commit_with(&repo, "right", new_side_tree, &[new_base]);
    let new_merge = commit_with(&repo, "merge", new_side_tree, &[new_left, new_right]);
    assert_eq!(rebuilt.id, id_of(new_merge));
    assert_eq!(rebuilt.parents, vec![id_of(new_left), id_of(new_right)]);
    // Both sides lead to the one rebuilt base.
    let left_node = commit_node(&repo, oid_of(rebuilt.parents[0]));
    let right_node = commit_node(&repo, oid_of(rebuilt.parents[1]));
    assert_eq!(left_node.parents, vec![id_of(new_base)]);
    assert_eq!(right_node.parents, vec![id_of(new_base)]);
    // Four commits and two trees, each entered once.
    assert_eq!(rebuilder.debug_changes(), (6, 0));
}

#[test]
fn rebuilding_twice_gives_the_same_commit() {
    let repo = memory_repository();
    let keep = repo.blob(b"keep").unwrap();
    let secret = repo.blob(b"secret").unwrap();
    let tree = tree_with(&repo, &[("keep.txt", keep, FILE), ("drop.txt", secret, FILE)]);
    let first = commit_with(&repo, "first", tree, &[]);
    let second = commit_with(&repo, "second", tree, &[first]);
    let included = paths(&[]);
    let excluded = paths(&["drop.txt"]);

    // Twice with one rebuilder: the second answer comes from the record.
    let mut rebuilder = Rebuilder::new(&repo, &included, &excluded);
    let once = rebuilder.rebuild_commit(commit_node(&repo, second)).unwrap();
    let counts = rebuilder.debug_changes();
    let again = rebuilder.rebuild_commit(commit_node(&repo, second)).unwrap();
    assert_eq!(once, again);
    assert_eq!(rebuilder.debug_changes(), counts);

    // And once more with a fresh rebuilder over the same store.
    let mut fresh = Rebuilder::new(&repo, &included, &excluded);
    let anew = fresh.rebuild_commit(commit_node(&repo, second)).unwrap();
    assert_eq!(once.id, anew.id);
    assert_ne!(once.id, id_of(second));
}

#[test]
fn step_limit_stops_a_long_history() {
    let repo = memory_repository();
    let keep = repo.blob(b"keep").unwrap();
    let tree = tree_with(&repo, &[("keep.txt", keep, FILE)]);
    let first = commit_with(&repo, "first", tree, &[]);
    let second = commit_with(&repo, "second", tree, &[first]);
    let third = commit_with(&repo, "third", tree, &[second]);
    let none = paths(&[]);

    // Three commits take five steps: two reads of a parent and three rebuilds.
    let mut short = Rebuilder::new(&repo, &none, &none);
    let result = short.rebuild_commit_within(commit_node(&repo, third), 4);
    assert_eq!(result, Err(RebuildError::OutOfSteps));
    assert_eq!(short.rebuilt(&id_of(third)), None);
    assert_eq!(short.rebuilt(&id_of(first)), Some(id_of(first)));

    let mut enough = Rebuilder::new(&repo, &none, &none);
    let result = enough.rebuild_commit_within(commit_node(&repo, third), 5);
    assert_eq!(result.unwrap().id, id_of(third));

    let mut nothing = Rebuilder::new(&repo, &none, &none);
    let result = nothing.rebuild_commit_within(commit_node(&repo, third), 0);
    assert_eq!(result, Err(RebuildError::OutOfSteps));
}

#[test]
fn missing_parent_is_a_store_error() {
    let repo = memory_repository();
    let keep = repo.blob(b"keep").unwrap();
    let tree = tree_with(&repo, &[("keep.txt", keep, FILE)]);
    let commit = CommitNode {
        id: id_of(Oid::from_bytes(&[1u8; 20]).unwrap()),
        tree: id_of(tree),
        parents: vec![id_of(Oid::from_bytes(&[2u8; 20]).unwrap())],
        message: Some("orphan".to_string()),
    };
    let none = paths(&[]);
    let mut rebuilder = Rebuilder::new(&repo, &none, &none);
    let result = rebuilder.rebuild_commit(commit);
    assert!(matches!(result, Err(RebuildError::Store(_))));
}

fn commit_with_raw_message(repo: &Repository, message: &[u8], tree: Oid) -> Oid {
    let mut text = format!(
        "tree {tree}\nauthor Ada <ada@example.org> 1600000000 +0100\ncommitter Bob <bob@example.org> 1700000000 -0200\n\n"
    )
    .into_bytes();
    text.extend_from_slice(message);
    repo.odb().unwrap().write(git2::ObjectType::Commit, &text).unwrap()
}

#[test]
fn commit_with_an_unreadable_message_is_refused_when_it_must_be_rewritten() {
    let repo = memory_repository();
    let keep = repo.blob(b"keep").unwrap();
    let secret = repo.blob(b"secret").unwrap();
    let tree = tree_with(&repo, &[("keep.txt", keep, FILE), ("drop.txt", secret, FILE)]);
    let source = commit_with_raw_message(&repo, b"caf\xe9\n", tree);
    let node = commit_node(&repo, source);
    assert_eq!(node.message, None);

    let included = paths(&[]);
    let excluded = paths(&["drop.txt"]);
    let mut rebuilder = Rebuilder::new(&repo, &included, &excluded);
    let result = rebuilder.rebuild_commit(node);
    assert_eq!(result, Err(RebuildError::UnreadableMessage));
    assert_eq!(rebuilder.rebuilt(&id_of(source)), None);
}

#[test]
fn commit_with_an_unreadable_message_stays_when_nothing_changes() {
    let repo = memory_repository();
    let keep = repo.blob(b"keep").unwrap();
    let tree = tree_with(&repo, &[("keep.txt", keep, FILE)]);
    let source = commit_with_raw_message(&repo, b"caf\xe9\n", tree);

    let included = paths(&[]);
    let excluded = paths(&["drop.txt"]);
    let mut rebuilder = Rebuilder::new(&repo, &included, &excluded);
    let rebuilt = rebuilder.rebuild_commit(commit_node(&repo, source)).unwrap();
    assert_eq!(rebuilt.id, id_of(source));
    assert_eq!(repo.find_commit(source).unwrap().message_raw_bytes(), b"caf\xe9\n");
}

#[test]
fn message_is_handed_on_letter_for_letter() {
    let repo = memory_repository();
    let keep = repo.blob(b"keep").unwrap();
    let secret = repo.blob(b"secret").unwrap();
    let tree = tree_with(&repo, &[("keep.txt", keep, FILE), ("drop.txt", secret, FILE)]);
    // Blank lines in front, blanks behind and no line end: all of it stays.
    let message = "\n\n  subject  \n\nbody \u{e9} \t";
    let source = commit_with(&repo, message, tree, &[]);

    let included = paths(&[]);
    let excluded = paths(&["drop.txt"]);
    let mut rebuilder = Rebuilder::new(&repo, &included, &excluded);
    let rebuilt = rebuilder.rebuild_commit(commit_node(&repo, source)).unwrap();

    let written = repo.find_commit(oid_of(rebuilt.id)).unwrap();
    assert_ne!(rebuilt.id, id_of(source));
    assert_eq!(written.message_raw_bytes(), message.as_bytes());
    assert_eq!(written.message_raw_bytes(), repo.find_commit(source).unwrap().message_raw_bytes());
    assert_eq!(rebuilt.message.as_deref(), Some(message));
    // Author and committer are those of the source, with their times.
    let from = repo.find_commit(source).unwrap();
    assert_eq!(written.author().name_bytes(), from.author().name_bytes());
    assert_eq!(written.author().email_bytes(), from.author().email_bytes());
    assert_eq!(written.author().when(), from.author().when());
    assert_eq!(written.committer().name_bytes(), from.committer().name_bytes());
    assert_eq!(written.committer().email_bytes(), from.committer().email_bytes());
    assert_eq!(written.committer().when(), from.committer().when());
}

#[test]
fn changed_tells_only_what_was_rewritten() {
    let repo = memory_repository();
    let none = paths(&[]);
    let rebuilder = Rebuilder::new(&repo, &none, &none);
    // A digest never met counts as unchanged.
    assert!(!rebuilder.changed(id_of(Oid::from_bytes(&[5u8; 20]).unwrap())));
    assert_eq!(rebuilder.debug_changes(), (0, 0));
    assert!(rebuilder.debug_filtered().is_empty());
}

#[test]
fn nameless_entry_below_is_refused_too() {
    // The nameless entry sits in a tree that is only reached by descent; git
    // stores names as bytes, and these are no valid text.
    let repo = memory_repository();
    let blob = repo.blob(b"x").unwrap();
    let mut builder = repo.treebuilder(None).unwrap();
    builder.insert(&b"\xff\xfe"[..], blob, FILE).unwrap();
    builder.insert("secret.txt", blob, FILE).unwrap();
    let inner = builder.write().unwrap();
    let root = tree_with(&repo, &[("inner", inner, DIR)]);

    let included = paths(&[]);
    let excluded = paths(&["inner/secret.txt"]);
    let mut rebuilder = Rebuilder::new(&repo, &included, &excluded);
    let result = rebuilder.rebuild_tree(&tree_node(&repo, root), &RepoPath::new());
    assert_eq!(result, Err(RebuildError::MissingName));
    assert_eq!(rebuilder.rebuilt(&id_of(root)), None);
    assert_eq!(rebuilder.rebuilt(&id_of(inner)), None);
}

#[test]
fn kept_tree_with_a_nameless_entry_is_never_read() {
    let repo = memory_repository();
    let blob = repo.blob(b"x").unwrap();
    let mut builder = repo.treebuilder(None).unwrap();
    builder.insert(&b"\xff\xfe"[..], blob, FILE).unwrap();
    let inner = builder.write().unwrap();
    let root = tree_with(&repo, &[("inner", inner, DIR), ("drop.txt", blob, FILE)]);

    let included = paths(&[]);
    let excluded = paths(&["drop.txt"]);
    let mut rebuilder = Rebuilder::new(&repo, &included, &excluded);
    let rebuilt = rebuilder.rebuild_tree(&tree_node(&repo, root), &RepoPath::new()).unwrap();
    assert_eq!(rebuilt.id, id_of(tree_with(&repo, &[("inner", inner, DIR)])));
}

fn nested(repo: &Repository, levels: usize) -> (Oid, RepoPath) {
    let secret = repo.blob(b"secret").unwrap();
    let keep = repo.blob(b"keep").unwrap();
    let mut tree = tree_with(repo, &[("keep.txt", keep, FILE), ("secret.txt", secret, FILE)]);
    let mut excluded = RepoPath::new();
    for _ in 0..levels {
        tree = tree_with(repo, &[("d", tree, DIR)]);
        excluded = excluded.join("d");
    }
    (tree, excluded.join("secret.txt"))
}

#[test]
fn nesting_is_followed_down_to_the_limit() {
    let repo = memory_repository();
    let (root, secret) = nested(&repo, TREE_DEPTH_LIMIT);
    let included = paths(&[]);
    let excluded = vec![secret.duplicate()];
    let mut rebuilder = Rebuilder::new(&repo, &included, &excluded);
    let rebuilt = rebuilder.rebuild_tree(&tree_node(&repo, root), &RepoPath::new()).unwrap();
    assert_ne!(rebuilt.id, id_of(root));
    assert_eq!(rebuilder.debug_filtered(), vec![secret]);
    assert_eq!(rebuilder.debug_changes(), (TREE_DEPTH_LIMIT + 1, 0));
}

#[test]
fn nesting_beyond_the_limit_is_refused() {
    let repo = memory_repository();
    let (root, secret) = nested(&repo, TREE_DEPTH_LIMIT + 1);
    let included = paths(&[]);
    let excluded = vec![secret];
    let mut rebuilder = Rebuilder::new(&repo, &included, &excluded);
    let result = rebuilder.rebuild_tree(&tree_node(&repo, root), &RepoPath::new());
    assert_eq!(result, Err(RebuildError::TooDeep));
    assert!(rebuilder.debug_filtered().is_empty());
}

#[test]
fn long_history_is_rebuilt_commit_by_commit() {
    let repo = memory_repository();
    let keep = repo.blob(b"keep").unwrap();
    let secret = repo.blob(b"secret").unwrap();
    let tree = tree_with(&repo, &[("keep.txt", keep, FILE), ("drop.txt", secret, FILE)]);
    let new_tree = tree_with(&repo, &[("keep.txt", keep, FILE)]);
    let length = 20_000;
    let mut tip = commit_with(&repo, "0", tree, &[]);
    let mut new_tip = commit_with(&repo, "0", new_tree, &[]);
    for number in 1..length {
        tip = commit_with(&repo, &number.to_string(), tree, &[tip]);
        new_tip = commit_with(&repo, &number.to_string(), new_tree, &[new_tip]);
    }

    let included = paths(&[]);
    let excluded = paths(&["drop.txt"]);
    let mut rebuilder = Rebuilder::new(&repo, &included, &excluded);
    let rebuilt = rebuilder.rebuild_commit(commit_node(&repo, tip)).unwrap();
    assert_eq!(rebuilt.id, id_of(new_tip));
    assert_eq!(rebuilder.debug_changes(), (length + 1, 0));
    assert_eq!(rebuilder.debug_filtered(), paths(&["drop.txt"]));
}

#[test]
fn tree_that_holds_itself_is_refused() {
    let repo = memory_repository();
    let secret = repo.blob(b"secret").unwrap();
    let real = tree_with(&repo, &[("secret.txt", secret, FILE)]);
    // No store hands out such a tree: it claims to hold itself as "sub".
    let claimed = TreeNode {
        id: id_of(real),
        entries: vec![TreeEntry { name: Some("sub".to_string()), mode: DIR, id: id_of(real) }],
    };
    let included = paths(&[]);
    let excluded = paths(&["sub/secret.txt"]);
    let mut rebuilder = Rebuilder::new(&repo, &included, &excluded);
    let result = rebuilder.rebuild_tree(&claimed, &RepoPath::new());
    assert_eq!(result, Err(RebuildError::Cycle));
    // What was entered for the inner tree stays as it is.
    assert_eq!(rebuilder.rebuilt(&id_of(real)), Some(id_of(tree_with(&repo, &[]))));
}

#[test]
fn commit_filed_under_the_digest_of_its_tree_is_refused() {
    let repo = memory_repository();
    let secret = repo.blob(b"secret").unwrap();
    let tree = tree_with(&repo, &[("drop.txt", secret, FILE)]);
    let claimed = CommitNode { id: id_of(tree), tree: id_of(tree), parents: vec![], message: None };
    let included = paths(&[]);
    let excluded = paths(&["drop.txt"]);
    let mut rebuilder = Rebuilder::new(&repo, &included, &excluded);
    let result = rebuilder.rebuild_commit(claimed);
    assert_eq!(result, Err(RebuildError::Cycle));
}

#[test]
fn commit_that_is_its_own_parent_is_refused() {
    let repo = memory_repository();
    let keep = repo.blob(b"keep").unwrap();
    let tree = tree_with(&repo, &[("keep.txt", keep, FILE)]);
    let real = commit_with(&repo, "root", tree, &[]);
    // No store hands out such a commit: it claims to be its own parent.
    let claimed =
        CommitNode { id: id_of(real), tree: id_of(tree), parents: vec![id_of(real)], message: None };
    let none = paths(&[]);
    let mut rebuilder = Rebuilder::new(&repo, &none, &none);
    let result = rebuilder.rebuild_commit(claimed);
    assert_eq!(result, Err(RebuildError::Cycle));
    // The commit that the store holds under that digest was rebuilt, once.
    assert_eq!(rebuilder.rebuilt(&id_of(real)), Some(id_of(real)));
    assert_eq!(rebuilder.debug_changes(), (0, 2));
}

#[test]
fn allow_list_leaves_out_exactly_what_is_not_listed() {
    let repo = memory_repository();
    let b1 = repo.blob(b"one").unwrap();
    let b2 = repo.blob(b"two").unwrap();
    let b3 = repo.blob(b"three").unwrap();
    let a = tree_with(&repo, &[("b.txt", b1, FILE), ("c.txt", b2, FILE)]);
    let root = tree_with(&repo, &[("a", a, DIR), ("d.txt", b3, FILE)]);

    let included = paths(&["a/b.txt"]);
    let excluded = paths(&[]);
    let mut rebuilder = Rebuilder::new(&repo, &included, &excluded);
    let rebuilt = rebuilder.rebuild_tree(&tree_node(&repo, root), &RepoPath::new()).unwrap();

    let new_a = tree_with(&repo, &[("b.txt", b1, FILE)]);
    assert_eq!(rebuilt, tree_node(&repo, tree_with(&repo, &[("a", new_a, DIR)])));
    assert_eq!(tree_node(&repo, new_a).entries.len(), 1);
    assert_eq!(rebuilder.debug_filtered(), paths(&["a/c.txt", "d.txt"]));
    // The record holds the two trees and nothing else.
    assert_eq!(rebuilder.rebuilt(&id_of(root)), Some(rebuilt.id));
    assert_eq!(rebuilder.rebuilt(&id_of(a)), Some(id_of(new_a)));
    assert_eq!(rebuilder.debug_changes(), (2, 0));
    assert_eq!(rebuilder.rebuilt(&rebuilt.id), None);
    assert_eq!(rebuilder.rebuilt(&id_of(new_a)), None);
}

#[test]
fn empty_policy_counts_nothing_as_changed() {
    let repo = memory_repository();
    let one = repo.blob(b"one").unwrap();
    let dir = tree_with(&repo, &[("one.txt", one, FILE)]);
    let tree = tree_with(&repo, &[("dir", dir, DIR)]);
    let first = commit_with(&repo, "first", tree, &[]);
    let second = commit_with(&repo, "second", tree, &[first]);
    let none = paths(&[]);
    let mut rebuilder = Rebuilder::new(&repo, &none, &none);
    rebuilder.rebuild_commit(commit_node(&repo, second)).unwrap();
    for oid in [first, second, tree, dir, one] {
        assert!(!rebuilder.changed(id_of(oid)));
    }
    assert_eq!(rebuilder.debug_changes().0, 0);
}

#[test]
fn finish_commit_enters_a_commit_whose_parents_are_done() {
    let repo = memory_repository();
    let keep = repo.blob(b"keep").unwrap();
    let secret = repo.blob(b"secret").unwrap();
    let tree = tree_with(&repo, &[("keep.txt", keep, FILE), ("drop.txt", secret, FILE)]);
    let root = commit_with(&repo, "root", tree, &[]);
    let included = paths(&[]);
    let excluded = paths(&["drop.txt"]);
    let mut rebuilder = Rebuilder::new(&repo, &included, &excluded);
    let id = rebuilder.finish_commit(&commit_node(&repo, root)).unwrap();
    let new_tree = tree_with(&repo, &[("keep.txt", keep, FILE)]);
    assert_eq!(id, id_of(commit_with(&repo, "root", new_tree, &[])));
    assert_eq!(rebuilder.rebuilt(&id_of(root)), Some(id));
    // A second time the commit is in the record, and is refused.
    assert_eq!(rebuilder.finish_commit(&commit_node(&repo, root)), Err(RebuildError::Cycle));
}
