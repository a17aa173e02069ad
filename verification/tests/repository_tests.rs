use chrono::{DateTime, NaiveDateTime};
use git_transport::memory_store::MemoryStore;
use git_transport::object::{compute_object_id, Commit, ObjectType};
use git_transport::pack::{GitError, PackProtocol};
use git_transport::repository::{
    generate_child_commit_and_refs, handle_refs, path_lies_above, CommandType, RefCommand,
};
use git_transport::store::{CommitRecord, Node, ObjectStorage, Ref};

type Id = git_transport::hash::Hash;

fn at(seconds: i64) -> NaiveDateTime {
    DateTime::from_timestamp(seconds, 0).unwrap().naive_utc()
}

fn tree_node(name: &str, child: &Id, path: &str) -> Node {
    let mut data = Vec::new();
    data.extend_from_slice(b"100644 ");
    data.extend_from_slice(name.as_bytes());
    data.push(0);
    data.extend_from_slice(&child.bytes);
    Node {
        git_id: compute_object_id(ObjectType::Tree, &data),
        node_type: ObjectType::Tree,
        data,
        full_path: path.to_string(),
        pid: None,
    }
}

fn commit_record(tree: &Id, parent: Option<&Id>, repo: &str) -> CommitRecord {
    let mut text = format!("tree {}\n", tree.to_plain_str());
    if let Some(p) = parent {
        text.push_str(&format!("parent {}\n", p.to_plain_str()));
    }
    text.push_str("author A <a@example.com> 1700000000 +0000\n");
    text.push_str("committer C <c@example.com> 1700000001 +0000\n\nthe message\n");
    let meta = text.into_bytes();
    CommitRecord {
        git_id: compute_object_id(ObjectType::Commit, &meta),
        meta,
        repo_path: repo.to_string(),
    }
}

fn a_ref(path: &str, name: &str, id: &Id) -> Ref {
    Ref {
        repo_path: path.to_string(),
        ref_name: name.to_string(),
        ref_git_id: *id,
        created_at: at(1),
        updated_at: at(1),
    }
}

struct Fixture {
    protocol: PackProtocol<MemoryStore>,
    root_commit: CommitRecord,
    root_ref: Ref,
    src: Node,
}

/// A repository at /root/repoA with one commit, and nodes for its root and
/// for its subdirectory src.
fn fixture() -> Fixture {
    let blob = compute_object_id(ObjectType::Blob, b"fn main() {}\n");
    let src = tree_node("main.rs", &blob, "/root/repoA/src");
    let root = tree_node("src", &src.git_id, "/root/repoA");
    let parent = compute_object_id(ObjectType::Commit, b"an earlier commit");
    let root_commit = commit_record(&root.git_id, Some(&parent), "/root/repoA");
    let root_ref = a_ref("/root/repoA", "refs/heads/main", &root_commit.git_id);
    let mut store = MemoryStore::new();
    store.save_nodes(vec![root, src.clone()]).unwrap();
    store.save_commits(vec![root_commit.clone()]).unwrap();
    store.save_refs(vec![root_ref.clone()]).unwrap();
    Fixture { protocol: PackProtocol { storage: store }, root_commit, root_ref, src }
}

fn expected_child(f: &Fixture) -> CommitRecord {
    let text = String::from_utf8(f.root_commit.meta.clone()).unwrap();
    let rest = text.split_once('\n').unwrap().1;
    let meta = format!("tree {}\n{}", f.src.git_id.to_plain_str(), rest).into_bytes();
    CommitRecord {
        git_id: compute_object_id(ObjectType::Commit, &meta),
        meta,
        repo_path: "/root/repoA/src".to_string(),
    }
}

#[test]
fn head_of_a_repository_is_what_its_ref_points_to() {
    let mut f = fixture();
    let before = f.protocol.storage.clone();
    let head = f.protocol.get_head_object_id("/root/repoA", at(5)).unwrap();
    assert_eq!(head, f.root_commit.git_id);
    assert_eq!(f.protocol.storage, before);
}

#[test]
fn head_of_a_subdirectory_is_a_made_up_commit() {
    let mut f = fixture();
    let child = expected_child(&f);
    let head = f.protocol.get_head_object_id("/root/repoA/src", at(7)).unwrap();
    assert_eq!(head, child.git_id);
    assert_ne!(head, f.root_commit.git_id);
    let store = &f.protocol.storage;
    assert_eq!(store.commit_table, vec![f.root_commit.clone(), child.clone()]);
    assert_eq!(
        store.ref_table,
        vec![
            f.root_ref.clone(),
            Ref {
                repo_path: "/root/repoA/src".to_string(),
                ref_name: "refs/heads/main".to_string(),
                ref_git_id: child.git_id,
                created_at: at(7),
                updated_at: at(7),
            }
        ]
    );
    let parsed = Commit::new_from_data(child.meta.clone()).unwrap();
    let root = Commit::new_from_data(f.root_commit.meta.clone()).unwrap();
    assert_eq!(parsed.tree_id, f.src.git_id);
    assert_eq!(parsed.parent_ids, root.parent_ids);
    assert_eq!(parsed.raw[46..], root.raw[46..]);
}

#[test]
fn head_of_a_subdirectory_is_found_again_without_a_new_commit() {
    let mut f = fixture();
    let first = f.protocol.get_head_object_id("/root/repoA/src", at(7)).unwrap();
    let after_first = f.protocol.storage.clone();
    let second = f.protocol.get_head_object_id("/root/repoA/src", at(8)).unwrap();
    assert_eq!(first, second);
    assert_eq!(f.protocol.storage, after_first);
}

#[test]
fn second_synthesis_files_a_second_commit_and_ref() {
    let mut f = fixture();
    let child = expected_child(&f);
    let root_ref = f.root_ref.clone();
    let store = &mut f.protocol.storage;
    let first = generate_child_commit_and_refs(store, &root_ref, "/root/repoA/src", at(7)).unwrap();
    assert_eq!(store.commit_table.len(), 2);
    assert_eq!(store.ref_table.len(), 2);
    let second = generate_child_commit_and_refs(store, &root_ref, "/root/repoA/src", at(9)).unwrap();
    assert_eq!(first, child.git_id);
    assert_eq!(second, child.git_id);
    assert_eq!(store.commit_table, vec![f.root_commit.clone(), child.clone(), child.clone()]);
    assert_eq!(store.ref_table.len(), 3);
    assert_eq!(store.ref_table[1].created_at, at(7));
    assert_eq!(store.ref_table[2].created_at, at(9));
    assert_eq!(store.ref_table[2].ref_git_id, child.git_id);
}

#[test]
fn path_without_node_and_without_ref_has_the_zero_id() {
    let mut f = fixture();
    let before = f.protocol.storage.clone();
    let head = f.protocol.get_head_object_id("/elsewhere/repo", at(5)).unwrap();
    assert_eq!(head, Id::zero());
    assert_eq!(head.to_plain_str(), "0000000000000000000000000000000000000000");
    assert!(head.is_zero());
    assert_eq!(f.protocol.storage, before);
}

#[test]
fn subdirectory_without_node_has_the_zero_id() {
    let mut f = fixture();
    let before = f.protocol.storage.clone();
    let head = f.protocol.get_head_object_id("/root/repoA/docs", at(5)).unwrap();
    assert_eq!(head, Id::zero());
    assert_eq!(f.protocol.storage, before);
}

#[test]
fn path_that_only_begins_like_a_repository_has_the_zero_id() {
    let mut f = fixture();
    let lookalike = tree_node("x", &Id::zero(), "/root/repoA2/src");
    f.protocol.storage.save_nodes(vec![lookalike]).unwrap();
    let before = f.protocol.storage.clone();
    let head = f.protocol.get_head_object_id("/root/repoA2/src", at(5)).unwrap();
    assert_eq!(head, Id::zero());
    assert_eq!(f.protocol.storage, before);
}

#[test]
fn nearest_repository_above_gives_the_commit() {
    let mut f = fixture();
    let outer_commit = commit_record(&f.src.git_id, None, "/root");
    let outer_ref = a_ref("/root", "refs/heads/outer", &outer_commit.git_id);
    let mut store = MemoryStore::new();
    store.save_nodes(f.protocol.storage.node_table.clone()).unwrap();
    store.save_commits(vec![outer_commit, f.root_commit.clone()]).unwrap();
    store.save_refs(vec![outer_ref, f.root_ref.clone()]).unwrap();
    f.protocol.storage = store;
    let head = f.protocol.get_head_object_id("/root/repoA/src", at(3)).unwrap();
    assert_eq!(head, expected_child(&f).git_id);
    assert_eq!(f.protocol.storage.ref_table[2].ref_name, "refs/heads/main");
}

#[test]
fn synthesis_needs_the_commit_of_the_ref() {
    let mut f = fixture();
    let missing = compute_object_id(ObjectType::Commit, b"not stored");
    let dangling = a_ref("/root/repoA", "refs/heads/gone", &missing);
    let before = f.protocol.storage.clone();
    let r =
        generate_child_commit_and_refs(&mut f.protocol.storage, &dangling, "/root/repoA/src", at(1));
    assert_eq!(r, Err(GitError::InvalidCommitObject(missing)));
    assert_eq!(f.protocol.storage, before);
}

#[test]
fn paths_lie_above_by_whole_directories() {
    assert!(path_lies_above("/root/repoA", "/root/repoA/src"));
    assert!(path_lies_above("/root/repoA/", "/root/repoA/src"));
    assert!(path_lies_above("/root", "/root/repoA/src"));
    assert!(!path_lies_above("/root/repo", "/root/repoA/src"));
    assert!(!path_lies_above("/root/repoA", "/root/repoA"));
    assert!(!path_lies_above("/root/repoA/src", "/root/repoA"));
    assert!(path_lies_above("", "/root"));
    assert!(!path_lies_above("", "root"));
}

fn command(kind: CommandType, old: &Id, new: &Id) -> RefCommand {
    RefCommand {
        ref_name: "refs/heads/topic".to_string(),
        old_id: *old,
        new_id: *new,
        command_type: kind,
    }
}

#[test]
fn create_command_files_a_ref() {
    let mut f = fixture();
    let new = compute_object_id(ObjectType::Commit, b"new");
    let c = command(CommandType::Create, &Id::zero(), &new);
    handle_refs(&mut f.protocol.storage, &c, "/root/repoA", at(11)).unwrap();
    assert_eq!(
        f.protocol.storage.ref_table,
        vec![
            f.root_ref.clone(),
            Ref {
                repo_path: "/root/repoA".to_string(),
                ref_name: "refs/heads/topic".to_string(),
                ref_git_id: new,
                created_at: at(11),
                updated_at: at(11),
            }
        ]
    );
}

#[test]
fn delete_command_removes_the_ref_that_points_to_the_old_id() {
    let mut f = fixture();
    let other = compute_object_id(ObjectType::Commit, b"other");
    f.protocol.storage.save_refs(vec![a_ref("/root/repoA", "refs/heads/x", &other)]).unwrap();
    f.protocol.storage.save_refs(vec![a_ref("/root/b", "refs/heads/y", &other)]).unwrap();
    let c = command(CommandType::Delete, &other, &Id::zero());
    handle_refs(&mut f.protocol.storage, &c, "/root/repoA", at(11)).unwrap();
    assert_eq!(
        f.protocol.storage.ref_table,
        vec![f.root_ref.clone(), a_ref("/root/b", "refs/heads/y", &other)]
    );
}

#[test]
fn update_command_moves_the_ref_that_points_to_the_old_id() {
    let mut f = fixture();
    let new = compute_object_id(ObjectType::Commit, b"new");
    let c = command(CommandType::Update, &f.root_commit.git_id, &new);
    handle_refs(&mut f.protocol.storage, &c, "/root/repoA", at(11)).unwrap();
    let mut moved = f.root_ref.clone();
    moved.ref_git_id = new;
    assert_eq!(f.protocol.storage.ref_table, vec![moved]);
}

#[test]
fn update_command_with_a_stale_old_id_changes_nothing() {
    let mut f = fixture();
    let stale = compute_object_id(ObjectType::Commit, b"stale");
    let new = compute_object_id(ObjectType::Commit, b"new");
    let c = command(CommandType::Update, &stale, &new);
    assert_eq!(handle_refs(&mut f.protocol.storage, &c, "/root/repoA", at(11)), Ok(()));
    assert_eq!(f.protocol.storage.ref_table, vec![f.root_ref.clone()]);
}

#[test]
fn store_looks_up_by_id_and_by_path() {
    let f = fixture();
    let store = &f.protocol.storage;
    assert_eq!(store.get_node_by_id(&f.src.git_id).unwrap(), Some(f.src.clone()));
    assert_eq!(store.get_node_by_id(&Id::zero()).unwrap(), None);
    assert_eq!(store.search_root_node_by_path("/root/repoA/src").unwrap(), Some(f.src.clone()));
    assert_eq!(store.search_root_node_by_path("/root/repoA/sr").unwrap(), None);
    assert_eq!(
        store.get_commit_by_id(&f.root_commit.git_id).unwrap(),
        Some(f.root_commit.clone())
    );
    assert_eq!(store.search_refs("/root/repoA/src").unwrap(), vec![f.root_ref.clone()]);
    assert_eq!(store.search_refs("/root/repo").unwrap(), vec![]);
    assert_eq!(
        store.get_all_commits_by_path("/root/repoA").unwrap(),
        vec![f.root_commit.clone()]
    );
    let found = store.get_nodes_by_ids(&vec![Id::zero(), f.src.git_id]).unwrap();
    assert_eq!(found, vec![f.src.clone()]);
}
