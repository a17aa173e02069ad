use git_transport::ingest::{build_node_tree, find_object, is_readable_tree, save_packfile};
use git_transport::memory_store::MemoryStore;
use git_transport::object::{compute_object_id, Commit, ObjectType};
use git_transport::pack::{GitError, PackProtocol};
use git_transport::store::{CommitRecord, Node, ObjectRecord, ObjectStorage};

type Id = git_transport::hash::Hash;

fn object(request_id: i64, object_type: ObjectType, data: Vec<u8>) -> ObjectRecord {
    ObjectRecord { request_id, git_id: compute_object_id(object_type, &data), object_type, data }
}

fn tree_bytes(entries: &[(&str, &[u8], Id)]) -> Vec<u8> {
    let mut raw = Vec::new();
    for (mode, name, id) in entries {
        raw.extend_from_slice(mode.as_bytes());
        raw.push(b' ');
        raw.extend_from_slice(name);
        raw.push(0);
        raw.extend_from_slice(&id.bytes);
    }
    raw
}

fn commit_bytes(tree: &Id, message: &str) -> Vec<u8> {
    format!(
        "tree {}\nauthor A <a@example.com> 1 +0000\ncommitter A <a@example.com> 1 +0000\n\n{}",
        tree.to_plain_str(),
        message
    )
    .into_bytes()
}

struct Push {
    store: MemoryStore,
    blob: ObjectRecord,
    readme: ObjectRecord,
    src: ObjectRecord,
    root: ObjectRecord,
    commit: ObjectRecord,
    absent: Id,
}

/// A push of one commit: a root directory with a file, a subdirectory that
/// holds the same file twice, and an entry whose object did not come along.
fn push() -> Push {
    let blob = object(7, ObjectType::Blob, b"fn main() {}\n".to_vec());
    let readme = object(7, ObjectType::Blob, b"read me\n".to_vec());
    let absent = compute_object_id(ObjectType::Blob, b"pushed earlier");
    let src = object(
        7,
        ObjectType::Tree,
        tree_bytes(&[("100644", b"copy.rs", blob.git_id), ("100644", b"main.rs", blob.git_id)]),
    );
    let root = object(
        7,
        ObjectType::Tree,
        tree_bytes(&[
            ("100644", b"README", readme.git_id),
            ("100644", b"old.txt", absent),
            ("40000", b"src", src.git_id),
            ("40000", b"src2", src.git_id),
        ]),
    );
    let commit = object(7, ObjectType::Commit, commit_bytes(&root.git_id, "first\n"));
    let mut store = MemoryStore::new();
    for o in [&blob, &readme, &src, &root, &commit] {
        store.add_object(o.clone());
    }
    store.add_object(object(8, ObjectType::Blob, b"another push".to_vec()));
    Push { store, blob, readme, src, root, commit, absent }
}

fn node(o: &ObjectRecord, path: &str, pid: Option<Id>) -> Node {
    Node {
        git_id: o.git_id,
        node_type: o.object_type,
        data: o.data.clone(),
        full_path: path.to_string(),
        pid,
    }
}

#[test]
fn push_is_filed_as_nodes_with_paths_and_commits() {
    let p = push();
    let mut store = p.store.clone();
    save_packfile(&mut store, 7, "/root/repoA").unwrap();
    let mut nodes = store.node_table.clone();
    nodes.sort_by(|a, b| a.full_path.cmp(&b.full_path));
    assert_eq!(
        nodes,
        vec![
            node(&p.root, "/root/repoA", None),
            node(&p.readme, "/root/repoA/README", Some(p.root.git_id)),
            node(&p.src, "/root/repoA/src", Some(p.root.git_id)),
            node(&p.blob, "/root/repoA/src/copy.rs", Some(p.src.git_id)),
            node(&p.blob, "/root/repoA/src/main.rs", Some(p.src.git_id)),
        ]
    );
    assert_eq!(
        store.commit_table,
        vec![CommitRecord {
            git_id: p.commit.git_id,
            meta: p.commit.data.clone(),
            repo_path: "/root/repoA".to_string(),
        }]
    );
    assert!(store.node_table.iter().all(|n| n.git_id != p.absent));
    assert_eq!(store.object_table, p.store.object_table);
    assert!(store.ref_table.is_empty());
}

#[test]
fn filed_push_can_be_packed_and_its_subdirectory_found() {
    let p = push();
    let mut present = p.store.clone();
    present.add_object(object(7, ObjectType::Blob, b"pushed earlier".to_vec()));
    save_packfile(&mut present, 7, "/root/repoA").unwrap();
    assert_eq!(
        present.search_root_node_by_path("/root/repoA/src").unwrap().unwrap().git_id,
        p.src.git_id
    );
    let protocol = PackProtocol { storage: present };
    let pack = protocol.get_full_pack_data("/root/repoA").unwrap();
    assert_eq!(pack.len(), 6);
    for id in [p.commit.git_id, p.root.git_id, p.src.git_id, p.blob.git_id, p.readme.git_id, p.absent]
    {
        assert!(pack.contains_key(&id));
    }
}

#[test]
fn push_of_another_request_is_left_alone() {
    let p = push();
    let mut store = p.store.clone();
    save_packfile(&mut store, 9, "/root/repoA").unwrap();
    assert_eq!(store, p.store);
}

#[test]
fn pushed_commit_that_names_no_tree_files_nothing() {
    let mut store = MemoryStore::new();
    let bad = object(1, ObjectType::Commit, b"tree zz\n".to_vec());
    store.add_object(bad.clone());
    let before = store.clone();
    assert_eq!(save_packfile(&mut store, 1, "/r"), Err(GitError::InvalidCommitObject(bad.git_id)));
    assert_eq!(store, before);
}

#[test]
fn pushed_tree_that_cannot_be_read_files_nothing() {
    let mut store = MemoryStore::new();
    let broken = object(1, ObjectType::Tree, b"100644 name\0short".to_vec());
    let commit = object(1, ObjectType::Commit, commit_bytes(&broken.git_id, "m\n"));
    store.add_object(broken.clone());
    store.add_object(commit);
    let before = store.clone();
    assert_eq!(save_packfile(&mut store, 1, "/r"), Err(GitError::InvalidTreeObject(broken.git_id)));
    assert_eq!(store, before);
}

#[test]
fn pushed_tree_with_a_name_that_is_not_utf8_files_nothing() {
    let mut store = MemoryStore::new();
    let blob = object(1, ObjectType::Blob, b"x".to_vec());
    let tree = object(1, ObjectType::Tree, tree_bytes(&[("100644", b"\xff\xfe", blob.git_id)]));
    let commit = object(1, ObjectType::Commit, commit_bytes(&tree.git_id, "m\n"));
    for o in [&blob, &tree, &commit] {
        store.add_object(o.clone());
    }
    assert_eq!(save_packfile(&mut store, 1, "/r"), Err(GitError::InvalidTreeObject(tree.git_id)));
    assert!(store.node_table.is_empty());
}

#[test]
fn tree_shared_by_two_commits_gets_one_node() {
    let p = push();
    let first = Commit::new_from_data(p.commit.data.clone()).unwrap();
    let second = Commit::new_from_data(commit_bytes(&p.root.git_id, "second\n")).unwrap();
    let trees = vec![p.src.clone(), p.root.clone()];
    let blobs = vec![p.blob.clone(), p.readme.clone()];
    let nodes = build_node_tree(&vec![first, second], &trees, &blobs, "/r").unwrap();
    let roots: Vec<&Node> = nodes.iter().filter(|n| n.git_id == p.root.git_id).collect();
    assert_eq!(roots.len(), 1);
    assert_eq!(nodes.iter().filter(|n| n.git_id == p.src.git_id).count(), 1);
    assert_eq!(nodes.len(), 5);
}

#[test]
fn commit_whose_tree_did_not_come_along_gets_no_node() {
    let elsewhere = compute_object_id(ObjectType::Tree, b"");
    let commit = Commit::new_from_data(commit_bytes(&elsewhere, "m\n")).unwrap();
    let nodes = build_node_tree(&vec![commit], &vec![], &vec![], "/r").unwrap();
    assert!(nodes.is_empty());
}

#[test]
fn objects_are_found_by_id() {
    let p = push();
    let list = vec![p.blob.clone(), p.readme.clone(), p.blob.clone()];
    assert_eq!(find_object(&list, &p.readme.git_id), Some(1));
    assert_eq!(find_object(&list, &p.blob.git_id), Some(0));
    assert_eq!(find_object(&list, &p.absent), None);
}

#[test]
fn filing_names_the_first_commit_and_the_first_tree_at_fault() {
    let blob = object(1, ObjectType::Blob, b"x".to_vec());
    let good = object(1, ObjectType::Tree, tree_bytes(&[("100644", b"f", blob.git_id)]));
    let cut = object(1, ObjectType::Tree, b"100644 cut\0short".to_vec());
    let odd = object(1, ObjectType::Tree, tree_bytes(&[("100644", b"\xff", blob.git_id)]));
    let with_odd =
        object(1, ObjectType::Tree, tree_bytes(&[("40000", b"odd", odd.git_id)]));
    let commit = |tree: &ObjectRecord, m: &str| {
        object(1, ObjectType::Commit, commit_bytes(&tree.git_id, m))
    };
    let file = |objects: Vec<ObjectRecord>| {
        let mut store = MemoryStore::new();
        for o in objects {
            store.add_object(o);
        }
        save_packfile(&mut store, 1, "/r")
    };
    let trees = vec![blob.clone(), good.clone(), cut.clone(), odd.clone(), with_odd.clone()];
    let with = |commits: Vec<ObjectRecord>| {
        let mut all = trees.clone();
        all.extend(commits);
        all
    };

    assert_eq!(
        file(with(vec![commit(&good, "a"), commit(&cut, "b"), commit(&odd, "c")])),
        Err(GitError::InvalidTreeObject(cut.git_id))
    );
    assert_eq!(
        file(with(vec![commit(&odd, "a"), commit(&good, "b"), commit(&cut, "c")])),
        Err(GitError::InvalidTreeObject(odd.git_id))
    );
    assert_eq!(
        file(with(vec![commit(&with_odd, "a"), commit(&good, "b"), commit(&cut, "c")])),
        Err(GitError::InvalidTreeObject(cut.git_id))
    );
    assert_eq!(
        file(with(vec![commit(&with_odd, "a"), commit(&good, "b")])),
        Err(GitError::InvalidTreeObject(odd.git_id))
    );
    let bad_one = object(1, ObjectType::Commit, b"no tree here".to_vec());
    let bad_two = object(1, ObjectType::Commit, b"nor here".to_vec());
    assert_eq!(
        file(with(vec![commit(&cut, "a"), bad_one.clone(), bad_two.clone()])),
        Err(GitError::InvalidCommitObject(bad_one.git_id))
    );
    assert_eq!(
        file(with(vec![bad_two.clone(), bad_one.clone()])),
        Err(GitError::InvalidCommitObject(bad_two.git_id))
    );
}

#[test]
fn readable_trees_have_whole_entries_with_utf8_names() {
    let blob = compute_object_id(ObjectType::Blob, b"x");
    assert!(is_readable_tree(&tree_bytes(&[("100644", b"a", blob), ("40000", "b\u{e9}".as_bytes(), blob)])));
    assert!(is_readable_tree(b""));
    assert!(!is_readable_tree(&tree_bytes(&[("100644", b"a", blob), ("100644", b"\xc3", blob)])));
    assert!(!is_readable_tree(b"100644 a\0short"));
}
