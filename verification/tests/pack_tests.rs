use git_transport::memory_store::MemoryStore;
use git_transport::meta_map::MetaMap;
use git_transport::object::{compute_object_id, is_tree_data, Commit, Meta, ObjectType, Tree};
use git_transport::pack::{GitError, PackProtocol};
use git_transport::store::{CommitRecord, Node, ObjectStorage};

type Id = git_transport::hash::Hash;

fn blob_node(data: &[u8], path: &str) -> Node {
    Node {
        git_id: compute_object_id(ObjectType::Blob, data),
        node_type: ObjectType::Blob,
        data: data.to_vec(),
        full_path: path.to_string(),
        pid: None,
    }
}

fn tree_bytes(entries: &[(&str, &str, Id)]) -> Vec<u8> {
    let mut raw = Vec::new();
    for (mode, name, id) in entries {
        raw.extend_from_slice(mode.as_bytes());
        raw.push(b' ');
        raw.extend_from_slice(name.as_bytes());
        raw.push(0);
        raw.extend_from_slice(&id.bytes);
    }
    raw
}

fn tree_node(entries: &[(&str, &str, Id)], path: &str) -> Node {
    let data = tree_bytes(entries);
    Node {
        git_id: compute_object_id(ObjectType::Tree, &data),
        node_type: ObjectType::Tree,
        data,
        full_path: path.to_string(),
        pid: None,
    }
}

fn commit_record(tree: &Id, parents: &[Id], message: &str, repo: &str) -> CommitRecord {
    let mut text = format!("tree {}\n", tree.to_plain_str());
    for p in parents {
        text.push_str(&format!("parent {}\n", p.to_plain_str()));
    }
    text.push_str("author A U Thor <a@example.com> 1700000000 +0000\n");
    text.push_str("committer A U Thor <a@example.com> 1700000000 +0000\n\n");
    text.push_str(message);
    let meta = text.into_bytes();
    CommitRecord {
        git_id: compute_object_id(ObjectType::Commit, &meta),
        meta,
        repo_path: repo.to_string(),
    }
}

struct Repo {
    protocol: PackProtocol<MemoryStore>,
    shared_blob: Node,
    only_a: Node,
    only_b: Node,
    sub: Node,
    root_a: Node,
    root_b: Node,
    commit_a: CommitRecord,
    commit_b: CommitRecord,
}

/// Two commits whose trees share a subdirectory and a file.
fn repo() -> Repo {
    let shared_blob = blob_node(b"shared\n", "/root/repoA/src/lib.rs");
    let only_a = blob_node(b"first\n", "/root/repoA/a.txt");
    let only_b = blob_node(b"second\n", "/root/repoA/b.txt");
    let sub = tree_node(&[("100644", "lib.rs", shared_blob.git_id)], "/root/repoA/src");
    let root_a = tree_node(
        &[
            ("100644", "a.txt", only_a.git_id),
            ("100644", "copy.rs", shared_blob.git_id),
            ("40000", "src", sub.git_id),
        ],
        "/root/repoA",
    );
    let root_b = tree_node(
        &[("100644", "b.txt", only_b.git_id), ("40000", "src", sub.git_id)],
        "/root/repoA",
    );
    let commit_a = commit_record(&root_a.git_id, &[], "first\n", "/root/repoA");
    let commit_b = commit_record(&root_b.git_id, &[commit_a.git_id], "second\n", "/root/repoA");
    let other = commit_record(&root_a.git_id, &[], "elsewhere\n", "/root/other");
    let mut store = MemoryStore::new();
    store
        .save_nodes(vec![
            shared_blob.clone(),
            only_a.clone(),
            only_b.clone(),
            sub.clone(),
            root_a.clone(),
            root_b.clone(),
        ])
        .unwrap();
    store.save_commits(vec![commit_a.clone(), other, commit_b.clone()]).unwrap();
    Repo {
        protocol: PackProtocol { storage: store },
        shared_blob,
        only_a,
        only_b,
        sub,
        root_a,
        root_b,
        commit_a,
        commit_b,
    }
}

fn ids_of(pack: &MetaMap) -> Vec<Id> {
    let mut ids = pack.keys().clone();
    ids.sort_by_key(|id| id.bytes);
    ids
}

fn sorted(mut ids: Vec<Id>) -> Vec<Id> {
    ids.sort_by_key(|id| id.bytes);
    ids
}

#[test]
fn object_id_of_a_blob_is_the_git_id() {
    let id = compute_object_id(ObjectType::Blob, b"hello world");
    assert_eq!(id.to_plain_str(), "95d09f2b10159347eece71399a7e2e907ea3df4f");
    let empty = compute_object_id(ObjectType::Blob, b"");
    assert_eq!(empty.to_plain_str(), "e69de29bb2d1d6434b8b29ae775ad8c2e48c5391");
    let empty_tree = compute_object_id(ObjectType::Tree, b"");
    assert_eq!(empty_tree.to_plain_str(), "4b825dc642cb6eb9a060e54bf8d69288fbee4904");
}

#[test]
fn meta_id_is_derived_from_type_and_bytes() {
    let meta = Meta::new_from_data_with_object_type(ObjectType::Blob, b"hello world".to_vec());
    assert_eq!(meta.id.to_plain_str(), "95d09f2b10159347eece71399a7e2e907ea3df4f");
    assert_eq!(meta.object_type, ObjectType::Blob);
    assert_eq!(meta.raw, b"hello world".to_vec());
    let as_tree = Meta::new_from_data_with_object_type(ObjectType::Tree, b"hello world".to_vec());
    assert_ne!(as_tree.id, meta.id);
}

#[test]
fn full_pack_holds_each_reachable_object_once() {
    let r = repo();
    let pack = r.protocol.get_full_pack_data("/root/repoA").unwrap();
    let expected = sorted(vec![
        r.commit_a.git_id,
        r.commit_b.git_id,
        r.root_a.git_id,
        r.root_b.git_id,
        r.sub.git_id,
        r.shared_blob.git_id,
        r.only_a.git_id,
        r.only_b.git_id,
    ]);
    assert_eq!(pack.len(), 8);
    assert_eq!(ids_of(&pack), expected);
    let values = pack.clone().into_values();
    assert_eq!(values.len(), 8);
    for meta in &values {
        assert_eq!(meta.id, compute_object_id(meta.object_type, &meta.raw));
        assert_eq!(pack.get(&meta.id), Some(meta));
    }
    assert_eq!(pack.get(&r.sub.git_id).unwrap().object_type, ObjectType::Tree);
    assert_eq!(pack.get(&r.shared_blob.git_id).unwrap().object_type, ObjectType::Blob);
    assert_eq!(pack.get(&r.shared_blob.git_id).unwrap().raw, b"shared\n".to_vec());
    assert_eq!(pack.get(&r.commit_a.git_id).unwrap().object_type, ObjectType::Commit);
    assert_eq!(pack.get(&r.commit_a.git_id).unwrap().raw, r.commit_a.meta);
}

#[test]
fn full_pack_of_a_path_without_commits_is_empty() {
    let r = repo();
    let pack = r.protocol.get_full_pack_data("/root/none").unwrap();
    assert_eq!(pack.len(), 0);
}

#[test]
fn incremental_pack_starts_from_wanted_commits_only() {
    let r = repo();
    let want = vec![r.commit_b.git_id];
    let pack = r.protocol.get_incremental_pack_data("/root/repoA", &want, &vec![]).unwrap();
    let expected = sorted(vec![
        r.commit_b.git_id,
        r.root_b.git_id,
        r.sub.git_id,
        r.shared_blob.git_id,
        r.only_b.git_id,
    ]);
    assert_eq!(ids_of(&pack), expected);
}

#[test]
fn incremental_pack_is_not_pruned_by_have() {
    let r = repo();
    let want = vec![r.commit_b.git_id];
    let have = vec![r.commit_a.git_id, r.sub.git_id, r.shared_blob.git_id];
    let with_have = r.protocol.get_incremental_pack_data("/root/repoA", &want, &have).unwrap();
    let without = r.protocol.get_incremental_pack_data("/root/repoA", &want, &vec![]).unwrap();
    assert_eq!(ids_of(&with_have), ids_of(&without));
    assert!(with_have.contains_key(&r.sub.git_id));
}

#[test]
fn incremental_pack_with_nothing_wanted_is_empty() {
    let r = repo();
    let pack = r.protocol.get_incremental_pack_data("/root/repoA", &vec![], &vec![]).unwrap();
    assert_eq!(pack.len(), 0);
}

#[test]
fn missing_root_tree_fails_the_assembly() {
    let mut r = repo();
    let missing = compute_object_id(ObjectType::Tree, b"not stored");
    let orphan = commit_record(&missing, &[], "orphan\n", "/root/repoA");
    r.protocol.storage.save_commits(vec![orphan]).unwrap();
    assert_eq!(
        r.protocol.get_full_pack_data("/root/repoA"),
        Err(GitError::InvalidTreeObject(missing))
    );
}

#[test]
fn missing_entry_of_a_subtree_fails_the_assembly() {
    let missing = compute_object_id(ObjectType::Blob, b"never stored");
    let sub = tree_node(&[("100644", "gone.txt", missing)], "/r/sub");
    let root = tree_node(&[("40000", "sub", sub.git_id)], "/r");
    let commit = commit_record(&root.git_id, &[], "m\n", "/r");
    let mut store = MemoryStore::new();
    store.save_nodes(vec![sub, root]).unwrap();
    store.save_commits(vec![commit]).unwrap();
    let protocol = PackProtocol { storage: store };
    assert_eq!(protocol.get_full_pack_data("/r"), Err(GitError::InvalidTreeObject(missing)));
}

#[test]
fn unreadable_tree_fails_the_assembly() {
    let mut broken = tree_node(&[], "/r");
    broken.data = b"100644 name-without-id\0short".to_vec();
    let commit = commit_record(&broken.git_id, &[], "m\n", "/r");
    let mut store = MemoryStore::new();
    store.save_nodes(vec![broken.clone()]).unwrap();
    store.save_commits(vec![commit]).unwrap();
    let protocol = PackProtocol { storage: store };
    assert_eq!(
        protocol.get_full_pack_data("/r"),
        Err(GitError::InvalidTreeObject(broken.git_id))
    );
}

#[test]
fn commit_that_names_no_tree_fails_the_assembly() {
    let record = CommitRecord {
        git_id: compute_object_id(ObjectType::Commit, b"garbage"),
        meta: b"garbage".to_vec(),
        repo_path: "/r".to_string(),
    };
    let mut store = MemoryStore::new();
    store.save_commits(vec![record.clone()]).unwrap();
    let protocol = PackProtocol { storage: store };
    assert_eq!(
        protocol.get_full_pack_data("/r"),
        Err(GitError::InvalidCommitObject(record.git_id))
    );
}

#[test]
fn traversal_ends_on_trees_that_refer_to_each_other() {
    let a_id = compute_object_id(ObjectType::Tree, b"a");
    let b_id = compute_object_id(ObjectType::Tree, b"b");
    let a = Node {
        git_id: a_id,
        node_type: ObjectType::Tree,
        data: tree_bytes(&[("40000", "b", b_id)]),
        full_path: "/r".to_string(),
        pid: None,
    };
    let b = Node {
        git_id: b_id,
        node_type: ObjectType::Tree,
        data: tree_bytes(&[("40000", "a", a_id)]),
        full_path: "/r/b".to_string(),
        pid: None,
    };
    let mut store = MemoryStore::new();
    store.save_nodes(vec![a, b]).unwrap();
    let protocol = PackProtocol { storage: store };
    let mut pack = MetaMap::new();
    protocol.get_child_trees(&vec![a_id], &mut pack).unwrap();
    assert_eq!(ids_of(&pack), sorted(vec![a_id, b_id]));
}

#[test]
fn tree_bytes_are_read_entry_by_entry() {
    let blob = compute_object_id(ObjectType::Blob, b"x");
    let raw = tree_bytes(&[("100644", "a.txt", blob), ("40000", "dir", blob)]);
    let tree = Tree::new_from_data(raw.clone()).unwrap();
    assert_eq!(tree.tree_items.len(), 2);
    assert_eq!(tree.tree_items[0].mode, b"100644".to_vec());
    assert_eq!(tree.tree_items[0].name, b"a.txt".to_vec());
    assert_eq!(tree.tree_items[0].id, blob);
    assert_eq!(tree.tree_items[1].mode, b"40000".to_vec());
    assert_eq!(tree.tree_items[1].name, b"dir".to_vec());
    assert_eq!(tree.id, compute_object_id(ObjectType::Tree, &raw));
    assert_eq!(tree.get_raw(), raw);
    assert!(Tree::new_from_data(b"100644 a.txt\0short".to_vec()).is_none());
    assert!(Tree::new_from_data(b"no-space-or-nul".to_vec()).is_none());
    assert_eq!(Tree::new_from_data(Vec::new()).unwrap().tree_items.len(), 0);
}

#[test]
fn commit_bytes_name_tree_and_parents() {
    let tree = compute_object_id(ObjectType::Tree, b"");
    let p1 = compute_object_id(ObjectType::Commit, b"p1");
    let p2 = compute_object_id(ObjectType::Commit, b"p2");
    let record = commit_record(&tree, &[p1, p2], "merge\n", "/r");
    let commit = Commit::new_from_data(record.meta.clone()).unwrap();
    assert_eq!(commit.tree_id, tree);
    assert_eq!(commit.parent_ids, vec![p1, p2]);
    assert_eq!(commit.id, record.git_id);
    assert_eq!(commit.get_raw(), record.meta);
    assert!(Commit::new_from_data(b"tree 1234\n".to_vec()).is_none());
    assert!(Commit::new_from_data(Vec::new()).is_none());
}

#[test]
fn failure_names_the_tree_of_the_first_commit_at_fault() {
    let blob = blob_node(b"x", "/r/f");
    let good = tree_node(&[("100644", "f", blob.git_id)], "/r");
    let missing_one = compute_object_id(ObjectType::Tree, b"missing one");
    let missing_two = compute_object_id(ObjectType::Tree, b"missing two");
    let mut unreadable = tree_node(&[], "/r");
    unreadable.data = b"100644 cut\0short".to_vec();
    let gone = compute_object_id(ObjectType::Blob, b"gone");
    let holed = tree_node(&[("100644", "gone", gone)], "/r");

    let pack = |nodes: Vec<Node>, trees: Vec<Id>| {
        let mut store = MemoryStore::new();
        store.save_nodes(nodes).unwrap();
        let commits = trees.iter().map(|t| commit_record(t, &[], "m\n", "/r")).collect();
        store.save_commits(commits).unwrap();
        PackProtocol { storage: store }.get_full_pack_data("/r")
    };

    assert_eq!(
        pack(vec![good.clone(), blob.clone()], vec![good.git_id, missing_one, missing_two]),
        Err(GitError::InvalidTreeObject(missing_one))
    );
    assert_eq!(
        pack(vec![good.clone(), blob.clone()], vec![missing_two, good.git_id, missing_one]),
        Err(GitError::InvalidTreeObject(missing_two))
    );
    assert_eq!(
        pack(
            vec![good.clone(), blob.clone(), unreadable.clone()],
            vec![good.git_id, unreadable.git_id, missing_one]
        ),
        Err(GitError::InvalidTreeObject(unreadable.git_id))
    );
    assert_eq!(
        pack(
            vec![good.clone(), blob.clone(), unreadable.clone()],
            vec![missing_one, unreadable.git_id]
        ),
        Err(GitError::InvalidTreeObject(missing_one))
    );
    assert_eq!(
        pack(vec![holed.clone(), good.clone(), blob.clone()], vec![holed.git_id, missing_one]),
        Err(GitError::InvalidTreeObject(missing_one))
    );
    assert_eq!(
        pack(vec![holed.clone(), good.clone(), blob.clone()], vec![good.git_id, holed.git_id]),
        Err(GitError::InvalidTreeObject(gone))
    );
}

#[test]
fn failure_names_the_first_commit_that_names_no_tree() {
    let record = |bytes: &[u8]| CommitRecord {
        git_id: compute_object_id(ObjectType::Commit, bytes),
        meta: bytes.to_vec(),
        repo_path: "/r".to_string(),
    };
    let missing = compute_object_id(ObjectType::Tree, b"missing");
    let mut store = MemoryStore::new();
    store
        .save_commits(vec![
            commit_record(&missing, &[], "m\n", "/r"),
            record(b"first bad"),
            record(b"second bad"),
        ])
        .unwrap();
    let protocol = PackProtocol { storage: store };
    assert_eq!(
        protocol.get_full_pack_data("/r"),
        Err(GitError::InvalidCommitObject(compute_object_id(ObjectType::Commit, b"first bad")))
    );
    let want = vec![compute_object_id(ObjectType::Commit, b"second bad")];
    assert_eq!(
        protocol.get_incremental_pack_data("/r", &want, &vec![]),
        Err(GitError::InvalidCommitObject(want[0]))
    );
}

#[test]
fn tree_bytes_are_judged_without_being_kept() {
    let blob = compute_object_id(ObjectType::Blob, b"x");
    assert!(is_tree_data(&tree_bytes(&[("100644", "a", blob), ("40000", "b", blob)])));
    assert!(is_tree_data(b""));
    assert!(!is_tree_data(b"100644 a\0short"));
    assert!(!is_tree_data(b"junk"));
}

#[test]
fn what_the_accumulator_holds_is_kept_and_not_expanded() {
    let r = repo();
    let stand_in = Meta::new_from_data_with_object_type(ObjectType::Blob, b"stand-in".to_vec());
    let mut pack = MetaMap::new();
    pack.insert(r.sub.git_id, stand_in.clone());
    r.protocol.get_child_trees(&vec![r.root_b.git_id], &mut pack).unwrap();
    assert_eq!(ids_of(&pack), sorted(vec![r.sub.git_id, r.root_b.git_id, r.only_b.git_id]));
    assert_eq!(pack.get(&r.sub.git_id), Some(&stand_in));
    assert!(!pack.contains_key(&r.shared_blob.git_id));

    r.protocol.get_child_trees(&vec![r.root_a.git_id], &mut pack).unwrap();
    assert_eq!(
        ids_of(&pack),
        sorted(vec![
            r.sub.git_id,
            r.root_b.git_id,
            r.only_b.git_id,
            r.root_a.git_id,
            r.only_a.git_id,
            r.shared_blob.git_id,
        ])
    );
    assert_eq!(pack.get(&r.sub.git_id), Some(&stand_in));
    assert_eq!(pack.get(&r.shared_blob.git_id).unwrap().raw, b"shared\n".to_vec());
    assert_eq!(pack.len(), 6);
}

#[test]
fn a_held_root_is_taken_as_dealt_with() {
    let r = repo();
    let missing = compute_object_id(ObjectType::Tree, b"not stored");
    let stand_in = Meta::new_from_data_with_object_type(ObjectType::Tree, b"".to_vec());
    let mut pack = MetaMap::new();
    pack.insert(missing, stand_in.clone());
    pack.insert(r.root_a.git_id, stand_in.clone());
    let before = pack.clone();
    r.protocol.get_child_trees(&vec![missing, r.root_a.git_id], &mut pack).unwrap();
    assert_eq!(pack, before);
}

#[test]
fn gathering_twice_changes_nothing_the_second_time() {
    let r = repo();
    let roots = vec![r.root_a.git_id, r.root_b.git_id];
    let mut pack = MetaMap::new();
    r.protocol.get_child_trees(&roots, &mut pack).unwrap();
    assert_eq!(pack.len(), 6);
    let once = pack.clone();
    r.protocol.get_child_trees(&roots, &mut pack).unwrap();
    assert_eq!(pack, once);
}

#[test]
fn failed_gathering_keeps_what_was_held() {
    let r = repo();
    let missing = compute_object_id(ObjectType::Tree, b"not stored");
    let stand_in = Meta::new_from_data_with_object_type(ObjectType::Blob, b"stand-in".to_vec());
    let mut pack = MetaMap::new();
    pack.insert(r.only_a.git_id, stand_in.clone());
    assert_eq!(
        r.protocol.get_child_trees(&vec![r.root_a.git_id, missing], &mut pack),
        Err(GitError::InvalidTreeObject(missing))
    );
    assert_eq!(pack.get(&r.only_a.git_id), Some(&stand_in));
}
