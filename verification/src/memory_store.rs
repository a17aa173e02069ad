//! An object store that keeps its tables in memory.

use crate::object::{ids_view, ObjectType};
use crate::text::text_equal;
use crate::store::{
    commit_views, filter_seq, clone_commit, clone_node, clone_object, clone_ref, first_from,
    is_prefix, lemma_filter_step, lemma_resolves_step, node_views, object_views, ref_matches,
    ref_views, refs_moved, resolves, CommitRecord, CommitRecordView, Node, NodeView, ObjectRecord,
    ObjectRecordView, ObjectStorage, Ref, RefView, StoreError,
};
use vstd::prelude::*;
use vstd::utf8::encode_utf8;

verus! {

/// Whether `prefix` is how `text` begins.
pub fn bytes_start_with(text: &[u8], prefix: &[u8]) -> (r: bool)
    ensures
        r == is_prefix(prefix@, text@),
{
    crate::object::starts_with_at(text, 0, prefix)
}

/// The place of the first node kept under `id`; the number of nodes when
/// there is none.
fn node_index(table: &Vec<Node>, id: &crate::hash::Hash) -> (at: usize)
    ensures
        at == first_from(node_views(table@), |n: NodeView| n.git_id == id@, 0),
        at <= table.len(),
{
    let ghost views = node_views(table@);
    let ghost wanted = |n: NodeView| n.git_id == id@;
    let mut i: usize = 0;
    while i < table.len() && !table[i].git_id.same(id)
        invariant
            i <= table.len(),
            views == node_views(table@),
            wanted == |n: NodeView| n.git_id == id@,
            first_from(views, wanted, 0) == first_from(views, wanted, i as int),
        decreases table.len() - i,
    {
        assert(views[i as int] == table@[i as int]@);
        i = i + 1;
    }
    proof {
        if i < table.len() {
            assert(views[i as int] == table@[i as int]@);
        }
    }
    i
}

/// An object store in memory. Its tables are plain lists, in the order in
/// which the records were filed; it answers every operation.
#[derive(Debug, Clone, PartialEq, Eq)]
pub struct MemoryStore {
    pub node_table: Vec<Node>,
    pub commit_table: Vec<CommitRecord>,
    pub ref_table: Vec<Ref>,
    pub object_table: Vec<ObjectRecord>,
}

impl MemoryStore {
    /// A store that keeps nothing yet.
    pub fn new() -> (store: MemoryStore)
        ensures
            store.nodes().len() == 0,
            store.commits().len() == 0,
            store.refs().len() == 0,
            store.objects().len() == 0,
            store.dependable(),
    {
        MemoryStore {
            node_table: Vec::new(),
            commit_table: Vec::new(),
            ref_table: Vec::new(),
            object_table: Vec::new(),
        }
    }

    /// Files an object that came with a push.
    pub fn add_object(&mut self, object: ObjectRecord)
        ensures
            final(self).objects() == old(self).objects().push(object@),
            final(self).nodes() == old(self).nodes(),
            final(self).commits() == old(self).commits(),
            final(self).refs() == old(self).refs(),
    {
        self.object_table.push(object);
        assert(self.objects() =~= old(self).objects().push(object@));
    }
}

impl ObjectStorage for MemoryStore {
    open spec fn nodes(&self) -> Seq<NodeView> {
        node_views(self.node_table@)
    }

    open spec fn commits(&self) -> Seq<CommitRecordView> {
        commit_views(self.commit_table@)
    }

    open spec fn refs(&self) -> Seq<RefView> {
        ref_views(self.ref_table@)
    }

    open spec fn objects(&self) -> Seq<ObjectRecordView> {
        object_views(self.object_table@)
    }

    open spec fn dependable(&self) -> bool {
        true
    }

    fn get_all_commits_by_path(&self, path: &str) -> (r: Result<Vec<CommitRecord>, StoreError>) {
        let ghost table = self.commits();
        let ghost keep = |c: CommitRecordView| c.repo_path == path@;
        let mut found: Vec<CommitRecord> = Vec::new();
        let mut i: usize = 0;
        assert(table.take(0) =~= Seq::<CommitRecordView>::empty());
        while i < self.commit_table.len()
            invariant
                i <= self.commit_table.len(),
                table == self.commits(),
                keep == |c: CommitRecordView| c.repo_path == path@,
                commit_views(found@) =~= filter_seq(table.take(i as int), keep),
            decreases self.commit_table.len() - i,
        {
            proof {
                lemma_filter_step(table, keep, i as int);
            }
            let record = &self.commit_table[i];
            if text_equal(record.repo_path.as_str(), path) {
                let copy = clone_commit(record);
                assert(commit_views(found@.push(copy)) =~= commit_views(found@).push(copy@));
                found.push(copy);
            }
            i = i + 1;
        }
        assert(table.take(i as int) =~= table);
        Ok(found)
    }

    fn get_nodes_by_ids(&self, ids: &Vec<crate::hash::Hash>) -> (r: Result<Vec<Node>, StoreError>) {
        let ghost table = self.nodes();
        let ghost wanted = ids_view(ids@);
        let mut found: Vec<Node> = Vec::new();
        let mut i: usize = 0;
        while i < ids.len()
            invariant
                i <= ids.len(),
                table == self.nodes(),
                wanted == ids_view(ids@),
                resolves(table, wanted.take(i as int), node_views(found@)),
            decreases ids.len() - i,
        {
            let at: usize = node_index(&self.node_table, &ids[i]);
            proof {
                assert(wanted[i as int] == ids@[i as int]@);
                lemma_resolves_step(table, wanted, i as int, node_views(found@));
            }
            if at < self.node_table.len() {
                let copy = clone_node(&self.node_table[at]);
                assert(node_views(found@.push(copy)) =~= node_views(found@).push(copy@));
                assert(table[at as int] == self.node_table@[at as int]@);
                found.push(copy);
            }
            i = i + 1;
        }
        assert(wanted.take(i as int) =~= wanted);
        Ok(found)
    }

    fn get_node_by_id(&self, id: &crate::hash::Hash) -> (r: Result<Option<Node>, StoreError>) {
        let at: usize = node_index(&self.node_table, id);
        if at < self.node_table.len() {
            Ok(Some(clone_node(&self.node_table[at])))
        } else {
            Ok(None)
        }
    }

    fn search_refs(&self, path: &str) -> (r: Result<Vec<Ref>, StoreError>) {
        let ghost table = self.refs();
        let ghost keep = |r: RefView| is_prefix(encode_utf8(r.repo_path), encode_utf8(path@));
        let mut found: Vec<Ref> = Vec::new();
        let mut i: usize = 0;
        assert(table.take(0) =~= Seq::<RefView>::empty());
        while i < self.ref_table.len()
            invariant
                i <= self.ref_table.len(),
                table == self.refs(),
                keep == |r: RefView| is_prefix(encode_utf8(r.repo_path), encode_utf8(path@)),
                ref_views(found@) =~= filter_seq(table.take(i as int), keep),
            decreases self.ref_table.len() - i,
        {
            proof {
                lemma_filter_step(table, keep, i as int);
            }
            let record = &self.ref_table[i];
            if bytes_start_with(path.as_bytes(), record.repo_path.as_str().as_bytes()) {
                let copy = clone_ref(record);
                assert(ref_views(found@.push(copy)) =~= ref_views(found@).push(copy@));
                found.push(copy);
            }
            i = i + 1;
        }
        assert(table.take(i as int) =~= table);
        Ok(found)
    }

    fn search_root_node_by_path(&self, path: &str) -> (r: Result<Option<Node>, StoreError>) {
        let ghost views = self.nodes();
        let ghost wanted = |n: NodeView| n.full_path == path@;
        let mut i: usize = 0;
        while i < self.node_table.len() && !text_equal(self.node_table[i].full_path.as_str(), path)
            invariant
                i <= self.node_table.len(),
                views == self.nodes(),
                wanted == |n: NodeView| n.full_path == path@,
                first_from(views, wanted, 0) == first_from(views, wanted, i as int),
            decreases self.node_table.len() - i,
        {
            assert(views[i as int] == self.node_table@[i as int]@);
            i = i + 1;
        }
        if i < self.node_table.len() {
            assert(views[i as int] == self.node_table@[i as int]@);
            Ok(Some(clone_node(&self.node_table[i])))
        } else {
            Ok(None)
        }
    }

    fn get_commit_by_id(&self, id: &crate::hash::Hash) -> (r: Result<
        Option<CommitRecord>,
        StoreError,
    >) {
        let ghost views = self.commits();
        let ghost wanted = |c: CommitRecordView| c.git_id == id@;
        let mut i: usize = 0;
        while i < self.commit_table.len() && !self.commit_table[i].git_id.same(id)
            invariant
                i <= self.commit_table.len(),
                views == self.commits(),
                wanted == |c: CommitRecordView| c.git_id == id@,
                first_from(views, wanted, 0) == first_from(views, wanted, i as int),
            decreases self.commit_table.len() - i,
        {
            assert(views[i as int] == self.commit_table@[i as int]@);
            i = i + 1;
        }
        if i < self.commit_table.len() {
            assert(views[i as int] == self.commit_table@[i as int]@);
            Ok(Some(clone_commit(&self.commit_table[i])))
        } else {
            Ok(None)
        }
    }

    fn get_git_objects(&self, request_id: i64, object_type: ObjectType) -> (r: Result<
        Vec<ObjectRecord>,
        StoreError,
    >) {
        let ghost table = self.objects();
        let ghost keep = |o: ObjectRecordView|
            o.request_id == request_id && o.object_type == object_type;
        let mut found: Vec<ObjectRecord> = Vec::new();
        let mut i: usize = 0;
        assert(table.take(0) =~= Seq::<ObjectRecordView>::empty());
        while i < self.object_table.len()
            invariant
                i <= self.object_table.len(),
                table == self.objects(),
                keep == |o: ObjectRecordView|
                    o.request_id == request_id && o.object_type == object_type,
                object_views(found@) =~= filter_seq(table.take(i as int), keep),
            decreases self.object_table.len() - i,
        {
            proof {
                lemma_filter_step(table, keep, i as int);
            }
            let record = &self.object_table[i];
            if record.request_id == request_id && record.object_type == object_type {
                let copy = clone_object(record);
                assert(object_views(found@.push(copy)) =~= object_views(found@).push(copy@));
                found.push(copy);
            }
            i = i + 1;
        }
        assert(table.take(i as int) =~= table);
        Ok(found)
    }

    fn save_commits(&mut self, commits: Vec<CommitRecord>) -> (r: Result<(), StoreError>) {
        let mut commits = commits;
        let ghost added = commit_views(commits@);
        self.commit_table.append(&mut commits);
        assert(self.commits() =~= old(self).commits() + added);
        Ok(())
    }

    fn save_refs(&mut self, refs: Vec<Ref>) -> (r: Result<(), StoreError>) {
        let mut refs = refs;
        let ghost added = ref_views(refs@);
        self.ref_table.append(&mut refs);
        assert(self.refs() =~= old(self).refs() + added);
        Ok(())
    }

    fn save_nodes(&mut self, nodes: Vec<Node>) -> (r: Result<(), StoreError>) {
        let mut nodes = nodes;
        let ghost added = node_views(nodes@);
        self.node_table.append(&mut nodes);
        assert(self.nodes() =~= old(self).nodes() + added);
        Ok(())
    }

    fn delete_refs(&mut self, old_id: &crate::hash::Hash, path: &str) -> (r: Result<
        (),
        StoreError,
    >) {
        let ghost table = self.refs();
        let ghost keep = |r: RefView| !ref_matches(r, old_id@, path@);
        let mut kept: Vec<Ref> = Vec::new();
        let mut i: usize = 0;
        assert(table.take(0) =~= Seq::<RefView>::empty());
        while i < self.ref_table.len()
            invariant
                i <= self.ref_table.len(),
                table == self.refs(),
                *self == *old(self),
                keep == |r: RefView| !ref_matches(r, old_id@, path@),
                ref_views(kept@) =~= filter_seq(table.take(i as int), keep),
            decreases self.ref_table.len() - i,
        {
            proof {
                lemma_filter_step(table, keep, i as int);
            }
            let record = &self.ref_table[i];
            if !(record.ref_git_id.same(old_id) && text_equal(record.repo_path.as_str(), path)) {
                let copy = clone_ref(record);
                assert(ref_views(kept@.push(copy)) =~= ref_views(kept@).push(copy@));
                kept.push(copy);
            }
            i = i + 1;
        }
        assert(table.take(i as int) =~= table);
        self.ref_table = kept;
        Ok(())
    }

    fn update_refs(
        &mut self,
        old_id: &crate::hash::Hash,
        new_id: &crate::hash::Hash,
        path: &str,
    ) -> (r: Result<(), StoreError>) {
        let ghost table = self.refs();
        let mut moved: Vec<Ref> = Vec::new();
        let mut i: usize = 0;
        while i < self.ref_table.len()
            invariant
                i <= self.ref_table.len(),
                table == self.refs(),
                *self == *old(self),
                moved@.len() == i,
                forall|j: int|
                    0 <= j < i ==> (#[trigger] moved@[j])@ == refs_moved(
                        table,
                        old_id@,
                        new_id@,
                        path@,
                    )[j],
            decreases self.ref_table.len() - i,
        {
            let record = &self.ref_table[i];
            let mut copy = clone_ref(record);
            assert(table[i as int] == record@);
            if record.ref_git_id.same(old_id) && text_equal(record.repo_path.as_str(), path) {
                copy.ref_git_id = *new_id;
            }
            moved.push(copy);
            i = i + 1;
        }
        self.ref_table = moved;
        assert(self.refs() =~= refs_moved(table, old_id@, new_id@, path@));
        Ok(())
    }
}

} // verus!
