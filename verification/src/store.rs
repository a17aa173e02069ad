//! The object store as this crate needs it: the records it keeps and the
//! operations it answers.
//!
//! The store itself is somebody else's: a database, most likely. What is
//! written down here is what the traversal and the reference handling rely
//! on, over a model of the store's tables as sequences of records.

use crate::object::ObjectType;
use vstd::prelude::*;
use vstd::utf8::encode_utf8;

verus! {

/// `chrono::NaiveDateTime`, a date and time without a time zone. The crate
/// carries such values through and never looks into them.
#[verifier::external_type_specification]
#[verifier::external_body]
pub struct ExNaiveDateTime(chrono::NaiveDateTime);

/// `NaiveDateTime` is a plain value: its `clone` is a copy.
pub assume_specification[ <chrono::NaiveDateTime as Clone>::clone ](
    t: &chrono::NaiveDateTime,
) -> (r: chrono::NaiveDateTime)
    ensures
        r == *t,
;

/// A failure of the store. The store gives its reason as text.
#[derive(Debug, Clone, PartialEq, Eq)]
pub struct StoreError {
    pub message: String,
}

/// A tree or a blob as the store keeps it: the object's bytes under its id,
/// with the path at which it was found.
#[derive(Debug, Clone, PartialEq, Eq)]
pub struct Node {
    pub git_id: crate::hash::Hash,
    pub node_type: ObjectType,
    pub data: Vec<u8>,
    pub full_path: String,
    pub pid: Option<crate::hash::Hash>,
}

/// What a [`Node`] holds.
pub struct NodeView {
    pub git_id: Seq<u8>,
    pub node_type: ObjectType,
    pub data: Seq<u8>,
    pub full_path: Seq<char>,
    pub pid: Option<Seq<u8>>,
}

impl View for Node {
    type V = NodeView;

    open spec fn view(&self) -> NodeView {
        NodeView {
            git_id: self.git_id@,
            node_type: self.node_type,
            data: self.data@,
            full_path: self.full_path@,
            pid: match self.pid {
                Some(id) => Some(id@),
                None => None,
            },
        }
    }
}

/// A commit as the store keeps it: the commit's bytes under its id, with the
/// path of the repository it belongs to.
#[derive(Debug, Clone, PartialEq, Eq)]
pub struct CommitRecord {
    pub git_id: crate::hash::Hash,
    pub meta: Vec<u8>,
    pub repo_path: String,
}

/// What a [`CommitRecord`] holds.
pub struct CommitRecordView {
    pub git_id: Seq<u8>,
    pub meta: Seq<u8>,
    pub repo_path: Seq<char>,
}

impl View for CommitRecord {
    type V = CommitRecordView;

    open spec fn view(&self) -> CommitRecordView {
        CommitRecordView { git_id: self.git_id@, meta: self.meta@, repo_path: self.repo_path@ }
    }
}

/// A named pointer to a commit of a repository.
#[derive(Debug, Clone, PartialEq, Eq)]
pub struct Ref {
    pub repo_path: String,
    pub ref_name: String,
    pub ref_git_id: crate::hash::Hash,
    pub created_at: chrono::NaiveDateTime,
    pub updated_at: chrono::NaiveDateTime,
}

/// What a [`Ref`] holds.
pub struct RefView {
    pub repo_path: Seq<char>,
    pub ref_name: Seq<char>,
    pub ref_git_id: Seq<u8>,
    pub created_at: chrono::NaiveDateTime,
    pub updated_at: chrono::NaiveDateTime,
}

impl View for Ref {
    type V = RefView;

    open spec fn view(&self) -> RefView {
        RefView {
            repo_path: self.repo_path@,
            ref_name: self.ref_name@,
            ref_git_id: self.ref_git_id@,
            created_at: self.created_at,
            updated_at: self.updated_at,
        }
    }
}

/// An object as it arrived with a push, before it was filed as a node or a
/// commit. `request_id` is the push it came with.
#[derive(Debug, Clone, PartialEq, Eq)]
pub struct ObjectRecord {
    pub request_id: i64,
    pub git_id: crate::hash::Hash,
    pub object_type: ObjectType,
    pub data: Vec<u8>,
}

/// What an [`ObjectRecord`] holds.
pub struct ObjectRecordView {
    pub request_id: i64,
    pub git_id: Seq<u8>,
    pub object_type: ObjectType,
    pub data: Seq<u8>,
}

impl View for ObjectRecord {
    type V = ObjectRecordView;

    open spec fn view(&self) -> ObjectRecordView {
        ObjectRecordView {
            request_id: self.request_id,
            git_id: self.git_id@,
            object_type: self.object_type,
            data: self.data@,
        }
    }
}

/// The views of a list of nodes, in order.
pub open spec fn node_views(list: Seq<Node>) -> Seq<NodeView> {
    Seq::new(list.len(), |i: int| list[i]@)
}

/// The views of a list of commit records, in order.
pub open spec fn commit_views(list: Seq<CommitRecord>) -> Seq<CommitRecordView> {
    Seq::new(list.len(), |i: int| list[i]@)
}

/// The views of a list of refs, in order.
pub open spec fn ref_views(list: Seq<Ref>) -> Seq<RefView> {
    Seq::new(list.len(), |i: int| list[i]@)
}

/// The views of a list of object records, in order.
pub open spec fn object_views(list: Seq<ObjectRecord>) -> Seq<ObjectRecordView> {
    Seq::new(list.len(), |i: int| list[i]@)
}

/// The members of `s` that `keep` accepts, in order.
pub open spec fn filter_seq<T>(s: Seq<T>, keep: spec_fn(T) -> bool) -> Seq<T>
    decreases s.len(),
{
    if s.len() == 0 {
        Seq::empty()
    } else if keep(s.last()) {
        filter_seq(s.drop_last(), keep).push(s.last())
    } else {
        filter_seq(s.drop_last(), keep)
    }
}

/// The first place at or after `from` where `s` holds a member that `wanted`
/// accepts; the length of `s` when there is none.
pub open spec fn first_from<T>(s: Seq<T>, wanted: spec_fn(T) -> bool, from: int) -> int
    decreases s.len() - from,
{
    if from < 0 || from >= s.len() {
        s.len() as int
    } else if wanted(s[from]) {
        from
    } else {
        first_from(s, wanted, from + 1)
    }
}

/// The first member of `s` that `wanted` accepts.
pub open spec fn find_first<T>(s: Seq<T>, wanted: spec_fn(T) -> bool) -> Option<T> {
    let at = first_from(s, wanted, 0);
    if at < s.len() {
        Some(s[at])
    } else {
        None
    }
}

/// The node that the store gives for an id: the first it keeps under it.
pub open spec fn find_node(nodes: Seq<NodeView>, id: Seq<u8>) -> Option<NodeView> {
    find_first(nodes, |n: NodeView| n.git_id == id)
}

/// The node that the store gives for a path: the first it keeps there.
pub open spec fn find_node_at(nodes: Seq<NodeView>, path: Seq<char>) -> Option<NodeView> {
    find_first(nodes, |n: NodeView| n.full_path == path)
}

/// The commit that the store gives for an id: the first it keeps under it.
pub open spec fn find_commit(commits: Seq<CommitRecordView>, id: Seq<u8>) -> Option<
    CommitRecordView,
> {
    find_first(commits, |c: CommitRecordView| c.git_id == id)
}

/// The commits of the repository at `path`, in the store's order.
pub open spec fn commits_at(commits: Seq<CommitRecordView>, path: Seq<char>) -> Seq<
    CommitRecordView,
> {
    filter_seq(commits, |c: CommitRecordView| c.repo_path == path)
}

/// Whether `prefix` is how `text` begins.
pub open spec fn is_prefix(prefix: Seq<u8>, text: Seq<u8>) -> bool {
    prefix.len() <= text.len() && text.subrange(0, prefix.len() as int) == prefix
}

/// The refs of the repositories whose path is how `path` begins, in the
/// store's order.
pub open spec fn refs_above(refs: Seq<RefView>, path: Seq<char>) -> Seq<RefView> {
    filter_seq(refs, |r: RefView| is_prefix(encode_utf8(r.repo_path), encode_utf8(path)))
}

/// The objects of type `object_type` that came with push `request_id`, in
/// the store's order.
pub open spec fn objects_of(
    objects: Seq<ObjectRecordView>,
    request_id: i64,
    object_type: ObjectType,
) -> Seq<ObjectRecordView> {
    filter_seq(
        objects,
        |o: ObjectRecordView| o.request_id == request_id && o.object_type == object_type,
    )
}

/// Whether a ref is the one at `path` that points to `id`.
pub open spec fn ref_matches(r: RefView, id: Seq<u8>, path: Seq<char>) -> bool {
    r.ref_git_id == id && r.repo_path == path
}

/// The refs without those at `path` that point to `old_id`.
pub open spec fn refs_without(refs: Seq<RefView>, old_id: Seq<u8>, path: Seq<char>) -> Seq<RefView> {
    filter_seq(refs, |r: RefView| !ref_matches(r, old_id, path))
}

/// The refs, with those at `path` that pointed to `old_id` pointing to
/// `new_id`.
pub open spec fn refs_moved(
    refs: Seq<RefView>,
    old_id: Seq<u8>,
    new_id: Seq<u8>,
    path: Seq<char>,
) -> Seq<RefView> {
    Seq::new(
        refs.len(),
        |i: int|
            if ref_matches(refs[i], old_id, path) {
                RefView { ref_git_id: new_id, ..refs[i] }
            } else {
                refs[i]
            },
    )
}

/// Whether `found` is what looking up `ids` gives: each node in it is the
/// store's node for one of the ids, and each id that the store knows has its
/// node in it. Order and repetition are the store's business.
pub open spec fn resolves(nodes: Seq<NodeView>, ids: Seq<Seq<u8>>, found: Seq<NodeView>) -> bool {
    &&& forall|j: int|
        0 <= j < found.len() ==> ids.contains((#[trigger] found[j]).git_id) && find_node(
            nodes,
            found[j].git_id,
        ) == Some(found[j])
    &&& forall|i: int|
        0 <= i < ids.len() ==> (find_node(nodes, #[trigger] ids[i]) matches Some(n)
            ==> found.contains(n))
}

/// Where a search ends: within the sequence at a member that is wanted, or
/// at its end.
pub proof fn lemma_first_from<T>(s: Seq<T>, wanted: spec_fn(T) -> bool, from: int)
    requires
        0 <= from <= s.len(),
    ensures
        from <= first_from(s, wanted, from) <= s.len(),
        first_from(s, wanted, from) < s.len() ==> wanted(s[first_from(s, wanted, from)]),
        forall|k: int| from <= k < first_from(s, wanted, from) ==> !wanted(s[k]),
    decreases s.len() - from,
{
    if from < s.len() && !wanted(s[from]) {
        lemma_first_from(s, wanted, from + 1);
    }
}

/// The node found for an id is kept under that id.
pub proof fn lemma_find_node(nodes: Seq<NodeView>, id: Seq<u8>)
    ensures
        find_node(nodes, id) matches Some(n) ==> n.git_id == id && nodes.contains(n),
        find_node(nodes, id) is None ==> forall|k: int|
            0 <= k < nodes.len() ==> (#[trigger] nodes[k]).git_id != id,
{
    lemma_first_from(nodes, |n: NodeView| n.git_id == id, 0);
}

/// Looking up one id more adds its node, if the store knows the id.
pub proof fn lemma_resolves_step(
    nodes: Seq<NodeView>,
    ids: Seq<Seq<u8>>,
    i: int,
    found: Seq<NodeView>,
)
    requires
        0 <= i < ids.len(),
        resolves(nodes, ids.take(i), found),
    ensures
        resolves(
            nodes,
            ids.take(i + 1),
            match find_node(nodes, ids[i]) {
                Some(n) => found.push(n),
                None => found,
            },
        ),
{
    let before = ids.take(i);
    let after = ids.take(i + 1);
    let next = match find_node(nodes, ids[i]) {
        Some(n) => found.push(n),
        None => found,
    };
    lemma_find_node(nodes, ids[i]);
    assert forall|j: int| 0 <= j < next.len() implies after.contains((#[trigger] next[j]).git_id)
        && find_node(nodes, next[j].git_id) == Some(next[j]) by {
        if j < found.len() {
            assert(next[j] == found[j]);
            let k = choose|k: int| 0 <= k < before.len() && before[k] == found[j].git_id;
            assert(after[k] == found[j].git_id);
        } else {
            assert(after[i] == ids[i]);
        }
    }
    assert forall|k: int| 0 <= k < after.len() implies (find_node(nodes, #[trigger] after[k])
        matches Some(n) ==> next.contains(n)) by {
        if find_node(nodes, after[k]) is Some {
            let n = find_node(nodes, after[k])->0;
            if k < i {
                assert(before[k] == after[k]);
                let j = choose|j: int| 0 <= j < found.len() && found[j] == n;
                assert(next[j] == n);
            } else {
                assert(next[next.len() - 1] == n);
            }
        }
    }
}

/// A copy of a node.
pub fn clone_node(n: &Node) -> (r: Node)
    ensures
        r@ == n@,
{
    Node {
        git_id: n.git_id,
        node_type: n.node_type,
        data: n.data.clone(),
        full_path: n.full_path.clone(),
        pid: n.pid,
    }
}

/// A copy of a commit record.
pub fn clone_commit(c: &CommitRecord) -> (r: CommitRecord)
    ensures
        r@ == c@,
{
    CommitRecord { git_id: c.git_id, meta: c.meta.clone(), repo_path: c.repo_path.clone() }
}

/// A copy of a ref.
pub fn clone_ref(r: &Ref) -> (c: Ref)
    ensures
        c@ == r@,
{
    Ref {
        repo_path: r.repo_path.clone(),
        ref_name: r.ref_name.clone(),
        ref_git_id: r.ref_git_id,
        created_at: r.created_at,
        updated_at: r.updated_at,
    }
}

/// A copy of an object record.
pub fn clone_object(o: &ObjectRecord) -> (r: ObjectRecord)
    ensures
        r@ == o@,
{
    ObjectRecord {
        request_id: o.request_id,
        git_id: o.git_id,
        object_type: o.object_type,
        data: o.data.clone(),
    }
}

/// Filtering one member more keeps it or passes it over.
pub proof fn lemma_filter_step<T>(s: Seq<T>, keep: spec_fn(T) -> bool, i: int)
    requires
        0 <= i < s.len(),
    ensures
        filter_seq(s.take(i + 1), keep) == if keep(s[i]) {
            filter_seq(s.take(i), keep).push(s[i])
        } else {
            filter_seq(s.take(i), keep)
        },
{
    assert(s.take(i + 1).drop_last() =~= s.take(i));
}

/// The operations that this crate asks of an object store.
///
/// The store's tables are modelled as sequences of records. A read never
/// changes them. Any operation may fail with a [`StoreError`]; one that
/// fails changes nothing. A store that is `dependable` answers every
/// operation.
///
/// An implementation in this crate says what its tables are and whether it
/// is dependable, and is held to the contracts below. One written elsewhere
/// can say neither: it is taken to be a store that may fail at any time,
/// and what is proved of the functions that use a store holds of it as far
/// as it behaves like a store with such tables.
pub trait ObjectStorage {
    /// The nodes that the store keeps.
    open spec fn nodes(&self) -> Seq<NodeView> {
        Seq::empty()
    }

    /// The commits that the store keeps.
    open spec fn commits(&self) -> Seq<CommitRecordView> {
        Seq::empty()
    }

    /// The refs that the store keeps.
    open spec fn refs(&self) -> Seq<RefView> {
        Seq::empty()
    }

    /// The pushed objects that the store keeps.
    open spec fn objects(&self) -> Seq<ObjectRecordView> {
        Seq::empty()
    }

    /// Whether the store answers every operation.
    open spec fn dependable(&self) -> bool {
        false
    }

    /// The commits of the repository at `path`.
    fn get_all_commits_by_path(&self, path: &str) -> (r: Result<Vec<CommitRecord>, StoreError>)
        ensures
            self.dependable() ==> r is Ok,
            r matches Ok(list) ==> commit_views(list@) == commits_at(self.commits(), path@),
    ;

    /// The nodes kept under the given ids.
    fn get_nodes_by_ids(&self, ids: &Vec<crate::hash::Hash>) -> (r: Result<Vec<Node>, StoreError>)
        ensures
            self.dependable() ==> r is Ok,
            r matches Ok(list) ==> resolves(
                self.nodes(),
                crate::object::ids_view(ids@),
                node_views(list@),
            ),
    ;

    /// The node kept under `id`, if there is one.
    fn get_node_by_id(&self, id: &crate::hash::Hash) -> (r: Result<Option<Node>, StoreError>)
        ensures
            self.dependable() ==> r is Ok,
            r matches Ok(found) ==> match find_node(self.nodes(), id@) {
                Some(n) => found matches Some(node) && node@ == n,
                None => found is None,
            },
    ;

    /// The refs of the repositories whose path is how `path` begins.
    fn search_refs(&self, path: &str) -> (r: Result<Vec<Ref>, StoreError>)
        ensures
            self.dependable() ==> r is Ok,
            r matches Ok(list) ==> ref_views(list@) == refs_above(self.refs(), path@),
    ;

    /// The node kept at `path`, if there is one.
    fn search_root_node_by_path(&self, path: &str) -> (r: Result<Option<Node>, StoreError>)
        ensures
            self.dependable() ==> r is Ok,
            r matches Ok(found) ==> match find_node_at(self.nodes(), path@) {
                Some(n) => found matches Some(node) && node@ == n,
                None => found is None,
            },
    ;

    /// The commit kept under `id`, if there is one.
    fn get_commit_by_id(&self, id: &crate::hash::Hash) -> (r: Result<
        Option<CommitRecord>,
        StoreError,
    >)
        ensures
            self.dependable() ==> r is Ok,
            r matches Ok(found) ==> match find_commit(self.commits(), id@) {
                Some(c) => found matches Some(commit) && commit@ == c,
                None => found is None,
            },
    ;

    /// The objects of type `object_type` that came with push `request_id`.
    fn get_git_objects(&self, request_id: i64, object_type: ObjectType) -> (r: Result<
        Vec<ObjectRecord>,
        StoreError,
    >)
        ensures
            self.dependable() ==> r is Ok,
            r matches Ok(list) ==> object_views(list@) == objects_of(
                self.objects(),
                request_id,
                object_type,
            ),
    ;

    /// Files `commits` behind the commits that the store keeps.
    fn save_commits(&mut self, commits: Vec<CommitRecord>) -> (r: Result<(), StoreError>)
        ensures
            old(self).dependable() ==> r is Ok,
            final(self).dependable() == old(self).dependable(),
            final(self).nodes() == old(self).nodes(),
            final(self).refs() == old(self).refs(),
            final(self).objects() == old(self).objects(),
            final(self).commits() == if r is Ok {
                old(self).commits() + commit_views(commits@)
            } else {
                old(self).commits()
            },
    ;

    /// Files `refs` behind the refs that the store keeps.
    fn save_refs(&mut self, refs: Vec<Ref>) -> (r: Result<(), StoreError>)
        ensures
            old(self).dependable() ==> r is Ok,
            final(self).dependable() == old(self).dependable(),
            final(self).nodes() == old(self).nodes(),
            final(self).commits() == old(self).commits(),
            final(self).objects() == old(self).objects(),
            final(self).refs() == if r is Ok {
                old(self).refs() + ref_views(refs@)
            } else {
                old(self).refs()
            },
    ;

    /// Files `nodes` behind the nodes that the store keeps.
    fn save_nodes(&mut self, nodes: Vec<Node>) -> (r: Result<(), StoreError>)
        ensures
            old(self).dependable() ==> r is Ok,
            final(self).dependable() == old(self).dependable(),
            final(self).commits() == old(self).commits(),
            final(self).refs() == old(self).refs(),
            final(self).objects() == old(self).objects(),
            final(self).nodes() == if r is Ok {
                old(self).nodes() + node_views(nodes@)
            } else {
                old(self).nodes()
            },
    ;

    /// Removes the refs at `path` that point to `old_id`.
    fn delete_refs(&mut self, old_id: &crate::hash::Hash, path: &str) -> (r: Result<(), StoreError>)
        ensures
            old(self).dependable() ==> r is Ok,
            final(self).dependable() == old(self).dependable(),
            final(self).nodes() == old(self).nodes(),
            final(self).commits() == old(self).commits(),
            final(self).objects() == old(self).objects(),
            final(self).refs() == if r is Ok {
                refs_without(old(self).refs(), old_id@, path@)
            } else {
                old(self).refs()
            },
    ;

    /// Makes the refs at `path` that point to `old_id` point to `new_id`.
    fn update_refs(
        &mut self,
        old_id: &crate::hash::Hash,
        new_id: &crate::hash::Hash,
        path: &str,
    ) -> (r: Result<(), StoreError>)
        ensures
            old(self).dependable() ==> r is Ok,
            final(self).dependable() == old(self).dependable(),
            final(self).nodes() == old(self).nodes(),
            final(self).commits() == old(self).commits(),
            final(self).objects() == old(self).objects(),
            final(self).refs() == if r is Ok {
                refs_moved(old(self).refs(), old_id@, new_id@, path@)
            } else {
                old(self).refs()
            },
    ;
}

} // verus!
