//! What a repository's references point to: the head of a path, the commit
//! made up for a subdirectory, and the commands of a push.

use crate::hash::zero_id;
use crate::memory_store::bytes_start_with;
use crate::object::{compute_object_id, object_id, spec_commit_tree, spec_with_tree, Commit, ObjectType};
use crate::pack::{GitError, PackProtocol};
use crate::text::text_equal;
use crate::store::{
    commit_views, find_commit, find_node_at, first_from, is_prefix, lemma_first_from, ref_views,
    refs_above, refs_moved, refs_without, CommitRecord, CommitRecordView, NodeView, ObjectStorage,
    Ref, RefView,
};
use vstd::prelude::*;
use vstd::utf8::encode_utf8;

verus! {

/// What a ref command asks for.
#[derive(Clone, Copy, Debug, PartialEq, Eq, Structural)]
pub enum CommandType {
    Create,
    Delete,
    Update,
}

/// A command that came with a push: what to do with one ref.
#[derive(Debug, Clone, PartialEq, Eq)]
pub struct RefCommand {
    pub ref_name: String,
    pub old_id: crate::hash::Hash,
    pub new_id: crate::hash::Hash,
    pub command_type: CommandType,
}

/// The refs after `command` was applied at `path`.
///
/// `Create` files a new ref that points to the new id. `Delete` removes the
/// refs at `path` that point to the old id. `Update` makes the refs at
/// `path` that point to the old id point to the new one; where none does,
/// nothing changes and nothing is reported.
pub open spec fn refs_after(
    refs: Seq<RefView>,
    command: &RefCommand,
    path: Seq<char>,
    now: chrono::NaiveDateTime,
) -> Seq<RefView> {
    match command.command_type {
        CommandType::Create => refs.push(
            RefView {
                repo_path: path,
                ref_name: command.ref_name@,
                ref_git_id: command.new_id@,
                created_at: now,
                updated_at: now,
            },
        ),
        CommandType::Delete => refs_without(refs, command.old_id@, path),
        CommandType::Update => refs_moved(refs, command.old_id@, command.new_id@, path),
    }
}

/// Whether only the refs of a store may have changed.
pub open spec fn only_refs_changed<S: ObjectStorage>(before: &S, after: &S) -> bool {
    &&& after.nodes() == before.nodes()
    &&& after.commits() == before.commits()
    &&& after.objects() == before.objects()
    &&& after.dependable() == before.dependable()
}

/// Whether a store holds what it held.
pub open spec fn unchanged<S: ObjectStorage>(before: &S, after: &S) -> bool {
    &&& only_refs_changed(before, after)
    &&& after.refs() == before.refs()
}

/// Applies a ref command of a push to the repository at `path`. `now` is
/// the time that a new ref is stamped with.
pub fn handle_refs<S: ObjectStorage>(
    storage: &mut S,
    command: &RefCommand,
    path: &str,
    now: chrono::NaiveDateTime,
) -> (r: Result<(), GitError>)
    ensures
        old(storage).dependable() ==> r is Ok,
        r is Err ==> r matches Err(GitError::Store(_)),
        only_refs_changed(old(storage), final(storage)),
        final(storage).refs() == if r is Ok {
            refs_after(old(storage).refs(), command, path@, now)
        } else {
            old(storage).refs()
        },
{
    let outcome = match command.command_type {
        CommandType::Create => {
            let created = Ref {
                repo_path: path.to_owned(),
                ref_name: command.ref_name.clone(),
                ref_git_id: command.new_id,
                created_at: now,
                updated_at: now,
            };
            let mut list: Vec<Ref> = Vec::new();
            list.push(created);
            assert(old(storage).refs() + ref_views(list@) =~= old(storage).refs().push(created@));
            storage.save_refs(list)
        },
        CommandType::Delete => storage.delete_refs(&command.old_id, path),
        CommandType::Update => storage.update_refs(&command.old_id, &command.new_id, path),
    };
    match outcome {
        Ok(_) => Ok(()),
        Err(e) => Err(GitError::Store(e)),
    }
}

/// What a request for the commit of a subdirectory comes to.
pub enum Synthesis {
    /// The store keeps no node at the path: there is no history to show.
    NoHistory,
    /// The commit that the ref points to is not in the store, or its bytes
    /// do not name a tree.
    BadCommit,
    /// This commit is made up for the path.
    Child(CommitRecordView),
}

/// The commit made up for the subdirectory at `path` of the repository
/// whose ref points to `ref_git_id`.
///
/// It is the ref's commit with the tree of the node kept at `path` in the
/// place of its own: parents, author, committer and message are the same.
pub open spec fn spec_synthesis(
    nodes: Seq<NodeView>,
    commits: Seq<CommitRecordView>,
    ref_git_id: Seq<u8>,
    path: Seq<char>,
) -> Synthesis {
    match find_node_at(nodes, path) {
        None => Synthesis::NoHistory,
        Some(node) => match find_commit(commits, ref_git_id) {
            None => Synthesis::BadCommit,
            Some(root) => if spec_commit_tree(root.meta) is None {
                Synthesis::BadCommit
            } else {
                let meta = spec_with_tree(root.meta, node.git_id);
                Synthesis::Child(
                    CommitRecordView {
                        git_id: object_id(ObjectType::Commit, meta),
                        meta,
                        repo_path: path,
                    },
                )
            },
        },
    }
}

/// The ref that goes with a made-up commit: at `path`, under the name of
/// the ref it was derived from.
pub open spec fn spec_child_ref(
    child: CommitRecordView,
    from: RefView,
    path: Seq<char>,
    now: chrono::NaiveDateTime,
) -> RefView {
    RefView {
        repo_path: path,
        ref_name: from.ref_name,
        ref_git_id: child.git_id,
        created_at: now,
        updated_at: now,
    }
}

/// What [`generate_child_commit_and_refs`] does to the store and returns.
///
/// With no node at the path, it returns the all-zero id and changes
/// nothing. Else it files the made-up commit and its ref, each behind what
/// the store keeps, and returns the commit's id. Only a failure of the
/// store can come in between.
pub open spec fn synthesized<S: ObjectStorage>(
    before: &S,
    after: &S,
    from: RefView,
    path: Seq<char>,
    now: chrono::NaiveDateTime,
    r: Result<crate::hash::Hash, GitError>,
) -> bool {
    &&& after.nodes() == before.nodes()
    &&& after.objects() == before.objects()
    &&& after.dependable() == before.dependable()
    &&& r matches Err(GitError::Store(_)) ==> !before.dependable()
    &&& r matches Err(GitError::InvalidTreeObject(_)) ==> false
    &&& match spec_synthesis(before.nodes(), before.commits(), from.ref_git_id, path) {
        Synthesis::NoHistory => {
            &&& after.commits() == before.commits()
            &&& after.refs() == before.refs()
            &&& r matches Ok(id) ==> id@ == zero_id()
            &&& r matches Err(e) ==> e is Store
        },
        Synthesis::BadCommit => {
            &&& after.commits() == before.commits()
            &&& after.refs() == before.refs()
            &&& r is Err
            &&& r matches Err(GitError::InvalidCommitObject(h)) ==> h@ == from.ref_git_id
        },
        Synthesis::Child(child) => match r {
            Ok(id) => {
                &&& id@ == child.git_id
                &&& after.commits() == before.commits().push(child)
                &&& after.refs() == before.refs().push(spec_child_ref(child, from, path, now))
            },
            Err(e) => {
                &&& e is Store
                &&& after.refs() == before.refs()
                &&& after.commits() == before.commits() || after.commits()
                    == before.commits().push(child)
            },
        },
    }
}

/// Makes up a commit for a subdirectory of a repository, so that the
/// subdirectory can be cloned as if it were a repository of its own.
///
/// `refs` is a ref of the repository and `repo_path` the path of the
/// subdirectory. The commit that `refs` points to is taken with the tree
/// of the node kept at `repo_path` in place of its own, and filed together
/// with a ref at `repo_path`; `now` is the time that the ref is stamped
/// with. Every call files a commit and a ref anew.
pub fn generate_child_commit_and_refs<S: ObjectStorage>(
    storage: &mut S,
    refs: &Ref,
    repo_path: &str,
    now: chrono::NaiveDateTime,
) -> (r: Result<crate::hash::Hash, GitError>)
    ensures
        synthesized(old(storage), final(storage), refs@, repo_path@, now, r),
{
    let root_tree = match storage.search_root_node_by_path(repo_path) {
        Err(e) => {
            return Err(GitError::Store(e));
        },
        Ok(None) => {
            return Ok(crate::hash::Hash::zero());
        },
        Ok(Some(node)) => node,
    };
    let root_commit = match storage.get_commit_by_id(&refs.ref_git_id) {
        Err(e) => {
            return Err(GitError::Store(e));
        },
        Ok(None) => {
            return Err(GitError::InvalidCommitObject(refs.ref_git_id));
        },
        Ok(Some(record)) => record,
    };
    let commit = match Commit::new_from_data(root_commit.meta) {
        None => {
            return Err(GitError::InvalidCommitObject(refs.ref_git_id));
        },
        Some(commit) => commit,
    };
    let meta = commit.raw_with_tree(&root_tree.git_id);
    let commit_id = compute_object_id(ObjectType::Commit, meta.as_slice());
    let child = CommitRecord { git_id: commit_id, meta, repo_path: repo_path.to_owned() };
    let child_refs = Ref {
        repo_path: repo_path.to_owned(),
        ref_name: refs.ref_name.clone(),
        ref_git_id: commit_id,
        created_at: now,
        updated_at: now,
    };
    let ghost child_view = child@;
    let ghost ref_view = child_refs@;
    let mut commits: Vec<CommitRecord> = Vec::new();
    commits.push(child);
    assert(old(storage).commits() + commit_views(commits@) =~= old(storage).commits().push(
        child_view,
    ));
    match storage.save_commits(commits) {
        Err(e) => {
            return Err(GitError::Store(e));
        },
        Ok(_) => {},
    }
    let mut list: Vec<Ref> = Vec::new();
    list.push(child_refs);
    assert(old(storage).refs() + ref_views(list@) =~= old(storage).refs().push(ref_view));
    match storage.save_refs(list) {
        Err(e) => {
            return Err(GitError::Store(e));
        },
        Ok(_) => {},
    }
    Ok(commit_id)
}

/// A second request for the same subdirectory makes up the same commit
/// again: the one filed by the first does not stand in its way, and the
/// store then keeps it twice.
pub proof fn lemma_synthesis_repeats(
    nodes: Seq<NodeView>,
    commits: Seq<CommitRecordView>,
    ref_git_id: Seq<u8>,
    path: Seq<char>,
)
    requires
        spec_synthesis(nodes, commits, ref_git_id, path) is Child,
    ensures
        spec_synthesis(
            nodes,
            commits.push(spec_synthesis(nodes, commits, ref_git_id, path)->Child_0),
            ref_git_id,
            path,
        ) == spec_synthesis(nodes, commits, ref_git_id, path),
{
    let child = spec_synthesis(nodes, commits, ref_git_id, path)->Child_0;
    let more = commits.push(child);
    let wanted = |c: CommitRecordView| c.git_id == ref_git_id;
    lemma_first_from(commits, wanted, 0);
    lemma_first_from(more, wanted, 0);
    let at = first_from(commits, wanted, 0);
    assert(more[at] == commits[at]);
    let again = first_from(more, wanted, 0);
    if again < at {
        assert(more[again] == commits[again]);
    }
}

/// Whether the directory at `ancestor` lies above `path`: `path` begins
/// with `ancestor`, and goes on behind a slash.
///
/// The paths are compared byte by byte, as they are written. For paths
/// written without `.` or `..`, without slashes in a row and without a
/// drive or a prefix, this is what comparing them directory by directory
/// gives; a path written otherwise is not brought into that form first.
pub open spec fn is_ancestor_path(ancestor: Seq<u8>, path: Seq<u8>) -> bool {
    &&& ancestor.len() < path.len()
    &&& is_prefix(ancestor, path)
    &&& (ancestor.len() > 0 && ancestor.last() == 0x2f) || path[ancestor.len() as int] == 0x2f
}

/// The length of a ref's path, in bytes.
pub open spec fn path_len(r: RefView) -> nat {
    encode_utf8(r.repo_path).len()
}

/// Whether the repository of `r` lies above `path`.
pub open spec fn lies_above(r: RefView, path: Seq<char>) -> bool {
    is_ancestor_path(encode_utf8(r.repo_path), encode_utf8(path))
}

/// The place, among the first `upto` of `list`, of the ref whose repository
/// lies nearest above `path`: the one with the longest path, and the first
/// of those with the same. It is -1 when there is none.
pub open spec fn nearest_upto(list: Seq<RefView>, path: Seq<char>, upto: int) -> int
    decreases upto,
{
    if upto <= 0 {
        -1
    } else {
        let before = nearest_upto(list, path, upto - 1);
        if lies_above(list[upto - 1], path) && (before < 0 || path_len(list[upto - 1]) > path_len(
            list[before],
        )) {
            upto - 1
        } else {
            before
        }
    }
}

/// The test that a ref is at `path`.
pub open spec fn ref_at(path: Seq<char>) -> spec_fn(RefView) -> bool {
    |r: RefView| r.repo_path == path
}

/// Where the head of a path comes from.
pub enum HeadSource {
    /// No ref is at the path or above it.
    Absent,
    /// This ref is at the path.
    Existing(RefView),
    /// No ref is at the path; this one is nearest above it.
    Above(RefView),
}

/// Where the head of `path` comes from, given the refs that the store found
/// for it: the first ref at the path, or else the ref nearest above it.
pub open spec fn head_source(list: Seq<RefView>, path: Seq<char>) -> HeadSource {
    let exact = first_from(list, ref_at(path), 0);
    let nearest = nearest_upto(list, path, list.len() as int);
    if exact < list.len() {
        HeadSource::Existing(list[exact])
    } else if nearest >= 0 {
        HeadSource::Above(list[nearest])
    } else {
        HeadSource::Absent
    }
}

/// The nearest ref above a path lies above it, and no ref of the list that
/// lies above it has a longer path, nor comes earlier with the same.
pub proof fn lemma_nearest(list: Seq<RefView>, path: Seq<char>, upto: int)
    requires
        0 <= upto <= list.len(),
    ensures
        -1 <= nearest_upto(list, path, upto) < upto,
        nearest_upto(list, path, upto) >= 0 ==> lies_above(
            list[nearest_upto(list, path, upto)],
            path,
        ),
        forall|j: int|
            0 <= j < upto && lies_above(#[trigger] list[j], path) ==> {
                let best = nearest_upto(list, path, upto);
                &&& best >= 0
                &&& path_len(list[j]) <= path_len(list[best])
                &&& path_len(list[j]) == path_len(list[best]) ==> best <= j
            },
    decreases upto,
{
    if upto > 0 {
        lemma_nearest(list, path, upto - 1);
    }
}

/// Whether the directory at `ancestor` lies above `path`.
pub fn path_lies_above(ancestor: &str, path: &str) -> (r: bool)
    ensures
        r == is_ancestor_path(encode_utf8(ancestor@), encode_utf8(path@)),
{
    let a = ancestor.as_bytes();
    let p = path.as_bytes();
    if a.len() >= p.len() || !bytes_start_with(p, a) {
        return false;
    }
    (a.len() > 0 && a[a.len() - 1] == 0x2fu8) || p[a.len()] == 0x2fu8
}

/// Where the head of `path` comes from, given the refs that the store
/// found for it: the place of the ref in `list`, and whether it is at the
/// path.
fn choose_head(list: &Vec<Ref>, path: &str) -> (r: Option<(usize, bool)>)
    ensures
        match head_source(ref_views(list@), path@) {
            HeadSource::Absent => r is None,
            HeadSource::Existing(found) => r matches Some((at, exact)) && exact && at < list@.len()
                && list@[at as int]@ == found,
            HeadSource::Above(found) => r matches Some((at, exact)) && !exact && at < list@.len()
                && list@[at as int]@ == found,
        },
{
    let ghost views = ref_views(list@);
    let mut i: usize = 0;
    while i < list.len()
        invariant
            i <= list.len(),
            views == ref_views(list@),
            first_from(views, ref_at(path@), 0) == first_from(views, ref_at(path@), i as int),
        decreases list.len() - i,
    {
        assert(views[i as int] == list@[i as int]@);
        if text_equal(list[i].repo_path.as_str(), path) {
            return Some((i, true));
        }
        i = i + 1;
    }
    let mut best: Option<usize> = None;
    let mut j: usize = 0;
    while j < list.len()
        invariant
            j <= list.len(),
            views == ref_views(list@),
            match best {
                None => nearest_upto(views, path@, j as int) == -1,
                Some(at) => at < j && nearest_upto(views, path@, j as int) == at,
            },
        decreases list.len() - j,
    {
        assert(views[j as int] == list@[j as int]@);
        if path_lies_above(list[j].repo_path.as_str(), path) {
            let longer = match best {
                None => true,
                Some(at) => {
                    assert(views[at as int] == list@[at as int]@);
                    list[j].repo_path.as_str().as_bytes().len() > list[at].repo_path.as_str().as_bytes().len()
                },
            };
            if longer {
                best = Some(j);
            }
        }
        j = j + 1;
    }
    match best {
        None => None,
        Some(at) => {
            assert(views[at as int] == list@[at as int]@);
            Some((at, false))
        },
    }
}

impl<S: ObjectStorage> PackProtocol<S> {
    /// The id of the commit at the head of the repository at `repo_path`.
    ///
    /// It is what the first ref at the path points to. Where no ref is at
    /// the path but one lies above it, the path is a subdirectory of that
    /// repository, and a commit is made up for it from the nearest such
    /// ref; `now` is the time that its ref is stamped with. Where there is
    /// neither, or the store keeps no node at the path, the path has no
    /// history, and the id is all zero: that is no failure.
    pub fn get_head_object_id(&mut self, repo_path: &str, now: chrono::NaiveDateTime) -> (r: Result<
        crate::hash::Hash,
        GitError,
    >)
        ensures
            r matches Err(GitError::Store(_)) ==> !old(self).storage.dependable(),
            match head_source(refs_above(old(self).storage.refs(), repo_path@), repo_path@) {
                HeadSource::Absent => {
                    &&& unchanged(&old(self).storage, &final(self).storage)
                    &&& r matches Ok(id) ==> id@ == zero_id()
                    &&& r matches Err(e) ==> e is Store
                },
                HeadSource::Existing(found) => {
                    &&& unchanged(&old(self).storage, &final(self).storage)
                    &&& r matches Ok(id) ==> id@ == found.ref_git_id
                    &&& r matches Err(e) ==> e is Store
                },
                HeadSource::Above(found) => synthesized(
                    &old(self).storage,
                    &final(self).storage,
                    found,
                    repo_path@,
                    now,
                    r,
                ),
            },
            old(self).storage.dependable() && find_node_at(old(self).storage.nodes(), repo_path@)
                is None && !(head_source(
                refs_above(old(self).storage.refs(), repo_path@),
                repo_path@,
            ) is Existing) ==> unchanged(&old(self).storage, &final(self).storage) && (
            r matches Ok(id) && id@ == zero_id()),
    {
        let refs_list = match self.storage.search_refs(repo_path) {
            Err(e) => {
                return Err(GitError::Store(e));
            },
            Ok(list) => list,
        };
        match choose_head(&refs_list, repo_path) {
            None => Ok(crate::hash::Hash::zero()),
            Some((at, exact)) => {
                if exact {
                    Ok(refs_list[at].ref_git_id)
                } else {
                    generate_child_commit_and_refs(&mut self.storage, &refs_list[at], repo_path, now)
                }
            },
        }
    }
}

} // verus!
