//! Filing the objects of a push: the commits as commit records, and the
//! trees and blobs as nodes, each node with the path at which it lies.

use crate::store::clone_node;
use crate::object::{
    ids_view, items_view, object_id, spec_commit_tree, spec_tree_items, Commit, ObjectType, Tree,
    TreeItemView,
};
use crate::pack::{contains_id, GitError};
use crate::repository::unchanged;
use crate::store::{
    commit_views, first_from, lemma_first_from, node_views, object_views, objects_of, CommitRecord,
    CommitRecordView, Node, NodeView, ObjectRecord, ObjectRecordView, ObjectStorage,
};
use crate::text::string_from_utf8;
use vstd::prelude::*;
use vstd::string::StringExecFns;
use vstd::utf8::{decode_utf8, valid_utf8};

verus! {

/// The test that a pushed object is kept under `id`.
pub open spec fn object_under(id: Seq<u8>) -> spec_fn(ObjectRecordView) -> bool {
    |o: ObjectRecordView| o.git_id == id
}

/// The place in `objects` of the first object kept under `id`; the length
/// of `objects` when there is none.
pub open spec fn object_index(objects: Seq<ObjectRecordView>, id: Seq<u8>) -> int {
    first_from(objects, object_under(id), 0)
}

/// Whether `objects` has an object under `id`.
pub open spec fn has_object(objects: Seq<ObjectRecordView>, id: Seq<u8>) -> bool {
    object_index(objects, id) < objects.len()
}

/// The path of an entry called `name` in the directory at `parent`.
pub open spec fn child_path(parent: Seq<char>, name: Seq<u8>) -> Seq<char> {
    parent + "/"@ + decode_utf8(name)
}

/// Whether `child` lies in the directory `parent`: an entry of `parent`
/// names it, and its path is the parent's with the entry's name.
pub open spec fn lies_in(parent: NodeView, child: NodeView) -> bool {
    &&& parent.node_type == ObjectType::Tree
    &&& child.pid == Some(parent.git_id)
    &&& spec_tree_items(parent.data, 0) matches Some(items) && exists|k: int|
        0 <= k < items.len() && (#[trigger] items[k]).id == child.git_id && valid_utf8(
            items[k].name,
        ) && child.full_path == child_path(parent.full_path, items[k].name)
}

/// Whether a node stands for a pushed object: a tree node for a pushed
/// tree, a blob node for a pushed blob, with the object's bytes.
pub open spec fn stands_for(
    node: NodeView,
    trees: Seq<ObjectRecordView>,
    blobs: Seq<ObjectRecordView>,
) -> bool {
    if node.node_type == ObjectType::Tree {
        has_object(trees, node.git_id) && trees[object_index(trees, node.git_id)].data == node.data
    } else {
        &&& node.node_type == ObjectType::Blob
        &&& !has_object(trees, node.git_id)
        &&& has_object(blobs, node.git_id)
        &&& blobs[object_index(blobs, node.git_id)].data == node.data
    }
}

/// Whether a node is placed rightly: at the repository's path as the tree
/// of a commit, or in a directory that is among `out`.
pub open spec fn placed(
    node: NodeView,
    out: Seq<NodeView>,
    roots: Seq<Seq<u8>>,
    repo_path: Seq<char>,
) -> bool {
    ||| node.pid is None && node.full_path == repo_path && node.node_type == ObjectType::Tree
        && roots.contains(node.git_id)
    ||| exists|j: int| 0 <= j < out.len() && lies_in(#[trigger] out[j], node)
}

/// Whether `out` has a tree node under `id`.
pub open spec fn has_tree_node(out: Seq<NodeView>, id: Seq<u8>) -> bool {
    exists|j: int|
        0 <= j < out.len() && (#[trigger] out[j]).node_type == ObjectType::Tree && out[j].git_id
            == id
}

/// Whether `out` has a blob node under `id` at `path` in the directory
/// `pid`.
pub open spec fn has_blob_node(
    out: Seq<NodeView>,
    pid: Seq<u8>,
    id: Seq<u8>,
    path: Seq<char>,
) -> bool {
    exists|j: int|
        0 <= j < out.len() && (#[trigger] out[j]).node_type == ObjectType::Blob && out[j].pid
            == Some(pid) && out[j].git_id == id && out[j].full_path == path
}

/// Whether an entry of the directory `parent` is dealt with: a pushed tree
/// has its node, a pushed blob has a node in the directory, and an object
/// that did not come with the push is left alone.
pub open spec fn entry_done(
    out: Seq<NodeView>,
    trees: Seq<ObjectRecordView>,
    blobs: Seq<ObjectRecordView>,
    parent: NodeView,
    entry: TreeItemView,
) -> bool {
    &&& valid_utf8(entry.name)
    &&& has_object(trees, entry.id) ==> has_tree_node(out, entry.id)
    &&& !has_object(trees, entry.id) && has_object(blobs, entry.id) ==> has_blob_node(
        out,
        parent.git_id,
        entry.id,
        child_path(parent.full_path, entry.name),
    )
}

/// Whether all entries of the directory `parent` are dealt with.
pub open spec fn expanded(
    out: Seq<NodeView>,
    trees: Seq<ObjectRecordView>,
    blobs: Seq<ObjectRecordView>,
    parent: NodeView,
) -> bool {
    spec_tree_items(parent.data, 0) matches Some(items) && forall|k: int|
        0 <= k < items.len() ==> entry_done(out, trees, blobs, parent, #[trigger] items[k])
}

/// Whether no two tree nodes of `out` are under one id.
pub open spec fn trees_once(out: Seq<NodeView>) -> bool {
    forall|i: int, j: int|
        0 <= i < j < out.len() && (#[trigger] out[i]).node_type == ObjectType::Tree && (
        #[trigger] out[j]).node_type == ObjectType::Tree ==> out[i].git_id != out[j].git_id
}

/// Whether `out` is the node tree of a push.
///
/// `trees` and `blobs` are the trees and blobs that came with the push,
/// `roots` the trees of its commits, and `repo_path` the repository's path.
/// Every node stands for a pushed object and is placed rightly. Each pushed
/// tree that a commit or a directory of the node tree names has one node,
/// and each pushed blob that a directory names has a node in it.
pub open spec fn is_node_tree(
    out: Seq<NodeView>,
    trees: Seq<ObjectRecordView>,
    blobs: Seq<ObjectRecordView>,
    roots: Seq<Seq<u8>>,
    repo_path: Seq<char>,
) -> bool {
    &&& forall|i: int|
        0 <= i < out.len() ==> stands_for(#[trigger] out[i], trees, blobs) && placed(
            out[i],
            out,
            roots,
            repo_path,
        )
    &&& trees_once(out)
    &&& forall|i: int|
        0 <= i < roots.len() && has_object(trees, #[trigger] roots[i]) ==> has_tree_node(
            out,
            roots[i],
        )
    &&& forall|i: int|
        0 <= i < out.len() && (#[trigger] out[i]).node_type == ObjectType::Tree ==> expanded(
            out,
            trees,
            blobs,
            out[i],
        )
}

/// What holds while the node tree is built: as for the finished tree, but
/// only the first `roots_done` commits are seen to, and a directory may
/// still wait on the stack or be the one at work.
spec fn build_ok(
    out: Seq<NodeView>,
    trees: Seq<ObjectRecordView>,
    blobs: Seq<ObjectRecordView>,
    roots: Seq<Seq<u8>>,
    repo_path: Seq<char>,
    roots_done: int,
    stack: Seq<usize>,
    current: Option<int>,
) -> bool {
    &&& out.len() <= usize::MAX
    &&& forall|i: int|
        0 <= i < out.len() ==> stands_for(#[trigger] out[i], trees, blobs) && placed(
            out[i],
            out,
            roots,
            repo_path,
        )
    &&& trees_once(out)
    &&& forall|i: int|
        0 <= i < roots_done && has_object(trees, #[trigger] roots[i]) ==> has_tree_node(
            out,
            roots[i],
        )
    &&& forall|s: int|
        0 <= s < stack.len() ==> (#[trigger] stack[s]) < out.len() && out[stack[s] as int].node_type
            == ObjectType::Tree
    &&& forall|i: int|
        0 <= i < out.len() && (#[trigger] out[i]).node_type == ObjectType::Tree ==> current == Some(
            i,
        ) || stack.contains(i as usize) || expanded(out, trees, blobs, out[i])
}

/// A tree node of `out` is a tree node of `out` with one node more.
proof fn lemma_tree_node_kept(out: Seq<NodeView>, x: NodeView, id: Seq<u8>)
    requires
        has_tree_node(out, id),
    ensures
        has_tree_node(out.push(x), id),
{
    let j = choose|j: int|
        0 <= j < out.len() && (#[trigger] out[j]).node_type == ObjectType::Tree && out[j].git_id
            == id;
    assert(out.push(x)[j] == out[j]);
}

/// A blob node of `out` is a blob node of `out` with one node more.
proof fn lemma_blob_node_kept(
    out: Seq<NodeView>,
    x: NodeView,
    pid: Seq<u8>,
    id: Seq<u8>,
    path: Seq<char>,
)
    requires
        has_blob_node(out, pid, id, path),
    ensures
        has_blob_node(out.push(x), pid, id, path),
{
    let j = choose|j: int|
        0 <= j < out.len() && (#[trigger] out[j]).node_type == ObjectType::Blob && out[j].pid
            == Some(pid) && out[j].git_id == id && out[j].full_path == path;
    assert(out.push(x)[j] == out[j]);
}

/// A node placed rightly among `out` is so among `out` with one node more.
proof fn lemma_placed_kept(
    node: NodeView,
    out: Seq<NodeView>,
    x: NodeView,
    roots: Seq<Seq<u8>>,
    repo_path: Seq<char>,
)
    requires
        placed(node, out, roots, repo_path),
    ensures
        placed(node, out.push(x), roots, repo_path),
{
    if exists|j: int| 0 <= j < out.len() && lies_in(#[trigger] out[j], node) {
        let j = choose|j: int| 0 <= j < out.len() && lies_in(#[trigger] out[j], node);
        assert(out.push(x)[j] == out[j]);
    }
}

/// An entry dealt with stays so when a node is added.
proof fn lemma_entry_done_kept(
    out: Seq<NodeView>,
    x: NodeView,
    trees: Seq<ObjectRecordView>,
    blobs: Seq<ObjectRecordView>,
    parent: NodeView,
    entry: TreeItemView,
)
    requires
        entry_done(out, trees, blobs, parent, entry),
    ensures
        entry_done(out.push(x), trees, blobs, parent, entry),
{
    if has_object(trees, entry.id) {
        lemma_tree_node_kept(out, x, entry.id);
    } else if has_object(blobs, entry.id) {
        lemma_blob_node_kept(
            out,
            x,
            parent.git_id,
            entry.id,
            child_path(parent.full_path, entry.name),
        );
    }
}

/// A directory dealt with stays so when a node is added.
proof fn lemma_expanded_kept(
    out: Seq<NodeView>,
    x: NodeView,
    trees: Seq<ObjectRecordView>,
    blobs: Seq<ObjectRecordView>,
    parent: NodeView,
)
    requires
        expanded(out, trees, blobs, parent),
    ensures
        expanded(out.push(x), trees, blobs, parent),
{
    let items = spec_tree_items(parent.data, 0)->0;
    assert forall|k: int| 0 <= k < items.len() implies entry_done(
        out.push(x),
        trees,
        blobs,
        parent,
        #[trigger] items[k],
    ) by {
        lemma_entry_done_kept(out, x, trees, blobs, parent, items[k]);
    }
}

/// The stack that a new node leaves: a tree is put on it to be expanded.
spec fn stack_with(stack: Seq<usize>, out: Seq<NodeView>, x: NodeView) -> Seq<usize> {
    if x.node_type == ObjectType::Tree {
        stack.push(out.len() as usize)
    } else {
        stack
    }
}

/// Adding a node that stands for a pushed object and is placed rightly, and
/// is no second node of a tree, keeps the build in order.
proof fn lemma_build_push(
    out: Seq<NodeView>,
    x: NodeView,
    trees: Seq<ObjectRecordView>,
    blobs: Seq<ObjectRecordView>,
    roots: Seq<Seq<u8>>,
    repo_path: Seq<char>,
    roots_done: int,
    stack: Seq<usize>,
    current: Option<int>,
)
    requires
        build_ok(out, trees, blobs, roots, repo_path, roots_done, stack, current),
        stands_for(x, trees, blobs),
        placed(x, out, roots, repo_path),
        x.node_type == ObjectType::Tree ==> !has_tree_node(out, x.git_id),
        out.len() < usize::MAX,
    ensures
        build_ok(
            out.push(x),
            trees,
            blobs,
            roots,
            repo_path,
            roots_done,
            stack_with(stack, out, x),
            current,
        ),
{
    let more = out.push(x);
    let after = stack_with(stack, out, x);
    assert forall|i: int| 0 <= i < more.len() implies stands_for(#[trigger] more[i], trees, blobs)
        && placed(more[i], more, roots, repo_path) by {
        if i < out.len() {
            assert(more[i] == out[i]);
            lemma_placed_kept(out[i], out, x, roots, repo_path);
        } else {
            lemma_placed_kept(x, out, x, roots, repo_path);
        }
    }
    assert forall|i: int, j: int|
        0 <= i < j < more.len() && (#[trigger] more[i]).node_type == ObjectType::Tree && (
        #[trigger] more[j]).node_type == ObjectType::Tree implies more[i].git_id
        != more[j].git_id by {
        assert(more[i] == out[i]);
        if j < out.len() {
            assert(more[j] == out[j]);
        }
    }
    assert forall|i: int|
        0 <= i < roots_done && has_object(trees, #[trigger] roots[i]) implies has_tree_node(
        more,
        roots[i],
    ) by {
        lemma_tree_node_kept(out, x, roots[i]);
    }
    assert forall|s: int| 0 <= s < after.len() implies (#[trigger] after[s]) < more.len()
        && more[after[s] as int].node_type == ObjectType::Tree by {
        if s < stack.len() {
            assert(after[s] == stack[s]);
            assert(more[stack[s] as int] == out[stack[s] as int]);
        }
    }
    assert forall|i: int|
        0 <= i < more.len() && (#[trigger] more[i]).node_type == ObjectType::Tree implies current
        == Some(i) || after.contains(i as usize) || expanded(more, trees, blobs, more[i]) by {
        if i < out.len() {
            assert(more[i] == out[i]);
            if stack.contains(i as usize) {
                let s = choose|s: int| 0 <= s < stack.len() && stack[s] == i as usize;
                assert(after[s] == i as usize);
            } else if current != Some(i) {
                lemma_expanded_kept(out, x, trees, blobs, out[i]);
            }
        } else {
            assert(after[after.len() - 1] == i as usize);
        }
    }
}

/// The place in `objects` of the first object kept under `id`.
pub fn find_object(objects: &Vec<ObjectRecord>, id: &crate::hash::Hash) -> (r: Option<usize>)
    ensures
        match r {
            Some(at) => at == object_index(object_views(objects@), id@) && at < objects@.len()
                && objects@[at as int].git_id@ == id@,
            None => !has_object(object_views(objects@), id@),
        },
{
    let ghost views = object_views(objects@);
    let ghost wanted = object_under(id@);
    let mut i: usize = 0;
    while i < objects.len() && !objects[i].git_id.same(id)
        invariant
            i <= objects.len(),
            views == object_views(objects@),
            wanted == object_under(id@),
            first_from(views, wanted, 0) == first_from(views, wanted, i as int),
        decreases objects.len() - i,
    {
        assert(views[i as int] == objects@[i as int]@);
        i = i + 1;
    }
    if i < objects.len() {
        assert(views[i as int] == objects@[i as int]@);
        Some(i)
    } else {
        None
    }
}

/// Whether `built` lists the ids of the tree nodes of `out`, each once.
spec fn built_ok(out: Seq<NodeView>, built: Seq<Seq<u8>>) -> bool {
    &&& crate::meta_map::distinct(built)
    &&& forall|id: Seq<u8>| built.contains(id) <==> has_tree_node(out, id)
}

/// Whether the bytes of a tree are a list of entries whose names are UTF-8.
pub open spec fn readable(data: Seq<u8>) -> bool {
    spec_tree_items(data, 0) matches Some(items) && forall|k: int|
        0 <= k < items.len() ==> valid_utf8((#[trigger] items[k]).name)
}

/// The test that an id is that of a pushed tree that cannot be read.
pub open spec fn unreadable_in(trees: Seq<ObjectRecordView>) -> spec_fn(Seq<u8>) -> bool {
    |id: Seq<u8>| has_object(trees, id) && !readable(trees[object_index(trees, id)].data)
}

/// The place of the first of `roots` that is a pushed tree that cannot be
/// read; the number of roots when there is none.
pub open spec fn first_unreadable_root(trees: Seq<ObjectRecordView>, roots: Seq<Seq<u8>>) -> int {
    first_from(roots, unreadable_in(trees), 0)
}

/// The trees of a list of commits, in order.
pub open spec fn commit_trees(commits: Seq<Commit>) -> Seq<Seq<u8>> {
    Seq::new(commits.len(), |i: int| commits[i].tree_id@)
}

/// There are no more tree nodes than pushed trees.
proof fn lemma_built_bound(
    out: Seq<NodeView>,
    built: Seq<Seq<u8>>,
    trees: Seq<ObjectRecordView>,
    blobs: Seq<ObjectRecordView>,
)
    requires
        built_ok(out, built),
        forall|i: int| 0 <= i < out.len() ==> stands_for(#[trigger] out[i], trees, blobs),
    ensures
        built.len() <= trees.len(),
{
    let ids = Seq::new(trees.len(), |i: int| trees[i].git_id);
    assert forall|id: Seq<u8>| built.to_set().contains(id) implies ids.to_set().contains(id) by {
        assert(built.contains(id));
        let j = choose|j: int|
            0 <= j < out.len() && (#[trigger] out[j]).node_type == ObjectType::Tree
                && out[j].git_id == id;
        assert(stands_for(out[j], trees, blobs));
        lemma_first_from(trees, object_under(id), 0);
        let at = object_index(trees, id);
        assert(ids[at] == id);
    }
    vstd::seq_lib::seq_to_set_is_finite(ids);
    vstd::set_lib::lemma_len_subset(built.to_set(), ids.to_set());
    built.unique_seq_to_set();
    ids.lemma_cardinality_of_set();
}

/// Adds a node to the node tree; a tree node is put on the stack to be
/// expanded.
fn place(
    node: Node,
    out: &mut Vec<Node>,
    built: &mut Vec<crate::hash::Hash>,
    stack: &mut Vec<usize>,
    Ghost(trees): Ghost<Seq<ObjectRecordView>>,
    Ghost(blobs): Ghost<Seq<ObjectRecordView>>,
    Ghost(roots): Ghost<Seq<Seq<u8>>>,
    Ghost(repo_path): Ghost<Seq<char>>,
    Ghost(roots_done): Ghost<int>,
    Ghost(current): Ghost<Option<int>>,
)
    requires
        build_ok(
            node_views(old(out)@),
            trees,
            blobs,
            roots,
            repo_path,
            roots_done,
            old(stack)@,
            current,
        ),
        built_ok(node_views(old(out)@), ids_view(old(built)@)),
        stands_for(node@, trees, blobs),
        placed(node@, node_views(old(out)@), roots, repo_path),
        node.node_type == ObjectType::Tree ==> !has_tree_node(node_views(old(out)@), node.git_id@),
    ensures
        build_ok(
            node_views(final(out)@),
            trees,
            blobs,
            roots,
            repo_path,
            roots_done,
            final(stack)@,
            current,
        ),
        built_ok(node_views(final(out)@), ids_view(final(built)@)),
        node_views(final(out)@) == node_views(old(out)@).push(node@),
        final(stack)@ == stack_with(old(stack)@, node_views(old(out)@), node@),
        final(built)@.len() == old(built)@.len() + if node.node_type == ObjectType::Tree {
            1int
        } else {
            0int
        },
{
    let ghost before = node_views(out@);
    let ghost ids = ids_view(built@);
    let at: usize = out.len();
    let is_tree = match node.node_type {
        ObjectType::Tree => true,
        _ => false,
    };
    let id = node.git_id;
    let ghost added = node@;
    out.push(node);
    // The list's new length fits a `usize`, so its old one was below the largest.
    let grown: usize = out.len();
    proof {
        assert(before.len() + 1 == grown);
        lemma_build_push(before, added, trees, blobs, roots, repo_path, roots_done, stack@, current);
    }
    assert(node_views(out@) =~= before.push(added));
    if is_tree {
        built.push(id);
        stack.push(at);
    }
    proof {
        let after = node_views(out@);
        let more = ids_view(built@);
        if is_tree {
            assert(more =~= ids.push(id@));
            assert forall|i: int, j: int| 0 <= i < j < more.len() implies more[i] != more[j] by {
                if j == ids.len() {
                    assert(ids[i] == more[i]);
                    assert(ids.contains(more[i]));
                }
            }
        } else {
            assert(more =~= ids);
        }
        assert forall|k: Seq<u8>| more.contains(k) <==> has_tree_node(after, k) by {
            if more.contains(k) {
                let i = choose|i: int| 0 <= i < more.len() && more[i] == k;
                if i < ids.len() {
                    assert(ids[i] == k);
                    assert(ids.contains(k));
                    lemma_tree_node_kept(before, node@, k);
                } else {
                    assert(after[after.len() - 1] == node@);
                }
            }
            if has_tree_node(after, k) {
                let j = choose|j: int|
                    0 <= j < after.len() && (#[trigger] after[j]).node_type == ObjectType::Tree
                        && after[j].git_id == k;
                if j < before.len() {
                    assert(after[j] == before[j]);
                    assert(has_tree_node(before, k));
                    let i = choose|i: int| 0 <= i < ids.len() && ids[i] == k;
                    assert(more[i] == k);
                } else {
                    assert(more[more.len() - 1] == k);
                }
            }
        }
    }
}

/// Deals with one entry of the directory `parent`: a pushed tree gets its
/// node unless it has one, a pushed blob gets a node in the directory.
fn place_entry(
    parent: &Node,
    entry: &crate::object::TreeItem,
    trees: &Vec<ObjectRecord>,
    blobs: &Vec<ObjectRecord>,
    out: &mut Vec<Node>,
    built: &mut Vec<crate::hash::Hash>,
    stack: &mut Vec<usize>,
    Ghost(roots): Ghost<Seq<Seq<u8>>>,
    Ghost(repo_path): Ghost<Seq<char>>,
    Ghost(roots_done): Ghost<int>,
    Ghost(at): Ghost<int>,
    Ghost(k): Ghost<int>,
) -> (r: Result<(), GitError>)
    requires
        build_ok(
            node_views(old(out)@),
            object_views(trees@),
            object_views(blobs@),
            roots,
            repo_path,
            roots_done,
            old(stack)@,
            Some(at),
        ),
        built_ok(node_views(old(out)@), ids_view(old(built)@)),
        0 <= at < old(out)@.len(),
        node_views(old(out)@)[at] == parent@,
        parent.node_type == ObjectType::Tree,
        spec_tree_items(parent.data@, 0) matches Some(items) && 0 <= k < items.len() && items[k]
            == entry@,
    ensures
        match r {
            Ok(_) => {
                &&& build_ok(
                    node_views(final(out)@),
                    object_views(trees@),
                    object_views(blobs@),
                    roots,
                    repo_path,
                    roots_done,
                    final(stack)@,
                    Some(at),
                )
                &&& built_ok(node_views(final(out)@), ids_view(final(built)@))
                &&& entry_done(
                    node_views(final(out)@),
                    object_views(trees@),
                    object_views(blobs@),
                    parent@,
                    entry@,
                )
                &&& node_views(final(out)@) == node_views(old(out)@) || exists|x: NodeView|
                    node_views(final(out)@) == node_views(old(out)@).push(x)
                &&& old(built)@.len() <= final(built)@.len()
                &&& final(stack)@.len() + old(built)@.len() <= old(stack)@.len() + final(
                    built
                )@.len()
            },
            Err(GitError::InvalidTreeObject(h)) => h@ == parent.git_id@ && !readable(parent.data@),
            Err(_) => false,
        },
{
    let ghost before = node_views(out@);
    let name = match string_from_utf8(entry.name.clone()) {
        None => {
            return Err(GitError::InvalidTreeObject(parent.git_id));
        },
        Some(name) => name,
    };
    let mut path = parent.full_path.clone();
    path.append("/");
    path.append(name.as_str());
    assert(path@ == child_path(parent.full_path@, entry.name@));
    match find_object(trees, &entry.id) {
        Some(found) => {
            if !contains_id(built, &entry.id) {
                let node = Node {
                    git_id: entry.id,
                    node_type: ObjectType::Tree,
                    data: trees[found].data.clone(),
                    full_path: path,
                    pid: Some(parent.git_id),
                };
                proof {
                    assert(object_views(trees@)[found as int] == trees@[found as int]@);
                    assert(lies_in(before[at], node@));
                }
                place(
                    node,
                    out,
                    built,
                    stack,
                    Ghost(object_views(trees@)),
                    Ghost(object_views(blobs@)),
                    Ghost(roots),
                    Ghost(repo_path),
                    Ghost(roots_done),
                    Ghost(Some(at)),
                );
                proof {
                    let after = node_views(out@);
                    assert(after[after.len() - 1].git_id == entry.id@);
                }
            }
        },
        None => {
            match find_object(blobs, &entry.id) {
                Some(found) => {
                    let node = Node {
                        git_id: entry.id,
                        node_type: ObjectType::Blob,
                        data: blobs[found].data.clone(),
                        full_path: path,
                        pid: Some(parent.git_id),
                    };
                    proof {
                        assert(object_views(blobs@)[found as int] == blobs@[found as int]@);
                        assert(lies_in(before[at], node@));
                    }
                    place(
                        node,
                        out,
                        built,
                        stack,
                        Ghost(object_views(trees@)),
                        Ghost(object_views(blobs@)),
                        Ghost(roots),
                        Ghost(repo_path),
                        Ghost(roots_done),
                        Ghost(Some(at)),
                    );
                    proof {
                        let after = node_views(out@);
                        assert(after[after.len() - 1] == node@);
                    }
                },
                None => {},
            }
        },
    }
    Ok(())
}

/// Whether `data` is a list of tree entries whose names are UTF-8.
pub fn is_readable_tree(data: &[u8]) -> (r: bool)
    ensures
        r == readable(data@),
{
    let ghost mut listed: Seq<TreeItemView> = Seq::empty();
    let mut at: usize = 0;
    assert(listed + Seq::<TreeItemView>::empty() =~= listed);
    while at < data.len()
        invariant
            at <= data.len(),
            spec_tree_items(data@, 0) == crate::object::prepend_items(
                listed,
                spec_tree_items(data@, at as int),
            ),
            forall|k: int| 0 <= k < listed.len() ==> valid_utf8((#[trigger] listed[k]).name),
        decreases data.len() - at,
    {
        match crate::object::parse_tree_entry(data, at) {
            None => {
                return false;
            },
            Some((item, next)) => {
                let ghost entry = item@;
                let ghost more = spec_tree_items(data@, next as int);
                proof {
                    if more is Some {
                        assert(listed + (seq![entry] + more->0) =~= listed.push(entry) + more->0);
                        assert((listed.push(entry) + more->0)[listed.len() as int] == entry);
                    }
                }
                if string_from_utf8(item.name).is_none() {
                    proof {
                        if spec_tree_items(data@, 0) is Some {
                            let items = spec_tree_items(data@, 0)->0;
                            assert(items == listed + (seq![entry] + more->0));
                            assert(items[listed.len() as int] == entry);
                        }
                    }
                    return false;
                }
                proof {
                    listed = listed.push(entry);
                }
                at = next;
            },
        }
    }
    proof {
        assert(listed + Seq::<TreeItemView>::empty() =~= listed);
    }
    true
}

/// Taking the top directory off the stack to expand it keeps the build in
/// order.
proof fn lemma_build_pop(
    out: Seq<NodeView>,
    trees: Seq<ObjectRecordView>,
    blobs: Seq<ObjectRecordView>,
    roots: Seq<Seq<u8>>,
    repo_path: Seq<char>,
    roots_done: int,
    stack: Seq<usize>,
)
    requires
        build_ok(out, trees, blobs, roots, repo_path, roots_done, stack, None),
        stack.len() > 0,
    ensures
        build_ok(
            out,
            trees,
            blobs,
            roots,
            repo_path,
            roots_done,
            stack.drop_last(),
            Some(stack.last() as int),
        ),
        stack.last() < out.len(),
        out[stack.last() as int].node_type == ObjectType::Tree,
{
    let rest = stack.drop_last();
    let top = stack.last();
    assert(stack[stack.len() - 1] == top);
    assert forall|s: int| 0 <= s < rest.len() implies (#[trigger] rest[s]) < out.len()
        && out[rest[s] as int].node_type == ObjectType::Tree by {
        assert(rest[s] == stack[s]);
    }
    assert forall|i: int|
        0 <= i < out.len() && (#[trigger] out[i]).node_type == ObjectType::Tree implies Some(
        top as int,
    ) == Some(i) || rest.contains(i as usize) || expanded(out, trees, blobs, out[i]) by {
        if stack.contains(i as usize) {
            let s = choose|s: int| 0 <= s < stack.len() && stack[s] == i as usize;
            if s < rest.len() {
                assert(rest[s] == i as usize);
            }
        }
    }
}

/// Once all entries of the directory at work are dealt with, it is done.
proof fn lemma_build_close(
    out: Seq<NodeView>,
    trees: Seq<ObjectRecordView>,
    blobs: Seq<ObjectRecordView>,
    roots: Seq<Seq<u8>>,
    repo_path: Seq<char>,
    roots_done: int,
    stack: Seq<usize>,
    at: int,
)
    requires
        build_ok(out, trees, blobs, roots, repo_path, roots_done, stack, Some(at)),
        0 <= at < out.len(),
        expanded(out, trees, blobs, out[at]),
    ensures
        build_ok(out, trees, blobs, roots, repo_path, roots_done, stack, None),
{
}

/// Builds the node tree of a push.
///
/// `commits` are the commits of the push, `trees` and `blobs` the trees
/// and blobs that came with it, and `repo_path` the path of the repository.
/// The tree of each commit gets a node at `repo_path`, and from there each
/// directory's entries get theirs, at the directory's path followed by a
/// slash and the entry's name. A tree gets one node, however often it is
/// named; what did not come with the push gets none. A pushed tree that
/// cannot be read, or has a name that is not UTF-8, fails the call. The
/// trees of the commits are looked at first, in the commits' order, so
/// that a failure names the first of them that is at fault.
pub fn build_node_tree(
    commits: &Vec<Commit>,
    trees: &Vec<ObjectRecord>,
    blobs: &Vec<ObjectRecord>,
    repo_path: &str,
) -> (r: Result<Vec<Node>, GitError>)
    ensures
        match r {
            Ok(nodes) => is_node_tree(
                node_views(nodes@),
                object_views(trees@),
                object_views(blobs@),
                commit_trees(commits@),
                repo_path@,
            ),
            Err(GitError::InvalidTreeObject(h)) => has_object(object_views(trees@), h@)
                && !readable(
                object_views(trees@)[object_index(object_views(trees@), h@)].data,
            ),
            Err(_) => false,
        },
        first_unreadable_root(object_views(trees@), commit_trees(commits@)) < commits@.len()
            ==> crate::pack::fails_naming_tree(
            r,
            commit_trees(commits@)[first_unreadable_root(
                object_views(trees@),
                commit_trees(commits@),
            )],
        ),
{
    let ghost pushed = object_views(trees@);
    let ghost loose = object_views(blobs@);
    let ghost roots = commit_trees(commits@);
    let ghost bad = unreadable_in(pushed);
    let mut c: usize = 0;
    while c < commits.len()
        invariant
            c <= commits.len(),
            pushed == object_views(trees@),
            roots == commit_trees(commits@),
            bad == unreadable_in(pushed),
            first_from(roots, bad, 0) == first_from(roots, bad, c as int),
        decreases commits.len() - c,
    {
        let root = commits[c].tree_id;
        assert(roots[c as int] == root@);
        match find_object(trees, &root) {
            Some(found) => {
                assert(pushed[found as int] == trees@[found as int]@);
                if !is_readable_tree(trees[found].data.as_slice()) {
                    return Err(GitError::InvalidTreeObject(root));
                }
            },
            None => {},
        }
        c = c + 1;
    }
    let mut out: Vec<Node> = Vec::new();
    let mut built: Vec<crate::hash::Hash> = Vec::new();
    let mut stack: Vec<usize> = Vec::new();
    let mut i: usize = 0;
    while i < commits.len()
        invariant
            i <= commits.len(),
            pushed == object_views(trees@),
            loose == object_views(blobs@),
            roots == commit_trees(commits@),
            first_unreadable_root(pushed, roots) == commits@.len(),
            build_ok(node_views(out@), pushed, loose, roots, repo_path@, i as int, stack@, None),
            built_ok(node_views(out@), ids_view(built@)),
        decreases commits.len() - i,
    {
        let root = commits[i].tree_id;
        assert(roots[i as int] == root@);
        if !contains_id(&built, &root) {
            match find_object(trees, &root) {
                Some(found) => {
                    let node = Node {
                        git_id: root,
                        node_type: ObjectType::Tree,
                        data: trees[found].data.clone(),
                        full_path: repo_path.to_owned(),
                        pid: None,
                    };
                    proof {
                        assert(pushed[found as int] == trees@[found as int]@);
                    }
                    place(
                        node,
                        &mut out,
                        &mut built,
                        &mut stack,
                        Ghost(pushed),
                        Ghost(loose),
                        Ghost(roots),
                        Ghost(repo_path@),
                        Ghost(i as int),
                        Ghost(None),
                    );
                    proof {
                        let after = node_views(out@);
                        assert(after[after.len() - 1].git_id == root@);
                    }
                },
                None => {},
            }
        }
        i = i + 1;
    }
    let ghost all = commits@.len() as int;
    while stack.len() > 0
        invariant
            pushed == object_views(trees@),
            loose == object_views(blobs@),
            roots == commit_trees(commits@),
            first_unreadable_root(pushed, roots) == commits@.len(),
            all == commits@.len(),
            build_ok(node_views(out@), pushed, loose, roots, repo_path@, all, stack@, None),
            built_ok(node_views(out@), ids_view(built@)),
        decreases trees@.len() - built@.len(), stack@.len(),
    {
        proof {
            lemma_build_pop(node_views(out@), pushed, loose, roots, repo_path@, all, stack@);
            lemma_built_bound(node_views(out@), ids_view(built@), pushed, loose);
        }
        let ghost waiting = stack@;
        let ghost known = built@.len();
        let at: usize = stack.pop().unwrap();
        assert(stack@ =~= waiting.drop_last());
        let parent = clone_node(&out[at]);
        assert(node_views(out@)[at as int] == parent@);
        let tree = match Tree::new_from_data(parent.data.clone()) {
            None => {
                proof {
                    lemma_first_from(pushed, object_under(parent.git_id@), 0);
                }
                return Err(GitError::InvalidTreeObject(parent.git_id));
            },
            Some(tree) => tree,
        };
        let ghost items = items_view(tree.tree_items@);
        let mut k: usize = 0;
        while k < tree.tree_items.len()
            invariant
                k <= tree.tree_items.len(),
                pushed == object_views(trees@),
                loose == object_views(blobs@),
                roots == commit_trees(commits@),
                first_unreadable_root(pushed, roots) == commits@.len(),
                all == commits@.len(),
                items == items_view(tree.tree_items@),
                spec_tree_items(parent.data@, 0) == Some(items),
                parent.node_type == ObjectType::Tree,
                at < out@.len(),
                node_views(out@)[at as int] == parent@,
                build_ok(
                    node_views(out@),
                    pushed,
                    loose,
                    roots,
                    repo_path@,
                    all,
                    stack@,
                    Some(at as int),
                ),
                built_ok(node_views(out@), ids_view(built@)),
                forall|e: int|
                    0 <= e < k ==> entry_done(
                        node_views(out@),
                        pushed,
                        loose,
                        parent@,
                        #[trigger] items[e],
                    ),
                known <= built@.len(),
                stack@.len() + known + 1 <= waiting.len() + built@.len(),
            decreases tree.tree_items.len() - k,
        {
            let ghost before = node_views(out@);
            let entry = &tree.tree_items[k];
            assert(items[k as int] == entry@);
            match place_entry(
                &parent,
                entry,
                trees,
                blobs,
                &mut out,
                &mut built,
                &mut stack,
                Ghost(roots),
                Ghost(repo_path@),
                Ghost(all),
                Ghost(at as int),
                Ghost(k as int),
            ) {
                Err(e) => {
                    proof {
                        lemma_first_from(pushed, object_under(parent.git_id@), 0);
                    }
                    return Err(e);
                },
                Ok(_) => {},
            }
            proof {
                let after = node_views(out@);
                if after != before {
                    let x = choose|x: NodeView| after == before.push(x);
                    assert(after[at as int] == before[at as int]);
                    assert forall|e: int| 0 <= e < k implies entry_done(
                        after,
                        pushed,
                        loose,
                        parent@,
                        #[trigger] items[e],
                    ) by {
                        lemma_entry_done_kept(before, x, pushed, loose, parent@, items[e]);
                    }
                }
            }
            k = k + 1;
        }
        proof {
            lemma_build_close(
                node_views(out@),
                pushed,
                loose,
                roots,
                repo_path@,
                all,
                stack@,
                at as int,
            );
            lemma_built_bound(node_views(out@), ids_view(built@), pushed, loose);
        }
    }
    proof {
        let views = node_views(out@);
        assert forall|i: int|
            0 <= i < views.len() && (#[trigger] views[i]).node_type
                == ObjectType::Tree implies expanded(views, pushed, loose, views[i]) by {
            assert(!stack@.contains(i as usize));
        }
    }
    Ok(out)
}

/// The trees of the pushed commits, in order.
pub open spec fn pushed_roots(commit_objects: Seq<ObjectRecordView>) -> Seq<Seq<u8>> {
    Seq::new(commit_objects.len(), |i: int| spec_commit_tree(commit_objects[i].data)->0)
}

/// The commit records for the pushed commits: each under the id that its
/// bytes give it, at the repository's path.
pub open spec fn pushed_commits(
    commit_objects: Seq<ObjectRecordView>,
    repo_path: Seq<char>,
) -> Seq<CommitRecordView> {
    Seq::new(
        commit_objects.len(),
        |i: int|
            CommitRecordView {
                git_id: object_id(ObjectType::Commit, commit_objects[i].data),
                meta: commit_objects[i].data,
                repo_path,
            },
    )
}

/// The test that the bytes of a pushed commit name no tree.
pub open spec fn object_names_no_tree() -> spec_fn(ObjectRecordView) -> bool {
    |o: ObjectRecordView| spec_commit_tree(o.data) is None
}

/// The place of the first of the pushed commits whose bytes name no tree;
/// their number when all name one.
pub open spec fn first_bad_pushed_commit(commit_objects: Seq<ObjectRecordView>) -> int {
    first_from(commit_objects, object_names_no_tree(), 0)
}

/// What [`save_packfile`] does to the store and returns.
///
/// It files the node tree of the push behind the store's nodes, and then
/// the commits of the push behind the store's commits. It fails, and files
/// nothing, when the bytes of a pushed commit do not name a tree or a
/// pushed tree cannot be read; it then names the first such commit, or
/// else the tree of the first commit whose tree is at fault, or else a
/// tree below. A failure of the store can come in between.
pub open spec fn filed<S: ObjectStorage>(
    before: &S,
    after: &S,
    request_id: i64,
    repo_path: Seq<char>,
    r: Result<(), GitError>,
) -> bool {
    let commit_objects = objects_of(before.objects(), request_id, ObjectType::Commit);
    let trees = objects_of(before.objects(), request_id, ObjectType::Tree);
    let blobs = objects_of(before.objects(), request_id, ObjectType::Blob);
    let nodes_before = before.nodes().len() as int;
    &&& after.refs() == before.refs()
    &&& after.objects() == before.objects()
    &&& after.dependable() == before.dependable()
    &&& first_bad_pushed_commit(commit_objects) < commit_objects.len()
        ==> crate::pack::fails_naming_commit(
        r,
        commit_objects[first_bad_pushed_commit(commit_objects)].git_id,
    )
    &&& first_bad_pushed_commit(commit_objects) == commit_objects.len() && first_unreadable_root(
        trees,
        pushed_roots(commit_objects),
    ) < commit_objects.len() ==> crate::pack::fails_naming_tree(
        r,
        pushed_roots(commit_objects)[first_unreadable_root(trees, pushed_roots(commit_objects))],
    )
    &&& match r {
        Ok(_) => {
            &&& forall|i: int|
                0 <= i < commit_objects.len() ==> spec_commit_tree(
                    (#[trigger] commit_objects[i]).data,
                ) is Some
            &&& after.nodes().len() >= nodes_before
            &&& after.nodes().take(nodes_before) == before.nodes()
            &&& is_node_tree(
                after.nodes().skip(nodes_before),
                trees,
                blobs,
                pushed_roots(commit_objects),
                repo_path,
            )
            &&& after.commits() == before.commits() + pushed_commits(commit_objects, repo_path)
        },
        Err(GitError::InvalidCommitObject(h)) => {
            &&& after.nodes() == before.nodes()
            &&& after.commits() == before.commits()
            &&& exists|i: int|
                0 <= i < commit_objects.len() && (#[trigger] commit_objects[i]).git_id == h@
                    && spec_commit_tree(commit_objects[i].data) is None
        },
        Err(GitError::InvalidTreeObject(h)) => {
            &&& after.nodes() == before.nodes()
            &&& after.commits() == before.commits()
            &&& has_object(trees, h@)
            &&& !readable(trees[object_index(trees, h@)].data)
        },
        Err(GitError::Store(_)) => {
            &&& !before.dependable()
            &&& after.commits() == before.commits()
            &&& after.nodes().len() >= nodes_before
            &&& after.nodes().take(nodes_before) == before.nodes()
        },
    }
}

/// Files the objects that came with push `mr_id` for the repository at
/// `repo_path`: the trees and blobs as nodes with their paths, and the
/// commits as commit records.
pub fn save_packfile<S: ObjectStorage>(storage: &mut S, mr_id: i64, repo_path: &str) -> (r: Result<
    (),
    GitError,
>)
    ensures
        filed(old(storage), final(storage), mr_id, repo_path@, r),
{
    let ghost nodes_before = storage.nodes();
    let commit_model = match storage.get_git_objects(mr_id, ObjectType::Commit) {
        Err(e) => {
            assert(nodes_before.take(nodes_before.len() as int) =~= nodes_before);
            return Err(GitError::Store(e));
        },
        Ok(list) => list,
    };
    let ghost commit_objects = object_views(commit_model@);
    let mut commits: Vec<Commit> = Vec::new();
    let mut i: usize = 0;
    while i < commit_model.len()
        invariant
            i <= commit_model.len(),
            first_from(commit_objects, object_names_no_tree(), 0) == first_from(
                commit_objects,
                object_names_no_tree(),
                i as int,
            ),
            unchanged(old(storage), storage),
            commit_objects == object_views(commit_model@),
            commit_objects == objects_of(old(storage).objects(), mr_id, ObjectType::Commit),
            commits@.len() == i,
            forall|k: int|
                0 <= k < i ==> (#[trigger] commits@[k]).raw@ == commit_objects[k].data
                    && commits@[k].wf(),
        decreases commit_model.len() - i,
    {
        let model = &commit_model[i];
        assert(commit_objects[i as int] == model@);
        match Commit::new_from_data(model.data.clone()) {
            None => {
                return Err(GitError::InvalidCommitObject(model.git_id));
            },
            Some(commit) => {
                commits.push(commit);
            },
        }
        i = i + 1;
    }
    let trees = match storage.get_git_objects(mr_id, ObjectType::Tree) {
        Err(e) => {
            assert(nodes_before.take(nodes_before.len() as int) =~= nodes_before);
            return Err(GitError::Store(e));
        },
        Ok(list) => list,
    };
    let blobs = match storage.get_git_objects(mr_id, ObjectType::Blob) {
        Err(e) => {
            assert(nodes_before.take(nodes_before.len() as int) =~= nodes_before);
            return Err(GitError::Store(e));
        },
        Ok(list) => list,
    };
    assert(commit_trees(commits@) =~= pushed_roots(commit_objects));
    let nodes = match build_node_tree(&commits, &trees, &blobs, repo_path) {
        Err(e) => {
            return Err(e);
        },
        Ok(nodes) => nodes,
    };
    let ghost added = node_views(nodes@);
    proof {
        lemma_first_from(pushed_roots(commit_objects), unreadable_in(object_views(trees@)), 0);
    }
    match storage.save_nodes(nodes) {
        Err(e) => {
            assert(nodes_before.take(nodes_before.len() as int) =~= nodes_before);
            return Err(GitError::Store(e));
        },
        Ok(_) => {},
    }
    proof {
        assert((nodes_before + added).take(nodes_before.len() as int) =~= nodes_before);
        assert((nodes_before + added).skip(nodes_before.len() as int) =~= added);
    }
    let mut save_models: Vec<CommitRecord> = Vec::new();
    let mut j: usize = 0;
    while j < commits.len()
        invariant
            j <= commits.len(),
            first_bad_pushed_commit(commit_objects) == commit_objects.len(),
            first_unreadable_root(
                objects_of(old(storage).objects(), mr_id, ObjectType::Tree),
                pushed_roots(commit_objects),
            ) == commit_objects.len(),
            storage.refs() == old(storage).refs(),
            storage.objects() == old(storage).objects(),
            storage.commits() == old(storage).commits(),
            storage.dependable() == old(storage).dependable(),
            storage.nodes() == nodes_before + added,
            commits@.len() == commit_objects.len(),
            forall|k: int|
                0 <= k < commits@.len() ==> (#[trigger] commits@[k]).raw@ == commit_objects[k].data
                    && commits@[k].wf(),
            save_models@.len() == j,
            forall|k: int|
                0 <= k < j ==> (#[trigger] save_models@[k])@ == pushed_commits(
                    commit_objects,
                    repo_path@,
                )[k],
        decreases commits.len() - j,
    {
        let commit = &commits[j];
        save_models.push(
            CommitRecord {
                git_id: commit.id,
                meta: commit.raw.clone(),
                repo_path: repo_path.to_owned(),
            },
        );
        j = j + 1;
    }
    assert(commit_views(save_models@) =~= pushed_commits(commit_objects, repo_path@));
    assert forall|i: int| 0 <= i < commit_objects.len() implies spec_commit_tree(
        (#[trigger] commit_objects[i]).data,
    ) is Some by {
        assert(commits@[i].wf());
    }
    match storage.save_commits(save_models) {
        Err(e) => Err(GitError::Store(e)),
        Ok(_) => Ok(()),
    }
}

} // verus!
