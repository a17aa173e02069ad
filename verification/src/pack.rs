//! Pack assembly: from a repository's commits to the set of objects that a
//! transfer of them needs, each object once.

use crate::meta_map::MetaMap;
use crate::object::{
    ids_view, item_ids, items_view, spec_commit_tree, spec_meta, spec_tree_items, Commit, Meta,
    MetaView, ObjectType, Tree,
};
use crate::store::{
    commit_views, commits_at, filter_seq, find_node, first_from, lemma_find_node,
    lemma_first_from, node_views, resolves, CommitRecord, CommitRecordView, Node, NodeView,
    ObjectStorage, StoreError,
};
use vstd::prelude::*;

verus! {

/// Why an operation on the object graph failed.
#[derive(Debug, Clone, PartialEq, Eq)]
pub enum GitError {
    /// A commit or a tree refers to an object under this id, and the store
    /// has no such object, or has one that cannot be read as a tree.
    InvalidTreeObject(crate::hash::Hash),
    /// The bytes kept for the commit under this id do not name a tree.
    InvalidCommitObject(crate::hash::Hash),
    /// The store failed.
    Store(StoreError),
}

/// The type under which a node goes into a pack: a tree as a tree, anything
/// else as a blob.
pub open spec fn pack_type(node_type: ObjectType) -> ObjectType {
    if node_type == ObjectType::Tree {
        ObjectType::Tree
    } else {
        ObjectType::Blob
    }
}

/// The pack entry for a node.
pub open spec fn node_meta(node: NodeView) -> MetaView {
    spec_meta(pack_type(node.node_type), node.data)
}

/// The ids that the object under `id` refers to: the entries of a tree that
/// the store keeps under it, and nothing for anything else.
pub open spec fn children(nodes: Seq<NodeView>, id: Seq<u8>) -> Seq<Seq<u8>> {
    match find_node(nodes, id) {
        Some(node) => if node.node_type == ObjectType::Tree {
            match spec_tree_items(node.data, 0) {
                Some(items) => item_ids(items),
                None => Seq::empty(),
            }
        } else {
            Seq::empty()
        },
        None => Seq::empty(),
    }
}

/// Whether each id of `chain` but the last refers to the next.
pub open spec fn is_chain(nodes: Seq<NodeView>, chain: Seq<Seq<u8>>) -> bool {
    forall|i: int|
        0 <= i < chain.len() - 1 ==> (#[trigger] children(nodes, chain[i])).contains(chain[i + 1])
}

/// Whether `chain` leads from one of `roots` to `id`.
pub open spec fn leads_to(
    nodes: Seq<NodeView>,
    roots: Seq<Seq<u8>>,
    chain: Seq<Seq<u8>>,
    id: Seq<u8>,
) -> bool {
    chain.len() > 0 && roots.contains(chain[0]) && chain.last() == id && is_chain(nodes, chain)
}

/// Whether `id` is one of `roots` or is referred to, directly or through
/// other trees, by one of them.
pub open spec fn reachable(nodes: Seq<NodeView>, roots: Seq<Seq<u8>>, id: Seq<u8>) -> bool {
    exists|chain: Seq<Seq<u8>>| leads_to(nodes, roots, chain, id)
}

/// Whether the store keeps an object under `id` that can be expanded: any
/// blob, or a tree whose bytes are a list of entries.
pub open spec fn intact(nodes: Seq<NodeView>, id: Seq<u8>) -> bool {
    match find_node(nodes, id) {
        Some(node) => node.node_type == ObjectType::Tree ==> spec_tree_items(node.data, 0) is Some,
        None => false,
    }
}

/// Whether every object that can be reached from `roots` is intact.
pub open spec fn sound(nodes: Seq<NodeView>, roots: Seq<Seq<u8>>) -> bool {
    forall|id: Seq<u8>| reachable(nodes, roots, id) ==> intact(nodes, id)
}

/// Whether no id of `chain` is among `held`.
pub open spec fn avoids(chain: Seq<Seq<u8>>, held: Set<Seq<u8>>) -> bool {
    forall|i: int| 0 <= i < chain.len() ==> !held.contains(#[trigger] chain[i])
}

/// Whether `id` can be reached from `roots` without passing through an id
/// that is among `held`: it is not among them, and it is a root or is
/// referred to by a tree that can be so reached.
pub open spec fn reachable_past(
    nodes: Seq<NodeView>,
    roots: Seq<Seq<u8>>,
    held: Set<Seq<u8>>,
    id: Seq<u8>,
) -> bool {
    exists|chain: Seq<Seq<u8>>| #[trigger] leads_to(nodes, roots, chain, id) && avoids(chain, held)
}

/// Whether every object that can be reached from `roots` without passing
/// through `held` is intact.
pub open spec fn sound_past(nodes: Seq<NodeView>, roots: Seq<Seq<u8>>, held: Set<Seq<u8>>) -> bool {
    forall|id: Seq<u8>| reachable_past(nodes, roots, held, id) ==> intact(nodes, id)
}

/// Whether `after` holds all that `before` holds, each id with the entry it
/// had.
pub open spec fn keeps(before: Map<Seq<u8>, MetaView>, after: Map<Seq<u8>, MetaView>) -> bool {
    forall|id: Seq<u8>| #[trigger]
        before.dom().contains(id) ==> after.dom().contains(id) && after[id] == before[id]
}

/// Whether `after` is `before` with the objects gathered from `roots`: it
/// keeps what `before` holds, and holds besides exactly the objects that
/// can be reached from `roots` without passing through an id that
/// `before` holds, each under its id with the pack entry of the store's
/// node.
pub open spec fn gathered(
    nodes: Seq<NodeView>,
    roots: Seq<Seq<u8>>,
    before: Map<Seq<u8>, MetaView>,
    after: Map<Seq<u8>, MetaView>,
) -> bool {
    &&& keeps(before, after)
    &&& forall|id: Seq<u8>|
        after.dom().contains(id) <==> before.dom().contains(id) || reachable_past(
            nodes,
            roots,
            before.dom(),
            id,
        )
    &&& forall|id: Seq<u8>| #[trigger]
        after.dom().contains(id) && !before.dom().contains(id) ==> find_node(nodes, id) is Some
            && after[id] == node_meta(find_node(nodes, id)->0)
}

/// The test that an id is not among `held` and not that of an intact
/// object.
pub open spec fn bad_root(nodes: Seq<NodeView>, held: Set<Seq<u8>>) -> spec_fn(Seq<u8>) -> bool {
    |id: Seq<u8>| !held.contains(id) && !intact(nodes, id)
}

/// The place of the first of `roots` that is not among `held` and is not
/// intact; the number of roots when there is none.
pub open spec fn first_bad_root(
    nodes: Seq<NodeView>,
    roots: Seq<Seq<u8>>,
    held: Set<Seq<u8>>,
) -> int {
    first_from(roots, bad_root(nodes, held), 0)
}

/// Whether `r` is a failure that names the tree under `id`, or a failure
/// of the store.
pub open spec fn fails_naming_tree<T>(r: Result<T, GitError>, id: Seq<u8>) -> bool {
    match r {
        Ok(_) => false,
        Err(GitError::InvalidTreeObject(h)) => h@ == id,
        Err(GitError::Store(_)) => true,
        Err(GitError::InvalidCommitObject(_)) => false,
    }
}

/// Whether `r` is a failure that names the commit under `id`, or a failure
/// of the store.
pub open spec fn fails_naming_commit<T>(r: Result<T, GitError>, id: Seq<u8>) -> bool {
    match r {
        Ok(_) => false,
        Err(GitError::InvalidCommitObject(h)) => h@ == id,
        Err(GitError::Store(_)) => true,
        Err(GitError::InvalidTreeObject(_)) => false,
    }
}

/// What the assembly comes to when the tree of a commit is at fault: it
/// fails, and unless the store failed it names the first such tree.
pub open spec fn fails_at_first_bad_root(
    nodes: Seq<NodeView>,
    roots: Seq<Seq<u8>>,
    r: Result<MetaMap, GitError>,
) -> bool {
    fails_naming_tree(r, roots[first_bad_root(nodes, roots, Set::empty())])
}

/// Whether `map` holds exactly the objects reachable from `roots`, each
/// under its id with the pack entry of the store's node.
pub open spec fn holds_reachable(
    nodes: Seq<NodeView>,
    roots: Seq<Seq<u8>>,
    map: Map<Seq<u8>, MetaView>,
) -> bool {
    &&& forall|id: Seq<u8>| map.dom().contains(id) <==> reachable(nodes, roots, id)
    &&& forall|id: Seq<u8>| #[trigger]
        map.dom().contains(id) ==> find_node(nodes, id) is Some && map[id] == node_meta(
            find_node(nodes, id)->0,
        )
}

/// A root that is not held is reachable.
proof fn lemma_root_reachable(
    nodes: Seq<NodeView>,
    roots: Seq<Seq<u8>>,
    kept: Set<Seq<u8>>,
    root: Seq<u8>,
)
    requires
        roots.contains(root),
        !kept.contains(root),
    ensures
        reachable_past(nodes, roots, kept, root),
{
    let chain = seq![root];
    assert(chain[0] == root);
    assert(leads_to(nodes, roots, chain, root) && avoids(chain, kept));
}

/// What a reachable tree refers to is reachable, unless it is held.
proof fn lemma_child_reachable(
    nodes: Seq<NodeView>,
    roots: Seq<Seq<u8>>,
    kept: Set<Seq<u8>>,
    parent: Seq<u8>,
    child: Seq<u8>,
)
    requires
        reachable_past(nodes, roots, kept, parent),
        children(nodes, parent).contains(child),
        !kept.contains(child),
    ensures
        reachable_past(nodes, roots, kept, child),
{
    let chain = choose|chain: Seq<Seq<u8>>| #[trigger]
        leads_to(nodes, roots, chain, parent) && avoids(chain, kept);
    let longer = chain.push(child);
    assert forall|i: int| 0 <= i < longer.len() - 1 implies (#[trigger] children(
        nodes,
        longer[i],
    )).contains(longer[i + 1]) by {
        if i < chain.len() - 1 {
            assert(longer[i] == chain[i]);
            assert(longer[i + 1] == chain[i + 1]);
            assert(children(nodes, chain[i]).contains(chain[i + 1]));
        } else {
            assert(longer[i] == parent);
            assert(longer[i + 1] == child);
        }
    }
    assert forall|i: int| 0 <= i < longer.len() implies !kept.contains(#[trigger] longer[i]) by {
        if i < chain.len() {
            assert(longer[i] == chain[i]);
        }
    }
    assert(longer[0] == chain[0]);
    assert(leads_to(nodes, roots, longer, child) && avoids(longer, kept));
}

/// Nothing held stands in the way when nothing is held.
proof fn lemma_reachable_past_nothing(nodes: Seq<NodeView>, roots: Seq<Seq<u8>>, id: Seq<u8>)
    ensures
        reachable_past(nodes, roots, Set::empty(), id) <==> reachable(nodes, roots, id),
{
    if reachable(nodes, roots, id) {
        let chain = choose|chain: Seq<Seq<u8>>| leads_to(nodes, roots, chain, id);
        assert(leads_to(nodes, roots, chain, id) && avoids(chain, Set::empty()));
    }
}

/// Gathering into a map that holds nothing gives exactly what is
/// reachable; and with nothing held, all is intact when all that is
/// reachable is.
proof fn lemma_gathered_into_nothing(
    nodes: Seq<NodeView>,
    roots: Seq<Seq<u8>>,
    before: Map<Seq<u8>, MetaView>,
    after: Map<Seq<u8>, MetaView>,
)
    requires
        before == Map::<Seq<u8>, MetaView>::empty(),
    ensures
        before.dom() == Set::<Seq<u8>>::empty(),
        sound_past(nodes, roots, before.dom()) <==> sound(nodes, roots),
        gathered(nodes, roots, before, after) ==> holds_reachable(nodes, roots, after),
{
    assert(before.dom() =~= Set::<Seq<u8>>::empty());
    assert forall|id: Seq<u8>|
        reachable_past(nodes, roots, Set::empty(), id) <==> reachable(nodes, roots, id) by {
        lemma_reachable_past_nothing(nodes, roots, id);
    }
}

/// Whether `held` has all that the object under `id` refers to, and the
/// object is intact.
spec fn closed(nodes: Seq<NodeView>, held: Set<Seq<u8>>, id: Seq<u8>) -> bool {
    &&& intact(nodes, id)
    &&& forall|c: Seq<u8>| #[trigger] children(nodes, id).contains(c) ==> held.contains(c)
}

/// A set that has the roots, and is closed but for what was held before,
/// has all that is reachable without passing through what was held.
proof fn lemma_closed_covers(
    nodes: Seq<NodeView>,
    roots: Seq<Seq<u8>>,
    kept: Set<Seq<u8>>,
    held: Set<Seq<u8>>,
    chain: Seq<Seq<u8>>,
    upto: int,
)
    requires
        forall|i: int| 0 <= i < roots.len() ==> held.contains(#[trigger] roots[i]),
        forall|k: Seq<u8>| held.contains(k) && !kept.contains(k) ==> #[trigger] closed(nodes, held, k),
        is_chain(nodes, chain),
        avoids(chain, kept),
        chain.len() > 0,
        roots.contains(chain[0]),
        0 <= upto < chain.len(),
    ensures
        held.contains(chain[upto]),
    decreases upto,
{
    if upto == 0 {
    } else {
        lemma_closed_covers(nodes, roots, kept, held, chain, upto - 1);
        assert(!kept.contains(chain[upto - 1]));
        assert(closed(nodes, held, chain[upto - 1]));
        assert(children(nodes, chain[upto - 1]).contains(chain[upto - 1 + 1]));
    }
}

/// Whether a node on the stack is kept under `id`.
spec fn on_stack(stack: Seq<NodeView>, id: Seq<u8>) -> bool {
    exists|j: int| 0 <= j < stack.len() && (#[trigger] stack[j]).git_id == id
}

/// What holds of a traversal under way.
///
/// `kept` is what was held before the traversal, `held` what is held now,
/// `stack` the trees that are gathered but not expanded yet, and `current`
/// the tree that is being expanded. What was held before is kept.
/// Everything gathered is reachable and carries the entry of the store's
/// node; every tree gathered is on the stack, is the current one, or has
/// all it refers to held.
spec fn walk_ok(
    nodes: Seq<NodeView>,
    roots: Seq<Seq<u8>>,
    kept: Map<Seq<u8>, MetaView>,
    held: Map<Seq<u8>, MetaView>,
    stack: Seq<NodeView>,
    current: Option<Seq<u8>>,
) -> bool {
    &&& keeps(kept, held)
    &&& forall|k: Seq<u8>| #[trigger]
        held.dom().contains(k) && !kept.dom().contains(k) ==> reachable_past(
            nodes,
            roots,
            kept.dom(),
            k,
        ) && find_node(nodes, k) is Some && held[k] == node_meta(find_node(nodes, k)->0)
    &&& forall|j: int|
        0 <= j < stack.len() ==> held.dom().contains((#[trigger] stack[j]).git_id)
            && !kept.dom().contains(stack[j].git_id) && find_node(nodes, stack[j].git_id) == Some(
            stack[j],
        ) && stack[j].node_type == ObjectType::Tree
    &&& forall|k: Seq<u8>| #[trigger]
        held.dom().contains(k) && !kept.dom().contains(k) ==> current == Some(k) || on_stack(
            stack,
            k,
        ) || closed(nodes, held.dom(), k)
}

/// The place in `found` of the first node kept under `id`.
fn pick(found: &Vec<Node>, id: &crate::hash::Hash) -> (r: Option<usize>)
    ensures
        match r {
            Some(j) => j < found.len() && found@[j as int].git_id@ == id@,
            None => forall|j: int| 0 <= j < found.len() ==> found@[j].git_id@ != id@,
        },
{
    let mut j: usize = 0;
    while j < found.len()
        invariant
            j <= found.len(),
            forall|k: int| 0 <= k < j ==> found@[k].git_id@ != id@,
        decreases found.len() - j,
    {
        if found[j].git_id.same(id) {
            return Some(j);
        }
        j = j + 1;
    }
    None
}

/// The pack entry for a node.
pub fn meta_of_node(node: &Node) -> (meta: Meta)
    ensures
        meta@ == node_meta(node@),
        meta.wf(),
{
    let object_type = match node.node_type {
        ObjectType::Tree => ObjectType::Tree,
        _ => ObjectType::Blob,
    };
    Meta::new_from_data_with_object_type(object_type, node.data.clone())
}

/// Looks at the roots that `acc` does not hold, in order, in what the
/// store gave for the roots, and fails at the first that is missing or is
/// a tree that cannot be read.
fn inspect_roots(
    roots: &Vec<crate::hash::Hash>,
    found: &Vec<Node>,
    acc: &MetaMap,
    Ghost(nodes): Ghost<Seq<NodeView>>,
) -> (r: Result<(), GitError>)
    requires
        resolves(nodes, ids_view(roots@), node_views(found@)),
    ensures
        match r {
            Ok(_) => first_bad_root(nodes, ids_view(roots@), acc@.dom()) == roots@.len(),
            Err(GitError::InvalidTreeObject(h)) => {
                &&& first_bad_root(nodes, ids_view(roots@), acc@.dom()) < roots@.len()
                &&& h@ == ids_view(roots@)[first_bad_root(nodes, ids_view(roots@), acc@.dom())]
                &&& !intact(nodes, h@)
                &&& !acc@.dom().contains(h@)
            },
            Err(_) => false,
        },
{
    let ghost wanted = ids_view(roots@);
    let ghost given = node_views(found@);
    let ghost bad = bad_root(nodes, acc@.dom());
    let mut i: usize = 0;
    while i < roots.len()
        invariant
            i <= roots.len(),
            wanted == ids_view(roots@),
            given == node_views(found@),
            bad == bad_root(nodes, acc@.dom()),
            resolves(nodes, wanted, given),
            first_from(wanted, bad, 0) == first_from(wanted, bad, i as int),
        decreases roots.len() - i,
    {
        let id = &roots[i];
        assert(wanted[i as int] == id@);
        if !acc.contains_key(id) {
            match pick(found, id) {
                None => {
                    proof {
                        lemma_find_node(nodes, id@);
                        if find_node(nodes, id@) is Some {
                            let n = find_node(nodes, id@)->0;
                            assert(given.contains(n));
                            let j = choose|j: int| 0 <= j < given.len() && given[j] == n;
                            assert(found@[j]@ == n);
                        }
                    }
                    return Err(GitError::InvalidTreeObject(*id));
                },
                Some(j) => {
                    let node = &found[j];
                    assert(given[j as int] == node@);
                    let is_tree = match node.node_type {
                        ObjectType::Tree => true,
                        _ => false,
                    };
                    if is_tree && !crate::object::is_tree_data(node.data.as_slice()) {
                        return Err(GitError::InvalidTreeObject(*id));
                    }
                },
            }
        }
        i = i + 1;
    }
    Ok(())
}

/// Gathers a node that was not gathered yet: its entry goes into `acc`,
/// and a tree goes on the stack.
fn gather(
    node: &Node,
    acc: &mut MetaMap,
    stack: &mut Vec<Node>,
    Ghost(nodes): Ghost<Seq<NodeView>>,
    Ghost(roots): Ghost<Seq<Seq<u8>>>,
    Ghost(kept): Ghost<Map<Seq<u8>, MetaView>>,
    Ghost(current): Ghost<Option<Seq<u8>>>,
)
    requires
        old(acc).wf(),
        walk_ok(nodes, roots, kept, old(acc)@, node_views(old(stack)@), current),
        find_node(nodes, node.git_id@) == Some(node@),
        reachable_past(nodes, roots, kept.dom(), node.git_id@),
        !old(acc)@.dom().contains(node.git_id@),
    ensures
        final(acc).wf(),
        walk_ok(nodes, roots, kept, final(acc)@, node_views(final(stack)@), current),
        final(acc)@ == old(acc)@.insert(node.git_id@, node_meta(node@)),
        final(stack)@.len() <= old(stack)@.len() + 1,
{
    let ghost held = acc@;
    let ghost before = node_views(stack@);
    let meta = meta_of_node(node);
    acc.insert(node.git_id, meta);
    let is_tree = match node.node_type {
        ObjectType::Tree => true,
        _ => false,
    };
    if is_tree {
        let copy = crate::store::clone_node(node);
        stack.push(copy);
        assert(node_views(stack@) =~= before.push(node@));
    }
    proof {
        let after = node_views(stack@);
        let id = node.git_id@;
        assert(!kept.dom().contains(id));
        assert forall|j: int| 0 <= j < after.len() implies acc@.dom().contains(
            (#[trigger] after[j]).git_id,
        ) && !kept.dom().contains(after[j].git_id) && find_node(nodes, after[j].git_id) == Some(
            after[j],
        ) && after[j].node_type == ObjectType::Tree by {
            if j < before.len() {
                assert(after[j] == before[j]);
            }
        }
        assert forall|k: Seq<u8>| #[trigger]
            acc@.dom().contains(k) && !kept.dom().contains(k) implies current == Some(k)
            || on_stack(after, k) || closed(nodes, acc@.dom(), k) by {
            if k == id {
                if is_tree {
                    assert(after[after.len() - 1].git_id == id);
                } else {
                    assert(children(nodes, id) =~= Seq::<Seq<u8>>::empty());
                }
            } else {
                assert(held.dom().contains(k));
                if on_stack(before, k) {
                    let j = choose|j: int| 0 <= j < before.len() && (#[trigger] before[j]).git_id == k;
                    assert(after[j] == before[j]);
                } else if current != Some(k) {
                    assert(closed(nodes, held.dom(), k));
                }
            }
        }
    }
}

/// Gathers the nodes under `ids`, as far as they were not gathered yet,
/// from `found`, which is what the store gave for those ids.
fn gather_all(
    ids: &Vec<crate::hash::Hash>,
    found: &Vec<Node>,
    acc: &mut MetaMap,
    stack: &mut Vec<Node>,
    Ghost(nodes): Ghost<Seq<NodeView>>,
    Ghost(roots): Ghost<Seq<Seq<u8>>>,
    Ghost(kept): Ghost<Map<Seq<u8>, MetaView>>,
    Ghost(current): Ghost<Option<Seq<u8>>>,
) -> (r: Result<(), GitError>)
    requires
        old(acc).wf(),
        walk_ok(nodes, roots, kept, old(acc)@, node_views(old(stack)@), current),
        resolves(nodes, ids_view(ids@), node_views(found@)),
        forall|i: int|
            0 <= i < ids@.len() && !kept.dom().contains((#[trigger] ids@[i])@) ==> reachable_past(
                nodes,
                roots,
                kept.dom(),
                ids@[i]@,
            ),
    ensures
        final(acc).wf(),
        keeps(kept, final(acc)@),
        match r {
            Ok(_) => {
                &&& walk_ok(nodes, roots, kept, final(acc)@, node_views(final(stack)@), current)
                &&& forall|i: int|
                    0 <= i < ids@.len() ==> final(acc)@.dom().contains((#[trigger] ids@[i])@)
                &&& old(acc)@.dom().subset_of(final(acc)@.dom())
                &&& old(acc)@.dom().len() <= final(acc)@.dom().len()
                &&& final(stack)@.len() + old(acc)@.dom().len() <= old(stack)@.len()
                    + final(acc)@.dom().len()
            },
            Err(GitError::InvalidTreeObject(h)) => reachable_past(nodes, roots, kept.dom(), h@)
                && !intact(nodes, h@),
            Err(_) => false,
        },
{
    let ghost wanted = ids_view(ids@);
    let ghost given = node_views(found@);
    let mut i: usize = 0;
    proof {
        old(acc).lemma_view();
    }
    while i < ids.len()
        invariant
            i <= ids.len(),
            wanted == ids_view(ids@),
            given == node_views(found@),
            resolves(nodes, wanted, given),
            forall|k: int|
                0 <= k < ids@.len() && !kept.dom().contains((#[trigger] ids@[k])@)
                    ==> reachable_past(nodes, roots, kept.dom(), ids@[k]@),
            acc.wf(),
            walk_ok(nodes, roots, kept, acc@, node_views(stack@), current),
            forall|k: int| 0 <= k < i ==> acc@.dom().contains((#[trigger] ids@[k])@),
            old(acc)@.dom().subset_of(acc@.dom()),
            old(acc)@.dom().finite(),
            old(acc)@.dom().len() <= acc@.dom().len(),
            stack@.len() + old(acc)@.dom().len() <= old(stack)@.len() + acc@.dom().len(),
        decreases ids.len() - i,
    {
        let id = &ids[i];
        assert(wanted[i as int] == id@);
        if !acc.contains_key(id) {
            match pick(found, id) {
                None => {
                    proof {
                        lemma_find_node(nodes, id@);
                        if find_node(nodes, id@) is Some {
                            let n = find_node(nodes, id@)->0;
                            assert(given.contains(n));
                            let j = choose|j: int| 0 <= j < given.len() && given[j] == n;
                            assert(found@[j]@ == n);
                        }
                    }
                    return Err(GitError::InvalidTreeObject(*id));
                },
                Some(j) => {
                    let node = &found[j];
                    proof {
                        assert(given[j as int] == node@);
                        acc.lemma_view();
                    }
                    let ghost held = acc@.dom();
                    gather(
                        node,
                        acc,
                        stack,
                        Ghost(nodes),
                        Ghost(roots),
                        Ghost(kept),
                        Ghost(current),
                    );
                    proof {
                        acc.lemma_view();
                        assert(acc@.dom() =~= held.insert(id@));
                    }
                },
            }
        }
        i = i + 1;
    }
    Ok(())
}

/// The ids under which the store keeps a node.
spec fn known_ids(nodes: Seq<NodeView>) -> Set<Seq<u8>> {
    Seq::new(nodes.len(), |i: int| nodes[i].git_id).to_set()
}

/// What is held is among the ids that the store knows and those that were
/// held before, which are finitely many.
proof fn lemma_held_known(
    nodes: Seq<NodeView>,
    roots: Seq<Seq<u8>>,
    kept: Map<Seq<u8>, MetaView>,
    held: Map<Seq<u8>, MetaView>,
    stack: Seq<NodeView>,
    current: Option<Seq<u8>>,
)
    requires
        walk_ok(nodes, roots, kept, held, stack, current),
        kept.dom().finite(),
    ensures
        held.dom().subset_of(known_ids(nodes) + kept.dom()),
        (known_ids(nodes) + kept.dom()).finite(),
        held.dom().len() <= (known_ids(nodes) + kept.dom()).len(),
{
    let ids = Seq::new(nodes.len(), |i: int| nodes[i].git_id);
    let all = known_ids(nodes) + kept.dom();
    assert forall|k: Seq<u8>| held.dom().contains(k) implies all.contains(k) by {
        if !kept.dom().contains(k) {
            lemma_find_node(nodes, k);
            let n = find_node(nodes, k)->0;
            let i = choose|i: int| 0 <= i < nodes.len() && nodes[i] == n;
            assert(ids[i] == k);
        }
    }
    vstd::seq_lib::seq_to_set_is_finite(ids);
    vstd::set_lib::lemma_set_union_finite_iff(known_ids(nodes), kept.dom());
    vstd::set_lib::lemma_len_subset(held.dom(), all);
}

/// Taking the top tree off the stack to expand it keeps the traversal in
/// order.
proof fn lemma_walk_pop(
    nodes: Seq<NodeView>,
    roots: Seq<Seq<u8>>,
    kept: Map<Seq<u8>, MetaView>,
    held: Map<Seq<u8>, MetaView>,
    stack: Seq<NodeView>,
)
    requires
        walk_ok(nodes, roots, kept, held, stack, None),
        stack.len() > 0,
    ensures
        walk_ok(nodes, roots, kept, held, stack.drop_last(), Some(stack.last().git_id)),
        held.dom().contains(stack.last().git_id),
        !kept.dom().contains(stack.last().git_id),
        reachable_past(nodes, roots, kept.dom(), stack.last().git_id),
        find_node(nodes, stack.last().git_id) == Some(stack.last()),
        stack.last().node_type == ObjectType::Tree,
{
    let rest = stack.drop_last();
    let current = Some(stack.last().git_id);
    assert(stack[stack.len() - 1] == stack.last());
    assert forall|k: Seq<u8>| #[trigger]
        held.dom().contains(k) && !kept.dom().contains(k) implies current == Some(k) || on_stack(
        rest,
        k,
    ) || closed(nodes, held.dom(), k) by {
        if on_stack(stack, k) {
            let j = choose|j: int| 0 <= j < stack.len() && (#[trigger] stack[j]).git_id == k;
            if j < rest.len() {
                assert(rest[j] == stack[j]);
            }
        }
    }
    assert forall|j: int| 0 <= j < rest.len() implies held.dom().contains(
        (#[trigger] rest[j]).git_id,
    ) && !kept.dom().contains(rest[j].git_id) && find_node(nodes, rest[j].git_id) == Some(rest[j])
        && rest[j].node_type == ObjectType::Tree by {
        assert(rest[j] == stack[j]);
    }
}

/// Once all that the current tree refers to is held, the tree is done.
proof fn lemma_walk_close(
    nodes: Seq<NodeView>,
    roots: Seq<Seq<u8>>,
    kept: Map<Seq<u8>, MetaView>,
    held: Map<Seq<u8>, MetaView>,
    stack: Seq<NodeView>,
    current: Seq<u8>,
)
    requires
        walk_ok(nodes, roots, kept, held, stack, Some(current)),
        intact(nodes, current),
        forall|c: Seq<u8>| #[trigger] children(nodes, current).contains(c) ==> held.dom().contains(c),
    ensures
        walk_ok(nodes, roots, kept, held, stack, None),
{
    assert(closed(nodes, held.dom(), current));
}

/// With nothing left on the stack, what is held is what was held before
/// and exactly what is reachable besides, and all of that is intact.
proof fn lemma_walk_done(
    nodes: Seq<NodeView>,
    roots: Seq<Seq<u8>>,
    kept: Map<Seq<u8>, MetaView>,
    held: Map<Seq<u8>, MetaView>,
)
    requires
        walk_ok(nodes, roots, kept, held, Seq::<NodeView>::empty(), None),
        forall|i: int| 0 <= i < roots.len() ==> held.dom().contains(#[trigger] roots[i]),
    ensures
        sound_past(nodes, roots, kept.dom()),
        gathered(nodes, roots, kept, held),
{
    let dom = held.dom();
    assert forall|k: Seq<u8>| dom.contains(k) && !kept.dom().contains(k) implies #[trigger] closed(
        nodes,
        dom,
        k,
    ) by {
        assert(!on_stack(Seq::<NodeView>::empty(), k));
    }
    assert forall|id: Seq<u8>| reachable_past(nodes, roots, kept.dom(), id) implies dom.contains(
        id,
    ) && !kept.dom().contains(id) by {
        let chain = choose|chain: Seq<Seq<u8>>| #[trigger]
            leads_to(nodes, roots, chain, id) && avoids(chain, kept.dom());
        lemma_closed_covers(nodes, roots, kept.dom(), dom, chain, chain.len() - 1);
        assert(chain[chain.len() - 1] == id);
    }
    assert forall|id: Seq<u8>| reachable_past(nodes, roots, kept.dom(), id) implies intact(
        nodes,
        id,
    ) by {
        assert(closed(nodes, dom, id));
    }
}

/// All that a tree refers to is gathered once the entries that were still
/// wanted are.
proof fn lemma_children_held(
    all: Seq<Seq<u8>>,
    wanted: Seq<Seq<u8>>,
    before: Set<Seq<u8>>,
    after: Set<Seq<u8>>,
)
    requires
        forall|i: int| 0 <= i < all.len() ==> before.contains(#[trigger] all[i]) || wanted.contains(all[i]),
        forall|j: int| 0 <= j < wanted.len() ==> after.contains(#[trigger] wanted[j]),
        before.subset_of(after),
    ensures
        forall|c: Seq<u8>| #[trigger] all.contains(c) ==> after.contains(c),
{
    assert forall|c: Seq<u8>| #[trigger] all.contains(c) implies after.contains(c) by {
        let i = choose|i: int| 0 <= i < all.len() && all[i] == c;
        if !before.contains(all[i]) {
            let j = choose|j: int| 0 <= j < wanted.len() && wanted[j] == c;
            assert(after.contains(wanted[j]));
        }
    }
}

/// The ids that the entries of `tree` refer to and that `acc` does not hold.
fn pending_children(tree: &Tree, acc: &MetaMap) -> (ids: Vec<crate::hash::Hash>)
    ensures
        forall|j: int|
            0 <= j < ids@.len() ==> item_ids(items_view(tree.tree_items@)).contains(
                (#[trigger] ids@[j])@,
            ),
        forall|i: int|
            0 <= i < tree.tree_items@.len() ==> acc@.dom().contains(
                (#[trigger] tree.tree_items@[i]).id@,
            ) || ids_view(ids@).contains(tree.tree_items@[i].id@),
{
    let ghost all = item_ids(items_view(tree.tree_items@));
    let mut ids: Vec<crate::hash::Hash> = Vec::new();
    let mut i: usize = 0;
    while i < tree.tree_items.len()
        invariant
            i <= tree.tree_items.len(),
            all == item_ids(items_view(tree.tree_items@)),
            forall|j: int| 0 <= j < ids@.len() ==> all.contains((#[trigger] ids@[j])@),
            forall|k: int|
                0 <= k < i ==> acc@.dom().contains((#[trigger] tree.tree_items@[k]).id@)
                    || ids_view(ids@).contains(tree.tree_items@[k].id@),
        decreases tree.tree_items.len() - i,
    {
        let id = tree.tree_items[i].id;
        let ghost before = ids@;
        if !acc.contains_key(&id) {
            ids.push(id);
            proof {
                assert(all[i as int] == id@);
                assert(ids_view(ids@)[ids@.len() - 1] == id@);
                assert forall|k: int| 0 <= k < i implies acc@.dom().contains(
                    (#[trigger] tree.tree_items@[k]).id@,
                ) || ids_view(ids@).contains(tree.tree_items@[k].id@) by {
                    let wanted = tree.tree_items@[k].id@;
                    if !acc@.dom().contains(wanted) {
                        let j = choose|j: int|
                            0 <= j < ids_view(before).len() && ids_view(before)[j] == wanted;
                        assert(ids_view(ids@)[j] == wanted);
                    }
                }
            }
        }
        i = i + 1;
    }
    ids
}

/// The test that a commit is kept under `id`.
pub open spec fn commit_under(id: Seq<u8>) -> spec_fn(CommitRecordView) -> bool {
    |c: CommitRecordView| c.git_id == id
}

/// The place in `selected` of the first commit kept under `id`; the length
/// of `selected` when there is none.
pub open spec fn commit_index(selected: Seq<CommitRecordView>, id: Seq<u8>) -> int {
    first_from(selected, commit_under(id), 0)
}

/// Whether the bytes of each commit name its tree.
pub open spec fn all_parse(selected: Seq<CommitRecordView>) -> bool {
    forall|i: int| 0 <= i < selected.len() ==> spec_commit_tree((#[trigger] selected[i]).meta) is Some
}

/// The trees of the commits, in order.
pub open spec fn roots_of(selected: Seq<CommitRecordView>) -> Seq<Seq<u8>> {
    Seq::new(selected.len(), |i: int| spec_commit_tree(selected[i].meta)->0)
}

/// The pack for the first `upto` of the commits `selected`: every object
/// reachable from the trees of all of them, under its id with the entry of
/// the store's node, and each of those first commits under its id with the
/// entry of its bytes. Where several commits share an id, the first counts;
/// where a commit shares its id with a reachable object, the object's entry
/// stands.
pub open spec fn spec_pack_upto(
    nodes: Seq<NodeView>,
    selected: Seq<CommitRecordView>,
    upto: int,
) -> Map<Seq<u8>, MetaView> {
    Map::new(
        |id: Seq<u8>| reachable(nodes, roots_of(selected), id) || commit_index(selected, id) < upto,
        |id: Seq<u8>|
            if reachable(nodes, roots_of(selected), id) {
                node_meta(find_node(nodes, id)->0)
            } else {
                spec_meta(ObjectType::Commit, selected[commit_index(selected, id)].meta)
            },
    )
}

/// The pack for the commits `selected`: each commit, and every object
/// reachable from the tree of one of them, once.
pub open spec fn spec_pack(nodes: Seq<NodeView>, selected: Seq<CommitRecordView>) -> Map<
    Seq<u8>,
    MetaView,
> {
    spec_pack_upto(nodes, selected, selected.len() as int)
}

/// What is gathered from the trees is the pack before any commit is added.
proof fn lemma_pack_start(
    nodes: Seq<NodeView>,
    selected: Seq<CommitRecordView>,
    held: Map<Seq<u8>, MetaView>,
)
    requires
        holds_reachable(nodes, roots_of(selected), held),
    ensures
        held == spec_pack_upto(nodes, selected, 0),
{
    let pack = spec_pack_upto(nodes, selected, 0);
    assert forall|id: Seq<u8>| held.dom().contains(id) <==> pack.dom().contains(id) by {
        lemma_first_from(selected, commit_under(id), 0);
    }
    assert(held.dom() =~= pack.dom());
    assert(held =~= pack);
}

/// Adding commit `i`, unless its id is taken, gives the pack for one commit
/// more.
proof fn lemma_pack_step(nodes: Seq<NodeView>, selected: Seq<CommitRecordView>, i: int)
    requires
        0 <= i < selected.len(),
    ensures
        spec_pack_upto(nodes, selected, i + 1) == if spec_pack_upto(nodes, selected, i).dom().contains(
            selected[i].git_id,
        ) {
            spec_pack_upto(nodes, selected, i)
        } else {
            spec_pack_upto(nodes, selected, i).insert(
                selected[i].git_id,
                spec_meta(ObjectType::Commit, selected[i].meta),
            )
        },
{
    let before = spec_pack_upto(nodes, selected, i);
    let after = spec_pack_upto(nodes, selected, i + 1);
    let id = selected[i].git_id;
    let expected = if before.dom().contains(id) {
        before
    } else {
        before.insert(id, spec_meta(ObjectType::Commit, selected[i].meta))
    };
    assert forall|k: Seq<u8>| after.dom().contains(k) <==> expected.dom().contains(k) by {
        lemma_first_from(selected, commit_under(k), 0);
        lemma_first_from(selected, commit_under(id), 0);
    }
    assert(after.dom() =~= expected.dom());
    assert forall|k: Seq<u8>| after.dom().contains(k) implies #[trigger] after[k] == expected[k] by {
        lemma_first_from(selected, commit_under(k), 0);
        lemma_first_from(selected, commit_under(id), 0);
    }
    assert(after =~= expected);
}

/// The test that a commit is one of those wanted.
pub open spec fn wanted_by(want: Seq<Seq<u8>>) -> spec_fn(CommitRecordView) -> bool {
    |c: CommitRecordView| want.contains(c.git_id)
}

/// The commits of the repository at `path` that a full transfer starts from:
/// all of them.
pub open spec fn full_selection(commits: Seq<CommitRecordView>, path: Seq<char>) -> Seq<
    CommitRecordView,
> {
    commits_at(commits, path)
}

/// The commits of the repository at `path` that an incremental transfer
/// starts from: those whose id is wanted.
pub open spec fn incremental_selection(
    commits: Seq<CommitRecordView>,
    path: Seq<char>,
    want: Seq<Seq<u8>>,
) -> Seq<CommitRecordView> {
    filter_seq(commits_at(commits, path), wanted_by(want))
}

/// The test that the bytes of a commit name no tree.
pub open spec fn names_no_tree() -> spec_fn(CommitRecordView) -> bool {
    |c: CommitRecordView| spec_commit_tree(c.meta) is None
}

/// The place of the first of the commits whose bytes name no tree; the
/// number of commits when all name one.
pub open spec fn first_bad_commit(selected: Seq<CommitRecordView>) -> int {
    first_from(selected, names_no_tree(), 0)
}

/// What the assembly comes to when a commit names no tree: it fails, and
/// unless the store failed it names the first such commit.
pub open spec fn fails_at_first_bad_commit(
    selected: Seq<CommitRecordView>,
    r: Result<MetaMap, GitError>,
) -> bool {
    fails_naming_commit(r, selected[first_bad_commit(selected)].git_id)
}

/// What the assembly of a pack for the commits `selected` comes to, given
/// the store's nodes.
///
/// It succeeds exactly when every commit names its tree and everything
/// reachable from those trees is intact, unless the store fails; the pack
/// is then the one that `spec_pack` describes. Each failure names an id
/// that is at fault: the first commit that names no tree; or else the tree
/// of the first commit whose tree is not intact; or else, with all those
/// trees intact, something below them.
pub open spec fn assembled<S: ObjectStorage>(
    store: &S,
    selected: Seq<CommitRecordView>,
    r: Result<MetaMap, GitError>,
) -> bool {
    &&& store.dependable() ==> (r is Ok <==> all_parse(selected) && sound(
        store.nodes(),
        roots_of(selected),
    ))
    &&& first_bad_commit(selected) < selected.len() ==> fails_at_first_bad_commit(selected, r)
    &&& all_parse(selected) && first_bad_root(store.nodes(), roots_of(selected), Set::empty())
        < selected.len() ==> fails_at_first_bad_root(store.nodes(), roots_of(selected), r)
    &&& match r {
        Ok(pack) => {
            &&& pack.wf()
            &&& all_parse(selected)
            &&& sound(store.nodes(), roots_of(selected))
            &&& pack@ == spec_pack(store.nodes(), selected)
        },
        Err(GitError::InvalidCommitObject(h)) => exists|i: int|
            0 <= i < selected.len() && (#[trigger] selected[i]).git_id == h@ && spec_commit_tree(
                selected[i].meta,
            ) is None,
        Err(GitError::InvalidTreeObject(h)) => {
            &&& all_parse(selected)
            &&& reachable(store.nodes(), roots_of(selected), h@)
            &&& !intact(store.nodes(), h@)
        },
        Err(GitError::Store(_)) => !store.dependable(),
    }
}

/// Whether `id` is among `list`.
pub fn contains_id(list: &Vec<crate::hash::Hash>, id: &crate::hash::Hash) -> (r: bool)
    ensures
        r == ids_view(list@).contains(id@),
{
    let mut i: usize = 0;
    while i < list.len()
        invariant
            i <= list.len(),
            forall|k: int| 0 <= k < i ==> ids_view(list@)[k] != id@,
        decreases list.len() - i,
    {
        if list[i].same(id) {
            assert(ids_view(list@)[i as int] == id@);
            return true;
        }
        i = i + 1;
    }
    false
}

/// A pack holds each commit and each reachable object under its id, and no
/// id twice: objects that several commits or trees share are in it once.
pub proof fn lemma_pack_holds_each_once(
    nodes: Seq<NodeView>,
    selected: Seq<CommitRecordView>,
    pack: MetaMap,
)
    requires
        pack.wf(),
        pack@ == spec_pack(nodes, selected),
    ensures
        crate::meta_map::distinct(pack.spec_keys()),
        pack.spec_keys().len() == pack.spec_values().len(),
        forall|id: Seq<u8>|
            pack.spec_keys().contains(id) <==> (reachable(nodes, roots_of(selected), id) || exists|
                i: int,
            |
                0 <= i < selected.len() && (#[trigger] selected[i]).git_id == id),
        forall|id: Seq<u8>|
            reachable(nodes, roots_of(selected), id) ==> pack@[id] == node_meta(
                find_node(nodes, id)->0,
            ),
{
    pack.lemma_view();
    assert forall|id: Seq<u8>|
        pack.spec_keys().contains(id) <==> (reachable(nodes, roots_of(selected), id) || exists|
            i: int,
        |
            0 <= i < selected.len() && (#[trigger] selected[i]).git_id == id) by {
        lemma_first_from(selected, commit_under(id), 0);
        assert(pack.spec_keys().contains(id) <==> pack@.dom().contains(id));
        if exists|i: int| 0 <= i < selected.len() && (#[trigger] selected[i]).git_id == id {
            let i = choose|i: int| 0 <= i < selected.len() && (#[trigger] selected[i]).git_id == id;
            assert(commit_under(id)(selected[i]));
        }
    }
}

/// The server side of a transfer: it reads a repository's objects from a
/// store.
pub struct PackProtocol<S: ObjectStorage> {
    pub storage: S,
}

impl<S: ObjectStorage> PackProtocol<S> {
    /// Assembles the pack for the commits `selected`: each commit, and
    /// every object reachable from the tree of one of them, once.
    ///
    /// Each commit's bytes are read for its tree. The store is asked for
    /// all the trees at once, then the trees are expanded. A commit whose
    /// bytes do not name a tree, a tree that the store does not know, or
    /// anything missing below one fails the whole call.
    pub fn assemble(&self, selected: &Vec<CommitRecord>) -> (r: Result<MetaMap, GitError>)
        ensures
            assembled(&self.storage, commit_views(selected@), r),
    {
        let ghost nodes = self.storage.nodes();
        let ghost views = commit_views(selected@);
        let mut tree_ids: Vec<crate::hash::Hash> = Vec::new();
        let mut i: usize = 0;
        while i < selected.len()
            invariant
                i <= selected.len(),
                views == commit_views(selected@),
                tree_ids@.len() == i,
                first_from(views, names_no_tree(), 0) == first_from(
                    views,
                    names_no_tree(),
                    i as int,
                ),
                forall|k: int|
                    0 <= k < i ==> spec_commit_tree((#[trigger] views[k]).meta) == Some(
                        tree_ids@[k]@,
                    ),
            decreases selected.len() - i,
        {
            let record = &selected[i];
            assert(views[i as int] == record@);
            match Commit::new_from_data(record.meta.clone()) {
                None => {
                    assert(views[i as int].git_id == record.git_id@);
                    return Err(GitError::InvalidCommitObject(record.git_id));
                },
                Some(commit) => {
                    tree_ids.push(commit.tree_id);
                },
            }
            i = i + 1;
        }
        assert(ids_view(tree_ids@) =~= roots_of(views));
        assert(all_parse(views));
        let mut pack = MetaMap::new();
        proof {
            lemma_gathered_into_nothing(nodes, roots_of(views), pack@, pack@);
        }
        match self.get_child_trees(&tree_ids, &mut pack) {
            Err(e) => {
                proof {
                    match e {
                        GitError::InvalidTreeObject(h) => {
                            lemma_reachable_past_nothing(nodes, roots_of(views), h@);
                        },
                        _ => {},
                    }
                }
                return Err(e);
            },
            Ok(_) => {},
        }
        proof {
            lemma_gathered_into_nothing(nodes, roots_of(views), Map::empty(), pack@);
            lemma_pack_start(nodes, views, pack@);
        }
        let mut j: usize = 0;
        while j < selected.len()
            invariant
                j <= selected.len(),
                views == commit_views(selected@),
                pack.wf(),
                pack@ == spec_pack_upto(nodes, views, j as int),
            decreases selected.len() - j,
        {
            let record = &selected[j];
            proof {
                assert(views[j as int] == record@);
                lemma_pack_step(nodes, views, j as int);
            }
            if !pack.contains_key(&record.git_id) {
                let meta = Meta::new_from_data_with_object_type(
                    ObjectType::Commit,
                    record.meta.clone(),
                );
                pack.insert(record.git_id, meta);
            }
            j = j + 1;
        }
        Ok(pack)
    }


    /// The objects for a full transfer of the repository at `repo_path`:
    /// each of its commits, and every object reachable from a commit's
    /// tree, once.
    pub fn get_full_pack_data(&self, repo_path: &str) -> (r: Result<MetaMap, GitError>)
        ensures
            assembled(&self.storage, full_selection(self.storage.commits(), repo_path@), r),
    {
        let commits = match self.storage.get_all_commits_by_path(repo_path) {
            Err(e) => {
                return Err(GitError::Store(e));
            },
            Ok(commits) => commits,
        };
        self.assemble(&commits)
    }

    /// The objects for an incremental transfer from the repository at
    /// `repo_path`: as for a full transfer, but starting only from the
    /// commits whose id is in `want`.
    ///
    /// `have` is accepted and not used: nothing that the receiver has is
    /// left out of the result.
    pub fn get_incremental_pack_data(
        &self,
        repo_path: &str,
        want: &Vec<crate::hash::Hash>,
        _have: &Vec<crate::hash::Hash>,
    ) -> (r: Result<MetaMap, GitError>)
        ensures
            assembled(
                &self.storage,
                incremental_selection(self.storage.commits(), repo_path@, ids_view(want@)),
                r,
            ),
    {
        let all_commits = match self.storage.get_all_commits_by_path(repo_path) {
            Err(e) => {
                return Err(GitError::Store(e));
            },
            Ok(commits) => commits,
        };
        let ghost table = commit_views(all_commits@);
        let ghost keep = wanted_by(ids_view(want@));
        let mut selected: Vec<CommitRecord> = Vec::new();
        let mut i: usize = 0;
        assert(table.take(0) =~= Seq::<CommitRecordView>::empty());
        while i < all_commits.len()
            invariant
                i <= all_commits.len(),
                table == commit_views(all_commits@),
                keep == wanted_by(ids_view(want@)),
                commit_views(selected@) =~= filter_seq(table.take(i as int), keep),
            decreases all_commits.len() - i,
        {
            proof {
                crate::store::lemma_filter_step(table, keep, i as int);
            }
            let record = &all_commits[i];
            assert(table[i as int] == record@);
            if contains_id(want, &record.git_id) {
                let copy = crate::store::clone_commit(record);
                assert(commit_views(selected@.push(copy)) =~= commit_views(selected@).push(copy@));
                selected.push(copy);
            }
            i = i + 1;
        }
        assert(table.take(i as int) =~= table);
        self.assemble(&selected)
    }

    /// Gathers into `hash_meta` the objects under `roots` and all that they
    /// refer to, directly or through other trees, each under its id.
    ///
    /// What `hash_meta` holds is kept as it is, and an id that it holds is
    /// taken as dealt with: its object is neither asked for nor expanded.
    /// The store is asked once for the roots and once for each tree's
    /// entries that are not held yet. An id that the store does not know,
    /// or a tree that cannot be read, fails the call; what was gathered up
    /// to there stays in `hash_meta`. The roots are looked at first, in
    /// their order, so that a failure names the first root at fault.
    pub fn get_child_trees(&self, roots: &Vec<crate::hash::Hash>, hash_meta: &mut MetaMap) -> (r:
        Result<(), GitError>)
        ensures
            final(hash_meta).wf(),
            keeps(old(hash_meta)@, final(hash_meta)@),
            self.storage.dependable() ==> (r is Ok <==> sound_past(
                self.storage.nodes(),
                ids_view(roots@),
                old(hash_meta)@.dom(),
            )),
            first_bad_root(self.storage.nodes(), ids_view(roots@), old(hash_meta)@.dom())
                < roots@.len() ==> fails_naming_tree(
                r,
                ids_view(roots@)[first_bad_root(
                    self.storage.nodes(),
                    ids_view(roots@),
                    old(hash_meta)@.dom(),
                )],
            ),
            match r {
                Ok(_) => {
                    &&& sound_past(self.storage.nodes(), ids_view(roots@), old(hash_meta)@.dom())
                    &&& gathered(
                        self.storage.nodes(),
                        ids_view(roots@),
                        old(hash_meta)@,
                        final(hash_meta)@,
                    )
                },
                Err(GitError::InvalidTreeObject(h)) => reachable_past(
                    self.storage.nodes(),
                    ids_view(roots@),
                    old(hash_meta)@.dom(),
                    h@,
                ) && !intact(self.storage.nodes(), h@),
                Err(GitError::Store(_)) => !self.storage.dependable(),
                Err(_) => false,
            },
    {
        let ghost nodes = self.storage.nodes();
        let ghost starts = ids_view(roots@);
        let ghost kept = hash_meta@;
        proof {
            use_type_invariant(&*hash_meta);
            hash_meta.lemma_view();
        }
        let mut stack: Vec<Node> = Vec::new();
        let found = match self.storage.get_nodes_by_ids(roots) {
            Err(e) => {
                return Err(GitError::Store(e));
            },
            Ok(found) => found,
        };
        proof {
            assert forall|i: int|
                0 <= i < roots@.len() && !kept.dom().contains(
                    (#[trigger] roots@[i])@,
                ) implies reachable_past(nodes, starts, kept.dom(), roots@[i]@) by {
                assert(starts[i] == roots@[i]@);
                lemma_root_reachable(nodes, starts, kept.dom(), roots@[i]@);
            }
        }
        match inspect_roots(roots, &found, &*hash_meta, Ghost(nodes)) {
            Err(e) => {
                proof {
                    if e is InvalidTreeObject {
                        lemma_first_from(starts, bad_root(nodes, kept.dom()), 0);
                        let at = first_bad_root(nodes, starts, kept.dom());
                        assert(starts.contains(starts[at]));
                        lemma_root_reachable(nodes, starts, kept.dom(), starts[at]);
                    }
                }
                return Err(e);
            },
            Ok(_) => {},
        }
        match gather_all(
            roots,
            &found,
            hash_meta,
            &mut stack,
            Ghost(nodes),
            Ghost(starts),
            Ghost(kept),
            Ghost(None),
        ) {
            Err(e) => {
                return Err(e);
            },
            Ok(_) => {},
        }
        while stack.len() > 0
            invariant
                nodes == self.storage.nodes(),
                starts == ids_view(roots@),
                kept == old(hash_meta)@,
                kept.dom().finite(),
                first_bad_root(nodes, starts, kept.dom()) == roots@.len(),
                hash_meta.wf(),
                walk_ok(nodes, starts, kept, hash_meta@, node_views(stack@), None),
                forall|i: int|
                    0 <= i < roots@.len() ==> hash_meta@.dom().contains((#[trigger] roots@[i])@),
            decreases (known_ids(nodes) + kept.dom()).len() - hash_meta@.dom().len(), stack@.len(),
        {
            let ghost before = node_views(stack@);
            let ghost held = hash_meta@;
            proof {
                lemma_held_known(nodes, starts, kept, held, before, None);
                lemma_walk_pop(nodes, starts, kept, held, before);
            }
            let node = stack.pop().unwrap();
            let id = node.git_id;
            let ghost current = Some(id@);
            proof {
                assert(before[before.len() - 1] == node@);
                assert(node_views(stack@) =~= before.drop_last());
            }
            let tree = match Tree::new_from_data(node.data) {
                None => {
                    assert(reachable_past(nodes, starts, kept.dom(), id@) && !intact(nodes, id@));
                    return Err(GitError::InvalidTreeObject(id));
                },
                Some(tree) => tree,
            };
            let wanted = pending_children(&tree, &*hash_meta);
            let found = match self.storage.get_nodes_by_ids(&wanted) {
                Err(e) => {
                    return Err(GitError::Store(e));
                },
                Ok(found) => found,
            };
            let ghost all = item_ids(items_view(tree.tree_items@));
            proof {
                assert(children(nodes, id@) == all);
                assert forall|i: int|
                    0 <= i < wanted@.len() && !kept.dom().contains(
                        (#[trigger] wanted@[i])@,
                    ) implies reachable_past(nodes, starts, kept.dom(), wanted@[i]@) by {
                    lemma_child_reachable(nodes, starts, kept.dom(), id@, wanted@[i]@);
                }
            }
            match gather_all(
                &wanted,
                &found,
                hash_meta,
                &mut stack,
                Ghost(nodes),
                Ghost(starts),
                Ghost(kept),
                Ghost(current),
            ) {
                Err(e) => {
                    return Err(e);
                },
                Ok(_) => {},
            }
            proof {
                lemma_held_known(nodes, starts, kept, hash_meta@, node_views(stack@), current);
                assert forall|i: int| 0 <= i < all.len() implies held.dom().contains(
                    #[trigger] all[i],
                ) || ids_view(wanted@).contains(all[i]) by {
                    assert(all[i] == tree.tree_items@[i].id@);
                }
                assert forall|j: int|
                    0 <= j < ids_view(wanted@).len() implies hash_meta@.dom().contains(
                    #[trigger] ids_view(wanted@)[j],
                ) by {
                    assert(ids_view(wanted@)[j] == wanted@[j]@);
                }
                lemma_children_held(all, ids_view(wanted@), held.dom(), hash_meta@.dom());
                lemma_walk_close(nodes, starts, kept, hash_meta@, node_views(stack@), id@);
            }
        }
        proof {
            assert(node_views(stack@) =~= Seq::<NodeView>::empty());
            assert forall|i: int| 0 <= i < starts.len() implies hash_meta@.dom().contains(
                #[trigger] starts[i],
            ) by {
                assert(starts[i] == roots@[i]@);
            }
            lemma_walk_done(nodes, starts, kept, hash_meta@);
        }
        Ok(())
    }
}

} // verus!
