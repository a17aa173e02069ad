//! The accumulator of a traversal: pack entries under the ids by which the
//! objects were reached, one entry to an id.

use crate::object::{ids_view, Meta, MetaView};
use crate::store::{first_from, lemma_first_from};
use vstd::prelude::*;

verus! {

/// Pack entries keyed by id. An id is held once; entries keep the order in
/// which their ids first came in.
#[derive(Debug, PartialEq, Eq)]
pub struct MetaMap {
    keys: Vec<crate::hash::Hash>,
    values: Vec<Meta>,
}

/// The test that an id is `key`.
pub open spec fn same_id(key: Seq<u8>) -> spec_fn(Seq<u8>) -> bool {
    |k: Seq<u8>| k == key
}

/// The place of `key` among `keys`; their number when it is not there.
pub open spec fn key_index(keys: Seq<Seq<u8>>, key: Seq<u8>) -> int {
    first_from(keys, same_id(key), 0)
}

/// Whether no id stands twice in `keys`.
pub open spec fn distinct(keys: Seq<Seq<u8>>) -> bool {
    forall|i: int, j: int| 0 <= i < j < keys.len() ==> keys[i] != keys[j]
}

/// The views of a list of pack entries, in order.
pub open spec fn meta_views(list: Seq<Meta>) -> Seq<MetaView> {
    Seq::new(list.len(), |i: int| list[i]@)
}

/// The map that a list of ids with a list of entries stands for.
pub open spec fn map_of(keys: Seq<Seq<u8>>, values: Seq<MetaView>) -> Map<Seq<u8>, MetaView> {
    Map::new(
        |k: Seq<u8>| key_index(keys, k) < keys.len(),
        |k: Seq<u8>| values[key_index(keys, k)],
    )
}

/// Where an id stands among `keys`, if it does.
proof fn lemma_key_index(keys: Seq<Seq<u8>>, key: Seq<u8>)
    ensures
        0 <= key_index(keys, key) <= keys.len(),
        key_index(keys, key) < keys.len() ==> keys[key_index(keys, key)] == key,
        key_index(keys, key) == keys.len() ==> !keys.contains(key),
        forall|k: int| 0 <= k < key_index(keys, key) ==> keys[k] != key,
{
    lemma_first_from(keys, same_id(key), 0);
}

/// The ids of a map of distinct ids are as many as the list.
proof fn lemma_map_of_dom(keys: Seq<Seq<u8>>, values: Seq<MetaView>)
    requires
        distinct(keys),
    ensures
        map_of(keys, values).dom() == keys.to_set(),
        map_of(keys, values).dom().finite(),
        map_of(keys, values).dom().len() == keys.len(),
{
    assert forall|k: Seq<u8>| map_of(keys, values).dom().contains(k) <==> keys.to_set().contains(
        k,
    ) by {
        lemma_key_index(keys, k);
    }
    assert(map_of(keys, values).dom() =~= keys.to_set());
    vstd::seq_lib::seq_to_set_is_finite(keys);
    keys.unique_seq_to_set();
}

/// A new id with its entry, put at the end, is the map with one pair more.
proof fn lemma_map_of_push(
    keys: Seq<Seq<u8>>,
    values: Seq<MetaView>,
    key: Seq<u8>,
    value: MetaView,
)
    requires
        keys.len() == values.len(),
        !keys.contains(key),
    ensures
        map_of(keys.push(key), values.push(value)) == map_of(keys, values).insert(key, value),
{
    let more = keys.push(key);
    let after = map_of(more, values.push(value));
    let expected = map_of(keys, values).insert(key, value);
    assert forall|k: Seq<u8>| #[trigger]
        key_index(more, k) == if key_index(keys, k) < keys.len() {
            key_index(keys, k)
        } else if k == key {
            keys.len() as int
        } else {
            (keys.len() + 1) as int
        } by {
        lemma_key_index(keys, k);
        lemma_key_index(more, k);
        let at = key_index(keys, k);
        let pushed = key_index(more, k);
        if pushed < keys.len() {
            assert(keys[pushed] == more[pushed]);
            assert(keys.contains(k));
        }
        if at < keys.len() {
            assert(more[at] == k);
        } else if k == key {
            assert(more[keys.len() as int] == key);
        } else {
            if pushed == keys.len() {
                assert(more[pushed] == key);
            }
        }
    }
    assert forall|k: Seq<u8>| after.dom().contains(k) <==> expected.dom().contains(k) by {
        lemma_key_index(keys, k);
        assert(key_index(more, k) >= 0);
    }
    assert(after.dom() =~= expected.dom());
    assert forall|k: Seq<u8>| after.dom().contains(k) implies #[trigger] after[k] == expected[k] by {
        lemma_key_index(keys, k);
        assert(key_index(more, k) >= 0);
    }
    assert(after =~= expected);
}

/// A new entry in the place of an id's old one is the map with that pair
/// replaced.
proof fn lemma_map_of_update(
    keys: Seq<Seq<u8>>,
    values: Seq<MetaView>,
    at: int,
    value: MetaView,
)
    requires
        keys.len() == values.len(),
        0 <= at < keys.len(),
        key_index(keys, keys[at]) == at,
    ensures
        map_of(keys, values.update(at, value)) == map_of(keys, values).insert(keys[at], value),
{
    let after = map_of(keys, values.update(at, value));
    let expected = map_of(keys, values).insert(keys[at], value);
    assert forall|k: Seq<u8>| after.dom().contains(k) == expected.dom().contains(k) && (
    after.dom().contains(k) ==> after[k] == expected[k]) by {
        lemma_key_index(keys, k);
    }
    assert(after =~= expected);
}

impl Clone for MetaMap {
    fn clone(&self) -> (copy: MetaMap)
        ensures
            copy.wf(),
            copy@ == self@,
    {
        proof {
            use_type_invariant(self);
        }
        let mut keys: Vec<crate::hash::Hash> = Vec::new();
        let mut values: Vec<Meta> = Vec::new();
        let mut i: usize = 0;
        while i < self.keys.len()
            invariant
                i <= self.keys@.len(),
                self.keys@.len() == self.values@.len(),
                keys@.len() == i,
                values@.len() == i,
                forall|k: int| 0 <= k < i ==> keys@[k] == self.keys@[k],
                forall|k: int| 0 <= k < i ==> (#[trigger] values@[k])@ == self.values@[k]@,
            decreases self.keys@.len() - i,
        {
            let meta = &self.values[i];
            keys.push(self.keys[i]);
            values.push(Meta { id: meta.id, object_type: meta.object_type, raw: meta.raw.clone() });
            i = i + 1;
        }
        assert(ids_view(keys@) =~= ids_view(self.keys@));
        assert(meta_views(values@) =~= meta_views(self.values@));
        MetaMap { keys, values }
    }
}

impl View for MetaMap {
    type V = Map<Seq<u8>, MetaView>;

    closed spec fn view(&self) -> Map<Seq<u8>, MetaView> {
        map_of(ids_view(self.keys@), meta_views(self.values@))
    }
}

impl MetaMap {
    /// Whether the map is in order: an entry to each id, and no id twice.
    /// Every map is.
    #[verifier::type_invariant]
    pub closed spec fn wf(&self) -> bool {
        &&& self.keys@.len() == self.values@.len()
        &&& distinct(ids_view(self.keys@))
    }

    /// The ids, in the order in which they first came in.
    pub closed spec fn spec_keys(&self) -> Seq<Seq<u8>> {
        ids_view(self.keys@)
    }

    /// The entries, each at the place of its id.
    pub closed spec fn spec_values(&self) -> Seq<MetaView> {
        meta_views(self.values@)
    }

    /// How the lists of ids and entries make up the map.
    pub proof fn lemma_view(&self)
        requires
            self.wf(),
        ensures
            self@ == map_of(self.spec_keys(), self.spec_values()),
            self.spec_keys().len() == self.spec_values().len(),
            distinct(self.spec_keys()),
            self@.dom() == self.spec_keys().to_set(),
            self@.dom().finite(),
            self@.dom().len() == self.spec_keys().len(),
    {
        lemma_map_of_dom(self.spec_keys(), self.spec_values());
    }

    /// A map that holds nothing.
    pub fn new() -> (m: MetaMap)
        ensures
            m.wf(),
            m@ == Map::<Seq<u8>, MetaView>::empty(),
    {
        let m = MetaMap { keys: Vec::new(), values: Vec::new() };
        assert(m@ =~= Map::<Seq<u8>, MetaView>::empty());
        m
    }

    /// How many ids the map holds.
    pub fn len(&self) -> (n: usize)
        ensures
            n == self@.dom().len(),
            n == self.spec_keys().len(),
    {
        proof {
            use_type_invariant(self);
            self.lemma_view();
        }
        self.keys.len()
    }

    /// The place of `id` among the ids; their number when it is not there.
    fn index_of(&self, id: &crate::hash::Hash) -> (at: usize)
        ensures
            at == key_index(ids_view(self.keys@), id@),
            at <= self.keys@.len(),
    {
        let ghost keys = ids_view(self.keys@);
        let ghost wanted = same_id(id@);
        let mut i: usize = 0;
        while i < self.keys.len() && !self.keys[i].same(id)
            invariant
                i <= self.keys.len(),
                keys == ids_view(self.keys@),
                wanted == same_id(id@),
                first_from(keys, wanted, 0) == first_from(keys, wanted, i as int),
            decreases self.keys.len() - i,
        {
            assert(keys[i as int] == self.keys@[i as int]@);
            i = i + 1;
        }
        proof {
            if i < self.keys.len() {
                assert(keys[i as int] == self.keys@[i as int]@);
            }
        }
        i
    }

    /// Whether the map holds `id`.
    pub fn contains_key(&self, id: &crate::hash::Hash) -> (r: bool)
        ensures
            r == self@.dom().contains(id@),
    {
        self.index_of(id) < self.keys.len()
    }

    /// The entry held under `id`.
    pub fn get(&self, id: &crate::hash::Hash) -> (r: Option<&Meta>)
        ensures
            match r {
                Some(meta) => self@.dom().contains(id@) && self@[id@] == meta@,
                None => !self@.dom().contains(id@),
            },
    {
        proof {
            use_type_invariant(self);
        }
        let at: usize = self.index_of(id);
        if at < self.keys.len() {
            let meta = &self.values[at];
            assert(meta_views(self.values@)[at as int] == meta@);
            Some(meta)
        } else {
            None
        }
    }

    /// Puts `meta` under `id`, in the place of what was held there.
    pub fn insert(&mut self, id: crate::hash::Hash, meta: Meta)
        ensures
            final(self).wf(),
            final(self)@ == old(self)@.insert(id@, meta@),
    {
        proof {
            use_type_invariant(&*self);
        }
        let at: usize = self.index_of(&id);
        let mut taken = MetaMap::new();
        core::mem::swap(self, &mut taken);
        let MetaMap { keys, values } = taken;
        let mut keys = keys;
        let mut values = values;
        let ghost ids = ids_view(keys@);
        let ghost metas = meta_views(values@);
        proof {
            lemma_key_index(ids, id@);
        }
        if at < keys.len() {
            values[at] = meta;
            proof {
                assert(meta_views(values@) =~= metas.update(at as int, meta@));
                lemma_map_of_update(ids, metas, at as int, meta@);
            }
        } else {
            keys.push(id);
            values.push(meta);
            proof {
                assert(ids_view(keys@) =~= ids.push(id@));
                assert(meta_views(values@) =~= metas.push(meta@));
                lemma_map_of_push(ids, metas, id@, meta@);
                assert forall|i: int, j: int| 0 <= i < j < ids.push(id@).len() implies ids.push(
                    id@,
                )[i] != ids.push(id@)[j] by {
                    if j == ids.len() {
                        assert(ids[i] == ids.push(id@)[i]);
                    }
                }
            }
        }
        *self = MetaMap { keys, values };
    }

    /// The entries, each once, in the order in which their ids first came in.
    pub fn into_values(self) -> (list: Vec<Meta>)
        ensures
            meta_views(list@) == self.spec_values(),
    {
        self.values
    }

    /// The ids, each once, in the order in which they first came in.
    pub fn keys(&self) -> (list: &Vec<crate::hash::Hash>)
        ensures
            ids_view(list@) == self.spec_keys(),
    {
        &self.keys
    }
}

} // verus!
