use vstd::prelude::*;
use crate::model::{is_first_slot, lemma_first_exists, slot_of};
use crate::values::{get_bytes, ByteValues};

verus! {

/// A hash index from value content to slot index. It keeps slot indices
/// only; the bytes of a candidate are read back from the value store, so
/// every operation takes that store.
#[verifier::external_body]
pub struct DedupIndex {
    state: ahash::RandomState,
    table: hashbrown::HashTable<usize>,
}

/// The entries of an index: each slot index it holds, with the bytes that
/// slot held when it was recorded.
pub uninterp spec fn dedup_entries(d: DedupIndex) -> Map<usize, Seq<u8>>;

/// Every entry names a slot of `store` that still holds the entry's bytes.
pub open spec fn entries_agree(entries: Map<usize, Seq<u8>>, store: Seq<Option<Seq<u8>>>) -> bool {
    forall|i: usize|
        #[trigger] entries.contains_key(i) ==> (i as int) < store.len() && store[i as int] == Some(entries[i])
}

impl DedupIndex {
    /// Relies on ahash's `RandomState::new` (a freshly seeded hasher) and
    /// hashbrown's `HashTable::with_capacity`, which makes an empty table.
    #[verifier::external_body]
    pub fn with_capacity(capacity: usize) -> (r: Self)
        ensures
            dedup_entries(r) =~= Map::empty(),
    {
        DedupIndex { state: ahash::RandomState::new(), table: hashbrown::HashTable::with_capacity(capacity) }
    }

    /// Relies on hashbrown's `HashTable::clear`, which removes every entry.
    #[verifier::external_body]
    pub fn clear(&mut self)
        ensures
            dedup_entries(*final(self)) =~= Map::empty(),
    {
        self.table.clear();
    }

    /// Relies on ahash's `RandomState::hash_one`, a fixed function of the
    /// bytes for one hasher state, and on hashbrown's `HashTable::entry` and
    /// `Entry::or_insert_with`: the entry whose slot holds `value` is
    /// returned; when there is none, `value` goes to a new slot of `store`,
    /// which is recorded. Each entry is recorded under the hash of its bytes,
    /// and a table that grows rehashes an entry from the bytes its slot
    /// holds, which are the same; so an entry that holds `value` is always
    /// found.
    #[verifier::external_body]
    pub fn get_or_insert(&mut self, value: &[u8], store: &mut ByteValues) -> (r: usize)
        requires
            old(store).wf(),
            old(store).byte_len() + value@.len() <= usize::MAX,
            entries_agree(dedup_entries(*old(self)), old(store)@),
        ensures
            final(store).wf(),
            (exists|k: usize| dedup_entries(*old(self)).contains_key(k) && dedup_entries(*old(self))[k] == value@) ==> {
                &&& dedup_entries(*old(self)).contains_key(r)
                &&& dedup_entries(*old(self))[r] == value@
                &&& dedup_entries(*final(self)) == dedup_entries(*old(self))
                &&& *final(store) == *old(store)
            },
            !(exists|k: usize| dedup_entries(*old(self)).contains_key(k) && dedup_entries(*old(self))[k] == value@) ==> {
                &&& r == old(store)@.len()
                &&& final(store)@ == old(store)@.push(Some(value@))
                &&& final(store).byte_len() == old(store).byte_len() + value@.len()
                &&& dedup_entries(*final(self)) == dedup_entries(*old(self)).insert(r, value@)
            },
    {
        let state = &self.state;
        let hash = state.hash_one(value);
        let entry = self.table.entry(
            hash,
            |i: &usize| store.holds_at(*i, value),
            |i: &usize| state.hash_one(get_bytes(store, *i)),
        );
        *entry.or_insert_with(|| store.push_value(value)).get()
    }
}


/// The entries name exactly the first slot of each distinct value of `slots`.
pub open spec fn index_exact(entries: Map<usize, Seq<u8>>, slots: Seq<Option<Seq<u8>>>) -> bool {
    &&& entries_agree(entries, slots)
    &&& forall|i: usize| #[trigger] entries.contains_key(i) ==> is_first_slot(slots, i as int, entries[i])
    &&& forall|j: int|
        0 <= j < slots.len() && #[trigger] slots[j] is Some && is_first_slot(slots, j, slots[j]->0)
            ==> entries.contains_key(j as usize)
}

/// An exact index holds an entry for a value exactly when some slot holds it.
pub proof fn lemma_index_lookup(entries: Map<usize, Seq<u8>>, slots: Seq<Option<Seq<u8>>>, v: Seq<u8>)
    requires
        index_exact(entries, slots),
        slots.len() <= usize::MAX,
    ensures
        (exists|k: usize| entries.contains_key(k) && entries[k] == v) <==> slots.contains(Some(v)),
{
    if exists|k: usize| entries.contains_key(k) && entries[k] == v {
        let k = choose|k: usize| entries.contains_key(k) && entries[k] == v;
        assert(entries_agree(entries, slots));
        assert(slots[k as int] == Some(v));
        assert(slots.contains(Some(v)));
    }
    if slots.contains(Some(v)) {
        let j = choose|j: int| 0 <= j < slots.len() && slots[j] == Some(v);
        lemma_first_exists(slots, j, v);
        let f = slot_of(slots, v);
        assert(slots[f] is Some);
        assert(entries.contains_key(f as usize));
        assert(entries[f as usize] == v) by {
            assert(is_first_slot(slots, f as int, entries[f as usize]));
        }
    }
}

/// A value new to the pool, stored in a new last slot and recorded, keeps the index exact.
pub proof fn lemma_index_push_new(entries: Map<usize, Seq<u8>>, slots: Seq<Option<Seq<u8>>>, v: Seq<u8>)
    requires
        index_exact(entries, slots),
        !slots.contains(Some(v)),
        slots.len() < usize::MAX,
    ensures
        index_exact(entries.insert(slots.len() as usize, v), slots.push(Some(v))),
{
    let e2 = entries.insert(slots.len() as usize, v);
    let s2 = slots.push(Some(v));
    assert forall|i: usize| #[trigger] e2.contains_key(i) implies is_first_slot(s2, i as int, e2[i]) by {
        if i != slots.len() {
            assert(is_first_slot(slots, i as int, entries[i]));
        }
    }
    assert forall|j: int|
        0 <= j < s2.len() && #[trigger] s2[j] is Some && is_first_slot(s2, j, s2[j]->0) implies e2.contains_key(
        j as usize,
    ) by {
        if j < slots.len() {
            assert forall|k: int| 0 <= k < j implies slots[k] != Some(s2[j]->0) by {
                assert(s2[k] == slots[k]);
            }
            assert(is_first_slot(slots, j, s2[j]->0));
        }
    }
}

/// A slot that repeats a value already in the pool, or is null, keeps the
/// index exact without a new entry.
pub proof fn lemma_index_push_repeat(entries: Map<usize, Seq<u8>>, slots: Seq<Option<Seq<u8>>>, o: Option<Seq<u8>>)
    requires
        index_exact(entries, slots),
        o matches Some(v) ==> slots.contains(Some(v)),
        slots.len() < usize::MAX,
    ensures
        index_exact(entries, slots.push(o)),
{
    let s2 = slots.push(o);
    assert forall|i: usize| #[trigger] entries.contains_key(i) implies is_first_slot(s2, i as int, entries[i]) by {
        assert(is_first_slot(slots, i as int, entries[i]));
    }
    assert forall|j: int|
        0 <= j < s2.len() && #[trigger] s2[j] is Some && is_first_slot(s2, j, s2[j]->0) implies entries.contains_key(
        j as usize,
    ) by {
        if j < slots.len() {
            assert forall|k: int| 0 <= k < j implies slots[k] != Some(s2[j]->0) by {
                assert(s2[k] == slots[k]);
            }
            assert(is_first_slot(slots, j, s2[j]->0));
        } else {
            let k = choose|k: int| 0 <= k < slots.len() && slots[k] == o;
            assert(s2[k] == s2[j]);
        }
    }
}

} // verus!
