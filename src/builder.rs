use vstd::prelude::*;
use crate::dedup::{
    dedup_entries, index_exact, lemma_index_lookup, lemma_index_push_new, lemma_index_push_repeat,
    DedupIndex,
};
use crate::key::{key_index, key_view, lemma_key_view_push, DictionaryKey, KeyType};
use crate::model::{
    insert_slot, is_first_slot, is_prefix, keys_in_range, lemma_first_unique,
    lemma_insert_slot, lemma_prefix_first, repeat_key, slot_of, all_fit, clamp_index,
    key_for, lemma_pool_prefix, lemma_pool_push, pool_after, remap_key, remap_keys, decode,
    keys_after, opt_views, total_len, lemma_total_prefix,
};
use crate::values::{copy_vec, get_bytes, rows_view, to_owned_bytes, ByteValues};

verus! {

/// Why an operation of the builder failed.
#[derive(Debug, Clone, Copy, PartialEq, Eq, Structural)]
pub enum DictionaryError {
    /// A new distinct value would need a slot index that the key type cannot hold.
    KeyOverflow,
    /// A dictionary to merge holds values but no keys.
    InvalidArgument,
    /// A staged key cannot be represented in another key type.
    KeyCast { from: KeyType, to: KeyType },
}

/// A finished dictionary-encoded column: one optional key per row, indexing
/// a pool of optional byte values.
pub struct DictionaryArray<K> {
    keys: Vec<Option<K>>,
    values: ByteValues,
}

/// Builds a dictionary-encoded column of byte values, storing each distinct
/// value once and a key per row.
pub struct GenericByteDictionaryBuilder<K> {
    dedup: DedupIndex,
    keys_builder: Vec<Option<K>>,
    values_builder: ByteValues,
}

impl<K: DictionaryKey> Default for GenericByteDictionaryBuilder<K> {
    /// An empty builder, as `new` makes.
    fn default() -> (r: Self)
        ensures
            r.wf(),
            r.slots() == Seq::<Option<Seq<u8>>>::empty(),
            r.keys() == Seq::<Option<int>>::empty(),
            r.byte_len() == 0,
    {
        Self::new()
    }
}

impl<K: DictionaryKey> GenericByteDictionaryBuilder<K> {
    /// The values pool, slot by slot.
    pub closed spec fn slots(&self) -> Seq<Option<Seq<u8>>> {
        self.values_builder@
    }

    /// The staged keys, as slot indices.
    pub closed spec fn keys(&self) -> Seq<Option<int>> {
        key_view(self.keys_builder@)
    }

    /// Total number of bytes in the values pool.
    pub closed spec fn byte_len(&self) -> nat {
        self.values_builder.byte_len()
    }

    /// Every key indexes a slot and fits the key type; the index records
    /// exactly the first slot of each distinct value.
    pub closed spec fn wf(&self) -> bool {
        &&& self.values_builder.wf()
        &&& keys_in_range(self.keys(), self.slots().len() as int)
        &&& forall|t: int|
            0 <= t < self.keys().len() ==> (#[trigger] self.keys()[t] matches Some(i) ==> i
                < K::slot_capacity() && i <= usize::MAX)
        &&& index_exact(dedup_entries(self.dedup), self.slots())
    }

    /// A builder with room reserved for the given numbers of keys, distinct
    /// values and value bytes.
    pub fn with_capacity(keys_capacity: usize, value_capacity: usize, data_capacity: usize) -> (r: Self)
        ensures
            r.wf(),
            r.slots() == Seq::<Option<Seq<u8>>>::empty(),
            r.keys() == Seq::<Option<int>>::empty(),
            r.byte_len() == 0,
    {
        let r = GenericByteDictionaryBuilder {
            dedup: DedupIndex::with_capacity(value_capacity),
            keys_builder: Vec::with_capacity(keys_capacity),
            values_builder: ByteValues::with_capacity(value_capacity, data_capacity),
        };
        assert(r.keys() =~= Seq::<Option<int>>::empty());
        r
    }

    /// An empty builder.
    pub fn new() -> (r: Self)
        ensures
            r.wf(),
            r.slots() == Seq::<Option<Seq<u8>>>::empty(),
            r.keys() == Seq::<Option<int>>::empty(),
            r.byte_len() == 0,
    {
        let r = GenericByteDictionaryBuilder {
            dedup: DedupIndex::with_capacity(1024),
            keys_builder: Vec::with_capacity(1024),
            values_builder: ByteValues::new(),
        };
        assert(r.keys() =~= Seq::<Option<int>>::empty());
        r
    }

    /// A builder whose values pool starts as a copy of `dictionary_values`,
    /// nulls and repeats included, in order; later values that equal one of
    /// them get the first slot that holds it. Fails when the key type cannot
    /// index that many slots.
    pub fn new_with_dictionary(keys_capacity: usize, dictionary_values: &ByteValues) -> (r: Result<
        Self,
        DictionaryError,
    >)
        requires
            dictionary_values.wf(),
        ensures
            r is Ok <==> dictionary_values@.len() < K::slot_capacity(),
            r matches Ok(b) ==> {
                &&& b.wf()
                &&& b.slots() == dictionary_values@
                &&& b.keys() == Seq::<Option<int>>::empty()
                &&& b.byte_len() <= dictionary_values.byte_len()
            },
            r matches Err(e) ==> e == DictionaryError::KeyOverflow,
    {
        let dict_len = dictionary_values.len();
        if K::from_index(dict_len).is_none() {
            return Err(DictionaryError::KeyOverflow);
        }
        let total = dictionary_values.byte_count();
        let mut b = GenericByteDictionaryBuilder {
            dedup: DedupIndex::with_capacity(dict_len),
            keys_builder: Vec::with_capacity(keys_capacity),
            values_builder: ByteValues::with_capacity(dict_len, total),
        };
        assert(b.keys() =~= Seq::<Option<int>>::empty());
        proof {
            dictionary_values.lemma_offsets();
        }
        let mut idx: usize = 0;
        while idx < dict_len
            invariant
                0 <= idx <= dict_len,
                dict_len == dictionary_values@.len(),
                dictionary_values.wf(),
                total == dictionary_values.byte_len(),
                dict_len < K::slot_capacity(),
                b.wf(),
                b.keys() == Seq::<Option<int>>::empty(),
                b.slots() == dictionary_values@.take(idx as int),
                b.byte_len() <= dictionary_values.offset(idx as int),
                dictionary_values.offset(idx as int) <= total,
            decreases dict_len - idx,
        {
            proof {
                dictionary_values.lemma_offsets();
                b.values_builder.lemma_offsets();
            }
            let ghost old_slots = b.slots();
            let ghost old_entries = dedup_entries(b.dedup);
            let ghost old_keys = b.keys_builder@;
            let ghost item = dictionary_values@[idx as int];
            if dictionary_values.is_valid(idx) {
                let bytes = get_bytes(dictionary_values, idx);
                let r = b.dedup.get_or_insert(bytes, &mut b.values_builder);
                proof {
                    lemma_index_lookup(old_entries, old_slots, bytes@);
                }
                if r != idx {
                    b.values_builder.append_value(bytes);
                    proof {
                        lemma_index_push_repeat(old_entries, old_slots, Some(bytes@));
                    }
                } else {
                    proof {
                        if old_slots.contains(Some(bytes@)) {
                            assert(is_first_slot(old_slots, r as int, bytes@));
                        }
                        lemma_index_push_new(old_entries, old_slots, bytes@);
                    }
                }
            } else {
                b.values_builder.append_null();
                proof {
                    lemma_index_push_repeat(old_entries, old_slots, None);
                }
            }
            assert(b.keys_builder@ == old_keys);
            assert(dictionary_values@.take(idx as int + 1) =~= dictionary_values@.take(idx as int).push(item));
            idx = idx + 1;
        }
        assert(dictionary_values@.take(dict_len as int) =~= dictionary_values@);
        Ok(b)
    }

    /// A builder with the same values pool, index and rows as `source`, its
    /// keys converted to the key type `K`. Fails when a staged key does not
    /// fit `K`.
    pub fn try_new_from_builder<K2: DictionaryKey>(source: GenericByteDictionaryBuilder<K2>) -> (r: Result<
        Self,
        DictionaryError,
    >)
        requires
            source.wf(),
        ensures
            r is Ok <==> (forall|t: int|
                0 <= t < source.keys().len() ==> (#[trigger] source.keys()[t] matches Some(i) ==> i
                    < K::slot_capacity())),
            r matches Ok(b) ==> {
                &&& b.wf()
                &&& b.slots() == source.slots()
                &&& b.keys() == source.keys()
                &&& b.byte_len() == source.byte_len()
            },
            r matches Err(e) ==> e == (DictionaryError::KeyCast { from: K2::kind(), to: K::kind() }),
    {
        let ghost src_keys = source.keys();
        proof {
            assert forall|s: int| 0 <= s < src_keys.len() implies (#[trigger] src_keys[s] matches Some(i) ==> 0 <= i
                && i <= usize::MAX) by {
                assert(keys_in_range(src_keys, source.slots().len() as int));
            }
        }
        let GenericByteDictionaryBuilder { dedup, keys_builder: source_keys, values_builder } = source;
        let n = source_keys.len();
        let mut keys_builder: Vec<Option<K>> = Vec::with_capacity(n);
        let mut t: usize = 0;
        while t < n
            invariant
                0 <= t <= n,
                n == source_keys@.len(),
                key_view(source_keys@) == src_keys,
                src_keys == source.keys(),
                key_view(keys_builder@) == key_view(source_keys@).take(t as int),
                forall|s: int| 0 <= s < t ==> (#[trigger] key_view(source_keys@)[s] matches Some(i) ==> i
                    < K::slot_capacity()),
                forall|s: int|
                    0 <= s < n ==> (#[trigger] key_view(source_keys@)[s] matches Some(i) ==> 0 <= i
                        && i <= usize::MAX),
            decreases n - t,
        {
            assert(key_view(source_keys@)[t as int] == key_index(source_keys@[t as int]));
            let converted: Option<K> = match source_keys[t] {
                None => None,
                Some(k) => match K::from_index(k.to_index()) {
                    Some(k2) => Some(k2),
                    None => {
                        assert(!(k.index() < K::slot_capacity()));
                        assert(src_keys[t as int] == Some(k.index()));
                        return Err(DictionaryError::KeyCast { from: K2::key_type(), to: K::key_type() });
                    },
                },
            };
            proof {
                lemma_key_view_push(keys_builder@, converted);
            }
            keys_builder.push(converted);
            assert(key_view(source_keys@).take(t as int + 1) =~= key_view(source_keys@).take(t as int).push(
                key_view(source_keys@)[t as int],
            ));
            t = t + 1;
        }
        assert(key_view(source_keys@).take(n as int) =~= key_view(source_keys@));
        let b = GenericByteDictionaryBuilder { dedup, keys_builder, values_builder };
        assert(b.keys() == source.keys());
        Ok(b)
    }

    /// Number of rows staged.
    pub fn len(&self) -> (r: usize)
        ensures
            r == self.keys().len(),
    {
        self.keys_builder.len()
    }

    /// Total number of bytes in the values pool.
    pub fn byte_count(&self) -> (r: usize)
        ensures
            r == self.byte_len(),
    {
        self.values_builder.byte_count()
    }

    /// Finds the slot of `value`, storing it in a new slot when no slot
    /// holds it yet, and converts the slot index to a key.
    fn get_or_insert_key(&mut self, value: &[u8]) -> (r: Result<K, DictionaryError>)
        requires
            old(self).wf(),
            old(self).byte_len() + value@.len() <= usize::MAX,
        ensures
            final(self).wf(),
            final(self).slots() == insert_slot(old(self).slots(), value@),
            final(self).keys() == old(self).keys(),
            final(self).byte_len() <= old(self).byte_len() + value@.len(),
            is_first_slot(final(self).slots(), slot_of(final(self).slots(), value@), value@),
            slot_of(final(self).slots(), value@) <= usize::MAX,
            r is Ok <==> slot_of(final(self).slots(), value@) < K::slot_capacity(),
            r matches Ok(k) ==> k.index() == slot_of(final(self).slots(), value@),
            r matches Err(e) ==> e == DictionaryError::KeyOverflow,
    {
        let ghost old_slots = self.slots();
        let ghost old_entries = dedup_entries(self.dedup);
        let idx = self.dedup.get_or_insert(value, &mut self.values_builder);
        proof {
            old(self).values_builder.lemma_offsets();
            lemma_insert_slot(old_slots, value@);
            lemma_index_lookup(old_entries, old_slots, value@);
            if old_slots.contains(Some(value@)) {
                assert(is_first_slot(old_slots, idx as int, value@));
                lemma_first_unique(old_slots, idx as int, slot_of(old_slots, value@), value@);
            } else {
                lemma_index_push_new(old_entries, old_slots, value@);
            }
        }
        match K::from_index(idx) {
            Some(k) => Ok(k),
            None => Err(DictionaryError::KeyOverflow),
        }
    }

    /// Appends `value` as one row and returns its key: the slot that already
    /// holds it, or a new slot. Fails when the slot index does not fit the
    /// key type; the value stays stored then, and no row is added.
    pub fn append(&mut self, value: &[u8]) -> (r: Result<K, DictionaryError>)
        requires
            old(self).wf(),
            old(self).byte_len() + value@.len() <= usize::MAX,
        ensures
            final(self).wf(),
            final(self).slots() == insert_slot(old(self).slots(), value@),
            final(self).byte_len() <= old(self).byte_len() + value@.len(),
            r is Ok <==> slot_of(final(self).slots(), value@) < K::slot_capacity(),
            r matches Ok(k) ==> k.index() == slot_of(final(self).slots(), value@)
                && final(self).keys() == old(self).keys().push(Some(k.index())),
            r matches Err(e) ==> e == DictionaryError::KeyOverflow && final(self).keys() == old(self).keys(),
    {
        let key = self.get_or_insert_key(value)?;
        proof {
            lemma_key_view_push(self.keys_builder@, Some(key));
        }
        self.keys_builder.push(Some(key));
        Ok(key)
    }

    /// Pushes `count` copies of a key that indexes a slot.
    fn push_keys(&mut self, k: Option<K>, count: usize)
        requires
            old(self).wf(),
            k matches Some(x) ==> 0 <= x.index() < old(self).slots().len() && x.index() <= usize::MAX
                && x.index() < K::slot_capacity(),
        ensures
            final(self).wf(),
            final(self).slots() == old(self).slots(),
            final(self).byte_len() == old(self).byte_len(),
            final(self).keys() == old(self).keys() + repeat_key(key_index(k), count as nat),
    {
        let mut c: usize = 0;
        while c < count
            invariant
                0 <= c <= count,
                self.wf(),
                self.slots() == old(self).slots(),
                self.byte_len() == old(self).byte_len(),
                self.keys() == old(self).keys() + repeat_key(key_index(k), c as nat),
                k matches Some(x) ==> 0 <= x.index() < self.slots().len() && x.index() <= usize::MAX
                    && x.index() < K::slot_capacity(),
            decreases count - c,
        {
            proof {
                lemma_key_view_push(self.keys_builder@, k);
            }
            self.keys_builder.push(k);
            assert(self.keys() =~= old(self).keys() + repeat_key(key_index(k), (c + 1) as nat));
            c = c + 1;
        }
    }

    /// Appends `value` as `count` rows with a single lookup and returns its
    /// key; fails, adding no row, as `append` does.
    pub fn append_n(&mut self, value: &[u8], count: usize) -> (r: Result<K, DictionaryError>)
        requires
            old(self).wf(),
            old(self).byte_len() + value@.len() <= usize::MAX,
        ensures
            final(self).wf(),
            final(self).slots() == insert_slot(old(self).slots(), value@),
            final(self).byte_len() <= old(self).byte_len() + value@.len(),
            r is Ok <==> slot_of(final(self).slots(), value@) < K::slot_capacity(),
            r matches Ok(k) ==> k.index() == slot_of(final(self).slots(), value@) && final(self).keys()
                == old(self).keys() + repeat_key(Some(k.index()), count as nat),
            r matches Err(e) ==> e == DictionaryError::KeyOverflow && final(self).keys() == old(self).keys(),
    {
        let key = self.get_or_insert_key(value)?;
        self.push_keys(Some(key), count);
        Ok(key)
    }

    /// Appends `value` as one row; the caller guarantees that its slot index
    /// fits the key type.
    pub fn append_value(&mut self, value: &[u8])
        requires
            old(self).wf(),
            old(self).byte_len() + value@.len() <= usize::MAX,
            slot_of(insert_slot(old(self).slots(), value@), value@) < K::slot_capacity(),
        ensures
            final(self).wf(),
            final(self).slots() == insert_slot(old(self).slots(), value@),
            final(self).byte_len() <= old(self).byte_len() + value@.len(),
            final(self).keys() == old(self).keys().push(Some(slot_of(final(self).slots(), value@))),
    {
        let _ = self.append(value);
    }

    /// Appends `value` as `count` rows; the caller guarantees that its slot
    /// index fits the key type.
    pub fn append_values(&mut self, value: &[u8], count: usize)
        requires
            old(self).wf(),
            old(self).byte_len() + value@.len() <= usize::MAX,
            slot_of(insert_slot(old(self).slots(), value@), value@) < K::slot_capacity(),
        ensures
            final(self).wf(),
            final(self).slots() == insert_slot(old(self).slots(), value@),
            final(self).byte_len() <= old(self).byte_len() + value@.len(),
            final(self).keys() == old(self).keys() + repeat_key(
                Some(slot_of(final(self).slots(), value@)),
                count as nat,
            ),
    {
        let _ = self.append_n(value, count);
    }

    /// Appends a null row; the values pool is untouched.
    pub fn append_null(&mut self)
        requires
            old(self).wf(),
        ensures
            final(self).wf(),
            final(self).slots() == old(self).slots(),
            final(self).byte_len() == old(self).byte_len(),
            final(self).keys() == old(self).keys().push(None),
    {
        proof {
            lemma_key_view_push(self.keys_builder@, None);
        }
        self.keys_builder.push(None);
    }

    /// Appends `n` null rows.
    pub fn append_nulls(&mut self, n: usize)
        requires
            old(self).wf(),
        ensures
            final(self).wf(),
            final(self).slots() == old(self).slots(),
            final(self).byte_len() == old(self).byte_len(),
            final(self).keys() == old(self).keys() + repeat_key(None, n as nat),
    {
        self.push_keys(None, n);
    }

    /// Appends a null row for `None`, else the value as `append_value` does.
    pub fn append_option(&mut self, value: Option<&[u8]>)
        requires
            old(self).wf(),
            value matches Some(v) ==> old(self).byte_len() + v@.len() <= usize::MAX
                && slot_of(insert_slot(old(self).slots(), v@), v@) < K::slot_capacity(),
        ensures
            final(self).wf(),
            final(self).slots() == (match value {
                Some(v) => insert_slot(old(self).slots(), v@),
                None => old(self).slots(),
            }),
            final(self).byte_len() <= old(self).byte_len() + (match value {
                Some(v) => v@.len(),
                None => 0,
            }),
            final(self).keys() == old(self).keys().push(match value {
                Some(v) => Some(slot_of(final(self).slots(), v@)),
                None => None,
            }),
    {
        match value {
            None => self.append_null(),
            Some(v) => self.append_value(v),
        }
    }

    /// Appends `count` rows of `value` as `append_option` does, with one lookup.
    pub fn append_options(&mut self, value: Option<&[u8]>, count: usize)
        requires
            old(self).wf(),
            value matches Some(v) ==> old(self).byte_len() + v@.len() <= usize::MAX
                && slot_of(insert_slot(old(self).slots(), v@), v@) < K::slot_capacity(),
        ensures
            final(self).wf(),
            final(self).slots() == (match value {
                Some(v) => insert_slot(old(self).slots(), v@),
                None => old(self).slots(),
            }),
            final(self).byte_len() <= old(self).byte_len() + (match value {
                Some(v) => v@.len(),
                None => 0,
            }),
            final(self).keys() == old(self).keys() + repeat_key(
                match value {
                    Some(v) => Some(slot_of(final(self).slots(), v@)),
                    None => None,
                },
                count as nat,
            ),
    {
        match value {
            None => self.append_nulls(count),
            Some(v) => self.append_values(v, count),
        }
    }

    /// Appends the rows of an encoded dictionary: each row gets the key of
    /// the value it stands for, a null row or a row whose value is null a
    /// null key. Each value of `dictionary` is looked up once, in order, and
    /// stored when new, whether or not a row uses it; a key that indexes no
    /// value reads the last one. A dictionary with no values must have only
    /// null rows, and one with values but no rows is refused. On a key
    /// overflow no row is added, and the values stored before it stay.
    pub fn extend_dictionary(&mut self, dictionary: &DictionaryArray<K>) -> (r: Result<(), DictionaryError>)
        requires
            old(self).wf(),
            dictionary.wf(),
            old(self).byte_len() + dictionary.byte_len() <= usize::MAX,
        ensures
            final(self).wf(),
            final(self).byte_len() <= old(self).byte_len() + dictionary.byte_len(),
            dictionary.value_view().len() == 0 ==> {
                &&& r is Ok
                &&& final(self).slots() == old(self).slots()
                &&& final(self).keys() == old(self).keys() + repeat_key(None, dictionary.key_view().len())
            },
            dictionary.value_view().len() > 0 && dictionary.key_view().len() == 0 ==> {
                &&& r == Err::<(), DictionaryError>(DictionaryError::InvalidArgument)
                &&& final(self).slots() == old(self).slots()
                &&& final(self).keys() == old(self).keys()
            },
            dictionary.value_view().len() > 0 && dictionary.key_view().len() > 0 ==> {
                &&& (r is Ok <==> all_fit(
                    dictionary.value_view(),
                    pool_after(old(self).slots(), dictionary.value_view()),
                    K::slot_capacity(),
                ))
                &&& r is Ok ==> final(self).slots() == pool_after(old(self).slots(), dictionary.value_view())
                    && final(self).keys() == old(self).keys() + remap_keys(
                    dictionary.key_view(),
                    dictionary.value_view(),
                    final(self).slots(),
                )
                &&& r is Err ==> r == Err::<(), DictionaryError>(DictionaryError::KeyOverflow)
                    && final(self).keys() == old(self).keys() && is_prefix(old(self).slots(), final(self).slots())
            },
    {
        let values = &dictionary.values;
        let v_len = values.len();
        let k_len = dictionary.keys.len();
        if v_len == 0 && k_len == 0 {
            assert(self.keys() =~= old(self).keys() + repeat_key(None, 0));
            return Ok(());
        }
        if v_len == 0 {
            self.append_nulls(k_len);
            return Ok(());
        }
        if k_len == 0 {
            return Err(DictionaryError::InvalidArgument);
        }
        let ghost src = values@;
        let ghost old_slots = self.slots();
        proof {
            values.lemma_offsets();
        }
        let mut mapped: Vec<Option<K>> = Vec::with_capacity(v_len);
        let mut t: usize = 0;
        while t < v_len
            invariant
                0 <= t <= v_len,
                v_len == src.len(),
                src == values@,
                src == dictionary.value_view(),
                dictionary.byte_len() == values.byte_len(),
                k_len == dictionary.key_view().len(),
                v_len > 0,
                k_len > 0,
                values.wf(),
                self.wf(),
                self.keys() == old(self).keys(),
                old_slots == old(self).slots(),
                self.slots() == pool_after(old_slots, src.take(t as int)),
                mapped@.len() == t,
                forall|s: int| 0 <= s < t ==> key_index(#[trigger] mapped@[s]) == key_for(self.slots(), src[s]),
                forall|s: int| 0 <= s < t ==> (#[trigger] mapped@[s] matches Some(k) ==> k.index() < K::slot_capacity()),
                forall|s: int| 0 <= s < t ==> (#[trigger] src[s] matches Some(v) ==> is_first_slot(self.slots(), slot_of(self.slots(), v), v)),
                self.byte_len() <= old(self).byte_len() + values.offset(t as int),
                values.offset(t as int) <= values.byte_len(),
                old(self).byte_len() + values.byte_len() <= usize::MAX,
            decreases v_len - t,
        {
            proof {
                values.lemma_offsets();
            }
            let ghost p = self.slots();
            let ghost item = src[t as int];
            assert(src.take(t as int + 1) =~= src.take(t as int).push(item));
            proof {
                lemma_pool_push(old_slots, src.take(t as int), item);
            }
            let m: Option<K> = if values.is_valid(t) {
                let b = get_bytes(values, t);
                match self.get_or_insert_key(b) {
                    Ok(k) => Some(k),
                    Err(e) => {
                        proof {
                            lemma_pool_prefix(old_slots, src, t as int + 1);
                            lemma_pool_prefix(old_slots, src.take(t as int + 1), 0);
                            lemma_prefix_first(self.slots(), pool_after(old_slots, src), b@);
                            assert(src[t as int] matches Some(v) && !(slot_of(pool_after(old_slots, src), v) < K::slot_capacity()));
                        }
                        return Err(e);
                    },
                }
            } else {
                None
            };
            proof {
                if let Some(v) = item {
                    lemma_insert_slot(p, v);
                }
                assert forall|s: int| 0 <= s < t implies key_index(#[trigger] mapped@[s]) == key_for(self.slots(), src[s])
                    && (src[s] matches Some(v) ==> is_first_slot(self.slots(), slot_of(self.slots(), v), v)) by {
                    if let Some(v) = src[s] {
                        assert(p.contains(Some(v)));
                        lemma_prefix_first(p, self.slots(), v);
                    }
                }
            }
            mapped.push(m);
            t = t + 1;
        }
        assert(src.take(v_len as int) =~= src);
        let ghost pool = self.slots();
        assert(all_fit(src, pool, K::slot_capacity())) by {
            assert forall|s: int| 0 <= s < src.len() implies (#[trigger] src[s] matches Some(v) ==> slot_of(pool, v) < K::slot_capacity()) by {
                assert(key_index(mapped@[s]) == key_for(pool, src[s]));
            }
        }
        let ghost sk = dictionary.key_view();
        let ghost base = self.keys();
        proof {
            self.values_builder.lemma_offsets();
        }
        let mut j: usize = 0;
        while j < k_len
            invariant
                0 <= j <= k_len,
                k_len == sk.len(),
                sk == dictionary.key_view(),
                src == dictionary.value_view(),
                dictionary.byte_len() == values.byte_len(),
                old_slots == old(self).slots(),
                pool == pool_after(old_slots, src),
                k_len > 0,
                all_fit(src, pool, K::slot_capacity()),
                v_len == src.len(),
                v_len > 0,
                mapped@.len() == v_len,
                self.wf(),
                self.slots() == pool,
                pool.len() < usize::MAX,
                self.byte_len() <= old(self).byte_len() + values.byte_len(),
                forall|s: int| 0 <= s < v_len ==> key_index(#[trigger] mapped@[s]) == key_for(pool, src[s]),
                forall|s: int| 0 <= s < v_len ==> (#[trigger] mapped@[s] matches Some(k) ==> k.index() < K::slot_capacity()),
                forall|s: int| 0 <= s < v_len ==> (#[trigger] src[s] matches Some(v) ==> is_first_slot(pool, slot_of(pool, v), v)),
                self.keys() == base + remap_keys(sk, src, pool).take(j as int),
            decreases k_len - j,
        {
            assert(sk[j as int] == key_index(dictionary.keys@[j as int]));
            let out: Option<K> = match dictionary.keys[j] {
                None => None,
                Some(orig) => {
                    let ix = orig.to_index();
                    let index = if ix < v_len - 1 { ix } else { v_len - 1 };
                    assert(index as int == clamp_index(orig.index(), v_len as int));
                    mapped[index]
                },
            };
            assert(key_index(out) == remap_key(sk[j as int], src, pool));
            proof {
                lemma_key_view_push(self.keys_builder@, out);
            }
            self.keys_builder.push(out);
            assert(remap_keys(sk, src, pool).take(j as int + 1) =~= remap_keys(sk, src, pool).take(j as int).push(
                remap_key(sk[j as int], src, pool),
            ));
            assert(self.keys() =~= base + remap_keys(sk, src, pool).take(j as int + 1));
            j = j + 1;
        }
        assert(remap_keys(sk, src, pool).take(k_len as int) =~= remap_keys(sk, src, pool));
        Ok(())
    }

    /// Appends each item of `values` in order, as `append_option` does; the
    /// caller guarantees that every value's slot fits the key type.
    pub fn extend(&mut self, values: &[Option<&[u8]>])
        requires
            old(self).wf(),
            old(self).byte_len() + total_len(opt_views(values@)) <= usize::MAX,
            all_fit(opt_views(values@), pool_after(old(self).slots(), opt_views(values@)), K::slot_capacity()),
        ensures
            final(self).wf(),
            final(self).slots() == pool_after(old(self).slots(), opt_views(values@)),
            final(self).keys() == old(self).keys() + keys_after(old(self).slots(), opt_views(values@)),
            final(self).byte_len() <= old(self).byte_len() + total_len(opt_views(values@)),
    {
        let ghost vs = opt_views(values@);
        let ghost s0 = old(self).slots();
        let mut t: usize = 0;
        while t < values.len()
            invariant
                0 <= t <= values@.len(),
                vs == opt_views(values@),
                s0 == old(self).slots(),
                self.wf(),
                all_fit(vs, pool_after(s0, vs), K::slot_capacity()),
                self.slots() == pool_after(s0, vs.take(t as int)),
                self.keys() == old(self).keys() + keys_after(s0, vs.take(t as int)),
                self.byte_len() <= old(self).byte_len() + total_len(vs.take(t as int)),
                old(self).byte_len() + total_len(vs) <= usize::MAX,
            decreases values@.len() - t,
        {
            let ghost item = vs[t as int];
            assert(vs.take(t as int + 1) =~= vs.take(t as int).push(item));
            assert(vs.take(t as int + 1).drop_last() =~= vs.take(t as int));
            proof {
                lemma_pool_push(s0, vs.take(t as int), item);
                lemma_total_prefix(vs, t as int + 1);
                lemma_pool_prefix(s0, vs, t as int + 1);
                if let Some(v) = item {
                    lemma_insert_slot(self.slots(), v);
                    lemma_prefix_first(insert_slot(self.slots(), v), pool_after(s0, vs), v);
                    assert(vs[t as int] == item);
                }
            }
            self.append_option(values[t]);
            assert(self.keys() =~= old(self).keys() + keys_after(s0, vs.take(t as int + 1)));
            t = t + 1;
        }
        assert(vs.take(values@.len() as int) =~= vs);
    }

    /// The validity bitmap of the staged rows, bit `t % 8` of byte `t / 8`
    /// set for a row with a key; `None` while no row is null.
    pub fn validity_slice(&self) -> (r: Option<Vec<u8>>)
        ensures
            r is None <==> (forall|t: int| 0 <= t < self.keys().len() ==> #[trigger] self.keys()[t] is Some),
            r matches Some(bits) ==> bits@.len() == (self.keys().len() + 7) / 8 && (forall|t: int|
                0 <= t < self.keys().len() ==> bit_at(bits@, t) == (#[trigger] self.keys()[t] is Some)),
    {
        let n = self.keys_builder.len();
        let mut any_null = false;
        let mut t: usize = 0;
        while t < n
            invariant
                0 <= t <= n,
                n == self.keys().len(),
                any_null <==> exists|s: int| 0 <= s < t && #[trigger] self.keys()[s] is None,
            decreases n - t,
        {
            assert(self.keys()[t as int] == key_index(self.keys_builder@[t as int]));
            if self.keys_builder[t].is_none() {
                any_null = true;
            }
            t = t + 1;
        }
        if !any_null {
            return None;
        }
        let n_bytes = n / 8 + if n % 8 == 0 { 0 } else { 1 };
        let mut bits: Vec<u8> = Vec::with_capacity(n_bytes);
        let mut j: usize = 0;
        while j < n_bytes
            invariant
                0 <= j <= n_bytes,
                n_bytes == (n + 7) / 8,
                n == self.keys().len(),
                bits@.len() == j,
                forall|t: int| 0 <= t < n && t / 8 < j ==> bit_at(bits@, t) == (#[trigger] self.keys()[t] is Some),
            decreases n_bytes - j,
        {
            let mut byte: u8 = 0;
            let mut b: u8 = 0;
            proof {
                assert forall|c: u8| 0 <= c < 8 implies !#[trigger] bit_of(byte, c) by {
                    lemma_zero_bits(c);
                }
            }
            while b < 8
                invariant
                    0 <= b <= 8,
                    j < n_bytes,
                    n_bytes == (n + 7) / 8,
                    n == self.keys().len(),
                    forall|c: u8| c < b ==> #[trigger] bit_of(byte, c) == (8 * j + c < n && self.keys()[8 * j + c] is Some),
                    forall|c: u8| b <= c < 8 ==> !#[trigger] bit_of(byte, c),
                decreases 8 - b,
            {
                let t = 8 * j + b as usize;
                let set = t < n && self.keys_builder[t].is_some();
                proof {
                    if t < n {
                        assert(self.keys()[t as int] == key_index(self.keys_builder@[t as int]));
                    }
                }
                let ghost before = byte;
                if set {
                    byte = byte | (1u8 << b);
                }
                proof {
                    assert forall|c: u8| c < 8 implies #[trigger] bit_of(byte, c) == (if c == b { set } else { bit_of(before, c) }) by {
                        lemma_set_bit(before, b, c);
                    }
                }
                b = b + 1;
            }
            let ghost prev = bits@;
            bits.push(byte);
            proof {
                assert forall|t: int| 0 <= t < n && t / 8 < j + 1 implies bit_at(bits@, t) == (#[trigger] self.keys()[t] is Some) by {
                    if t / 8 < j {
                        assert(bits@[t / 8] == prev[t / 8]);
                    } else {
                        let c = (t % 8) as u8;
                        assert(t == 8 * j + c);
                        assert(bit_of(byte, c) == (self.keys()[t] is Some));
                    }
                }
            }
            j = j + 1;
        }
        Some(bits)
    }

    /// Hands over the staged keys and values as a finished array and resets
    /// the builder: the pool, the keys and the index start empty again.
    pub fn finish(&mut self) -> (r: DictionaryArray<K>)
        requires
            old(self).wf(),
        ensures
            r.wf(),
            r.key_view() == old(self).keys(),
            r.value_view() == old(self).slots(),
            final(self).wf(),
            final(self).slots() == Seq::<Option<Seq<u8>>>::empty(),
            final(self).keys() == Seq::<Option<int>>::empty(),
            final(self).byte_len() == 0,
    {
        self.dedup.clear();
        let mut values = ByteValues::new();
        core::mem::swap(&mut values, &mut self.values_builder);
        let mut keys: Vec<Option<K>> = Vec::new();
        core::mem::swap(&mut keys, &mut self.keys_builder);
        assert(self.keys() =~= Seq::<Option<int>>::empty());
        DictionaryArray { keys, values }
    }

    /// A finished array of the staged keys and values; the builder keeps its
    /// state and can go on.
    pub fn finish_cloned(&self) -> (r: DictionaryArray<K>)
        requires
            self.wf(),
        ensures
            r.wf(),
            r.key_view() == self.keys(),
            r.value_view() == self.slots(),
    {
        DictionaryArray { keys: copy_vec(&self.keys_builder), values: self.values_builder.duplicate() }
    }
}

impl<K: DictionaryKey> DictionaryArray<K> {
    /// The keys, as slot indices.
    pub closed spec fn key_view(&self) -> Seq<Option<int>> {
        key_view(self.keys@)
    }

    /// The values pool.
    pub closed spec fn value_view(&self) -> Seq<Option<Seq<u8>>> {
        self.values@
    }

    /// Total number of bytes in the values pool.
    pub closed spec fn byte_len(&self) -> nat {
        self.values.byte_len()
    }

    /// The values pool is well formed.
    pub closed spec fn wf(&self) -> bool {
        self.values.wf()
    }

    /// An array of the given keys over the given values pool. Keys are taken
    /// as they are; one that indexes no slot reads as the last slot when the
    /// array is merged into a builder.
    pub fn from_parts(keys: Vec<Option<K>>, values: ByteValues) -> (r: Self)
        requires
            values.wf(),
        ensures
            r.wf(),
            r.key_view() == key_view(keys@),
            r.value_view() == values@,
    {
        DictionaryArray { keys, values }
    }

    /// The keys.
    pub fn keys(&self) -> (r: &Vec<Option<K>>)
        ensures
            key_view(r@) == self.key_view(),
    {
        &self.keys
    }

    /// The values pool.
    pub fn values(&self) -> (r: &ByteValues)
        requires
            self.wf(),
        ensures
            r.wf(),
            r@ == self.value_view(),
    {
        &self.values
    }

    /// Number of rows.
    pub fn len(&self) -> (r: usize)
        ensures
            r == self.key_view().len(),
    {
        self.keys.len()
    }

    /// Whether row `i` is null, that is has a null key.
    pub fn is_null(&self, i: usize) -> (r: bool)
        requires
            i < self.key_view().len(),
        ensures
            r == (self.key_view()[i as int] is None),
    {
        self.keys[i].is_none()
    }

    /// Whether row `i` has a key.
    pub fn is_valid(&self, i: usize) -> (r: bool)
        requires
            i < self.key_view().len(),
        ensures
            r == (self.key_view()[i as int] is Some),
    {
        self.keys[i].is_some()
    }

    /// The key of row `i`, with 0 for a null row.
    pub fn key_value(&self, i: usize) -> (r: K)
        requires
            i < self.key_view().len(),
        ensures
            self.key_view()[i as int] matches Some(x) ==> r.index() == x,
            self.key_view()[i as int] is None ==> r.index() == 0,
    {
        match self.keys[i] {
            Some(k) => k,
            None => K::zero(),
        }
    }

    /// The value of each row: null for a null key, else what its slot holds.
    pub fn logical_values(&self) -> (r: Vec<Option<Vec<u8>>>)
        requires
            self.wf(),
            keys_in_range(self.key_view(), self.value_view().len() as int),
        ensures
            rows_view(r@) == decode(self.key_view(), self.value_view()),
    {
        let n = self.keys.len();
        let mut r: Vec<Option<Vec<u8>>> = Vec::with_capacity(n);
        let mut t: usize = 0;
        proof {
            self.values.lemma_offsets();
        }
        while t < n
            invariant
                0 <= t <= n,
                n == self.key_view().len(),
                self.wf(),
                self.values@.len() < usize::MAX,
                keys_in_range(self.key_view(), self.value_view().len() as int),
                rows_view(r@) == decode(self.key_view(), self.value_view()).take(t as int),
            decreases n - t,
        {
            assert(self.key_view()[t as int] == key_index(self.keys@[t as int]));
            let row: Option<Vec<u8>> = match self.keys[t] {
                None => None,
                Some(k) => {
                    let i = k.to_index();
                    if self.values.is_valid(i) {
                        Some(to_owned_bytes(get_bytes(&self.values, i)))
                    } else {
                        None
                    }
                },
            };
            let ghost prev = r@;
            r.push(row);
            assert(rows_view(r@) == rows_view(prev).push(match row {
                Some(b) => Some(b@),
                None => None,
            })) by {
                assert(rows_view(r@) =~= rows_view(prev).push(match row {
                    Some(b) => Some(b@),
                    None => None,
                }));
            }
            assert(rows_view(r@) =~= decode(self.key_view(), self.value_view()).take(t as int + 1));
            t = t + 1;
        }
        assert(decode(self.key_view(), self.value_view()).take(n as int) =~= decode(self.key_view(), self.value_view()));
        r
    }
}


/// Bit `c` of a byte.
pub open spec fn bit_of(byte: u8, c: u8) -> bool {
    (byte >> c) & 1u8 == 1u8
}

/// Bit `t % 8` of byte `t / 8` of a bitmap.
pub open spec fn bit_at(bits: Seq<u8>, t: int) -> bool {
    bit_of(bits[t / 8], (t % 8) as u8)
}

/// Setting bit `b` of a byte sets that bit and leaves the others.
proof fn lemma_set_bit(x: u8, b: u8, c: u8)
    requires
        b < 8,
        c < 8,
    ensures
        bit_of(x | (1u8 << b), c) == (c == b || bit_of(x, c)),
{
    assert(((x | (1u8 << b)) >> c) & 1u8 == 1u8 <==> (c == b || (x >> c) & 1u8 == 1u8)) by (bit_vector)
        requires
            b < 8,
            c < 8,
    ;
}

/// No bit of zero is set.
proof fn lemma_zero_bits(c: u8)
    requires
        c < 8,
    ensures
        !bit_of(0u8, c),
{
    assert((0u8 >> c) & 1u8 != 1u8) by (bit_vector);
}

} // verus!
