use vstd::prelude::*;

verus! {

/// `p` is a prefix of `q`.
pub open spec fn is_prefix(p: Seq<Option<Seq<u8>>>, q: Seq<Option<Seq<u8>>>) -> bool {
    &&& p.len() <= q.len()
    &&& forall|i: int| 0 <= i < p.len() ==> q[i] == p[i]
}

/// Slot `i` of `slots` holds `v`, and no earlier slot does.
pub open spec fn is_first_slot(slots: Seq<Option<Seq<u8>>>, i: int, v: Seq<u8>) -> bool {
    &&& 0 <= i < slots.len()
    &&& slots[i] == Some(v)
    &&& forall|j: int| 0 <= j < i ==> slots[j] != Some(v)
}

/// The first slot of `slots` that holds `v` (meaningful when one does).
pub open spec fn slot_of(slots: Seq<Option<Seq<u8>>>, v: Seq<u8>) -> int {
    choose|i: int| is_first_slot(slots, i, v)
}

/// The pool after a get-or-insert of `v`: unchanged when `v` is present,
/// else `v` in a new last slot.
pub open spec fn insert_slot(slots: Seq<Option<Seq<u8>>>, v: Seq<u8>) -> Seq<Option<Seq<u8>>> {
    if slots.contains(Some(v)) {
        slots
    } else {
        slots.push(Some(v))
    }
}

/// The pool after the values of `vs` are appended in order (nulls add no slot).
pub open spec fn pool_after(slots: Seq<Option<Seq<u8>>>, vs: Seq<Option<Seq<u8>>>) -> Seq<Option<Seq<u8>>>
    decreases vs.len(),
{
    if vs.len() == 0 {
        slots
    } else {
        let p = pool_after(slots, vs.drop_last());
        match vs.last() {
            Some(v) => insert_slot(p, v),
            None => p,
        }
    }
}

/// The key that appending `v` to a pool whose state afterwards is `pool` yields.
pub open spec fn key_for(pool: Seq<Option<Seq<u8>>>, v: Option<Seq<u8>>) -> Option<int> {
    match v {
        Some(b) => Some(slot_of(pool, b)),
        None => None,
    }
}

/// The keys that appending the values of `vs` in order yields.
pub open spec fn keys_after(slots: Seq<Option<Seq<u8>>>, vs: Seq<Option<Seq<u8>>>) -> Seq<Option<int>>
    decreases vs.len(),
{
    if vs.len() == 0 {
        Seq::empty()
    } else {
        keys_after(slots, vs.drop_last()).push(key_for(pool_after(slots, vs), vs.last()))
    }
}

/// The value that a key stands for: null for a null key, else the slot's content.
pub open spec fn decode_key(k: Option<int>, slots: Seq<Option<Seq<u8>>>) -> Option<Seq<u8>> {
    match k {
        Some(i) => slots[i],
        None => None,
    }
}

/// The logical values that `keys` stand for over `slots`.
pub open spec fn decode(keys: Seq<Option<int>>, slots: Seq<Option<Seq<u8>>>) -> Seq<Option<Seq<u8>>> {
    keys.map_values(|k: Option<int>| decode_key(k, slots))
}

/// Every key is null or a slot of `slots`.
pub open spec fn keys_in_range(keys: Seq<Option<int>>, len: int) -> bool {
    forall|t: int| 0 <= t < keys.len() ==> (#[trigger] keys[t] matches Some(i) ==> 0 <= i < len)
}

/// A slot that holds `v` has a first such slot at or before it.
pub proof fn lemma_first_exists(slots: Seq<Option<Seq<u8>>>, j: int, v: Seq<u8>)
    requires
        0 <= j < slots.len(),
        slots[j] == Some(v),
    ensures
        is_first_slot(slots, slot_of(slots, v), v),
        slot_of(slots, v) <= j,
    decreases j,
{
    if exists|k: int| 0 <= k < j && slots[k] == Some(v) {
        let k = choose|k: int| 0 <= k < j && slots[k] == Some(v);
        lemma_first_exists(slots, k, v);
    } else {
        assert(is_first_slot(slots, j, v));
        lemma_first_unique(slots, slot_of(slots, v), j, v);
    }
}

/// There is at most one first slot of a value.
pub proof fn lemma_first_unique(slots: Seq<Option<Seq<u8>>>, i: int, k: int, v: Seq<u8>)
    requires
        is_first_slot(slots, i, v),
        is_first_slot(slots, k, v),
    ensures
        i == k,
{
}

/// `slot_of` names the first slot of any value that the pool holds.
pub proof fn lemma_slot_of(slots: Seq<Option<Seq<u8>>>, v: Seq<u8>)
    requires
        slots.contains(Some(v)),
    ensures
        is_first_slot(slots, slot_of(slots, v), v),
{
    let j = choose|j: int| 0 <= j < slots.len() && slots[j] == Some(v);
    lemma_first_exists(slots, j, v);
}

/// A first slot stays first when the pool grows at its end.
pub proof fn lemma_prefix_first(p: Seq<Option<Seq<u8>>>, q: Seq<Option<Seq<u8>>>, v: Seq<u8>)
    requires
        is_prefix(p, q),
        p.contains(Some(v)),
    ensures
        q.contains(Some(v)),
        slot_of(q, v) == slot_of(p, v),
        is_first_slot(q, slot_of(q, v), v),
{
    lemma_slot_of(p, v);
    let i = slot_of(p, v);
    assert(is_first_slot(q, i, v));
    assert(q[i] == Some(v));
    lemma_slot_of(q, v);
    lemma_first_unique(q, i, slot_of(q, v), v);
}

/// What a get-or-insert does to the pool.
pub proof fn lemma_insert_slot(slots: Seq<Option<Seq<u8>>>, v: Seq<u8>)
    ensures
        is_prefix(slots, insert_slot(slots, v)),
        insert_slot(slots, v).contains(Some(v)),
        is_first_slot(insert_slot(slots, v), slot_of(insert_slot(slots, v), v), v),
        slots.contains(Some(v)) ==> slot_of(insert_slot(slots, v), v) == slot_of(slots, v),
        !slots.contains(Some(v)) ==> slot_of(insert_slot(slots, v), v) == slots.len(),
{
    let r = insert_slot(slots, v);
    if slots.contains(Some(v)) {
        lemma_slot_of(slots, v);
    } else {
        assert(r[slots.len() as int] == Some(v));
        assert(is_first_slot(r, slots.len() as int, v));
        lemma_slot_of(r, v);
        lemma_first_unique(r, slots.len() as int, slot_of(r, v), v);
    }
}

/// Prefix is transitive.
pub proof fn lemma_prefix_trans(a: Seq<Option<Seq<u8>>>, b: Seq<Option<Seq<u8>>>, c: Seq<Option<Seq<u8>>>)
    requires
        is_prefix(a, b),
        is_prefix(b, c),
    ensures
        is_prefix(a, c),
{
}

/// The pool after part of a run of appends is a prefix of the pool after all of it.
pub proof fn lemma_pool_prefix(slots: Seq<Option<Seq<u8>>>, vs: Seq<Option<Seq<u8>>>, n: int)
    requires
        0 <= n <= vs.len(),
    ensures
        is_prefix(slots, pool_after(slots, vs)),
        is_prefix(pool_after(slots, vs.take(n)), pool_after(slots, vs)),
    decreases vs.len(),
{
    if vs.len() == 0 {
        assert(vs.take(n) =~= vs);
    } else if n == vs.len() {
        assert(vs.take(n) =~= vs);
        lemma_pool_prefix(slots, vs.drop_last(), n - 1);
        lemma_step_prefix(slots, vs);
        lemma_prefix_trans(slots, pool_after(slots, vs.drop_last()), pool_after(slots, vs));
    } else {
        lemma_pool_prefix(slots, vs.drop_last(), n);
        assert(vs.drop_last().take(n) =~= vs.take(n));
        lemma_step_prefix(slots, vs);
        lemma_prefix_trans(slots, pool_after(slots, vs.drop_last()), pool_after(slots, vs));
        lemma_prefix_trans(pool_after(slots, vs.take(n)), pool_after(slots, vs.drop_last()), pool_after(slots, vs));
    }
}

/// One more append keeps the pool as a prefix.
pub proof fn lemma_step_prefix(slots: Seq<Option<Seq<u8>>>, vs: Seq<Option<Seq<u8>>>)
    requires
        vs.len() > 0,
    ensures
        is_prefix(pool_after(slots, vs.drop_last()), pool_after(slots, vs)),
{
    let p = pool_after(slots, vs.drop_last());
    if let Some(v) = vs.last() {
        lemma_insert_slot(p, v);
    }
}

/// One step of `pool_after`, for a run extended by one value.
pub proof fn lemma_pool_push(slots: Seq<Option<Seq<u8>>>, vs: Seq<Option<Seq<u8>>>, v: Option<Seq<u8>>)
    ensures
        pool_after(slots, vs.push(v)) == (match v {
            Some(b) => insert_slot(pool_after(slots, vs), b),
            None => pool_after(slots, vs),
        }),
        keys_after(slots, vs.push(v)) == keys_after(slots, vs).push(key_for(pool_after(slots, vs.push(v)), v)),
{
    assert(vs.push(v).drop_last() =~= vs);
}


/// `n` copies of a key.
pub open spec fn repeat_key(k: Option<int>, n: nat) -> Seq<Option<int>> {
    Seq::new(n, |_t: int| k)
}

/// The view of an optional borrowed value.
pub open spec fn opt_view(o: Option<&[u8]>) -> Option<Seq<u8>> {
    match o {
        Some(v) => Some(v@),
        None => None,
    }
}


/// Where a merged key reads: its own index when that is a slot of a pool of
/// `len` slots, else the last slot.
pub open spec fn clamp_index(i: int, len: int) -> int {
    if 0 <= i < len && i <= usize::MAX {
        i
    } else {
        len - 1
    }
}

/// The key that a key of a merged dictionary (over values `src`) becomes in
/// a builder whose pool is `pool`.
pub open spec fn remap_key(k: Option<int>, src: Seq<Option<Seq<u8>>>, pool: Seq<Option<Seq<u8>>>) -> Option<int> {
    match k {
        Some(i) => key_for(pool, src[clamp_index(i, src.len() as int)]),
        None => None,
    }
}

/// `remap_key` over a run of keys.
pub open spec fn remap_keys(keys: Seq<Option<int>>, src: Seq<Option<Seq<u8>>>, pool: Seq<Option<Seq<u8>>>) -> Seq<Option<int>> {
    keys.map_values(|k: Option<int>| remap_key(k, src, pool))
}

/// Every value of `src` has its first slot of `pool` below `cap`.
pub open spec fn all_fit(src: Seq<Option<Seq<u8>>>, pool: Seq<Option<Seq<u8>>>, cap: nat) -> bool {
    forall|t: int| 0 <= t < src.len() ==> (#[trigger] src[t] matches Some(v) ==> slot_of(pool, v) < cap)
}


/// Each key that a run of appends yields is the first slot of its value in
/// the pool afterwards, and the starting pool stays a prefix.
pub proof fn lemma_keys_after(slots: Seq<Option<Seq<u8>>>, vs: Seq<Option<Seq<u8>>>)
    ensures
        keys_after(slots, vs).len() == vs.len(),
        is_prefix(slots, pool_after(slots, vs)),
        forall|s: int|
            0 <= s < vs.len() ==> #[trigger] keys_after(slots, vs)[s] == key_for(pool_after(slots, vs), vs[s]),
        forall|s: int|
            0 <= s < vs.len() ==> (#[trigger] vs[s] matches Some(v) ==> is_first_slot(
                pool_after(slots, vs),
                slot_of(pool_after(slots, vs), v),
                v,
            )),
    decreases vs.len(),
{
    if vs.len() > 0 {
        let d = vs.drop_last();
        lemma_keys_after(slots, d);
        let p = pool_after(slots, d);
        let q = pool_after(slots, vs);
        lemma_step_prefix(slots, vs);
        lemma_prefix_trans(slots, p, q);
        if let Some(v) = vs.last() {
            lemma_insert_slot(p, v);
        }
        assert forall|s: int| 0 <= s < vs.len() implies (#[trigger] vs[s] matches Some(v) ==> is_first_slot(
            q,
            slot_of(q, v),
            v,
        )) by {
            if s < d.len() {
                assert(d[s] == vs[s]);
                if let Some(v) = vs[s] {
                    assert(p[slot_of(p, v)] == Some(v));
                    lemma_prefix_first(p, q, v);
                }
            }
        }
        assert forall|s: int| 0 <= s < vs.len() implies #[trigger] keys_after(slots, vs)[s] == key_for(q, vs[s]) by {
            if s < d.len() {
                assert(d[s] == vs[s]);
                assert(keys_after(slots, vs)[s] == keys_after(slots, d)[s]);
                if let Some(v) = vs[s] {
                    assert(p[slot_of(p, v)] == Some(v));
                    lemma_prefix_first(p, q, v);
                }
            }
        }
    }
}


/// Total number of bytes of the non-null values of `vs`.
pub open spec fn total_len(vs: Seq<Option<Seq<u8>>>) -> nat
    decreases vs.len(),
{
    if vs.len() == 0 {
        0
    } else {
        total_len(vs.drop_last()) + match vs.last() {
            Some(v) => v.len(),
            None => 0,
        }
    }
}

/// The views of a run of optional borrowed values.
pub open spec fn opt_views(vs: Seq<Option<&[u8]>>) -> Seq<Option<Seq<u8>>> {
    vs.map_values(|o: Option<&[u8]>| opt_view(o))
}


/// The bytes of a prefix of a run are at most those of the whole run.
pub proof fn lemma_total_prefix(vs: Seq<Option<Seq<u8>>>, n: int)
    requires
        0 <= n <= vs.len(),
    ensures
        total_len(vs.take(n)) <= total_len(vs),
    decreases vs.len(),
{
    if n < vs.len() {
        assert(vs.drop_last().take(n) =~= vs.take(n));
        lemma_total_prefix(vs.drop_last(), n);
    } else {
        assert(vs.take(n) =~= vs);
    }
}

} // verus!
