//! Properties of the builder, stated over the model that its contracts use:
//! appending values updates the pool by `insert_slot` and pushes the key
//! `key_for`, so a run of appends yields `pool_after` and `keys_after`.
use vstd::prelude::*;
use crate::model::{
    decode, decode_key, insert_slot, is_first_slot, is_prefix, key_for, keys_after,
    keys_in_range, lemma_insert_slot, lemma_keys_after, lemma_pool_prefix,
    lemma_pool_push, pool_after, remap_key, remap_keys, repeat_key, slot_of,
};

verus! {

/// Starting from an empty pool, any run of appends stores each distinct
/// non-null value exactly once: the pool has no repeats and no nulls, holds
/// exactly the non-null values appended, so its length is their number; and
/// every occurrence of a value gets the same key.
pub proof fn lemma_dedup(vs: Seq<Option<Seq<u8>>>)
    ensures
        pool_after(Seq::empty(), vs).no_duplicates(),
        forall|i: int|
            0 <= i < pool_after(Seq::empty(), vs).len() ==> #[trigger] pool_after(Seq::empty(), vs)[i] is Some,
        pool_after(Seq::empty(), vs).to_set() == vs.to_set().remove(None),
        pool_after(Seq::empty(), vs).len() == vs.to_set().remove(None).len(),
        forall|s: int, t: int|
            0 <= s < vs.len() && 0 <= t < vs.len() && vs[s] == vs[t] ==> #[trigger] keys_after(
                Seq::empty(),
                vs,
            )[s] == #[trigger] keys_after(Seq::empty(), vs)[t],
    decreases vs.len(),
{
    let e = Seq::<Option<Seq<u8>>>::empty();
    let p = pool_after(e, vs);
    if vs.len() == 0 {
        assert(p.to_set() =~= vs.to_set().remove(None));
    } else {
        let d = vs.drop_last();
        lemma_dedup(d);
        let q = pool_after(e, d);
        assert(vs =~= d.push(vs.last()));
        assert(vs.to_set() =~= d.to_set().insert(vs.last()));
        match vs.last() {
            Some(v) => {
                if q.contains(Some(v)) {
                    assert(p.to_set() =~= vs.to_set().remove(None));
                } else {
                    assert(p == q.push(Some(v)));
                    assert forall|x: Option<Seq<u8>>| p.contains(x) <==> (q.contains(x) || x == Some(v)) by {
                        if x == Some(v) {
                            assert(p[q.len() as int] == x);
                        }
                        if q.contains(x) {
                            let k = choose|k: int| 0 <= k < q.len() && q[k] == x;
                            assert(p[k] == x);
                        }
                        if p.contains(x) {
                            let k = choose|k: int| 0 <= k < p.len() && p[k] == x;
                            if k < q.len() {
                                assert(q[k] == x);
                            }
                        }
                    }
                    assert(p.to_set() =~= q.to_set().insert(Some(v)));
                    assert(p.to_set() =~= vs.to_set().remove(None));
                }
            },
            None => {
                assert(p.to_set() =~= vs.to_set().remove(None));
            },
        }
    }
    p.unique_seq_to_set();
    lemma_keys_after(e, vs);
}

/// Slots keep the order in which values were first seen: the starting pool
/// and the pool after any part of a run stay prefixes of the pool after all
/// of it, and each append adds a slot exactly when its value is non-null and
/// not yet stored, that slot holding it.
pub proof fn lemma_order_kept(seed: Seq<Option<Seq<u8>>>, vs: Seq<Option<Seq<u8>>>, n: int)
    requires
        0 <= n < vs.len(),
    ensures
        is_prefix(seed, pool_after(seed, vs)),
        is_prefix(pool_after(seed, vs.take(n)), pool_after(seed, vs)),
        pool_after(seed, vs.take(n + 1)) == (if vs[n] matches Some(v) && !pool_after(seed, vs.take(n)).contains(
            Some(v),
        ) {
            pool_after(seed, vs.take(n)).push(vs[n])
        } else {
            pool_after(seed, vs.take(n))
        }),
{
    lemma_pool_prefix(seed, vs, n);
    assert(vs.take(n + 1) =~= vs.take(n).push(vs[n]));
    lemma_pool_push(seed, vs.take(n), vs[n]);
}

/// Reading back the keys of a run of appends through the pool gives the
/// values appended, nulls in place, after what the keys already stood for.
pub proof fn lemma_round_trip(keys: Seq<Option<int>>, slots: Seq<Option<Seq<u8>>>, vs: Seq<Option<Seq<u8>>>)
    requires
        keys_in_range(keys, slots.len() as int),
    ensures
        decode(keys + keys_after(slots, vs), pool_after(slots, vs)) == decode(keys, slots) + vs,
{
    let p = pool_after(slots, vs);
    lemma_keys_after(slots, vs);
    let all = keys + keys_after(slots, vs);
    assert forall|t: int| 0 <= t < all.len() implies decode_key(#[trigger] all[t], p) == (decode(keys, slots) + vs)[t] by {
        if t < keys.len() {
            if let Some(i) = keys[t] {
                assert(p[i] == slots[i]);
            }
        } else {
            let s = t - keys.len();
            assert(all[t] == keys_after(slots, vs)[s]);
            if let Some(v) = vs[s] {
                assert(is_first_slot(p, slot_of(p, v), v));
            }
        }
    }
    assert(decode(all, p) =~= decode(keys, slots) + vs);
}

/// Appending a value `c` times in a row yields `c` copies of the key that a
/// single bulk append of it returns, and (for `c` at least 1) the same pool.
pub proof fn lemma_repeat_count(slots: Seq<Option<Seq<u8>>>, v: Seq<u8>, c: nat)
    ensures
        keys_after(slots, Seq::new(c, |_t: int| Some(v))) == repeat_key(
            Some(slot_of(insert_slot(slots, v), v)),
            c,
        ),
        c > 0 ==> pool_after(slots, Seq::new(c, |_t: int| Some(v))) == insert_slot(slots, v),
    decreases c,
{
    let vs = Seq::new(c, |_t: int| Some(v));
    if c == 0 {
        assert(keys_after(slots, vs) =~= repeat_key(Some(slot_of(insert_slot(slots, v), v)), c));
    } else {
        lemma_repeat_count(slots, v, (c - 1) as nat);
        let d = Seq::new((c - 1) as nat, |_t: int| Some(v));
        assert(vs.drop_last() =~= d);
        lemma_insert_slot(slots, v);
        if c > 1 {
            assert(insert_slot(insert_slot(slots, v), v) == insert_slot(slots, v));
        }
        assert(pool_after(slots, vs) == insert_slot(slots, v));
        assert(keys_after(slots, vs) =~= repeat_key(Some(slot_of(insert_slot(slots, v), v)), c));
    }
}

/// Distinct values appended to an empty pool get slots 0, 1, 2, ... in
/// order, so with key type capacity `cap` the appends of the first `cap`
/// succeed and every later one overflows.
pub proof fn lemma_distinct_slots(vs: Seq<Option<Seq<u8>>>, t: int)
    requires
        vs.no_duplicates(),
        forall|s: int| 0 <= s < vs.len() ==> #[trigger] vs[s] is Some,
        0 <= t < vs.len(),
    ensures
        pool_after(Seq::empty(), vs.take(t + 1)).len() == t + 1,
        slot_of(pool_after(Seq::empty(), vs.take(t + 1)), vs[t]->0) == t,
    decreases t,
{
    let e = Seq::<Option<Seq<u8>>>::empty();
    let v = vs[t]->0;
    assert(vs.take(t + 1) =~= vs.take(t).push(vs[t]));
    lemma_pool_push(e, vs.take(t), vs[t]);
    let p = pool_after(e, vs.take(t));
    if t > 0 {
        lemma_distinct_slots(vs, t - 1);
        assert(vs.take(t - 1 + 1) =~= vs.take(t));
    } else {
        assert(vs.take(0) =~= e);
    }
    lemma_dedup(vs.take(t));
    assert(!p.contains(Some(v))) by {
        if p.contains(Some(v)) {
            assert(p.to_set().contains(Some(v)));
            assert(vs.take(t).to_set().contains(Some(v)));
            let k = choose|k: int| 0 <= k < t && vs.take(t)[k] == Some(v);
            assert(vs[k] == vs[t]);
        }
    }
    lemma_insert_slot(p, v);
}

/// A value that already got a key keeps it: appending it again adds no
/// slot and yields the same slot, whatever was appended in between.
pub proof fn lemma_repeat_keeps_key(slots: Seq<Option<Seq<u8>>>, v: Seq<u8>, between: Seq<Option<Seq<u8>>>)
    requires
        slots.contains(Some(v)),
    ensures
        insert_slot(pool_after(slots, between), v) == pool_after(slots, between),
        slot_of(pool_after(slots, between), v) == slot_of(slots, v),
{
    lemma_keys_after(slots, between);
    crate::model::lemma_prefix_first(slots, pool_after(slots, between), v);
}

/// Merging an encoded dictionary gives the same rows as appending, one at
/// a time, the values its keys stand for: after what the builder held, the
/// dictionary's own rows, nulls in place.
pub proof fn lemma_merge_matches_replay(
    keys: Seq<Option<int>>,
    slots: Seq<Option<Seq<u8>>>,
    src_keys: Seq<Option<int>>,
    src: Seq<Option<Seq<u8>>>,
)
    requires
        keys_in_range(keys, slots.len() as int),
        keys_in_range(src_keys, src.len() as int),
        src.len() <= usize::MAX,
    ensures
        decode(keys + remap_keys(src_keys, src, pool_after(slots, src)), pool_after(slots, src)) == decode(
            keys + keys_after(slots, decode(src_keys, src)),
            pool_after(slots, decode(src_keys, src)),
        ),
        decode(keys + remap_keys(src_keys, src, pool_after(slots, src)), pool_after(slots, src)) == decode(
            keys,
            slots,
        ) + decode(src_keys, src),
{
    let p = pool_after(slots, src);
    lemma_keys_after(slots, src);
    lemma_round_trip(keys, slots, decode(src_keys, src));
    let all = keys + remap_keys(src_keys, src, p);
    let want = decode(keys, slots) + decode(src_keys, src);
    assert forall|t: int| 0 <= t < all.len() implies decode_key(#[trigger] all[t], p) == want[t] by {
        if t < keys.len() {
            if let Some(i) = keys[t] {
                assert(p[i] == slots[i]);
            }
        } else {
            let s = t - keys.len();
            assert(all[t] == remap_key(src_keys[s], src, p));
            if let Some(i) = src_keys[s] {
                assert(0 <= i < src.len());
                if let Some(v) = src[i] {
                    assert(is_first_slot(p, slot_of(p, v), v));
                }
            }
        }
    }
    assert(decode(all, p) =~= want);
}

} // verus!
