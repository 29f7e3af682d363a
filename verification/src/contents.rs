//! The table as a map: where its pairs stand, and what insertions and
//! lookups make of that.
//!
//! A pair is settled when it stands in the bucket at which an insertion of
//! its key would end. A table in which every pair is settled holds no key
//! twice and finds every pair it holds, so it can be read as a map from keys
//! to values.

use crate::slots::{
    ends_at, holds, insert_result, insert_slots, landing, lemma_first_end, lemma_first_end_is,
    lookup, sighting, Error,
};
use vstd::prelude::*;

verus! {

/// Slot `at` holds a pair, and an insertion of its key would end there: the
/// pair stands where its key is looked for first.
pub open spec fn settled_at<K, V>(
    slots: Seq<Option<(K, V)>>,
    walks: spec_fn(K) -> Seq<usize>,
    at: int,
) -> bool {
    let key = (slots[at]->0).0;
    &&& 0 <= at < slots.len()
    &&& slots[at] is Some
    &&& landing(slots, walks(key), key) is Some
    &&& walks(key)[landing(slots, walks(key), key)->0] == at
}

/// Every pair stands where an insertion of its key would end, `walks`
/// giving each key's walk.
pub open spec fn all_settled<K, V>(
    slots: Seq<Option<(K, V)>>,
    walks: spec_fn(K) -> Seq<usize>,
) -> bool {
    forall|at: int|
        0 <= at < slots.len() && slots[at] is Some ==> #[trigger] settled_at(slots, walks, at)
}

/// The pairs in the slots, as a map from key to value.
pub open spec fn contents<K, V>(slots: Seq<Option<(K, V)>>) -> Map<K, V> {
    Map::new(
        |key: K| exists|at: int| holds(slots, at, key),
        |key: K| (slots[choose|at: int| holds(slots, at, key)]->0).1,
    )
}

/// An insertion touches no slot that holds a pair, and leaves the number of
/// slots as it is: pairs are never overwritten or removed.
pub proof fn lemma_insert_keeps_pairs<K, V>(
    slots: Seq<Option<(K, V)>>,
    walk: Seq<usize>,
    key: K,
    value: V,
)
    ensures
        insert_slots(slots, walk, key, value).len() == slots.len(),
        forall|at: int|
            0 <= at < slots.len() && slots[at] is Some ==> #[trigger] insert_slots(
                slots,
                walk,
                key,
                value,
            )[at] == slots[at],
{
    lemma_first_end(slots, walk, key, true);
}

/// Insertions keep every pair where its key is looked for first.
pub proof fn lemma_insert_keeps_settled<K, V>(
    slots: Seq<Option<(K, V)>>,
    walks: spec_fn(K) -> Seq<usize>,
    key: K,
    value: V,
)
    requires
        all_settled(slots, walks),
    ensures
        all_settled(insert_slots(slots, walks(key), key, value), walks),
{
    let walk = walks(key);
    let after = insert_slots(slots, walk, key, value);
    lemma_first_end(slots, walk, key, true);
    if insert_result(slots, walk, key) is Ok {
        let p = landing(slots, walk, key)->0;
        let at = walk[p] as int;
        assert forall|b: int| 0 <= b < after.len() && after[b] is Some implies #[trigger] settled_at(
            after,
            walks,
            b,
        ) by {
            if b == at {
                assert forall|q: int| 0 <= q < p implies !#[trigger] ends_at(
                    after,
                    walk,
                    key,
                    true,
                    q,
                ) by {
                    assert(!ends_at(slots, walk, key, true, q));
                }
                assert(ends_at(after, walk, key, true, p));
                lemma_first_end_is(after, walk, key, true, p);
            } else {
                let k = (slots[b]->0).0;
                let w = walks(k);
                assert(settled_at(slots, walks, b));
                lemma_first_end(slots, w, k, true);
                let pb = landing(slots, w, k)->0;
                assert forall|q: int| 0 <= q < pb implies !#[trigger] ends_at(
                    after,
                    w,
                    k,
                    true,
                    q,
                ) by {
                    assert(!ends_at(slots, w, k, true, q));
                }
                assert(ends_at(after, w, k, true, pb));
                lemma_first_end_is(after, w, k, true, pb);
            }
        }
    }
}

/// Where every pair is settled, no key stands in two slots.
pub proof fn lemma_settled_key_once<K, V>(
    slots: Seq<Option<(K, V)>>,
    walks: spec_fn(K) -> Seq<usize>,
    key: K,
    a: int,
    b: int,
)
    requires
        all_settled(slots, walks),
        holds(slots, a, key),
        holds(slots, b, key),
    ensures
        a == b,
{
    assert(settled_at(slots, walks, a));
    assert(settled_at(slots, walks, b));
}

/// Where every pair is settled, a lookup finds exactly the pairs that the
/// slots hold: the value of a key that stands in a slot, nothing for a key
/// that stands in none.
pub proof fn lemma_lookup_is_contents<K, V>(
    slots: Seq<Option<(K, V)>>,
    walks: spec_fn(K) -> Seq<usize>,
    key: K,
)
    requires
        all_settled(slots, walks),
    ensures
        lookup(slots, walks(key), key) == if contents(slots).contains_key(key) {
            Some(contents(slots)[key])
        } else {
            None
        },
{
    let walk = walks(key);
    lemma_first_end(slots, walk, key, false);
    if contents(slots).contains_key(key) {
        let at = choose|at: int| holds(slots, at, key);
        assert(settled_at(slots, walks, at));
        lemma_first_end(slots, walk, key, true);
        let p = landing(slots, walk, key)->0;
        assert forall|q: int| 0 <= q < p implies !#[trigger] ends_at(slots, walk, key, false, q) by {
            assert(!ends_at(slots, walk, key, true, q));
        }
        assert(ends_at(slots, walk, key, false, p));
        lemma_first_end_is(slots, walk, key, false, p);
    } else {
        if sighting(slots, walk, key) is Some {
            let p = sighting(slots, walk, key)->0;
            assert(holds(slots, walk[p] as int, key));
        }
    }
}

/// Where every pair is settled, an insertion treats the slots as a map: it
/// reports `KeyAlreadyInserted` exactly for a key that the map has, and a
/// successful one adds its pair to the map and changes nothing else.
pub proof fn lemma_insert_is_contents<K, V>(
    slots: Seq<Option<(K, V)>>,
    walks: spec_fn(K) -> Seq<usize>,
    key: K,
    value: V,
)
    requires
        all_settled(slots, walks),
    ensures
        insert_result(slots, walks(key), key) == Err::<(), Error>(Error::KeyAlreadyInserted)
            <==> contents(slots).contains_key(key),
        contents(insert_slots(slots, walks(key), key, value)) == if insert_result(
            slots,
            walks(key),
            key,
        ) is Ok {
            contents(slots).insert(key, value)
        } else {
            contents(slots)
        },
{
    let walk = walks(key);
    let after = insert_slots(slots, walk, key, value);
    lemma_first_end(slots, walk, key, true);
    if contents(slots).contains_key(key) {
        let at = choose|at: int| holds(slots, at, key);
        assert(settled_at(slots, walks, at));
    }
    if insert_result(slots, walk, key) is Ok {
        let p = landing(slots, walk, key)->0;
        let at = walk[p] as int;
        lemma_insert_keeps_settled(slots, walks, key, value);
        assert forall|k: K| #[trigger]
            contents(after).contains_key(k) == contents(slots).insert(key, value).contains_key(
                k,
            ) by {
            if contents(after).contains_key(k) {
                let b = choose|b: int| holds(after, b, k);
                if b != at {
                    assert(holds(slots, b, k));
                }
            }
            if contents(slots).contains_key(k) {
                let b = choose|b: int| holds(slots, b, k);
                assert(holds(after, b, k));
            }
            if k == key {
                assert(holds(after, at, k));
            }
        }
        assert forall|k: K| #[trigger] contents(after).contains_key(k) implies contents(after)[k]
            == contents(slots).insert(key, value)[k] by {
            let b = choose|b: int| holds(after, b, k);
            if k == key {
                assert(holds(after, at, k));
                lemma_settled_key_once(after, walks, k, at, b);
            } else {
                assert(holds(slots, b, k));
                let c = choose|c: int| holds(slots, c, k);
                lemma_settled_key_once(slots, walks, k, b, c);
            }
        }
        assert(contents(after) =~= contents(slots).insert(key, value));
    }
}

} // verus!
