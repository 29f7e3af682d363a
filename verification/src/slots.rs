//! The table's buckets as a sequence of slots, and what a walk over them
//! finds.
//!
//! A walk is the ordered list of bucket indices tried for one key. Insertion
//! and lookup follow the same walk: an insertion ends at the first slot that
//! is empty or holds the key, a lookup at the first slot that holds the key.
//! An index that names no slot ends neither.

use crate::key::TableKey;
use vstd::prelude::*;

verus! {

/// Why an insertion did not store its pair.
#[derive(Clone, Copy, Debug, PartialEq, Eq, Structural)]
pub enum Error {
    /// The key is in the table already.
    KeyAlreadyInserted,
    /// Every bucket tried for the key holds another key.
    TableFull,
}

/// Slot `at` exists and is empty.
pub open spec fn vacant<K, V>(slots: Seq<Option<(K, V)>>, at: int) -> bool {
    0 <= at < slots.len() && slots[at] is None
}

/// Slot `at` exists and holds `key`.
pub open spec fn holds<K, V>(slots: Seq<Option<(K, V)>>, at: int, key: K) -> bool {
    0 <= at < slots.len() && (slots[at] matches Some(pair) && pair.0 == key)
}

/// Whether the walk of `key` ends at its position `p`: there it meets the
/// key, or, when inserting, an empty slot.
pub open spec fn ends_at<K, V>(
    slots: Seq<Option<(K, V)>>,
    walk: Seq<usize>,
    key: K,
    inserting: bool,
    p: int,
) -> bool {
    0 <= p < walk.len() && (holds(slots, walk[p] as int, key) || (inserting && vacant(
        slots,
        walk[p] as int,
    )))
}

/// Position `p` is where the walk of `key` ends first.
pub open spec fn is_first_end<K, V>(
    slots: Seq<Option<(K, V)>>,
    walk: Seq<usize>,
    key: K,
    inserting: bool,
    p: int,
) -> bool {
    &&& ends_at(slots, walk, key, inserting, p)
    &&& forall|q: int| 0 <= q < p ==> !#[trigger] ends_at(slots, walk, key, inserting, q)
}

/// The position at which the walk of `key` ends first, if it ends at all.
pub open spec fn first_end<K, V>(
    slots: Seq<Option<(K, V)>>,
    walk: Seq<usize>,
    key: K,
    inserting: bool,
) -> Option<int> {
    if exists|p: int| is_first_end(slots, walk, key, inserting, p) {
        Some(choose|p: int| is_first_end(slots, walk, key, inserting, p))
    } else {
        None
    }
}

/// Where an insertion of `key` ends: the first position of the walk whose
/// slot is empty or holds `key`.
pub open spec fn landing<K, V>(slots: Seq<Option<(K, V)>>, walk: Seq<usize>, key: K) -> Option<
    int,
> {
    first_end(slots, walk, key, true)
}

/// Where a lookup of `key` ends: the first position of the walk whose slot
/// holds `key`.
pub open spec fn sighting<K, V>(slots: Seq<Option<(K, V)>>, walk: Seq<usize>, key: K) -> Option<
    int,
> {
    first_end(slots, walk, key, false)
}

/// What an insertion of `key` along `walk` reports: success if the walk ends
/// at an empty slot, a duplicate if it ends at the key, a full table if it
/// does not end.
pub open spec fn insert_result<K, V>(slots: Seq<Option<(K, V)>>, walk: Seq<usize>, key: K) -> Result<
    (),
    Error,
> {
    match landing(slots, walk, key) {
        Some(p) => if vacant(slots, walk[p] as int) {
            Ok(())
        } else {
            Err(Error::KeyAlreadyInserted)
        },
        None => Err(Error::TableFull),
    }
}

/// The slots after an insertion of `key` with `value` along `walk`: the pair
/// stands in the empty slot at which the walk ended; if it ended elsewhere or
/// not at all, nothing has changed.
pub open spec fn insert_slots<K, V>(
    slots: Seq<Option<(K, V)>>,
    walk: Seq<usize>,
    key: K,
    value: V,
) -> Seq<Option<(K, V)>> {
    match landing(slots, walk, key) {
        Some(p) => if vacant(slots, walk[p] as int) {
            slots.update(walk[p] as int, Some((key, value)))
        } else {
            slots
        },
        None => slots,
    }
}

/// The slots after the insertions of `pairs`, one after the other, each
/// key along its walk.
pub open spec fn insert_all<K, V>(
    slots: Seq<Option<(K, V)>>,
    walks: spec_fn(K) -> Seq<usize>,
    pairs: Seq<(K, V)>,
) -> Seq<Option<(K, V)>>
    decreases pairs.len(),
{
    if pairs.len() == 0 {
        slots
    } else {
        let pair = pairs.last();
        insert_slots(insert_all(slots, walks, pairs.drop_last()), walks(pair.0), pair.0, pair.1)
    }
}

/// What a lookup of `key` along `walk` gives: the value in the first slot on
/// the walk that holds `key`.
pub open spec fn lookup<K, V>(slots: Seq<Option<(K, V)>>, walk: Seq<usize>, key: K) -> Option<V> {
    match sighting(slots, walk, key) {
        Some(p) => Some((slots[walk[p] as int]->0).1),
        None => None,
    }
}

/// A bucket's content with the key taken by its view.
pub open spec fn slot_of<K: View, V>(bucket: Option<(K, V)>) -> Option<(K::V, V)> {
    match bucket {
        Some(pair) => Some((pair.0@, pair.1)),
        None => None,
    }
}

/// The contents of a row of buckets, the keys taken by their views.
pub open spec fn slots_of<K: View, V>(buckets: Seq<Option<(K, V)>>) -> Seq<Option<(K::V, V)>> {
    Seq::new(buckets.len(), |at: int| slot_of(buckets[at]))
}

/// Tries the buckets that `probes` names, in order, and gives the position
/// in `probes` of the first that holds `key` or, when `inserting`, is empty.
/// A probe that names no bucket is passed over.
pub fn find_end<K: TableKey, V>(
    buckets: &Vec<Option<(K, V)>>,
    probes: &Vec<usize>,
    key: &K,
    inserting: bool,
) -> (found: Option<usize>)
    ensures
        found == match first_end(slots_of(buckets@), probes@, key@, inserting) {
            Some(p) => Some(p as usize),
            None => None,
        },
{
    let ghost slots = slots_of(buckets@);
    let mut j: usize = 0;
    while j < probes.len()
        invariant
            slots == slots_of(buckets@),
            j <= probes@.len(),
            forall|q: int| 0 <= q < j ==> !#[trigger] ends_at(slots, probes@, key@, inserting, q),
        decreases probes@.len() - j,
    {
        let at: usize = probes[j];
        if at < buckets.len() {
            let ends: bool = match &buckets[at] {
                Some(pair) => pair.0.same_key(key),
                None => inserting,
            };
            if ends {
                proof {
                    lemma_first_end_is(slots, probes@, key@, inserting, j as int);
                }
                return Some(j);
            }
        }
        j = j + 1;
    }
    proof {
        lemma_first_end(slots, probes@, key@, inserting);
    }
    None
}

/// A walk ends first at one position only.
pub proof fn lemma_first_end_is<K, V>(
    slots: Seq<Option<(K, V)>>,
    walk: Seq<usize>,
    key: K,
    inserting: bool,
    p: int,
)
    requires
        is_first_end(slots, walk, key, inserting, p),
    ensures
        first_end(slots, walk, key, inserting) == Some(p),
{
    let chosen = choose|c: int| is_first_end(slots, walk, key, inserting, c);
    assert(is_first_end(slots, walk, key, inserting, chosen));
    if chosen < p {
        assert(ends_at(slots, walk, key, inserting, chosen));
    } else if p < chosen {
        assert(ends_at(slots, walk, key, inserting, p));
    }
}

/// A walk that ends somewhere ends first somewhere.
pub proof fn lemma_first_end_exists<K, V>(
    slots: Seq<Option<(K, V)>>,
    walk: Seq<usize>,
    key: K,
    inserting: bool,
    q: int,
)
    requires
        ends_at(slots, walk, key, inserting, q),
    ensures
        first_end(slots, walk, key, inserting) is Some,
        first_end(slots, walk, key, inserting)->0 <= q,
    decreases q,
{
    if exists|e: int| 0 <= e < q && ends_at(slots, walk, key, inserting, e) {
        let e = choose|e: int| 0 <= e < q && ends_at(slots, walk, key, inserting, e);
        lemma_first_end_exists(slots, walk, key, inserting, e);
    } else {
        assert(is_first_end(slots, walk, key, inserting, q));
        lemma_first_end_is(slots, walk, key, inserting, q);
    }
}

/// What [`first_end`] gives: a position at which the walk ends first, or
/// nothing when it ends nowhere.
pub proof fn lemma_first_end<K, V>(
    slots: Seq<Option<(K, V)>>,
    walk: Seq<usize>,
    key: K,
    inserting: bool,
)
    ensures
        match first_end(slots, walk, key, inserting) {
            Some(p) => is_first_end(slots, walk, key, inserting, p),
            None => forall|q: int| !#[trigger] ends_at(slots, walk, key, inserting, q),
        },
{
    if first_end(slots, walk, key, inserting) is None {
        assert forall|q: int| !#[trigger] ends_at(slots, walk, key, inserting, q) by {
            if ends_at(slots, walk, key, inserting, q) {
                lemma_first_end_exists(slots, walk, key, inserting, q);
            }
        }
    }
}

/// A walk that has not ended before position `offset`, and goes on from
/// there with the stretch `part`, ends first where `part` does; if `part`
/// does not end, the walk has not ended before the end of the stretch.
pub proof fn lemma_first_end_in_stretch<K, V>(
    slots: Seq<Option<(K, V)>>,
    walk: Seq<usize>,
    part: Seq<usize>,
    key: K,
    inserting: bool,
    offset: int,
)
    requires
        0 <= offset,
        offset + part.len() <= walk.len(),
        walk.subrange(offset, offset + part.len()) == part,
        forall|q: int| 0 <= q < offset ==> !#[trigger] ends_at(slots, walk, key, inserting, q),
    ensures
        match first_end(slots, part, key, inserting) {
            Some(j) => first_end(slots, walk, key, inserting) == Some(offset + j),
            None => forall|q: int|
                0 <= q < offset + part.len() ==> !#[trigger] ends_at(
                    slots,
                    walk,
                    key,
                    inserting,
                    q,
                ),
        },
{
    lemma_first_end(slots, part, key, inserting);
    assert forall|q: int| offset <= q < offset + part.len() implies ends_at(
        slots,
        walk,
        key,
        inserting,
        q,
    ) == ends_at(slots, part, key, inserting, q - offset) by {
        assert(part[q - offset] == walk[q]);
    }
    match first_end(slots, part, key, inserting) {
        Some(j) => {
            assert forall|q: int| 0 <= q < offset + j implies !#[trigger] ends_at(
                slots,
                walk,
                key,
                inserting,
                q,
            ) by {
                if q >= offset {
                    assert(!ends_at(slots, part, key, inserting, q - offset));
                }
            }
            lemma_first_end_is(slots, walk, key, inserting, offset + j);
        },
        None => {
            assert forall|q: int| 0 <= q < offset + part.len() implies !#[trigger] ends_at(
                slots,
                walk,
                key,
                inserting,
                q,
            ) by {
                if q >= offset {
                    assert(!ends_at(slots, part, key, inserting, q - offset));
                }
            }
        },
    }
}

/// Insert/lookup agreement: a key that was inserted with success is found,
/// with its value, by a lookup along the same walk.
pub proof fn lemma_lookup_after_insert<K, V>(
    slots: Seq<Option<(K, V)>>,
    walk: Seq<usize>,
    key: K,
    value: V,
)
    requires
        insert_result(slots, walk, key) is Ok,
    ensures
        lookup(insert_slots(slots, walk, key, value), walk, key) == Some(value),
{
    lemma_first_end(slots, walk, key, true);
    let p = landing(slots, walk, key)->0;
    let after = insert_slots(slots, walk, key, value);
    assert forall|q: int| 0 <= q < p implies !#[trigger] ends_at(after, walk, key, false, q) by {
        assert(!ends_at(slots, walk, key, true, q));
    }
    assert(ends_at(after, walk, key, false, p));
    lemma_first_end_is(after, walk, key, false, p);
}

/// An insertion changes no lookup of another key: whatever it reports, what
/// a lookup of a key other than the inserted one gives stays as it was.
pub proof fn lemma_lookup_survives_insert<K, V>(
    slots: Seq<Option<(K, V)>>,
    walk: Seq<usize>,
    key: K,
    other_walk: Seq<usize>,
    other: K,
    other_value: V,
)
    requires
        other != key,
    ensures
        lookup(insert_slots(slots, other_walk, other, other_value), walk, key) == lookup(
            slots,
            walk,
            key,
        ),
{
    let after = insert_slots(slots, other_walk, other, other_value);
    lemma_first_end(slots, other_walk, other, true);
    assert forall|q: int|
        ends_at(after, walk, key, false, q) == ends_at(slots, walk, key, false, q) by {}
    lemma_first_end(slots, walk, key, false);
    lemma_first_end(after, walk, key, false);
    match sighting(slots, walk, key) {
        Some(p) => {
            assert forall|q: int| 0 <= q < p implies !#[trigger] ends_at(
                after,
                walk,
                key,
                false,
                q,
            ) by {
                assert(!ends_at(slots, walk, key, false, q));
            }
            assert(ends_at(after, walk, key, false, p));
            lemma_first_end_is(after, walk, key, false, p);
        },
        None => {
            if sighting(after, walk, key) is Some {
                let p = sighting(after, walk, key)->0;
                assert(ends_at(slots, walk, key, false, p));
            }
        },
    }
}

/// Insert/lookup agreement over time: a key that was inserted with success
/// is still found, with the same value, after the insertion of any number of
/// pairs with other keys.
pub proof fn lemma_lookup_survives_inserts<K, V>(
    slots: Seq<Option<(K, V)>>,
    walks: spec_fn(K) -> Seq<usize>,
    key: K,
    value: V,
    others: Seq<(K, V)>,
)
    requires
        insert_result(slots, walks(key), key) is Ok,
        forall|i: int| 0 <= i < others.len() ==> others[i].0 != key,
    ensures
        lookup(
            insert_all(insert_slots(slots, walks(key), key, value), walks, others),
            walks(key),
            key,
        ) == Some(value),
    decreases others.len(),
{
    if others.len() == 0 {
        lemma_lookup_after_insert(slots, walks(key), key, value);
    } else {
        let pair = others.last();
        lemma_lookup_survives_inserts(slots, walks, key, value, others.drop_last());
        lemma_lookup_survives_insert(
            insert_all(insert_slots(slots, walks(key), key, value), walks, others.drop_last()),
            walks(key),
            key,
            walks(pair.0),
            pair.0,
            pair.1,
        );
    }
}

/// No overwrite on duplicate: when an insertion of a key has found room or
/// the key itself, a second insertion of the key reports
/// `KeyAlreadyInserted` and changes nothing, so that the value found for the
/// key stays the one of the first.
pub proof fn lemma_insert_twice<K, V>(
    slots: Seq<Option<(K, V)>>,
    walk: Seq<usize>,
    key: K,
    value: V,
    again: V,
)
    requires
        insert_result(slots, walk, key) != Err::<(), Error>(Error::TableFull),
    ensures
        ({
            let once = insert_slots(slots, walk, key, value);
            &&& insert_result(once, walk, key) == Err::<(), Error>(Error::KeyAlreadyInserted)
            &&& insert_slots(once, walk, key, again) == once
            &&& lookup(once, walk, key) is Some
            &&& insert_result(slots, walk, key) is Ok ==> lookup(once, walk, key) == Some(value)
        }),
{
    lemma_first_end(slots, walk, key, true);
    let p = landing(slots, walk, key)->0;
    let once = insert_slots(slots, walk, key, value);
    assert forall|q: int| 0 <= q < p implies !#[trigger] ends_at(once, walk, key, true, q) by {
        assert(!ends_at(slots, walk, key, true, q));
    }
    assert(ends_at(once, walk, key, true, p));
    lemma_first_end_is(once, walk, key, true, p);
    assert forall|q: int| 0 <= q < p implies !#[trigger] ends_at(once, walk, key, false, q) by {
        assert(!ends_at(slots, walk, key, true, q));
    }
    assert(ends_at(once, walk, key, false, p));
    lemma_first_end_is(once, walk, key, false, p);
}

/// Full-table rejection: when every bucket on the walk of a key holds
/// another key, an insertion of the key reports `TableFull` and changes
/// nothing.
pub proof fn lemma_insert_into_full_walk<K, V>(
    slots: Seq<Option<(K, V)>>,
    walk: Seq<usize>,
    key: K,
    value: V,
)
    requires
        forall|p: int|
            0 <= p < walk.len() ==> !vacant(slots, #[trigger] walk[p] as int) && !holds(
                slots,
                walk[p] as int,
                key,
            ),
    ensures
        insert_result(slots, walk, key) == Err::<(), Error>(Error::TableFull),
        insert_slots(slots, walk, key, value) == slots,
{
    lemma_first_end(slots, walk, key, true);
    if landing(slots, walk, key) is Some {
        let p = landing(slots, walk, key)->0;
        assert(ends_at(slots, walk, key, true, p));
        assert(!vacant(slots, walk[p] as int));
    }
}

/// An insertion reports `TableFull` only when every bucket on the key's walk
/// holds another key.
pub proof fn lemma_table_full_means_full_walk<K, V>(
    slots: Seq<Option<(K, V)>>,
    walk: Seq<usize>,
    key: K,
)
    requires
        insert_result(slots, walk, key) == Err::<(), Error>(Error::TableFull),
    ensures
        forall|p: int|
            0 <= p < walk.len() ==> !vacant(slots, #[trigger] walk[p] as int) && !holds(
                slots,
                walk[p] as int,
                key,
            ),
{
    lemma_first_end(slots, walk, key, true);
    assert forall|p: int| 0 <= p < walk.len() implies !vacant(slots, #[trigger] walk[p] as int)
        && !holds(slots, walk[p] as int, key) by {
        assert(!ends_at(slots, walk, key, true, p));
    }
}

} // verus!
