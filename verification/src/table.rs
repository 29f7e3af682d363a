//! The table: construction, insertion and lookup.

use crate::contents::{
    all_settled, contents, lemma_insert_is_contents, lemma_insert_keeps_settled,
    lemma_lookup_is_contents,
};
use crate::key::TableKey;
use crate::partition::{
    ceil_log2, ceil_log2_of, chunk_of, lemma_partition_entries_positive, lemma_partition_len,
    lemma_partition_total, partition_from, partition_of, total,
};
use crate::probe::{draw_probes, lemma_walk_round, probe_indices, probe_walk, PROBE_LIMIT};
use crate::slots::{
    ends_at, find_end, first_end, insert_result, insert_slots, lemma_first_end,
    lemma_first_end_in_stretch, lookup, slots_of, Error,
};
use vstd::prelude::*;

verus! {

/// A hash table of fixed capacity. Its buckets are split into sub-arrays of
/// shrinking size; a key is looked for along one probe sequence per
/// sub-array. Pairs are never overwritten or removed.
#[derive(Debug)]
pub struct ElasticHashTable<K: TableKey, V> {
    buckets: Vec<Option<(K, V)>>,
    size: usize,
    arrays: Vec<usize>,
}

/// Puts `item` in place `at` of `row`, in place of what stood there.
fn store<T>(row: &mut Vec<T>, at: usize, item: T)
    requires
        at < old(row)@.len(),
    ensures
        final(row)@ == old(row)@.update(at as int, item),
    no_unwind
{
    row[at] = item;
}

/// The walks of all keys over a table with `capacity` buckets and `rounds`
/// sub-arrays.
pub open spec fn walks_of<K: TableKey>(capacity: usize, rounds: nat) -> spec_fn(K::V) -> Seq<
    usize,
> {
    |key: K::V| probe_walk(K::spec_digest(key), capacity, rounds)
}

impl<K: TableKey, V> View for ElasticHashTable<K, V> {
    type V = Map<K::V, V>;

    /// The pairs in the table, as a map from a key's view to its value.
    open spec fn view(&self) -> Map<K::V, V> {
        contents(self.slots())
    }
}

impl<K: TableKey, V> ElasticHashTable<K, V> {
    /// The buckets, each empty or holding a key's view and a value.
    pub closed spec fn slots(&self) -> Seq<Option<(K::V, V)>> {
        slots_of(self.buckets@)
    }

    /// The sizes of the sub-arrays, in order.
    pub closed spec fn partition(&self) -> Seq<usize> {
        self.arrays@
    }

    /// The number of buckets.
    pub open spec fn capacity(&self) -> usize {
        self.slots().len() as usize
    }

    /// The walk of a key over this table: its probe sequences in the
    /// sub-arrays, one after the other.
    pub open spec fn walk(&self, key: K::V) -> Seq<usize> {
        probe_walk(K::spec_digest(key), self.capacity(), self.partition().len())
    }

    /// The walks of all keys over this table.
    pub open spec fn walks(&self) -> spec_fn(K::V) -> Seq<usize> {
        walks_of::<K>(self.capacity(), self.partition().len())
    }

    /// What holds of every table: it has as many buckets as it was made
    /// with, at least one; its partition is the one of that many buckets;
    /// and every pair stands in the bucket where its key is looked for first.
    #[verifier::type_invariant]
    pub closed spec fn wf(&self) -> bool {
        &&& self.size > 0
        &&& self.buckets@.len() == self.size
        &&& self.arrays@.map_values(|c: usize| c as nat) == partition_of(self.size as nat)
        &&& all_settled(self.slots(), self.walks())
    }

    /// What the invariant says of the buckets and the partition: there is at
    /// least one bucket, the partition is the one of that many buckets, and
    /// every pair is settled.
    pub proof fn lemma_wf(&self)
        requires
            self.wf(),
        ensures
            self.capacity() > 0,
            self.slots().len() == self.capacity(),
            self.partition().map_values(|c: usize| c as nat) == partition_of(
                self.capacity() as nat,
            ),
            all_settled(self.slots(), self.walks()),
    {
    }

    /// Creates an empty table with `size` buckets.
    pub fn new(size: usize) -> (table: Self)
        requires
            size > 0,
        ensures
            table.capacity() == size,
            table.slots() == Seq::new(size as nat, |at: int| None::<(K::V, V)>),
            table.partition().map_values(|c: usize| c as nat) == partition_of(size as nat),
            table@ == Map::<K::V, V>::empty(),
    {
        let mut buckets: Vec<Option<(K, V)>> = Vec::new();
        let mut made: usize = 0;
        while made < size
            invariant
                made <= size,
                buckets@.len() == made,
                forall|at: int| 0 <= at < made ==> buckets@[at] is None,
            decreases size - made,
        {
            buckets.push(None);
            made = made + 1;
        }
        let arrays = Self::initialize_arrays(size);
        proof {
            let slots = slots_of(buckets@);
            assert(slots =~= Seq::new(size as nat, |at: int| None::<(K::V, V)>));
            assert(contents(slots) =~= Map::<K::V, V>::empty());
        }
        Self { buckets, size, arrays }
    }

    /// Partitions `size` buckets into sub-arrays of shrinking size: each takes
    /// half of what remains, rounded down, but at least one bucket. Cutting
    /// stops when nothing remains or when the count of sub-arrays has reached
    /// the base-two logarithm of `size`, rounded up.
    pub fn initialize_arrays(size: usize) -> (arrays: Vec<usize>)
        requires
            size > 0,
        ensures
            arrays@.map_values(|c: usize| c as nat) == partition_of(size as nat),
            forall|i: int| 0 <= i < arrays@.len() ==> arrays@[i] >= 1,
            arrays@.len() == if size == 1 {
                1
            } else {
                ceil_log2(size as nat)
            },
            total(arrays@.map_values(|c: usize| c as nat)) == if size == 1 {
                1
            } else {
                size - 1
            },
    {
        proof {
            lemma_partition_entries_positive(size as nat);
            lemma_partition_len(size as nat);
            lemma_partition_total(size as nat);
        }
        let max_iterations: usize = ceil_log2_of(size);
        let mut arrays: Vec<usize> = Vec::new();
        let mut remaining: usize = size;
        let mut i: usize = 0;
        loop
            invariant_except_break
                remaining >= 1,
                i == arrays@.len(),
                i < size,
                remaining + i <= size,
                max_iterations == ceil_log2(size as nat),
                partition_of(size as nat) == arrays@.map_values(|c: usize| c as nat)
                    + partition_from(remaining as nat, i as nat, max_iterations as nat),
            ensures
                arrays@.map_values(|c: usize| c as nat) == partition_of(size as nat),
            decreases remaining,
        {
            let chunk: usize = if remaining / 2 >= 1 {
                remaining / 2
            } else {
                1
            };
            let ghost before = arrays@.map_values(|c: usize| c as nat);
            arrays.push(chunk);
            assert(arrays@.map_values(|c: usize| c as nat) =~= before + seq![chunk as nat]);
            assert(chunk as nat == chunk_of(remaining as nat));
            if remaining <= chunk || i + 1 >= max_iterations {
                break ;
            }
            assert(before + seq![chunk as nat] + partition_from(
                (remaining - chunk) as nat,
                (i + 1) as nat,
                max_iterations as nat,
            ) =~= before + (seq![chunk as nat] + partition_from(
                (remaining - chunk) as nat,
                (i + 1) as nat,
                max_iterations as nat,
            )));
            remaining = remaining - chunk;
            i = i + 1;
        }
        assert forall|i: int| 0 <= i < arrays@.len() implies arrays@[i] >= 1 by {
            assert(arrays@[i] as nat == arrays@.map_values(|c: usize| c as nat)[i]);
        }
        arrays
    }

    /// The probe sequence of `key` in sub-array `i`: `PROBE_LIMIT` bucket
    /// indices, a function of the key, of `i` and of the table's capacity
    /// alone, so that two calls with the same arguments agree.
    pub fn probe_sequence(&self, key: &K, i: usize) -> (probes: Vec<usize>)
        ensures
            probes@ == probe_indices(K::spec_digest(key@), i, self.capacity()),
            probes@.len() == PROBE_LIMIT,
            forall|j: int| 0 <= j < probes@.len() ==> probes@[j] < self.capacity(),
    {
        proof {
            use_type_invariant(self);
        }
        draw_probes(key.digest(), i, self.size)
    }

    /// Follows the walk of `key` to its first end: the first bucket on it
    /// that holds `key` or, when `inserting`, is empty. Where the walk does
    /// not end, all of it was tried and names buckets of the table.
    fn search(&self, key: &K, inserting: bool) -> (found: Option<usize>)
        ensures
            match first_end(self.slots(), self.walk(key@), key@, inserting) {
                Some(p) => found == Some(self.walk(key@)[p]) && self.walk(key@)[p]
                    < self.capacity(),
                None => found is None && forall|q: int|
                    0 <= q < self.walk(key@).len() ==> #[trigger] self.walk(key@)[q]
                        < self.capacity(),
            },
    {
        proof {
            use_type_invariant(self);
        }
        let rounds: usize = self.arrays.len();
        let ghost slots = self.slots();
        let ghost walk = self.walk(key@);
        let mut i: usize = 0;
        while i < rounds
            invariant
                self.wf(),
                slots == self.slots(),
                walk == self.walk(key@),
                rounds == self.arrays@.len(),
                i <= rounds,
                forall|q: int|
                    0 <= q < i * PROBE_LIMIT ==> !#[trigger] ends_at(
                        slots,
                        walk,
                        key@,
                        inserting,
                        q,
                    ),
                forall|q: int| 0 <= q < i * PROBE_LIMIT ==> #[trigger] walk[q] < self.capacity(),
            decreases rounds - i,
        {
            let probes = self.probe_sequence(key, i);
            let found = find_end(&self.buckets, &probes, key, inserting);
            proof {
                lemma_walk_round(K::spec_digest(key@), self.capacity(), rounds as nat, i);
                lemma_first_end_in_stretch(
                    slots,
                    walk,
                    probes@,
                    key@,
                    inserting,
                    i * PROBE_LIMIT,
                );
                assert forall|q: int| 0 <= q < (i + 1) * PROBE_LIMIT implies #[trigger] walk[q]
                    < self.capacity() by {
                    if q >= i * PROBE_LIMIT {
                        assert(walk[q] == probes@[q - i * PROBE_LIMIT]);
                    }
                }
            }
            if let Some(j) = found {
                return Some(probes[j]);
            }
            i = i + 1;
        }
        proof {
            lemma_first_end(slots, walk, key@, inserting);
            assert(walk.len() == rounds * PROBE_LIMIT);
            if first_end(slots, walk, key@, inserting) is Some {
                let p = first_end(slots, walk, key@, inserting)->0;
                assert(ends_at(slots, walk, key@, inserting, p));
            }
        }
        None
    }

    /// Inserts `key` with `value` into the first empty bucket on the key's
    /// walk. Nothing is stored, and the table is left as it was, if the walk
    /// meets the key before an empty bucket (`KeyAlreadyInserted`) or meets
    /// neither (`TableFull`).
    pub fn insert(&mut self, key: K, value: V) -> (result: Result<(), Error>)
        ensures
            final(self).capacity() == old(self).capacity(),
            final(self).partition() == old(self).partition(),
            result == insert_result(old(self).slots(), old(self).walk(key@), key@),
            final(self).slots() == insert_slots(
                old(self).slots(),
                old(self).walk(key@),
                key@,
                value,
            ),
            result == Err::<(), Error>(Error::KeyAlreadyInserted) <==> old(self)@.contains_key(
                key@,
            ),
            final(self)@ == if result is Ok {
                old(self)@.insert(key@, value)
            } else {
                old(self)@
            },
            result == Err::<(), Error>(Error::TableFull) ==> forall|q: int|
                0 <= q < old(self).walk(key@).len() ==> #[trigger] old(self).walk(key@)[q] < old(
                    self,
                ).capacity(),
    {
        proof {
            use_type_invariant(&*self);
            lemma_insert_is_contents(self.slots(), self.walks(), key@, value);
            lemma_insert_keeps_settled(self.slots(), self.walks(), key@, value);
        }
        match self.search(&key, true) {
            Some(at) => {
                if self.buckets[at].is_none() {
                    proof {
                        let stored = self.buckets@.update(at as int, Some((key, value)));
                        assert(slots_of(stored) =~= self.slots().update(
                            at as int,
                            Some((key@, value)),
                        ));
                    }
                    store(&mut self.buckets, at, Some((key, value)));
                    Ok(())
                } else {
                    Err(Error::KeyAlreadyInserted)
                }
            },
            None => Err(Error::TableFull),
        }
    }

    /// Looks `key` up: the value in the first bucket on the key's walk that
    /// holds `key`, if there is one.
    pub fn get(&self, key: &K) -> (result: Option<&V>)
        ensures
            result == match lookup(self.slots(), self.walk(key@), key@) {
                Some(value) => Some(&value),
                None => None,
            },
            result == if self@.contains_key(key@) {
                Some(&self@[key@])
            } else {
                None
            },
    {
        proof {
            use_type_invariant(self);
            lemma_first_end(self.slots(), self.walk(key@), key@, false);
            lemma_lookup_is_contents(self.slots(), self.walks(), key@);
        }
        match self.search(key, false) {
            Some(at) => match &self.buckets[at] {
                Some(pair) => Some(&pair.1),
                None => None,
            },
            None => None,
        }
    }

    /// The number of buckets.
    pub fn size(&self) -> (size: usize)
        ensures
            size == self.capacity(),
    {
        proof {
            use_type_invariant(self);
        }
        self.size
    }

    /// The buckets, in the order of their indices.
    pub fn buckets(&self) -> (buckets: &Vec<Option<(K, V)>>)
        ensures
            slots_of(buckets@) == self.slots(),
    {
        &self.buckets
    }

    /// The sizes of the sub-arrays, in order.
    pub fn arrays(&self) -> (arrays: &Vec<usize>)
        ensures
            arrays@ == self.partition(),
    {
        &self.arrays
    }
}

} // verus!
