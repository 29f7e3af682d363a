//! Splitting a table's index space into sub-arrays of shrinking size.

use vstd::arithmetic::power2::{
    lemma2_to64, lemma_pow2_strictly_increases, lemma_pow2_unfold, pow2,
};
use vstd::prelude::*;

verus! {

/// The base-two logarithm of `n`, rounded up: the least `k` with `n <= 2^k`
/// (see [`lemma_ceil_log2_is_least`]). Zero for `n <= 1`.
pub open spec fn ceil_log2(n: nat) -> nat
    decreases n,
{
    if n <= 1 {
        0
    } else {
        1 + ceil_log2((n - n / 2) as nat)
    }
}

/// `ceil_log2(n)` is the least exponent whose power of two reaches `n`: its
/// power reaches `n`, the power of the exponent below it does not, and no
/// smaller exponent's does.
pub proof fn lemma_ceil_log2_is_least(n: nat)
    requires
        n >= 1,
    ensures
        n <= pow2(ceil_log2(n)),
        ceil_log2(n) > 0 ==> pow2((ceil_log2(n) - 1) as nat) < n,
        forall|k: nat| n <= #[trigger] pow2(k) ==> ceil_log2(n) <= k,
    decreases n,
{
    if n <= 1 {
        assert(pow2(0) == 1) by {
            lemma2_to64();
        }
    } else {
        let half: nat = (n - n / 2) as nat;
        lemma_ceil_log2_is_least(half);
        lemma_pow2_unfold(ceil_log2(n));
        if half > 1 {
            lemma_pow2_unfold(ceil_log2(half));
        } else {
            assert(pow2(0) == 1) by {
                lemma2_to64();
            }
        }
    }
    assert forall|k: nat| n <= #[trigger] pow2(k) implies ceil_log2(n) <= k by {
        if k < ceil_log2(n) {
            if k < ceil_log2(n) - 1 {
                lemma_pow2_strictly_increases(k, (ceil_log2(n) - 1) as nat);
            }
        }
    }
}

/// The logarithm never exceeds its argument.
pub proof fn lemma_ceil_log2_bound(n: nat)
    ensures
        ceil_log2(n) <= n,
    decreases n,
{
    if n > 1 {
        lemma_ceil_log2_bound((n - n / 2) as nat);
    }
}

/// Computes the rounded-up base-two logarithm of `n` by repeated halving.
pub fn ceil_log2_of(n: usize) -> (bits: usize)
    ensures
        bits == ceil_log2(n as nat),
{
    let mut rest: usize = n;
    let mut bits: usize = 0;
    proof {
        lemma_ceil_log2_bound(n as nat);
    }
    while rest > 1
        invariant
            bits + ceil_log2(rest as nat) == ceil_log2(n as nat),
            ceil_log2(n as nat) <= n,
        decreases rest,
    {
        rest = rest - rest / 2;
        bits = bits + 1;
    }
    bits
}

/// The size of the sub-array cut from `remaining` unallocated buckets: half
/// of them, rounded down, but never less than one.
pub open spec fn chunk_of(remaining: nat) -> nat {
    if remaining / 2 >= 1 {
        remaining / 2
    } else {
        1
    }
}

/// The sub-array sizes cut from `remaining` buckets when `taken` sub-arrays
/// have been cut before: cut one, then stop if nothing remains or if the
/// count of sub-arrays has reached `bound`, else go on with what remains.
pub open spec fn partition_from(remaining: nat, taken: nat, bound: nat) -> Seq<nat>
    decreases remaining,
{
    let chunk = chunk_of(remaining);
    if remaining <= chunk || taken + 1 >= bound {
        seq![chunk]
    } else {
        seq![chunk] + partition_from((remaining - chunk) as nat, taken + 1, bound)
    }
}

/// The partition of a table with `size` buckets: sub-array sizes cut from
/// `size` until nothing remains or `ceil_log2(size)` of them have been cut.
pub open spec fn partition_of(size: nat) -> Seq<nat> {
    partition_from(size, 0, ceil_log2(size))
}

/// The sum of a sequence of sizes.
pub open spec fn total(sizes: Seq<nat>) -> nat
    decreases sizes.len(),
{
    if sizes.len() == 0 {
        0
    } else {
        sizes[0] + total(sizes.subrange(1, sizes.len() as int))
    }
}

/// What is cut from two or more buckets, when the count of sub-arrays still
/// allowed is the logarithm of what remains: that many sub-arrays, none
/// empty, which leave exactly one bucket over.
proof fn lemma_partition_from(remaining: nat, taken: nat, bound: nat)
    requires
        remaining >= 2,
        taken + ceil_log2(remaining) == bound,
    ensures
        partition_from(remaining, taken, bound).len() == ceil_log2(remaining),
        total(partition_from(remaining, taken, bound)) == remaining - 1,
        forall|i: int|
            0 <= i < partition_from(remaining, taken, bound).len() ==> partition_from(
                remaining,
                taken,
                bound,
            )[i] >= 1,
    decreases remaining,
{
    let chunk = chunk_of(remaining);
    let rest: nat = (remaining - chunk) as nat;
    let whole = partition_from(remaining, taken, bound);
    assert(ceil_log2(remaining) == 1 + ceil_log2(rest));
    if rest <= 1 {
        assert(whole =~= seq![chunk]);
        assert(whole.subrange(1, 1) =~= Seq::<nat>::empty());
        assert(total(whole) == chunk + total(whole.subrange(1, 1)));
    } else {
        let tail = partition_from(rest, taken + 1, bound);
        lemma_partition_from(rest, taken + 1, bound);
        assert(whole =~= seq![chunk] + tail);
        assert(whole.subrange(1, whole.len() as int) =~= tail);
        assert forall|i: int| 0 <= i < whole.len() implies whole[i] >= 1 by {
            if i > 0 {
                assert(whole[i] == tail[i - 1]);
            }
        }
    }
}

/// The sub-array sizes of a partition are all at least one.
pub proof fn lemma_partition_entries_positive(size: nat)
    requires
        size > 0,
    ensures
        forall|i: int| 0 <= i < partition_of(size).len() ==> partition_of(size)[i] >= 1,
{
    if size >= 2 {
        lemma_partition_from(size, 0, ceil_log2(size));
    }
}

/// A partition has as many sub-arrays as the logarithm of the size, rounded
/// up, says; a table of one bucket has one.
pub proof fn lemma_partition_len(size: nat)
    requires
        size > 0,
    ensures
        partition_of(size).len() == if size == 1 {
            1
        } else {
            ceil_log2(size)
        },
{
    if size >= 2 {
        lemma_partition_from(size, 0, ceil_log2(size));
    }
}

/// The sub-arrays of a table with two or more buckets cover all of them but
/// one: the count of sub-arrays is used up when one bucket still remains. The
/// single sub-array of a table with one bucket covers it.
pub proof fn lemma_partition_total(size: nat)
    requires
        size > 0,
    ensures
        total(partition_of(size)) == if size == 1 {
            1
        } else {
            size - 1
        },
{
    if size >= 2 {
        lemma_partition_from(size, 0, ceil_log2(size));
    } else {
        let whole = partition_of(size);
        assert(whole =~= seq![1nat]);
        assert(whole.subrange(1, 1) =~= Seq::<nat>::empty());
        assert(total(whole) == 1 + total(whole.subrange(1, 1)));
    }
}

} // verus!
