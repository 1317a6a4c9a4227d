//! The mathematical model: occurrence counts over key sequences, bucket
//! intervals, and the destination of each element under a stable counting
//! sort.

use vstd::prelude::*;

verus! {

/// Number of positions of `s` that hold exactly the key `k`.
pub open spec fn count_eq(s: Seq<usize>, k: int) -> int
    decreases s.len(),
{
    if s.len() == 0 {
        0
    } else {
        count_eq(s.drop_last(), k) + if s.last() as int == k {
            1int
        } else {
            0int
        }
    }
}

/// Number of positions of `s` that hold a key strictly below `k`.
pub open spec fn count_lt(s: Seq<usize>, k: int) -> int
    decreases s.len(),
{
    if s.len() == 0 {
        0
    } else {
        count_lt(s.drop_last(), k) + if (s.last() as int) < k {
            1int
        } else {
            0int
        }
    }
}

/// How many earlier positions hold the same key as position `i`.
pub open spec fn rank(s: Seq<usize>, i: int) -> int {
    count_eq(s.take(i), s[i] as int)
}

/// The output position that a stable counting sort assigns to the element
/// at position `i`: all strictly smaller keys come first, then the earlier
/// occurrences of the same key.
pub open spec fn dest(s: Seq<usize>, i: int) -> int {
    count_lt(s, s[i] as int) + rank(s, i)
}

/// Sum of all entries of `s`.
pub open spec fn seq_sum(s: Seq<usize>) -> int
    decreases s.len(),
{
    if s.len() == 0 {
        0
    } else {
        seq_sum(s.drop_last()) + s.last()
    }
}

/// The entries of `s` are in non-decreasing order.
pub open spec fn sorted(s: Seq<usize>) -> bool {
    forall|i: int, j: int| 0 <= i < j < s.len() ==> s[i] <= s[j]
}

/// Position `p` of `out` holds a key whose bucket interval, in the counting
/// order of `orig`, contains `p`.
pub open spec fn key_in_bucket(orig: Seq<usize>, out: Seq<usize>, p: int) -> bool {
    count_lt(orig, out[p] as int) <= p < count_lt(orig, out[p] as int) + count_eq(
        orig,
        out[p] as int,
    )
}

/// `out` is the (unique) result of counting-sorting `orig`: same length,
/// and every position sits inside the bucket interval of the key it holds.
pub open spec fn counting_sorted(orig: Seq<usize>, out: Seq<usize>) -> bool {
    &&& out.len() == orig.len()
    &&& forall|p: int| 0 <= p < out.len() ==> #[trigger] key_in_bucket(orig, out, p)
}

/// `perm` maps each of `n` output positions to a distinct source position.
pub open spec fn is_index_perm(perm: Seq<int>, n: int) -> bool {
    &&& perm.len() == n
    &&& forall|j: int| 0 <= j < n ==> 0 <= #[trigger] perm[j] < n
    &&& forall|j1: int, j2: int| 0 <= j1 < j2 < n ==> perm[j1] != perm[j2]
}

/// Appending one element adds one to the count of its own key and leaves
/// every other count unchanged.
pub proof fn lemma_count_push(s: Seq<usize>, x: usize)
    ensures
        forall|k: int| #[trigger] count_eq(s.push(x), k) == count_eq(s, k) + if x as int == k {
            1int
        } else {
            0int
        },
        forall|k: int| #[trigger] count_lt(s.push(x), k) == count_lt(s, k) + if (x as int) < k {
            1int
        } else {
            0int
        },
{
    assert(s.push(x).drop_last() =~= s);
    assert(s.push(x).last() == x);
}

/// Counting one more prefix element extends both counts by that element.
pub proof fn lemma_count_take_succ(s: Seq<usize>, i: int)
    requires
        0 <= i < s.len(),
    ensures
        forall|k: int| #[trigger] count_eq(s.take(i + 1), k) == count_eq(s.take(i), k) + if s[
            i
        ] as int == k {
            1int
        } else {
            0int
        },
        forall|k: int| #[trigger] count_lt(s.take(i + 1), k) == count_lt(s.take(i), k) + if (s[
            i
        ] as int) < k {
            1int
        } else {
            0int
        },
{
    assert(s.take(i + 1) =~= s.take(i).push(s[i]));
    lemma_count_push(s.take(i), s[i]);
}

/// Both counts are non-negative and together never exceed the length.
pub proof fn lemma_count_bounds(s: Seq<usize>, k: int)
    ensures
        0 <= count_eq(s, k),
        0 <= count_lt(s, k),
        count_lt(s, k) + count_eq(s, k) <= s.len(),
    decreases s.len(),
{
    if s.len() > 0 {
        lemma_count_bounds(s.drop_last(), k);
    }
}

/// Keys strictly below `k + 1` are those strictly below `k` plus those
/// equal to `k`.
pub proof fn lemma_count_lt_succ(s: Seq<usize>, k: int)
    ensures
        count_lt(s, k + 1) == count_lt(s, k) + count_eq(s, k),
    decreases s.len(),
{
    if s.len() > 0 {
        lemma_count_lt_succ(s.drop_last(), k);
    }
}

/// `count_lt` is monotone in the key bound.
pub proof fn lemma_count_lt_mono(s: Seq<usize>, a: int, b: int)
    requires
        a <= b,
    ensures
        count_lt(s, a) <= count_lt(s, b),
    decreases s.len(),
{
    if s.len() > 0 {
        lemma_count_lt_mono(s.drop_last(), a, b);
    }
}

/// The whole bucket interval of a smaller key precedes the bucket interval
/// of a larger key.
pub proof fn lemma_bucket_order(s: Seq<usize>, a: int, b: int)
    requires
        a < b,
    ensures
        count_lt(s, a) + count_eq(s, a) <= count_lt(s, b),
{
    lemma_count_lt_succ(s, a);
    lemma_count_lt_mono(s, a + 1, b);
}

/// No key is strictly below zero.
pub proof fn lemma_count_lt_zero(s: Seq<usize>, k: int)
    requires
        k <= 0,
    ensures
        count_lt(s, k) == 0,
    decreases s.len(),
{
    if s.len() > 0 {
        lemma_count_lt_zero(s.drop_last(), k);
    }
}

/// When every key lies below `u`, every key is counted by `count_lt(_, u)`.
pub proof fn lemma_count_lt_all(s: Seq<usize>, u: int)
    requires
        forall|i: int| 0 <= i < s.len() ==> (s[i] as int) < u,
    ensures
        count_lt(s, u) == s.len(),
    decreases s.len(),
{
    if s.len() > 0 {
        assert(forall|i: int| 0 <= i < s.drop_last().len() ==> (s.drop_last()[i] as int) < u);
        lemma_count_lt_all(s.drop_last(), u);
    }
}

/// Counts over a longer prefix are at least counts over a shorter one.
pub proof fn lemma_count_take_mono(s: Seq<usize>, k: int, i: int, j: int)
    requires
        0 <= i <= j <= s.len(),
    ensures
        count_eq(s.take(i), k) <= count_eq(s.take(j), k),
    decreases j - i,
{
    if i < j {
        lemma_count_take_mono(s, k, i, j - 1);
        lemma_count_take_succ(s, j - 1);
        assert(count_eq(s.take((j - 1) + 1), k) == count_eq(s.take(j - 1), k) + if s[j
            - 1] as int == k {
            1int
        } else {
            0int
        });
        assert(s.take((j - 1) + 1) == s.take(j));
    }
}

/// Replacing the entry at `i` trades its key's count for the new key's.
pub proof fn lemma_count_update_one(s: Seq<usize>, i: int, v: usize, k: int)
    requires
        0 <= i < s.len(),
    ensures
        count_eq(s.update(i, v), k) == count_eq(s, k) - (if s[i] as int == k {
            1int
        } else {
            0int
        }) + (if v as int == k {
            1int
        } else {
            0int
        }),
    decreases s.len(),
{
    if i == s.len() - 1 {
        assert(s.update(i, v).drop_last() =~= s.drop_last());
        assert(s.update(i, v).last() == v);
    } else {
        assert(s.update(i, v).drop_last() =~= s.drop_last().update(i, v));
        assert(s.update(i, v).last() == s.last());
        lemma_count_update_one(s.drop_last(), i, v, k);
        assert(s.drop_last()[i] == s[i]);
    }
}

/// Replacing one entry trades its key's count for the new key's count.
pub proof fn lemma_count_update(s: Seq<usize>, i: int, v: usize)
    requires
        0 <= i < s.len(),
    ensures
        forall|k: int| #[trigger] count_eq(s.update(i, v), k) == count_eq(s, k) - (
        if s[i] as int == k {
            1int
        } else {
            0int
        }) + (if v as int == k {
            1int
        } else {
            0int
        }),
{
    assert forall|k: int| #[trigger] count_eq(s.update(i, v), k) == count_eq(s, k) - (
    if s[i] as int == k {
        1int
    } else {
        0int
    }) + (if v as int == k {
        1int
    } else {
        0int
    }) by {
        lemma_count_update_one(s, i, v, k);
    }
}

/// Summing one more prefix element adds that element.
pub proof fn lemma_seq_sum_take_succ(s: Seq<usize>, i: int)
    requires
        0 <= i < s.len(),
    ensures
        seq_sum(s.take(i + 1)) == seq_sum(s.take(i)) + s[i],
{
    assert(s.take(i + 1) =~= s.take(i).push(s[i]));
    assert(s.take(i).push(s[i]).drop_last() =~= s.take(i));
}

/// A sum of non-negative entries is non-negative.
pub proof fn lemma_seq_sum_nonneg(s: Seq<usize>)
    ensures
        0 <= seq_sum(s),
    decreases s.len(),
{
    if s.len() > 0 {
        lemma_seq_sum_nonneg(s.drop_last());
    }
}

/// A prefix sum never exceeds the sum of the whole sequence.
pub proof fn lemma_seq_sum_take_le(s: Seq<usize>, i: int)
    requires
        0 <= i <= s.len(),
    ensures
        seq_sum(s.take(i)) <= seq_sum(s),
    decreases s.len() - i,
{
    if i == s.len() {
        assert(s.take(i) =~= s);
    } else {
        lemma_seq_sum_take_succ(s, i);
        lemma_seq_sum_take_le(s, i + 1);
    }
}

/// Replacing one entry changes the sum by the difference of the entries.
pub proof fn lemma_seq_sum_update(s: Seq<usize>, i: int, v: usize)
    requires
        0 <= i < s.len(),
    ensures
        seq_sum(s.update(i, v)) == seq_sum(s) - s[i] + v,
    decreases s.len(),
{
    if i == s.len() - 1 {
        assert(s.update(i, v).drop_last() =~= s.drop_last());
        assert(s.update(i, v).last() == v);
    } else {
        assert(s.update(i, v).drop_last() =~= s.drop_last().update(i, v));
        assert(s.update(i, v).last() == s.last());
        lemma_seq_sum_update(s.drop_last(), i, v);
        assert(s.drop_last()[i] == s[i]);
    }
}

/// A sequence of entries each at most `bound` sums to at most
/// `len * bound`.
pub proof fn lemma_seq_sum_bounded(s: Seq<usize>, bound: usize)
    requires
        forall|p: int| 0 <= p < s.len() ==> s[p] <= bound,
    ensures
        seq_sum(s) <= (s.len() as int) * (bound as int),
    decreases s.len(),
{
    if s.len() > 0 {
        assert(forall|p: int| 0 <= p < s.drop_last().len() ==> s.drop_last()[p] <= bound);
        lemma_seq_sum_bounded(s.drop_last(), bound);
        assert((s.len() as int - 1) * (bound as int) + (bound as int) == (s.len() as int) * (
        bound as int)) by (nonlinear_arith);
    }
}

/// Swapping two entries leaves every key's count unchanged.
pub proof fn lemma_count_swap(s: Seq<usize>, i: int, j: int)
    requires
        0 <= i < s.len(),
        0 <= j < s.len(),
        i != j,
    ensures
        forall|k: int| #[trigger] count_eq(s.update(i, s[j]).update(j, s[i]), k) == count_eq(s, k),
{
    lemma_count_update(s, i, s[j]);
    lemma_count_update(s.update(i, s[j]), j, s[i]);
    assert(s.update(i, s[j])[j] == s[j]);
}

} // verus!
