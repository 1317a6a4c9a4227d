//! The three sort variants: a keys-only reconstruction sort, a stable
//! out-of-place key/value co-sort, and an in-place co-sort that rearranges
//! by swapping.

use vstd::prelude::*;
use crate::counts::{
    count_eq, count_lt, dest, sorted, key_in_bucket, counting_sorted, seq_sum,
    is_index_perm, lemma_count_bounds, lemma_count_take_succ, lemma_count_lt_all,
    lemma_count_lt_zero, lemma_count_lt_succ, lemma_bucket_order, lemma_count_swap,
    lemma_seq_sum_update, lemma_seq_sum_bounded,
};
use crate::laws::{
    lemma_counting_sorted_is_sorted, lemma_counting_sorted_counts, lemma_counts_give_multiset,
    lemma_sum_take_count, lemma_histogram_sum, lemma_dest_in_range, lemma_dest_injective,
    lemma_dest_facts_counting_sorted, lemma_count_extra, placement_state, visited_below,
    lemma_placement_complete,
};
use crate::histogram::{count_keys, cumsum};

verus! {

/// One more than the largest key of `keys`, or zero when there are none:
/// the exclusive upper bound on the key range, computed eagerly from the
/// fully materialized sequence.
fn key_upper_bound(keys: &Vec<usize>) -> (ub: usize)
    requires
        forall|i: int| 0 <= i < keys@.len() ==> keys@[i] < usize::MAX,
    ensures
        forall|i: int| 0 <= i < keys@.len() ==> keys@[i] < ub,
        keys@.len() == 0 ==> ub == 0,
{
    let mut ub: usize = 0;
    let mut i: usize = 0;
    while i < keys.len()
        invariant
            i <= keys@.len(),
            forall|q: int| 0 <= q < keys@.len() ==> keys@[q] < usize::MAX,
            forall|j: int| 0 <= j < i ==> keys@[j] < ub,
            keys@.len() == 0 ==> ub == 0,
        decreases keys@.len() - i,
    {
        if keys[i] >= ub {
            ub = keys[i] + 1;
        }
        i = i + 1;
    }
    ub
}

/// Reconstruction sort: returns the keys of `keys` in non-decreasing
/// order, rebuilding the output from the histogram and discarding any
/// original association.
pub fn count_sort(keys: &Vec<usize>) -> (out: Vec<usize>)
    requires
        forall|i: int| 0 <= i < keys@.len() ==> keys@[i] < usize::MAX,
    ensures
        out@.len() == keys@.len(),
        counting_sorted(keys@, out@),
        sorted(out@),
        out@.to_multiset() == keys@.to_multiset(),
{
    let n: usize = keys.len();
    let ub: usize = key_upper_bound(keys);
    let counts = count_keys(keys, ub);
    let mut out: Vec<usize> = Vec::new();
    while out.len() < n
        invariant
            out@.len() <= n,
        decreases n - out.len(),
    {
        out.push(0);
    }
    let mut k: usize = 0;
    let mut i: usize = 0;
    proof {
        lemma_count_lt_zero(keys@, 0);
    }
    while k < ub
        invariant
            k <= ub,
            n == keys@.len(),
            out@.len() == n,
            counts@.len() == ub,
            forall|q: int| 0 <= q < keys@.len() ==> keys@[q] < ub,
            forall|m: int| 0 <= m < ub ==> (counts@[m] as int) == count_eq(keys@, m),
            i == count_lt(keys@, k as int),
            i <= n,
            forall|p: int| 0 <= p < i ==> #[trigger] key_in_bucket(keys@, out@, p),
        decreases ub - k,
    {
        let c: usize = counts[k];
        proof {
            lemma_count_bounds(keys@, k as int);
        }
        let mut j: usize = 0;
        while j < c
            invariant
                j <= c,
                n == keys@.len(),
                out@.len() == n,
                k < ub,
                (c as int) == count_eq(keys@, k as int),
                i == count_lt(keys@, k as int),
                i + c <= n,
                forall|p: int| 0 <= p < i + j ==> #[trigger] key_in_bucket(keys@, out@, p),
            decreases c - j,
        {
            let ghost prev = out@;
            out.set(i + j, k);
            proof {
                assert forall|p: int| 0 <= p < i + j + 1 implies #[trigger] key_in_bucket(
                    keys@,
                    out@,
                    p,
                ) by {
                    if p < i + j {
                        assert(key_in_bucket(keys@, prev, p));
                        assert(out@[p] == prev[p]);
                    } else {
                        assert(out@[p] == k);
                    }
                }
            }
            j = j + 1;
        }
        proof {
            lemma_count_lt_succ(keys@, k as int);
        }
        i = i + c;
        k = k + 1;
    }
    proof {
        lemma_count_lt_all(keys@, ub as int);
        assert(counting_sorted(keys@, out@));
        lemma_counting_sorted_is_sorted(keys@, out@);
        lemma_counting_sorted_counts(keys@, out@);
        lemma_counts_give_multiset(out@, keys@);
    }
    out
}

/// Stable out-of-place co-sort: returns new key and value sequences,
/// reordered by ascending key. The element at input position `i` lands at
/// output position `dest(keys@, i)`, which places equal keys in their
/// original relative order and keeps each key paired with its value.
pub fn bucket_sort<V: Copy>(keys: &Vec<usize>, values: &Vec<V>) -> (out: (Vec<usize>, Vec<V>))
    requires
        keys@.len() == values@.len(),
        forall|i: int| 0 <= i < keys@.len() ==> keys@[i] < usize::MAX,
    ensures
        out.0@.len() == keys@.len(),
        out.1@.len() == values@.len(),
        forall|i: int| 0 <= i < keys@.len() ==> out.0@[#[trigger] dest(keys@, i)] == keys@[i]
            && out.1@[dest(keys@, i)] == values@[i],
        counting_sorted(keys@, out.0@),
        sorted(out.0@),
        out.0@.to_multiset() == keys@.to_multiset(),
{
    let n: usize = keys.len();
    if n == 0 {
        let out_keys: Vec<usize> = Vec::new();
        let out_values: Vec<V> = Vec::new();
        proof {
            assert(out_keys@ =~= keys@);
            assert(counting_sorted(keys@, out_keys@));
        }
        return (out_keys, out_values);
    }
    let ub: usize = key_upper_bound(keys);
    let counts = count_keys(keys, ub);
    proof {
        lemma_histogram_sum(counts@, keys@);
    }
    let mut buckets = cumsum(&counts);
    proof {
        assert forall|m: int| 0 <= m < ub implies (buckets@[m] as int) == count_lt(
            keys@,
            m,
        ) by {
            lemma_sum_take_count(counts@, keys@, m);
        }
    }
    let mut out_keys: Vec<usize> = Vec::new();
    while out_keys.len() < n
        invariant
            out_keys@.len() <= n,
        decreases n - out_keys.len(),
    {
        out_keys.push(0);
    }
    let fill: V = values[0];
    let mut out_values: Vec<V> = Vec::new();
    while out_values.len() < n
        invariant
            out_values@.len() <= n,
        decreases n - out_values.len(),
    {
        out_values.push(fill);
    }
    let mut i: usize = 0;
    proof {
        lemma_count_lt_zero(keys@, 0);
        assert(keys@.take(0) =~= Seq::<usize>::empty());
    }
    while i < n
        invariant
            i <= n,
            n == keys@.len(),
            n == values@.len(),
            out_keys@.len() == n,
            out_values@.len() == n,
            buckets@.len() == ub,
            forall|q: int| 0 <= q < keys@.len() ==> keys@[q] < ub,
            forall|m: int| 0 <= m < ub ==> (buckets@[m] as int) == count_lt(keys@, m) + count_eq(
                keys@.take(i as int),
                m,
            ),
            forall|j: int| 0 <= j < i ==> out_keys@[#[trigger] dest(keys@, j)] == keys@[j]
                && out_values@[dest(keys@, j)] == values@[j],
        decreases n - i,
    {
        let k: usize = keys[i];
        let b: usize = buckets[k];
        proof {
            assert((b as int) == dest(keys@, i as int));
            lemma_dest_in_range(keys@, i as int);
        }
        let ghost prev_keys = out_keys@;
        let ghost prev_values = out_values@;
        out_keys.set(b, k);
        out_values.set(b, values[i]);
        buckets.set(k, b + 1);
        proof {
            lemma_count_take_succ(keys@, i as int);
            assert(keys@.take(i as int + 1) == keys@.take((i as int) + 1));
            assert forall|j: int| 0 <= j < i + 1 implies out_keys@[#[trigger] dest(keys@, j)]
                == keys@[j] && out_values@[dest(keys@, j)] == values@[j] by {
                if j < i {
                    lemma_dest_in_range(keys@, j);
                    lemma_dest_injective(keys@, j, i as int);
                    assert(prev_keys[dest(keys@, j)] == keys@[j]);
                    assert(prev_values[dest(keys@, j)] == values@[j]);
                } else {
                    assert(dest(keys@, j) == b as int);
                    assert(out_keys@[b as int] == k);
                    assert(out_values@[b as int] == values@[i as int]);
                }
            }
        }
        i = i + 1;
    }
    proof {
        lemma_dest_facts_counting_sorted(keys@, out_keys@, ub as int);
        lemma_counting_sorted_is_sorted(keys@, out_keys@);
        lemma_counting_sorted_counts(keys@, out_keys@);
        lemma_counts_give_multiset(out_keys@, keys@);
    }
    (out_keys, out_values)
}

/// In-place co-sort: rearranges the given key and value sequences by
/// ascending key through cycle-following swaps and hands them back. The
/// values travel with their keys (the same rearrangement is applied to
/// both), but unlike [`bucket_sort`] the swapping strategy does not keep
/// equal keys in their original relative order.
pub fn bucket_sort_inplace<V: Copy>(keys: Vec<usize>, values: Vec<V>) -> (out: (
    Vec<usize>,
    Vec<V>,
))
    requires
        keys@.len() == values@.len(),
        forall|i: int| 0 <= i < keys@.len() ==> keys@[i] < usize::MAX,
    ensures
        out.0@.len() == keys@.len(),
        out.1@.len() == values@.len(),
        counting_sorted(keys@, out.0@),
        sorted(out.0@),
        out.0@.to_multiset() == keys@.to_multiset(),
        exists|perm: Seq<int>|
            #[trigger] is_index_perm(perm, keys@.len() as int) && (forall|j: int|
                0 <= j < keys@.len() ==> out.0@[j] == keys@[#[trigger] perm[j]] && out.1@[j]
                    == values@[perm[j]]),
{
    let mut ks = keys;
    let mut vs = values;
    let ghost s0 = ks@;
    let n: usize = ks.len();
    let ub: usize = key_upper_bound(&ks);
    let counts = count_keys(&ks, ub);
    proof {
        lemma_histogram_sum(counts@, ks@);
    }
    let mut buckets = cumsum(&counts);
    let ghost mut perm: Seq<int> = Seq::new(n as nat, |j: int| j);
    proof {
        assert forall|m: int| 0 <= m < ub implies #[trigger] count_lt(s0, m) == buckets@[m] as int
            by {
            lemma_sum_take_count(counts@, s0, m);
        }
        assert forall|m: int| 0 <= m < ub implies #[trigger] count_lt(s0, m) <= buckets@[m] as int
            <= count_lt(s0, m) + count_eq(s0, m) by {
            lemma_count_bounds(s0, m);
        }
        assert(placement_state(s0, ks@, buckets@, ub as int));
        assert(is_index_perm(perm, n as int));
        assert(visited_below(ks@, buckets@, 0));
    }
    let mut i: usize = 0;
    while i < n
        invariant
            i <= n,
            n == s0.len(),
            s0 == keys@,
            vs@.len() == n,
            values@.len() == n,
            buckets@.len() == ub,
            placement_state(s0, ks@, buckets@, ub as int),
            visited_below(ks@, buckets@, i as int),
            is_index_perm(perm, n as int),
            forall|j: int|
                0 <= j < n ==> ks@[j] == s0[#[trigger] perm[j]] && vs@[j] == values@[perm[j]],
        decreases n - i,
    {
        let mut k: usize = ks[i];
        while buckets[k] < i
            invariant
                i < n,
                n == s0.len(),
                vs@.len() == n,
                values@.len() == n,
                buckets@.len() == ub,
                k == ks@[i as int],
                placement_state(s0, ks@, buckets@, ub as int),
                visited_below(ks@, buckets@, i as int),
                is_index_perm(perm, n as int),
                forall|j: int|
                    0 <= j < n ==> ks@[j] == s0[#[trigger] perm[j]] && vs@[j] == values@[perm[j]],
            decreases (ub as int) * (n as int) - seq_sum(buckets@),
        {
            let b: usize = buckets[k];
            let kb: usize = ks[b];
            let ghost old_ks = ks@;
            let ghost old_vs = vs@;
            let ghost old_buckets = buckets@;
            let ghost old_perm = perm;
            ks.set(i, kb);
            ks.set(b, k);
            let vi: V = vs[i];
            let vb: V = vs[b];
            vs.set(i, vb);
            vs.set(b, vi);
            buckets.set(k, b + 1);
            proof {
                perm = old_perm.update(i as int, old_perm[b as int]).update(
                    b as int,
                    old_perm[i as int],
                );
                let kk = k as int;
                let lo = count_lt(s0, kk);
                let c = count_eq(s0, kk);
                lemma_count_bounds(s0, kk);
                // The bucket of `k` cannot be full: its filled prefix plus the
                // occurrence at `i` would exceed the key's total count.
                lemma_count_extra(old_ks, kk, lo, b as int, i as int);
                assert(b + 1 <= lo + c);
                // The swap moves the occupant of `b` to `i` and vice versa.
                assert(ks@ == old_ks.update(i as int, old_ks[b as int]).update(
                    b as int,
                    old_ks[i as int],
                ));
                lemma_count_swap(old_ks, i as int, b as int);
                // Bounded keys.
                assert forall|q: int| 0 <= q < ks@.len() implies ((#[trigger] ks@[q]) as int)
                    < ub by {
                    assert((old_ks[q] as int) < ub);
                }
                // Filled prefixes still hold their own key.
                assert forall|m: int, p: int|
                    #![trigger buckets@[m], ks@[p]]
                    0 <= m < ub && count_lt(s0, m) <= p < buckets@[m] as int implies (
                ks@[p] as int) == m by {
                    lemma_count_bounds(s0, m);
                    if m == kk {
                        if p < b {
                            assert(p < old_buckets[kk] as int);
                            assert(old_ks[p] as int == m);
                        } else {
                            assert(p == b as int);
                        }
                    } else {
                        assert(buckets@[m] == old_buckets[m]);
                        assert(old_ks[p] as int == m);
                        if p == b as int {
                            if m < kk {
                                lemma_bucket_order(s0, m, kk);
                            } else {
                                lemma_bucket_order(s0, kk, m);
                            }
                            assert(false);
                        }
                    }
                }
                assert(placement_state(s0, ks@, buckets@, ub as int));
                // Every visited position still sits at or below its key's
                // fill pointer.
                assert forall|p: int| 0 <= p < i implies p <= buckets@[((#[trigger] ks@[p]) as int)] as int by {
                    if p == b as int {
                        assert(ks@[p] as int == kk);
                    } else {
                        assert(ks@[p] == old_ks[p]);
                        assert(p <= old_buckets[old_ks[p] as int] as int);
                        if old_ks[p] == k {
                            assert(buckets@[kk] as int == b + 1);
                        }
                    }
                }
                assert(visited_below(ks@, buckets@, i as int));
                // The swap of two permutation entries stays a permutation
                // and keeps keys and values paired.
                assert forall|j1: int, j2: int| 0 <= j1 < j2 < n implies perm[j1] != perm[j2] by {
                    if j1 == b as int {
                        assert(perm[j1] == old_perm[i as int]);
                    } else if j1 == i as int {
                        assert(perm[j1] == old_perm[b as int]);
                    } else {
                        assert(perm[j1] == old_perm[j1]);
                    }
                    if j2 == b as int {
                        assert(perm[j2] == old_perm[i as int]);
                    } else if j2 == i as int {
                        assert(perm[j2] == old_perm[b as int]);
                    } else {
                        assert(perm[j2] == old_perm[j2]);
                    }
                }
                assert(is_index_perm(perm, n as int));
                assert forall|j: int| 0 <= j < n implies ks@[j] == s0[#[trigger] perm[j]]
                    && vs@[j] == values@[perm[j]] by {
                    if j == i as int {
                        assert(perm[j] == old_perm[b as int]);
                        assert(ks@[j] == old_ks[b as int]);
                        assert(vs@[j] == old_vs[b as int]);
                    } else if j == b as int {
                        assert(perm[j] == old_perm[i as int]);
                        assert(ks@[j] == old_ks[i as int]);
                        assert(vs@[j] == old_vs[i as int]);
                    } else {
                        assert(perm[j] == old_perm[j]);
                    }
                }
                // The measure: the total of the fill pointers grows by one
                // and stays at most `ub * n`.
                lemma_seq_sum_update(old_buckets, kk, (b + 1) as usize);
                assert forall|m: int| 0 <= m < buckets@.len() implies buckets@[m] <= n by {
                    lemma_count_bounds(s0, m);
                }
                lemma_seq_sum_bounded(buckets@, n);
            }
            k = kb;
        }
        proof {
            assert forall|p: int| 0 <= p < i + 1 implies p <= buckets@[((#[trigger] ks@[p]) as int)] as int by {
                if p == i as int {
                    assert(buckets@[k as int] >= i);
                }
            }
            assert(visited_below(ks@, buckets@, i as int + 1));
        }
        i = i + 1;
    }
    proof {
        lemma_placement_complete(s0, ks@, buckets@, ub as int);
        lemma_counting_sorted_is_sorted(s0, ks@);
        lemma_counts_give_multiset(ks@, s0);
        assert(is_index_perm(perm, keys@.len() as int));
    }
    (ks, vs)
}

} // verus!
