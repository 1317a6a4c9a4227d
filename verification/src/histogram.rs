//! Histogram counting and the exclusive prefix-sum transform that turns a
//! histogram into bucket start offsets.

use vstd::prelude::*;
use crate::counts::{
    count_eq, seq_sum, lemma_count_bounds, lemma_count_take_succ, lemma_seq_sum_take_succ,
    lemma_seq_sum_take_le, lemma_seq_sum_nonneg,
};

verus! {

/// Counts how many times each key value in `[0, upper_bound)` occurs in
/// `keys`. Every key must lie below `upper_bound`; an out-of-range key is a
/// precondition violation, never silently clamped or skipped.
pub fn count_keys(keys: &Vec<usize>, upper_bound: usize) -> (counts: Vec<usize>)
    requires
        forall|i: int| 0 <= i < keys@.len() ==> keys@[i] < upper_bound,
    ensures
        counts@.len() == upper_bound,
        forall|k: int| 0 <= k < upper_bound ==> (counts@[k] as int) == count_eq(keys@, k),
{
    let mut counts: Vec<usize> = Vec::new();
    while counts.len() < upper_bound
        invariant
            counts@.len() <= upper_bound,
            forall|k: int| 0 <= k < counts@.len() ==> counts@[k] == 0,
        decreases upper_bound - counts.len(),
    {
        counts.push(0);
    }
    let mut i: usize = 0;
    while i < keys.len()
        invariant
            i <= keys@.len(),
            counts@.len() == upper_bound,
            forall|q: int| 0 <= q < keys@.len() ==> keys@[q] < upper_bound,
            forall|k: int| 0 <= k < upper_bound ==> (counts@[k] as int) == count_eq(
                keys@.take(i as int),
                k,
            ),
        decreases keys@.len() - i,
    {
        let k: usize = keys[i];
        proof {
            lemma_count_bounds(keys@.take(i as int), k as int);
            lemma_count_take_succ(keys@, i as int);
        }
        let c: usize = counts[k];
        counts.set(k, c + 1);
        i = i + 1;
    }
    proof {
        assert(keys@.take(keys@.len() as int) =~= keys@);
    }
    counts
}

/// Exclusive prefix sum: entry `i` of the result is the sum of the entries
/// of `x` strictly before `i`, so a histogram becomes the table of bucket
/// start offsets.
pub fn cumsum(x: &Vec<usize>) -> (out: Vec<usize>)
    requires
        seq_sum(x@) <= usize::MAX,
    ensures
        out@.len() == x@.len(),
        x@.len() > 0 ==> out@[0] == 0,
        forall|i: int| 1 <= i < x@.len() ==> (#[trigger] out@[i] as int) == out@[i - 1] + x@[i
            - 1],
        forall|i: int| 0 <= i < x@.len() ==> (out@[i] as int) == seq_sum(x@.take(i)),
{
    let n: usize = x.len();
    let mut out: Vec<usize> = Vec::new();
    while out.len() < n
        invariant
            out@.len() <= n,
            forall|k: int| 0 <= k < out@.len() ==> out@[k] == 0,
        decreases n - out.len(),
    {
        out.push(0);
    }
    let mut i: usize = 1;
    while i < n
        invariant
            1 <= i <= n || n == 0,
            n == x@.len(),
            out@.len() == n,
            seq_sum(x@) <= usize::MAX,
            forall|j: int| 0 <= j < i && j < n ==> (out@[j] as int) == seq_sum(x@.take(j)),
            forall|j: int| i <= j < n ==> out@[j] == 0,
        decreases n - i,
    {
        proof {
            lemma_seq_sum_take_succ(x@, i - 1);
            lemma_seq_sum_take_le(x@, i as int);
            lemma_seq_sum_nonneg(x@.take(i - 1));
            assert(x@.take((i - 1) + 1) == x@.take(i as int));
        }
        let v: usize = out[i - 1] + x[i - 1];
        out.set(i, v);
        i = i + 1;
    }
    proof {
        assert forall|j: int| 1 <= j < x@.len() implies (#[trigger] out@[j] as int) == out@[j - 1]
            + x@[j - 1] by {
            lemma_seq_sum_take_succ(x@, j - 1);
            assert(x@.take((j - 1) + 1) == x@.take(j));
        }
    }
    out
}

} // verus!
