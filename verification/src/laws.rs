//! Consequences of the counting model: where each element lands, that the
//! landing positions are distinct and stable, and that any output whose
//! positions all sit in their bucket intervals is the sorted rearrangement
//! of the input.

use vstd::prelude::*;
use crate::counts::{
    count_eq, count_lt, dest, rank, sorted, key_in_bucket, counting_sorted, seq_sum,
    lemma_count_bounds, lemma_count_take_succ, lemma_count_take_mono, lemma_bucket_order,
    lemma_count_lt_succ, lemma_count_lt_zero, lemma_count_lt_all, lemma_seq_sum_take_succ,
};

verus! {

/// An element's rank among equal keys is below the total count of its key.
pub proof fn lemma_rank_in_range(s: Seq<usize>, i: int)
    requires
        0 <= i < s.len(),
    ensures
        0 <= rank(s, i) < count_eq(s, s[i] as int),
{
    lemma_count_bounds(s.take(i), s[i] as int);
    lemma_count_take_succ(s, i);
    lemma_count_take_mono(s, s[i] as int, i + 1, s.len() as int);
    assert(s.take(s.len() as int) =~= s);
}

/// Every element's destination lies inside the bucket interval of its key,
/// and in particular inside the sequence.
pub proof fn lemma_dest_in_range(s: Seq<usize>, i: int)
    requires
        0 <= i < s.len(),
    ensures
        count_lt(s, s[i] as int) <= dest(s, i) < count_lt(s, s[i] as int) + count_eq(
            s,
            s[i] as int,
        ),
        0 <= dest(s, i) < s.len(),
{
    lemma_rank_in_range(s, i);
    lemma_count_bounds(s, s[i] as int);
}

/// Of two equal keys, the earlier one lands earlier: the destinations
/// preserve the original order of equal-key elements.
pub proof fn lemma_dest_stable(s: Seq<usize>, i: int, j: int)
    requires
        0 <= i < j < s.len(),
        s[i] == s[j],
    ensures
        dest(s, i) < dest(s, j),
{
    lemma_count_take_succ(s, i);
    lemma_count_take_mono(s, s[i] as int, i + 1, j);
}

/// Distinct elements land on distinct destinations.
pub proof fn lemma_dest_injective(s: Seq<usize>, i: int, j: int)
    requires
        0 <= i < s.len(),
        0 <= j < s.len(),
        i != j,
    ensures
        dest(s, i) != dest(s, j),
{
    if s[i] == s[j] {
        if i < j {
            lemma_dest_stable(s, i, j);
        } else {
            lemma_dest_stable(s, j, i);
        }
    } else {
        lemma_dest_in_range(s, i);
        lemma_dest_in_range(s, j);
        if s[i] < s[j] {
            lemma_bucket_order(s, s[i] as int, s[j] as int);
        } else {
            lemma_bucket_order(s, s[j] as int, s[i] as int);
        }
    }
}

/// A run of positions all holding `k` forces at least that many
/// occurrences of `k`.
pub proof fn lemma_count_at_least(s: Seq<usize>, k: int, a: int, b: int)
    requires
        0 <= a <= b <= s.len(),
        forall|p: int| a <= p < b ==> (s[p] as int) == k,
    ensures
        count_eq(s, k) >= b - a,
    decreases s.len(),
{
    lemma_count_bounds(s, k);
    if s.len() > 0 {
        let t = s.drop_last();
        assert(forall|p: int| a <= p < (if b < s.len() { b } else { b - 1 }) ==> (t[p] as int)
            == k);
        if b == s.len() {
            if a < b {
                lemma_count_at_least(t, k, a, b - 1);
            }
        } else {
            lemma_count_at_least(t, k, a, b);
        }
    }
}

/// A run of positions holding `k` plus one later occurrence of `k` force
/// strictly more occurrences than the run alone.
pub proof fn lemma_count_extra(s: Seq<usize>, k: int, a: int, b: int, q: int)
    requires
        0 <= a <= b <= q < s.len(),
        forall|p: int| a <= p < b ==> (s[p] as int) == k,
        (s[q] as int) == k,
    ensures
        count_eq(s, k) >= b - a + 1,
    decreases s.len(),
{
    let t = s.drop_last();
    if q == s.len() - 1 {
        assert(forall|p: int| a <= p < b ==> (t[p] as int) == k);
        lemma_count_at_least(t, k, a, b);
    } else {
        assert(forall|p: int| a <= p < b ==> (t[p] as int) == k);
        lemma_count_extra(t, k, a, b, q);
    }
}

/// Every position below the total count of keys under `u` falls in the
/// bucket interval of some key below `u`.
pub proof fn lemma_bucket_tiling(s: Seq<usize>, u: int, p: int)
    requires
        0 <= p < count_lt(s, u),
    ensures
        exists|k: int|
            0 <= k < u && #[trigger] count_lt(s, k) <= p < count_lt(s, k) + count_eq(s, k),
    decreases u,
{
    if u <= 0 {
        lemma_count_lt_zero(s, u);
    } else {
        lemma_count_lt_succ(s, u - 1);
        if p >= count_lt(s, u - 1) {
            lemma_count_bounds(s, u - 1);
            assert(count_lt(s, u - 1) <= p < count_lt(s, u - 1) + count_eq(s, u - 1));
        } else {
            lemma_bucket_tiling(s, u - 1, p);
        }
    }
}

/// Every rank below the count of `k` is taken by some occurrence of `k`.
pub proof fn lemma_rank_exists(s: Seq<usize>, k: int, r: int)
    requires
        0 <= r < count_eq(s, k),
    ensures
        exists|i: int| 0 <= i < s.len() && (s[i] as int) == k && #[trigger] dest(s, i)
            == count_lt(s, k) + r,
    decreases s.len(),
{
    let t = s.drop_last();
    let n = s.len() as int;
    lemma_count_bounds(t, k);
    if r < count_eq(t, k) {
        lemma_rank_exists(t, k, r);
        let i = choose|i: int|
            0 <= i < t.len() && (t[i] as int) == k && #[trigger] dest(t, i) == count_lt(t, k) + r;
        assert(s.take(i) =~= t.take(i));
        assert(count_eq(s.take(i), k) == count_eq(t.take(i), k));
        assert(rank(t, i) == count_lt(t, k) + r - count_lt(t, k));
        assert(rank(s, i) == rank(t, i));
        assert(count_lt(s, k) == count_lt(t, k) + if (s.last() as int) < k {
            1int
        } else {
            0int
        });
        assert(dest(s, i) == count_lt(s, k) + r);
    } else {
        assert((s.last() as int) == k);
        assert((s[n - 1] as int) == k);
        assert(s.take(n - 1) =~= t);
        assert(rank(s, n - 1) == count_eq(t, k));
        assert(r == count_eq(t, k));
        assert(dest(s, n - 1) == count_lt(s, k) + r);
    }
}

/// An output whose elements all landed at their destinations sits, at every
/// position, inside the bucket interval of the key it holds.
pub proof fn lemma_dest_facts_counting_sorted(s: Seq<usize>, out: Seq<usize>, u: int)
    requires
        out.len() == s.len(),
        forall|q: int| 0 <= q < s.len() ==> (s[q] as int) < u,
        forall|i: int| 0 <= i < s.len() ==> out[#[trigger] dest(s, i)] == s[i],
    ensures
        counting_sorted(s, out),
{
    lemma_count_lt_all(s, u);
    assert forall|p: int| 0 <= p < out.len() implies #[trigger] key_in_bucket(s, out, p) by {
        lemma_bucket_tiling(s, u, p);
        let k = choose|k: int|
            0 <= k < u && #[trigger] count_lt(s, k) <= p < count_lt(s, k) + count_eq(s, k);
        let r = p - count_lt(s, k);
        lemma_rank_exists(s, k, r);
        let i = choose|i: int|
            0 <= i < s.len() && (s[i] as int) == k && #[trigger] dest(s, i) == count_lt(s, k) + r;
        assert(out[p] == s[i]);
    }
}

/// A counting-sorted output is in non-decreasing order.
pub proof fn lemma_counting_sorted_is_sorted(s: Seq<usize>, out: Seq<usize>)
    requires
        counting_sorted(s, out),
    ensures
        sorted(out),
{
    assert forall|p: int, q: int| 0 <= p < q < out.len() implies out[p] <= out[q] by {
        assert(key_in_bucket(s, out, p));
        assert(key_in_bucket(s, out, q));
        if out[p] > out[q] {
            lemma_bucket_order(s, out[q] as int, out[p] as int);
        }
    }
}

/// If holding `k` is exactly the same as lying in `[a, b)`, there are
/// exactly `b - a` occurrences of `k`.
pub proof fn lemma_count_interval(out: Seq<usize>, k: int, a: int, b: int)
    requires
        0 <= a <= b <= out.len(),
        forall|p: int| 0 <= p < out.len() ==> ((out[p] as int) == k <==> a <= p < b),
    ensures
        count_eq(out, k) == b - a,
    decreases out.len(),
{
    if out.len() > 0 {
        let t = out.drop_last();
        let n = out.len() as int;
        if b == n && a < b {
            assert(forall|p: int| 0 <= p < t.len() ==> ((t[p] as int) == k <==> a <= p < b - 1));
            lemma_count_interval(t, k, a, b - 1);
        } else {
            let a1 = if a < n {
                a
            } else {
                n - 1
            };
            assert(forall|p: int| 0 <= p < t.len() ==> ((t[p] as int) == k <==> a1 <= p < (
            if b < n {
                b
            } else {
                a1
            })));
            lemma_count_interval(
                t,
                k,
                a1,
                if b < n {
                    b
                } else {
                    a1
                },
            );
        }
    }
}

/// A counting-sorted output has exactly the key counts of the input.
pub proof fn lemma_counting_sorted_counts(s: Seq<usize>, out: Seq<usize>)
    requires
        counting_sorted(s, out),
    ensures
        forall|k: int| #[trigger] count_eq(out, k) == count_eq(s, k),
{
    assert forall|k: int| #[trigger] count_eq(out, k) == count_eq(s, k) by {
        lemma_count_bounds(s, k);
        if count_eq(s, k) == 0 {
            assert forall|p: int| 0 <= p < out.len() implies ((out[p] as int) == k <==> 0 <= p
                < 0) by {
                assert(key_in_bucket(s, out, p));
            }
            lemma_count_interval(out, k, 0, 0);
        } else {
            let a = count_lt(s, k);
            let b = a + count_eq(s, k);
            assert forall|p: int| 0 <= p < out.len() implies ((out[p] as int) == k <==> a <= p
                < b) by {
                assert(key_in_bucket(s, out, p));
                let k1 = out[p] as int;
                if k1 != k && a <= p < b {
                    if k1 < k {
                        lemma_bucket_order(s, k1, k);
                    } else {
                        lemma_bucket_order(s, k, k1);
                    }
                }
            }
            lemma_count_interval(out, k, a, b);
        }
    }
}

/// `count_eq` agrees with the multiset view of a sequence.
pub proof fn lemma_count_eq_multiset(s: Seq<usize>)
    ensures
        forall|k: usize| #[trigger] s.to_multiset().count(k) == count_eq(s, k as int),
    decreases s.len(),
{
    broadcast use vstd::multiset::group_multiset_axioms;

    if s.len() == 0 {
        assert forall|k: usize| #[trigger] s.to_multiset().count(k) == count_eq(s, k as int) by {
            s.to_multiset_ensures();
            vstd::multiset::axiom_count_le_len(s.to_multiset(), k);
        }
    } else {
        let t = s.drop_last();
        let x = s.last();
        lemma_count_eq_multiset(t);
        assert(s =~= t.push(x));
        t.to_multiset_ensures();
        assert(s.to_multiset() =~= t.to_multiset().insert(x));
        assert forall|k: usize| #[trigger] s.to_multiset().count(k) == count_eq(s, k as int) by {
            if k == x {
                vstd::multiset::lemma_insert_increases_count_by_1(t.to_multiset(), x);
            } else {
                vstd::multiset::lemma_insert_other_elements_unchanged(t.to_multiset(), x, k);
            }
        }
    }
}

/// Sequences with the same key counts have the same multiset of keys.
pub proof fn lemma_counts_give_multiset(x: Seq<usize>, y: Seq<usize>)
    requires
        forall|k: int| #[trigger] count_eq(x, k) == count_eq(y, k),
    ensures
        x.to_multiset() == y.to_multiset(),
{
    broadcast use vstd::multiset::group_multiset_axioms;

    lemma_count_eq_multiset(x);
    lemma_count_eq_multiset(y);
    assert(x.to_multiset() =~= y.to_multiset());
}

/// In a sorted sequence whose tail from `i` on is at least `k`, all keys
/// below `k` already lie in the prefix before `i`.
proof fn lemma_count_lt_frozen(s: Seq<usize>, k: int, i: int)
    requires
        0 <= i <= s.len(),
        forall|j: int| i <= j < s.len() ==> (s[j] as int) >= k,
    ensures
        count_lt(s, k) == count_lt(s.take(i), k),
    decreases s.len() - i,
{
    if i == s.len() {
        assert(s.take(i) =~= s);
    } else {
        let t = s.drop_last();
        assert(forall|j: int| i <= j < t.len() ==> (t[j] as int) >= k);
        lemma_count_lt_frozen(t, k, i);
        assert(t.take(i) =~= s.take(i));
    }
}

/// In a prefix whose keys are all at most `k`, each position is counted as
/// either below `k` or equal to `k`.
proof fn lemma_count_prefix_partition(s: Seq<usize>, k: int, i: int)
    requires
        0 <= i <= s.len(),
        forall|j: int| 0 <= j < i ==> (s[j] as int) <= k,
    ensures
        count_lt(s.take(i), k) + count_eq(s.take(i), k) == i,
    decreases i,
{
    if i > 0 {
        lemma_count_prefix_partition(s, k, i - 1);
        lemma_count_take_succ(s, i - 1);
        assert(count_eq(s.take((i - 1) + 1), k) == count_eq(s.take(i - 1), k) + if s[i
            - 1] as int == k {
            1int
        } else {
            0int
        });
        assert(count_lt(s.take((i - 1) + 1), k) == count_lt(s.take(i - 1), k) + if (s[i
            - 1] as int) < k {
            1int
        } else {
            0int
        });
        assert(s.take((i - 1) + 1) == s.take(i));
    }
}

/// In a sorted sequence every element is already at its destination.
pub proof fn lemma_sorted_dest_identity(s: Seq<usize>)
    requires
        sorted(s),
    ensures
        forall|i: int| 0 <= i < s.len() ==> #[trigger] dest(s, i) == i,
{
    assert forall|i: int| 0 <= i < s.len() implies #[trigger] dest(s, i) == i by {
        let k = s[i] as int;
        lemma_count_lt_frozen(s, k, i);
        lemma_count_prefix_partition(s, k, i);
        lemma_count_bounds(s.take(i), k);
    }
}

/// Counting-sorting a sequence that is already sorted gives it back
/// unchanged.
pub proof fn lemma_counting_sorted_identity(s: Seq<usize>, out: Seq<usize>)
    requires
        sorted(s),
        counting_sorted(s, out),
    ensures
        out == s,
{
    lemma_sorted_dest_identity(s);
    assert forall|p: int| 0 <= p < s.len() implies out[p] == s[p] by {
        assert(key_in_bucket(s, out, p));
        lemma_dest_in_range(s, p);
        assert(count_lt(s, s[p] as int) <= p < count_lt(s, s[p] as int) + count_eq(
            s,
            s[p] as int,
        ));
        let k1 = out[p] as int;
        let k = s[p] as int;
        if k1 < k {
            lemma_bucket_order(s, k1, k);
        } else if k1 > k {
            lemma_bucket_order(s, k, k1);
        }
    }
    assert(out =~= s);
}

/// If every occurrence of `k` lies in `[a, b)`, there are at most `b - a`
/// of them.
proof fn lemma_count_within(s: Seq<usize>, k: int, a: int, b: int)
    requires
        0 <= a <= b <= s.len(),
        forall|p: int| 0 <= p < s.len() && (s[p] as int) == k ==> a <= p < b,
    ensures
        count_eq(s, k) <= b - a,
    decreases s.len(),
{
    lemma_count_bounds(s, k);
    if a == b {
        assert(forall|p: int| 0 <= p < s.len() ==> ((s[p] as int) == k <==> 0 <= p < 0));
        lemma_count_interval(s, k, 0, 0);
    }
    if s.len() > 0 && a < b {
        let t = s.drop_last();
        let n = s.len() as int;
        if b == n {
            assert(forall|p: int| 0 <= p < t.len() && (t[p] as int) == k ==> a <= p < n - 1);
            lemma_count_within(t, k, a, n - 1);
        } else {
            assert((s[n - 1] as int) != k);
            assert(forall|p: int| 0 <= p < t.len() && (t[p] as int) == k ==> a <= p < b);
            lemma_count_within(t, k, a, b);
        }
    }
}

/// If every occurrence of `k` lies in `[a, b)` but misses the position `x`
/// inside that interval, there are strictly fewer than `b - a` of them.
proof fn lemma_count_punctured(s: Seq<usize>, k: int, a: int, b: int, x: int)
    requires
        0 <= a <= x < b <= s.len(),
        forall|p: int| 0 <= p < s.len() && (s[p] as int) == k ==> a <= p < b && p != x,
    ensures
        count_eq(s, k) <= b - a - 1,
    decreases s.len(),
{
    let t = s.drop_last();
    let n = s.len() as int;
    if b < n {
        assert((s[n - 1] as int) != k);
        assert(forall|p: int| 0 <= p < t.len() && (t[p] as int) == k ==> a <= p < b && p != x);
        lemma_count_punctured(t, k, a, b, x);
    } else {
        if x == n - 1 {
            assert((s[n - 1] as int) != k);
            assert(forall|p: int| 0 <= p < t.len() && (t[p] as int) == k ==> a <= p < n - 1);
            lemma_count_within(t, k, a, n - 1);
        } else {
            assert(forall|p: int| 0 <= p < t.len() && (t[p] as int) == k ==> a <= p < b - 1 && p
                != x);
            lemma_count_punctured(t, k, a, b - 1, x);
        }
    }
}

/// The state that the in-place placement pass maintains over the original
/// key sequence `s0`: the working keys `ks` are a rearrangement with the
/// same counts, every bucket's fill pointer sits between the start and the
/// end of its interval, and the filled prefix of each bucket already holds
/// its own key.
pub open spec fn placement_state(
    s0: Seq<usize>,
    ks: Seq<usize>,
    buckets: Seq<usize>,
    u: int,
) -> bool {
    &&& ks.len() == s0.len()
    &&& buckets.len() == u
    &&& (forall|q: int| 0 <= q < ks.len() ==> ((#[trigger] ks[q]) as int) < u)
    &&& (forall|m: int| #[trigger] count_eq(ks, m) == count_eq(s0, m))
    &&& (forall|m: int|
        0 <= m < u ==> #[trigger] count_lt(s0, m) <= buckets[m] as int <= count_lt(s0, m)
            + count_eq(s0, m))
    &&& (forall|m: int, p: int|
        #![trigger buckets[m], ks[p]]
        0 <= m < u && count_lt(s0, m) <= p < buckets[m] as int ==> (ks[p] as int) == m)
}

/// Every position up to `i` has been visited: its key's fill pointer has
/// caught up to it or passed it.
pub open spec fn visited_below(ks: Seq<usize>, buckets: Seq<usize>, i: int) -> bool {
    forall|p: int| 0 <= p < i ==> p <= buckets[((#[trigger] ks[p]) as int)] as int
}

/// Once every position has been visited, each position lies inside the
/// bucket interval of the key it holds: the pass has sorted the keys.
pub proof fn lemma_placement_complete(
    s0: Seq<usize>,
    ks: Seq<usize>,
    buckets: Seq<usize>,
    u: int,
)
    requires
        placement_state(s0, ks, buckets, u),
        visited_below(ks, buckets, ks.len() as int),
        forall|q: int| 0 <= q < s0.len() ==> ((#[trigger] s0[q]) as int) < u,
    ensures
        counting_sorted(s0, ks),
{
    if ks.len() > 0 {
        lemma_placement_good_upto(s0, ks, buckets, u, ks.len() - 1);
    }
}

/// Strong induction over positions: every position up to `p` already holds
/// the key whose bucket interval contains it.
proof fn lemma_placement_good_upto(
    s0: Seq<usize>,
    ks: Seq<usize>,
    buckets: Seq<usize>,
    u: int,
    p: int,
)
    requires
        placement_state(s0, ks, buckets, u),
        visited_below(ks, buckets, ks.len() as int),
        forall|q: int| 0 <= q < s0.len() ==> ((#[trigger] s0[q]) as int) < u,
        0 <= p < ks.len(),
    ensures
        forall|q: int| 0 <= q <= p ==> #[trigger] key_in_bucket(s0, ks, q),
    decreases p,
{
    if p > 0 {
        lemma_placement_good_upto(s0, ks, buckets, u, p - 1);
    }
    lemma_count_lt_all(s0, u);
    lemma_bucket_tiling(s0, u, p);
    let kk = choose|k: int|
        0 <= k < u && #[trigger] count_lt(s0, k) <= p < count_lt(s0, k) + count_eq(s0, k);
    let lo = count_lt(s0, kk);
    let c = count_eq(s0, kk);
    if (ks[p] as int) == kk {
        assert(key_in_bucket(s0, ks, p));
    } else {
        assert forall|q: int| 0 <= q < ks.len() && (ks[q] as int) == kk implies lo <= q < lo + c
            && q != p by {
            if q < p {
                assert(key_in_bucket(s0, ks, q));
            } else if q > p {
                assert(q <= buckets[kk] as int);
                if q == lo + c {
                    assert(buckets[kk] as int == lo + c);
                    lemma_count_extra(ks, kk, lo, lo + c, q);
                }
            }
        }
        lemma_count_bounds(s0, kk);
        lemma_count_punctured(ks, kk, lo, lo + c, p);
        assert(count_eq(ks, kk) == c);
        assert(false);
    }
}

/// Stability of the co-sort: when two input positions carry equal keys,
/// the value of the earlier one precedes the value of the later one in the
/// output.
pub proof fn lemma_co_sort_stability<V>(
    ks: Seq<usize>,
    vals: Seq<V>,
    out_vals: Seq<V>,
    i: int,
    j: int,
)
    requires
        vals.len() == ks.len(),
        out_vals.len() == ks.len(),
        forall|q: int| 0 <= q < ks.len() ==> out_vals[#[trigger] dest(ks, q)] == vals[q],
        0 <= i < j < ks.len(),
        ks[i] == ks[j],
    ensures
        dest(ks, i) < dest(ks, j),
        out_vals[dest(ks, i)] == vals[i],
        out_vals[dest(ks, j)] == vals[j],
{
    lemma_dest_stable(ks, i, j);
}

/// Co-sorting a pair whose keys are already sorted gives back both the
/// keys and the values unchanged.
pub proof fn lemma_sorted_input_unchanged<V>(
    ks: Seq<usize>,
    vals: Seq<V>,
    out_keys: Seq<usize>,
    out_vals: Seq<V>,
)
    requires
        sorted(ks),
        vals.len() == ks.len(),
        out_keys.len() == ks.len(),
        out_vals.len() == ks.len(),
        forall|i: int|
            0 <= i < ks.len() ==> out_keys[#[trigger] dest(ks, i)] == ks[i] && out_vals[dest(
                ks,
                i,
            )] == vals[i],
    ensures
        out_keys == ks,
        out_vals == vals,
{
    lemma_sorted_dest_identity(ks);
    assert forall|p: int| 0 <= p < ks.len() implies out_keys[p] == ks[p] by {
        assert(dest(ks, p) == p);
        assert(out_keys[dest(ks, p)] == ks[p]);
    }
    assert forall|p: int| 0 <= p < ks.len() implies out_vals[p] == vals[p] by {
        assert(dest(ks, p) == p);
        assert(out_vals[dest(ks, p)] == vals[p]);
    }
    assert(out_keys =~= ks);
    assert(out_vals =~= vals);
}

/// A prefix of the histogram sums to the number of keys below the prefix
/// length.
pub proof fn lemma_sum_take_count(h: Seq<usize>, s: Seq<usize>, k: int)
    requires
        0 <= k <= h.len(),
        forall|m: int| 0 <= m < k ==> (h[m] as int) == count_eq(s, m),
    ensures
        seq_sum(h.take(k)) == count_lt(s, k),
    decreases k,
{
    if k == 0 {
        lemma_count_lt_zero(s, 0);
    } else {
        lemma_sum_take_count(h, s, k - 1);
        lemma_seq_sum_take_succ(h, k - 1);
        lemma_count_lt_succ(s, k - 1);
    }
}

/// The histogram of a key sequence sums to the number of keys: no key is
/// lost or fabricated by counting.
pub proof fn lemma_histogram_sum(h: Seq<usize>, s: Seq<usize>)
    requires
        forall|m: int| 0 <= m < h.len() ==> (h[m] as int) == count_eq(s, m),
        forall|i: int| 0 <= i < s.len() ==> (s[i] as int) < h.len(),
    ensures
        seq_sum(h) == s.len(),
{
    lemma_sum_take_count(h, s, h.len() as int);
    assert(h.take(h.len() as int) =~= h);
    lemma_count_lt_all(s, h.len() as int);
}

} // verus!
