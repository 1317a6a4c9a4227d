//! Counting sort for keys drawn from a bounded range of non-negative
//! integers: a histogram counter, an exclusive prefix-sum transform, a
//! keys-only reconstruction sort, and a stable key/value co-sort with both
//! out-of-place and in-place placement strategies.

pub mod counts;
pub mod histogram;
pub mod laws;
pub mod sort;
