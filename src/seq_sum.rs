//! Sums of integer sequences and the search for the bucket that holds an offset.

use vstd::prelude::*;

verus! {

/// The sum of all entries of `s`.
pub open spec fn sum(s: Seq<int>) -> int
    decreases s.len(),
{
    if s.len() == 0 {
        0
    } else {
        sum(s.drop_last()) + s.last()
    }
}

/// The sum of the first `n` entries of `s`.
pub open spec fn prefix_sum(s: Seq<int>, n: int) -> int {
    sum(s.subrange(0, n))
}

/// The sum of a concatenation is the sum of its parts.
pub proof fn lemma_sum_concat(a: Seq<int>, b: Seq<int>)
    ensures
        sum(a + b) == sum(a) + sum(b),
    decreases b.len(),
{
    if b.len() == 0 {
        assert(a + b =~= a);
    } else {
        assert((a + b).drop_last() =~= a + b.drop_last());
        lemma_sum_concat(a, b.drop_last());
    }
}

/// A sum of entries that are never negative is never negative.
pub proof fn lemma_sum_nonneg(s: Seq<int>)
    requires
        forall|j: int| 0 <= j < s.len() ==> s[j] >= 0,
    ensures
        sum(s) >= 0,
    decreases s.len(),
{
    if s.len() > 0 {
        lemma_sum_nonneg(s.drop_last());
    }
}

/// Adding the next entry to a prefix sum.
pub proof fn lemma_prefix_sum_step(s: Seq<int>, i: int)
    requires
        0 <= i < s.len(),
    ensures
        prefix_sum(s, i + 1) == prefix_sum(s, i) + s[i],
{
    assert(s.subrange(0, i + 1).drop_last() =~= s.subrange(0, i));
}

/// The sum of all entries is the prefix sum of the whole sequence.
pub proof fn lemma_prefix_sum_full(s: Seq<int>)
    ensures
        prefix_sum(s, s.len() as int) == sum(s),
{
    assert(s.subrange(0, s.len() as int) =~= s);
}

/// With no negative entry, a prefix sum never exceeds the whole sum.
pub proof fn lemma_prefix_sum_le_sum(s: Seq<int>, n: int)
    requires
        0 <= n <= s.len(),
        forall|j: int| 0 <= j < s.len() ==> s[j] >= 0,
    ensures
        0 <= prefix_sum(s, n) <= sum(s),
{
    let a = s.subrange(0, n);
    let b = s.subrange(n, s.len() as int);
    assert(a + b =~= s);
    lemma_sum_concat(a, b);
    lemma_sum_nonneg(a);
    lemma_sum_nonneg(b);
}

/// With no negative entry, prefix sums grow with their length.
pub proof fn lemma_prefix_sum_monotone(s: Seq<int>, m: int, n: int)
    requires
        0 <= m <= n <= s.len(),
        forall|j: int| 0 <= j < s.len() ==> s[j] >= 0,
    ensures
        prefix_sum(s, m) <= prefix_sum(s, n),
{
    let t = s.subrange(0, n);
    assert(t.subrange(0, m) =~= s.subrange(0, m));
    assert(t.subrange(0, n) =~= t);
    lemma_prefix_sum_le_sum(t, m);
}

/// The first index `j >= i` whose bucket ends after `x`, where bucket `j` of `s`
/// covers `prefix_sum(s, j) <= x < prefix_sum(s, j + 1)`; `s.len()` where there
/// is none.
pub open spec fn bucket_from(s: Seq<int>, x: int, i: int) -> int
    decreases s.len() - i,
{
    if 0 <= i < s.len() {
        if x < prefix_sum(s, i + 1) {
            i
        } else {
            bucket_from(s, x, i + 1)
        }
    } else {
        s.len() as int
    }
}

/// The index of the first bucket of `s` that ends after `x`.
pub open spec fn bucket(s: Seq<int>, x: int) -> int {
    bucket_from(s, x, 0)
}

/// Below the whole sum, the search ends inside the sequence.
pub proof fn lemma_bucket_in_range(s: Seq<int>, x: int, i: int)
    requires
        0 <= i < s.len(),
        x < sum(s),
    ensures
        i <= bucket_from(s, x, i) < s.len(),
    decreases s.len() - i,
{
    lemma_prefix_sum_full(s);
    if x >= prefix_sum(s, i + 1) && i + 1 < s.len() {
        lemma_bucket_in_range(s, x, i + 1);
    }
}

/// At or past the whole sum, with no negative entry, the search finds no bucket.
pub proof fn lemma_bucket_out_of_range(s: Seq<int>, x: int, i: int)
    requires
        0 <= i <= s.len(),
        x >= sum(s),
        forall|j: int| 0 <= j < s.len() ==> s[j] >= 0,
    ensures
        bucket_from(s, x, i) == s.len(),
    decreases s.len() - i,
{
    if i < s.len() {
        lemma_prefix_sum_le_sum(s, i + 1);
        lemma_bucket_out_of_range(s, x, i + 1);
    }
}

/// The bucket found from `i` holds `x`, given that `x` lies past the start of bucket `i`.
pub proof fn lemma_bucket_holds(s: Seq<int>, x: int, i: int)
    requires
        0 <= i < s.len(),
        prefix_sum(s, i) <= x < sum(s),
    ensures
        prefix_sum(s, bucket_from(s, x, i)) <= x < prefix_sum(s, bucket_from(s, x, i) + 1),
    decreases s.len() - i,
{
    lemma_prefix_sum_full(s);
    if x >= prefix_sum(s, i + 1) {
        lemma_bucket_in_range(s, x, i);
        lemma_bucket_holds(s, x, i + 1);
    }
}

/// With no negative entry, the bucket that holds `x` is the one the search finds.
pub proof fn lemma_bucket_unique(s: Seq<int>, x: int, j: int)
    requires
        0 <= j < s.len(),
        prefix_sum(s, j) <= x < prefix_sum(s, j + 1),
        forall|k: int| 0 <= k < s.len() ==> s[k] >= 0,
    ensures
        bucket(s, x) == j,
{
    lemma_bucket_unique_from(s, x, j, 0);
}

proof fn lemma_bucket_unique_from(s: Seq<int>, x: int, j: int, i: int)
    requires
        0 <= i <= j < s.len(),
        prefix_sum(s, j) <= x < prefix_sum(s, j + 1),
        forall|k: int| 0 <= k < s.len() ==> s[k] >= 0,
    ensures
        bucket_from(s, x, i) == j,
    decreases j - i,
{
    if i < j {
        lemma_prefix_sum_monotone(s, i + 1, j);
        lemma_bucket_unique_from(s, x, j, i + 1);
    }
}

/// Prefix sums of a concatenation: within the first part, and past it.
pub proof fn lemma_prefix_sum_concat(s: Seq<int>, t: Seq<int>, j: int)
    requires
        0 <= j <= t.len(),
    ensures
        forall|i: int| 0 <= i <= s.len() ==> #[trigger] prefix_sum(s + t, i) == prefix_sum(s, i),
        prefix_sum(s + t, s.len() + j) == sum(s) + prefix_sum(t, j),
{
    assert forall|i: int| 0 <= i <= s.len() implies #[trigger] prefix_sum(s + t, i) == prefix_sum(s, i) by {
        assert((s + t).subrange(0, i) =~= s.subrange(0, i));
    }
    assert((s + t).subrange(0, s.len() + j) =~= s + t.subrange(0, j));
    lemma_sum_concat(s, t.subrange(0, j));
}

} // verus!
