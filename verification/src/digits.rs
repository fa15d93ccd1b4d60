use vstd::prelude::*;

verus! {

/// Sum of a sequence of cell readings (an empty cell reads as 0).
pub open spec fn seq_sum(s: Seq<u32>) -> int
    decreases s.len(),
{
    if s.len() == 0 {
        0
    } else {
        seq_sum(s.drop_last()) + s.last()
    }
}

/// How many entries of `s` hold the digit `d`.
pub open spec fn count_val(s: Seq<u32>, d: u32) -> int
    decreases s.len(),
{
    if s.len() == 0 {
        0
    } else {
        count_val(s.drop_last(), d) + if s.last() == d {
            1int
        } else {
            0int
        }
    }
}

/// The nine entries hold each digit 1..=9 exactly once.
pub open spec fn is_perm_1_9(s: Seq<u32>) -> bool {
    s.len() == 9 && forall|d: u32| 1 <= d <= 9 ==> count_val(s, d) == 1
}

pub proof fn lemma_count_nonneg(s: Seq<u32>, d: u32)
    ensures
        0 <= count_val(s, d) <= s.len(),
    decreases s.len(),
{
    if s.len() > 0 {
        lemma_count_nonneg(s.drop_last(), d);
    }
}

/// A digit that occurs nowhere in `s` has count 0.
pub proof fn lemma_count_absent(s: Seq<u32>, d: u32)
    requires
        forall|i: int| 0 <= i < s.len() ==> s[i] != d,
    ensures
        count_val(s, d) == 0,
    decreases s.len(),
{
    if s.len() > 0 {
        assert(forall|i: int| 0 <= i < s.drop_last().len() ==> s.drop_last()[i] == s[i]);
        lemma_count_absent(s.drop_last(), d);
    }
}

/// In a sequence with pairwise-distinct entries no digit occurs twice.
pub proof fn lemma_count_distinct(s: Seq<u32>, d: u32)
    requires
        forall|i: int, j: int| 0 <= i < j < s.len() ==> s[i] != s[j],
    ensures
        count_val(s, d) <= 1,
    decreases s.len(),
{
    if s.len() > 0 {
        let t = s.drop_last();
        assert(forall|i: int| 0 <= i < t.len() ==> t[i] == s[i]);
        if s.last() == d {
            assert(forall|i: int| 0 <= i < t.len() ==> #[trigger] s[i] != s[s.len() - 1]);
            lemma_count_absent(t, d);
        } else {
            lemma_count_distinct(t, d);
        }
    }
}

/// When every entry is a digit 1..=9, the nine per-digit counts add up to the
/// length of the sequence.
pub proof fn lemma_counts_total(s: Seq<u32>)
    requires
        forall|i: int| 0 <= i < s.len() ==> 1 <= #[trigger] s[i] <= 9,
    ensures
        count_val(s, 1) + count_val(s, 2) + count_val(s, 3) + count_val(s, 4) + count_val(s, 5)
            + count_val(s, 6) + count_val(s, 7) + count_val(s, 8) + count_val(s, 9) == s.len(),
    decreases s.len(),
{
    if s.len() > 0 {
        let t = s.drop_last();
        assert(forall|i: int| 0 <= i < t.len() ==> t[i] == s[i]);
        lemma_counts_total(t);
        assert(1 <= s.last() <= 9);
    }
}

/// When every entry is a digit 1..=9, the sum is the count-weighted sum of
/// the digits.
pub proof fn lemma_sum_by_counts(s: Seq<u32>)
    requires
        forall|i: int| 0 <= i < s.len() ==> 1 <= #[trigger] s[i] <= 9,
    ensures
        seq_sum(s) == 1 * count_val(s, 1) + 2 * count_val(s, 2) + 3 * count_val(s, 3) + 4
            * count_val(s, 4) + 5 * count_val(s, 5) + 6 * count_val(s, 6) + 7 * count_val(s, 7) + 8
            * count_val(s, 8) + 9 * count_val(s, 9),
    decreases s.len(),
{
    if s.len() > 0 {
        let t = s.drop_last();
        assert(forall|i: int| 0 <= i < t.len() ==> t[i] == s[i]);
        lemma_sum_by_counts(t);
        assert(1 <= s.last() <= 9);
    }
}

/// Nine pairwise-distinct digits, each between 1 and 9, are a permutation of
/// 1..=9 and add up to exactly 45.
pub proof fn lemma_distinct_digits_perm(s: Seq<u32>)
    requires
        s.len() == 9,
        forall|i: int| 0 <= i < 9 ==> 1 <= #[trigger] s[i] <= 9,
        forall|i: int, j: int| 0 <= i < j < 9 ==> s[i] != s[j],
    ensures
        is_perm_1_9(s),
        seq_sum(s) == 45,
{
    lemma_counts_total(s);
    assert forall|e: u32| 1 <= e <= 9 implies 0 <= #[trigger] count_val(s, e) <= 1 by {
        lemma_count_nonneg(s, e);
        lemma_count_distinct(s, e);
    }
    assert(forall|e: u32| 1 <= e <= 9 ==> #[trigger] count_val(s, e) == 1) by {
        assert(count_val(s, 1) + count_val(s, 2) + count_val(s, 3) + count_val(s, 4) + count_val(
            s,
            5,
        ) + count_val(s, 6) + count_val(s, 7) + count_val(s, 8) + count_val(s, 9) == 9);
    }
    lemma_sum_by_counts(s);
}

} // verus!
