//! Sums of sequences of 64-bit values, and the small facts about them that
//! the optimizer's conservation proof needs.

use vstd::prelude::*;

verus! {

/// The mathematical sum of a sequence of 64-bit values.
pub open spec fn sum64(s: Seq<u64>) -> int
    decreases s.len(),
{
    if s.len() == 0 {
        0
    } else {
        sum64(s.drop_last()) + s.last()
    }
}

/// The sum of unsigned values is never negative.
pub proof fn lemma_sum64_nonneg(s: Seq<u64>)
    ensures
        sum64(s) >= 0,
    decreases s.len(),
{
    if s.len() > 0 {
        lemma_sum64_nonneg(s.drop_last());
    }
}

/// Extending a prefix by one element adds that element to the sum.
pub proof fn lemma_sum64_take_succ(s: Seq<u64>, i: int)
    requires
        0 <= i < s.len(),
    ensures
        sum64(s.take(i + 1)) == sum64(s.take(i)) + s[i],
{
    assert(s.take(i + 1).drop_last() =~= s.take(i));
    assert(s.take(i + 1).last() == s[i]);
}

/// The whole sequence is its own full prefix.
pub proof fn lemma_sum64_take_all(s: Seq<u64>)
    ensures
        sum64(s.take(s.len() as int)) == sum64(s),
{
    assert(s.take(s.len() as int) =~= s);
}

/// The sum can also be peeled off the front.
pub proof fn lemma_sum64_first(s: Seq<u64>)
    requires
        s.len() > 0,
    ensures
        sum64(s) == s[0] + sum64(s.drop_first()),
    decreases s.len(),
{
    if s.len() == 1 {
        assert(s.drop_first() =~= Seq::<u64>::empty());
        assert(s.drop_last() =~= Seq::<u64>::empty());
    } else {
        lemma_sum64_first(s.drop_last());
        assert(s.drop_last().drop_first() =~= s.drop_first().drop_last());
        assert(s.drop_first().last() == s.last());
        assert(s.drop_last()[0] == s[0]);
    }
}

/// Replacing one element changes the sum by the difference.
pub proof fn lemma_sum64_update(s: Seq<u64>, i: int, v: u64)
    requires
        0 <= i < s.len(),
    ensures
        sum64(s.update(i, v)) == sum64(s) - s[i] + v,
    decreases s.len(),
{
    if i == s.len() - 1 {
        assert(s.update(i, v).drop_last() =~= s.drop_last());
        assert(s.update(i, v).last() == v);
    } else {
        assert(s.update(i, v).drop_last() =~= s.drop_last().update(i, v));
        assert(s.update(i, v).last() == s.last());
        lemma_sum64_update(s.drop_last(), i, v);
    }
}

/// No element exceeds the sum.
pub proof fn lemma_sum64_elem(s: Seq<u64>, i: int)
    requires
        0 <= i < s.len(),
    ensures
        s[i] <= sum64(s),
    decreases s.len(),
{
    if i == s.len() - 1 {
        lemma_sum64_nonneg(s.drop_last());
    } else {
        lemma_sum64_elem(s.drop_last(), i);
    }
}

/// A sequence of 64-bit values that sums to zero is zero everywhere; in
/// particular a split of a zero budget is all zeros.
pub proof fn lemma_sum64_zero_means_all_zero(s: Seq<u64>)
    requires
        sum64(s) == 0,
    ensures
        forall|i: int| 0 <= i < s.len() ==> s[i] == 0,
{
    assert forall|i: int| 0 <= i < s.len() implies s[i] == 0 by {
        lemma_sum64_elem(s, i);
    }
}

} // verus!
