//! Sequence normalization: adjust a sequence of weights so that its sum
//! reaches a given target, with minimal distortion.
//!
//! The adjustment itself is done by `sp_arithmetic::normalize`; its outcome is
//! named by [`normalized_of`] and the facts the library needs are stated on
//! the wrapper below.

use vstd::prelude::*;

verus! {

/// The sum of a sequence of weights, over the unbounded integers.
pub open spec fn sum_seq(s: Seq<u128>) -> int
    decreases s.len(),
{
    if s.len() == 0 {
        0
    } else {
        sum_seq(s.drop_last()) + s.last()
    }
}

/// What `sp_arithmetic::normalize` returns for a given input and target; a
/// deterministic function of both.
pub uninterp spec fn normalized_of(input: Seq<u128>, target: u128) -> Seq<u128>;

/// Relies on `sp_arithmetic::normalize`: it keeps the length and the index
/// correspondence of the input, fails exactly when the sum of the input does
/// not fit the 128-bit domain, returns a sequence summing to the target
/// whenever the input is non-empty, and hands a sequence already summing to
/// the target back unchanged.
#[verifier::external_body]
pub(crate) fn normalize_weights(input: &Vec<u128>, target: u128) -> (r: Option<Vec<u128>>)
    ensures
        r is Some <==> sum_seq(input@) <= u128::MAX,
        r matches Some(out) ==> out@ == normalized_of(input@, target) && out@.len()
            == input@.len() && (input@.len() > 0 ==> sum_seq(out@) == target) && (sum_seq(input@)
            == target ==> out@ == input@),
{
    sp_arithmetic::normalize(input.as_slice(), target).ok()
}

/// A prefix of a sequence of weights sums to no more than the whole.
pub proof fn lemma_sum_seq_take(s: Seq<u128>, i: int)
    requires
        0 <= i <= s.len(),
    ensures
        0 <= sum_seq(s.take(i)) <= sum_seq(s),
    decreases s.len(),
{
    if i == s.len() {
        assert(s.take(i) =~= s);
        lemma_sum_seq_nonneg(s);
    } else {
        assert(s.take(i) =~= s.drop_last().take(i));
        lemma_sum_seq_take(s.drop_last(), i);
    }
}

/// A sum of weights is never negative.
pub proof fn lemma_sum_seq_nonneg(s: Seq<u128>)
    ensures
        sum_seq(s) >= 0,
    decreases s.len(),
{
    if s.len() > 0 {
        lemma_sum_seq_nonneg(s.drop_last());
    }
}

/// A sequence of elements each at most `bound` sums to at most
/// `len * bound`.
pub proof fn lemma_sum_seq_bounded(s: Seq<u128>, bound: u128)
    requires
        forall|i: int| 0 <= i < s.len() ==> s[i] <= bound,
    ensures
        0 <= sum_seq(s) <= s.len() * bound,
    decreases s.len(),
{
    if s.len() == 0 {
    } else {
        lemma_sum_seq_bounded(s.drop_last(), bound);
        assert((s.len() - 1) * bound + bound == s.len() * bound) by (nonlinear_arith);
    }
}

} // verus!
