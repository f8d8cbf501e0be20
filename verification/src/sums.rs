//! Sums of a per-cell quantity over the flat grid, with the lemmas the
//! engine's bookkeeping needs: how a sum reacts to one cell update, and
//! lower bounds from single cells when every term is non-negative.

use vstd::prelude::*;

verus! {

/// The sum of `f(index, value)` over all cells of `s`.
pub open spec fn sum_terms(f: spec_fn(int, i32) -> int, s: Seq<i32>) -> int
    decreases s.len(),
{
    if s.len() == 0 {
        0
    } else {
        sum_terms(f, s.drop_last()) + f(s.len() - 1, s.last())
    }
}

/// Every term of `f` over `s` is non-negative.
pub open spec fn terms_nonneg(f: spec_fn(int, i32) -> int, s: Seq<i32>) -> bool {
    forall|k: int| 0 <= k < s.len() ==> #[trigger] f(k, s[k]) >= 0
}

/// Updating one cell moves the sum by the difference of the two terms.
pub proof fn lemma_sum_update(f: spec_fn(int, i32) -> int, s: Seq<i32>, i: int, v: i32)
    requires
        0 <= i < s.len(),
    ensures
        sum_terms(f, s.update(i, v)) == sum_terms(f, s) - f(i, s[i]) + f(i, v),
    decreases s.len(),
{
    let t = s.update(i, v);
    if i == s.len() - 1 {
        assert(t.drop_last() =~= s.drop_last());
    } else {
        assert(t.drop_last() =~= s.drop_last().update(i, v));
        lemma_sum_update(f, s.drop_last(), i, v);
    }
}

/// A sum of non-negative terms is non-negative.
pub proof fn lemma_sum_nonneg(f: spec_fn(int, i32) -> int, s: Seq<i32>)
    requires
        terms_nonneg(f, s),
    ensures
        sum_terms(f, s) >= 0,
    decreases s.len(),
{
    if s.len() > 0 {
        lemma_sum_nonneg(f, s.drop_last());
    }
}

/// A sum of non-negative terms is at least any single term.
pub proof fn lemma_sum_lower_one(f: spec_fn(int, i32) -> int, s: Seq<i32>, i: int)
    requires
        terms_nonneg(f, s),
        0 <= i < s.len(),
    ensures
        sum_terms(f, s) >= f(i, s[i]),
    decreases s.len(),
{
    if i == s.len() - 1 {
        lemma_sum_nonneg(f, s.drop_last());
    } else {
        lemma_sum_lower_one(f, s.drop_last(), i);
    }
}

/// A sum of non-negative terms is at least any two distinct terms together.
pub proof fn lemma_sum_lower_two(f: spec_fn(int, i32) -> int, s: Seq<i32>, i: int, j: int)
    requires
        terms_nonneg(f, s),
        0 <= i < j < s.len(),
    ensures
        sum_terms(f, s) >= f(i, s[i]) + f(j, s[j]),
    decreases s.len(),
{
    if j == s.len() - 1 {
        lemma_sum_lower_one(f, s.drop_last(), i);
    } else {
        lemma_sum_lower_two(f, s.drop_last(), i, j);
    }
}

/// Extending a prefix by one cell adds that cell's term.
pub proof fn lemma_sum_take_step(f: spec_fn(int, i32) -> int, s: Seq<i32>, k: int)
    requires
        0 <= k < s.len(),
    ensures
        sum_terms(f, s.take(k + 1)) == sum_terms(f, s.take(k)) + f(k, s[k]),
{
    assert(s.take(k + 1).drop_last() =~= s.take(k));
}

} // verus!
