//! Subsequences picked out by a sequence of verdicts.
//!
//! A mask gives one verdict per position: `true` for "drain", `false` for
//! "retain". [`select`] is the subsequence of the positions with a given
//! verdict; [`count`] is how many such positions there are.

use vstd::prelude::*;

verus! {

/// The elements of `values` at the positions where `mask` holds `verdict`, in
/// their original order. Positions that `mask` does not cover are left out.
pub open spec fn select<T>(values: Seq<T>, mask: Seq<bool>, verdict: bool) -> Seq<T>
    decreases values.len(),
{
    if values.len() == 0 {
        Seq::empty()
    } else {
        let front = select(values.drop_last(), mask, verdict);
        let at = values.len() - 1;
        if at < mask.len() && mask[at] == verdict {
            front.push(values.last())
        } else {
            front
        }
    }
}

/// The number of positions at which `mask` holds `verdict`.
pub open spec fn count(mask: Seq<bool>, verdict: bool) -> nat
    decreases mask.len(),
{
    if mask.len() == 0 {
        0
    } else {
        count(mask.drop_last(), verdict) + if mask.last() == verdict {
            1nat
        } else {
            0nat
        }
    }
}

/// A mask of `n` verdicts, all of them `verdict`.
pub open spec fn uniform(n: nat, verdict: bool) -> Seq<bool> {
    Seq::new(n, |i: int| verdict)
}

/// Every position holds exactly one of the two verdicts.
pub proof fn lemma_count_split(mask: Seq<bool>)
    ensures
        count(mask, true) + count(mask, false) == mask.len(),
    decreases mask.len(),
{
    if mask.len() > 0 {
        lemma_count_split(mask.drop_last());
    }
}

/// Only the verdicts at the positions of `values` matter.
pub proof fn lemma_select_ignores_tail<T>(values: Seq<T>, mask: Seq<bool>, verdict: bool)
    requires
        values.len() <= mask.len(),
    ensures
        select(values, mask, verdict) == select(values, mask.take(values.len() as int), verdict),
    decreases values.len(),
{
    if values.len() > 0 {
        let short = mask.take(values.len() as int);
        lemma_select_ignores_tail(values.drop_last(), mask, verdict);
        lemma_select_ignores_tail(values.drop_last(), short, verdict);
        assert(short.take(values.len() - 1) == mask.take(values.len() - 1));
    }
}

/// One more element with its verdict either joins the selection or does not.
pub proof fn lemma_select_push<T>(values: Seq<T>, mask: Seq<bool>, value: T, drain: bool, verdict: bool)
    requires
        values.len() == mask.len(),
    ensures
        select(values.push(value), mask.push(drain), verdict) == if drain == verdict {
            select(values, mask, verdict).push(value)
        } else {
            select(values, mask, verdict)
        },
{
    let longer = values.push(value);
    assert(longer.drop_last() == values);
    lemma_select_ignores_tail(values, mask.push(drain), verdict);
    assert(mask.push(drain).take(values.len() as int) == mask);
}

/// Selecting from two sequences laid end to end selects from each of them.
pub proof fn lemma_select_add<T>(
    first: Seq<T>,
    first_mask: Seq<bool>,
    then: Seq<T>,
    then_mask: Seq<bool>,
    verdict: bool,
)
    requires
        first.len() == first_mask.len(),
        then.len() == then_mask.len(),
    ensures
        select(first + then, first_mask + then_mask, verdict) == select(first, first_mask, verdict)
            + select(then, then_mask, verdict),
    decreases then.len(),
{
    if then.len() == 0 {
        assert(first + then == first);
        assert(first_mask + then_mask == first_mask);
        assert(select(first, first_mask, verdict) + select(then, then_mask, verdict) == select(
            first,
            first_mask,
            verdict,
        ));
    } else {
        let front = then.drop_last();
        let verdicts = then_mask.drop_last();
        lemma_select_add(first, first_mask, front, verdicts, verdict);
        lemma_select_push(front, verdicts, then.last(), then_mask.last(), verdict);
        lemma_select_push(first + front, first_mask + verdicts, then.last(), then_mask.last(), verdict);
        assert(front.push(then.last()) == then);
        assert(verdicts.push(then_mask.last()) == then_mask);
        assert((first + front).push(then.last()) == first + then);
        assert((first_mask + verdicts).push(then_mask.last()) == first_mask + then_mask);
        assert(select(first, first_mask, verdict) + select(front, verdicts, verdict).push(then.last())
            == (select(first, first_mask, verdict) + select(front, verdicts, verdict)).push(
            then.last(),
        ));
    }
}

/// A selection is as long as the number of positions with that verdict.
pub proof fn lemma_select_len<T>(values: Seq<T>, mask: Seq<bool>, verdict: bool)
    requires
        values.len() == mask.len(),
    ensures
        select(values, mask, verdict).len() == count(mask, verdict),
    decreases values.len(),
{
    if values.len() > 0 {
        lemma_select_len(values.drop_last(), mask.drop_last(), verdict);
        lemma_select_push(values.drop_last(), mask.drop_last(), values.last(), mask.last(), verdict);
        assert(values.drop_last().push(values.last()) == values);
        assert(mask.drop_last().push(mask.last()) == mask);
    }
}

/// The two selections together hold every element exactly once.
pub proof fn lemma_select_partitions<T>(values: Seq<T>, mask: Seq<bool>)
    requires
        values.len() == mask.len(),
    ensures
        select(values, mask, true).to_multiset().add(select(values, mask, false).to_multiset())
            == values.to_multiset(),
    decreases values.len(),
{
    broadcast use vstd::seq_lib::group_to_multiset_ensures;
    if values.len() == 0 {
        assert(select(values, mask, true).to_multiset().add(select(values, mask, false).to_multiset())
            =~= values.to_multiset());
    } else {
        let front = values.drop_last();
        let verdicts = mask.drop_last();
        lemma_select_partitions(front, verdicts);
        lemma_select_push(front, verdicts, values.last(), mask.last(), true);
        lemma_select_push(front, verdicts, values.last(), mask.last(), false);
        assert(front.push(values.last()) == values);
        assert(verdicts.push(mask.last()) == mask);
        assert(select(values, mask, true).to_multiset().add(select(values, mask, false).to_multiset())
            =~= values.to_multiset());
    }
}

/// A uniform mask selects everything under its verdict and nothing under the other.
pub proof fn lemma_select_uniform<T>(values: Seq<T>, verdict: bool)
    ensures
        select(values, uniform(values.len(), verdict), verdict) == values,
        select(values, uniform(values.len(), verdict), !verdict) == Seq::<T>::empty(),
    decreases values.len(),
{
    if values.len() > 0 {
        let front = values.drop_last();
        lemma_select_uniform(front, verdict);
        lemma_select_push(front, uniform(front.len(), verdict), values.last(), verdict, verdict);
        lemma_select_push(front, uniform(front.len(), verdict), values.last(), verdict, !verdict);
        assert(front.push(values.last()) == values);
        assert(uniform(front.len(), verdict).push(verdict) == uniform(values.len(), verdict));
    }
}

} // verus!
