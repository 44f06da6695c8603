//! What holds of every scan.
//!
//! The laws speak of the scan as [`ScanState`] describes it: the state in
//! which [`e_drain_where`](crate::drain::VecDrainWhereExt::e_drain_where)
//! starts, the steps that [`next`](crate::drain::VecDrainWhere::next),
//! [`inspect`](crate::drain::VecDrainWhere::inspect) and
//! [`classify`](crate::drain::VecDrainWhere::classify) take, and what
//! [`drop`](crate::drain::VecDrainWhere::drop) leaves in the vector. A mask
//! stands for the answers of the predicate, one per element in the order in
//! which the scan comes to them.

use vstd::prelude::*;
use crate::mask::{count, select, lemma_count_split, lemma_select_len, lemma_select_partitions};
use crate::model::ScanState;

verus! {

/// The cursors stay in order. A scan starts with `0 <= gap <= read <= end`,
/// and neither a step nor a run of steps changes that.
pub proof fn lemma_cursors_stay_in_order<T>(
    state: ScanState<T>,
    original: Seq<T>,
    tested: Seq<T>,
    mask: Seq<bool>,
)
    ensures
        ScanState::start(original).inv(),
        state.inv() ==> state.inspect().inv(),
        state.inv() && tested.len() > 0 ==> state.holding(tested[0]).inv(),
        state.inv() && mask.len() > 0 ==> state.classify(mask[0]).inv(),
        state.inv() ==> state.run(tested, mask).0.inv(),
    decreases tested.len(),
{
    if tested.len() > 0 {
        lemma_cursors_stay_in_order(state, original, tested.drop_last(), mask);
    }
}

/// Partition. A scan that runs to the end over `original`, with a predicate
/// that answers `mask[i]` for the element at position `i` and leaves the
/// elements as they are, hands out the elements at the positions where the
/// mask is `true` and leaves in the sequence the elements at the positions
/// where it is `false`, both in their original order. The sequence is then
/// shorter by the number of `true` entries.
pub proof fn lemma_partition<T>(original: Seq<T>, mask: Seq<bool>)
    requires
        mask.len() == original.len(),
    ensures
        ({
            let (last, drained) = ScanState::start(original).run(original, mask);
            &&& last.exhausted()
            &&& last.inv()
            &&& drained == select(original, mask, true)
            &&& last.remaining() == select(original, mask, false)
            &&& last.remaining().len() == original.len() - count(mask, true)
            &&& last.remaining().len() == last.gap() + (last.end - last.read())
        }),
{
    let first = ScanState::start(original);
    first.lemma_run(original, mask);
    lemma_select_len(original, mask, false);
    lemma_count_split(mask);
    let last = first.run(original, mask).0;
    assert(last.remaining() == select(original, mask, false));
}

/// Exhaustion is final. Once the read cursor has reached the end, looking for
/// a next element finds none and leaves the state as it is, however often it
/// is tried and whatever the predicate would answer.
pub proof fn lemma_exhaustion_is_final<T>(state: ScanState<T>, tested: Seq<T>, mask: Seq<bool>)
    requires
        state.exhausted(),
    ensures
        state.inspect() == state,
        state.pass(Seq::empty(), None) == state,
        state.run(tested, mask) == (state, Seq::<T>::empty()),
    decreases tested.len(),
{
    if tested.len() > 0 {
        lemma_exhaustion_is_final(state, tested.drop_last(), mask);
    }
}

/// Stopping early. A scan over `original` that is ended after the predicate
/// has answered `evaluated` for the first elements, leaving them as they
/// are, has not touched the elements after those: the sequence then holds
/// the retained ones among the first, followed by all the later ones in
/// their original order. As many elements were handed out as `evaluated` has
/// `true` entries. No element is duplicated or lost: the elements handed out
/// and the elements in the sequence are together the original elements, each
/// as often as it was there.
pub proof fn lemma_early_stop<T>(original: Seq<T>, evaluated: Seq<bool>)
    requires
        evaluated.len() <= original.len(),
    ensures
        ({
            let seen = original.take(evaluated.len() as int);
            let rest = original.skip(evaluated.len() as int);
            let (stopped, drained) = ScanState::start(original).run(seen, evaluated);
            &&& stopped.inv()
            &&& stopped.unvisited == rest
            &&& drained == select(seen, evaluated, true)
            &&& drained.len() == count(evaluated, true)
            &&& stopped.remaining() == select(seen, evaluated, false) + rest
            &&& drained.to_multiset().add(stopped.remaining().to_multiset())
                == original.to_multiset()
        }),
{
    let seen = original.take(evaluated.len() as int);
    let rest = original.skip(evaluated.len() as int);
    let first = ScanState::start(original);
    first.lemma_run(seen, evaluated);
    let (stopped, drained) = first.run(seen, evaluated);
    let kept = select(seen, evaluated, false);
    assert(stopped.remaining() == kept + rest);
    lemma_select_len(seen, evaluated, false);
    lemma_select_len(seen, evaluated, true);
    lemma_count_split(evaluated);
    lemma_select_partitions(seen, evaluated);
    vstd::seq_lib::lemma_multiset_commutative(kept, rest);
    vstd::seq_lib::lemma_multiset_commutative(seen, rest);
    assert(seen + rest == original);
    assert(drained.to_multiset().add(stopped.remaining().to_multiset()) =~= original.to_multiset());
}

/// A predicate that does not return. A scan over `original` in which the
/// predicate answered `mask[j]` for the elements before position `at`, and
/// then failed to return on the element at position `at`, leaves in the
/// sequence the retained ones among the elements before `at`, followed by the
/// elements after `at`. The element at position `at` is lost, in whatever
/// state the predicate left it: the sequence is as long as the number of
/// `false` entries before `at` plus the number of elements after `at`. The
/// elements handed out, the elements left in the sequence and the lost
/// element are together the original elements, each as often as it was there.
pub proof fn lemma_abnormal_termination<T>(original: Seq<T>, mask: Seq<bool>, at: int, left_as: T)
    requires
        mask.len() == original.len(),
        0 <= at < original.len(),
    ensures
        ({
            let before = original.take(at);
            let answered = mask.take(at);
            let broken = ScanState::start(original).run(before, answered).0.inspect().holding(
                left_as,
            );
            &&& broken.inv()
            &&& broken.testing == Some(left_as)
            &&& broken.remaining() == select(before, answered, false) + original.skip(at + 1)
            &&& broken.remaining().len() == count(answered, false) + (original.len() - at - 1)
            &&& broken.remaining().len() == broken.gap() + (broken.end - broken.read())
            &&& ScanState::start(original).run(before, answered).1.to_multiset().add(
                broken.remaining().to_multiset(),
            ).insert(original[at]) == original.to_multiset()
        }),
{
    let before = original.take(at);
    let answered = mask.take(at);
    let first = ScanState::start(original);
    first.lemma_run(before, answered);
    lemma_select_len(before, answered, false);
    lemma_count_split(answered);
    let (reached, drained) = first.run(before, answered);
    assert(reached.unvisited.skip(1) == original.skip(at + 1));
    let kept = select(before, answered, false);
    let after = original.skip(at + 1);
    let broken = reached.inspect().holding(left_as);
    assert(broken.remaining() == kept + after);
    lemma_select_partitions(before, answered);
    vstd::seq_lib::lemma_multiset_commutative(kept, after);
    vstd::seq_lib::lemma_multiset_commutative(before.push(original[at]), after);
    vstd::seq_lib::to_multiset_build(before, original[at]);
    assert(before.push(original[at]) + after == original);
    assert(drained.to_multiset().add(broken.remaining().to_multiset()).insert(original[at])
        =~= original.to_multiset());
}

/// The empty sequence. A scan over no elements is exhausted from the start:
/// it hands nothing out, whatever is tried, and leaves the sequence empty.
pub proof fn lemma_empty_input<T>(tested: Seq<T>, mask: Seq<bool>)
    ensures
        ({
            let first = ScanState::start(Seq::<T>::empty());
            &&& first.inv()
            &&& first.exhausted()
            &&& first.inspect() == first
            &&& first.run(tested, mask) == (first, Seq::<T>::empty())
            &&& first.remaining() == Seq::<T>::empty()
        }),
{
    let first = ScanState::start(Seq::<T>::empty());
    lemma_exhaustion_is_final(first, tested, mask);
    assert(first.remaining() == Seq::<T>::empty());
}

} // verus!
