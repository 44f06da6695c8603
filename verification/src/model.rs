//! The scan as a state machine over mathematical sequences.
//!
//! A scan walks a sequence of `end` slots from left to right with two cursors,
//! `gap <= read`. The slots before `gap` hold the elements retained so far, in
//! their original order. The slots from `gap` up to `read` are vacated: what
//! they held was handed out or moved down. The slots from `read` up to `end`
//! hold the elements not yet looked at, untouched.
//!
//! Looking at an element takes two steps. [`ScanState::inspect`] moves `read`
//! past it, so that it belongs to no region while the predicate runs;
//! [`ScanState::classify`] then hands it out or appends it to the retained
//! region. An element that is inspected and never classified is lost to the
//! sequence: that is what remains of a predicate that did not return.

use vstd::prelude::*;
use crate::mask::{select, uniform, lemma_select_add, lemma_select_push, lemma_select_uniform};

verus! {

/// What the predicate did with the elements of a run, one entry per element:
/// the element as the scan came to it, the element as the predicate left it,
/// and the answer of the predicate.
pub open spec fn outcomes<T>(before: Seq<T>, after: Seq<T>, mask: Seq<bool>) -> Seq<(T, T, bool)> {
    Seq::new(mask.len(), |i: int| (before[i], after[i], mask[i]))
}

/// The state of a scan.
#[verifier::ext_equal]
pub struct ScanState<T> {
    /// The retained elements: the slots before the gap cursor.
    pub retained: Seq<T>,
    /// The element under test: inspected, not yet classified.
    pub testing: Option<T>,
    /// The elements not yet looked at: the slots from the read cursor on.
    pub unvisited: Seq<T>,
    /// One past the last slot; fixed when the scan starts.
    pub end: nat,
}

impl<T> ScanState<T> {
    /// The gap cursor: the slot that the next retained element moves to.
    pub open spec fn gap(self) -> nat {
        self.retained.len()
    }

    /// The read cursor: the slot of the next element to look at.
    pub open spec fn read(self) -> nat {
        (self.end - self.unvisited.len()) as nat
    }

    /// The cursors are in order, `0 <= gap <= read <= end`, and an element
    /// under test has a slot of its own between the gap and the read cursor.
    pub open spec fn inv(self) -> bool {
        &&& self.unvisited.len() <= self.end
        &&& self.gap() <= self.read() <= self.end
        &&& self.testing is Some ==> self.gap() < self.read()
    }

    /// The state in which a scan over `original` starts.
    pub open spec fn start(original: Seq<T>) -> Self {
        ScanState { retained: Seq::empty(), testing: None, unvisited: original, end: original.len() }
    }

    /// Nothing is left to look at: the read cursor has reached the end.
    pub open spec fn exhausted(self) -> bool {
        self.unvisited.len() == 0
    }

    /// Moves the read cursor past the next element and puts that element under
    /// test. An element that was still under test is given up. Does nothing
    /// once the scan is exhausted.
    pub open spec fn inspect(self) -> Self {
        if self.exhausted() {
            self
        } else {
            ScanState { testing: Some(self.unvisited[0]), unvisited: self.unvisited.skip(1), ..self }
        }
    }

    /// The element under test, if there is one, now has the value `value`.
    pub open spec fn holding(self, value: T) -> Self {
        if self.testing is Some {
            ScanState { testing: Some(value), ..self }
        } else {
            self
        }
    }

    /// Settles the element under test: with `drain` it leaves the sequence,
    /// otherwise it moves to the gap cursor, which advances by one. Does
    /// nothing when no element is under test.
    pub open spec fn classify(self, drain: bool) -> Self {
        match self.testing {
            None => self,
            Some(value) => ScanState {
                retained: if drain {
                    self.retained
                } else {
                    self.retained.push(value)
                },
                testing: None,
                ..self
            },
        }
    }

    /// What `classify(drain)` hands to the caller.
    pub open spec fn handed_out(self, drain: bool) -> Option<T> {
        if drain {
            self.testing
        } else {
            None
        }
    }

    /// What the sequence holds once the scan has ended in this state: the
    /// retained elements, followed directly by the elements not yet looked at.
    /// Its length is `gap + (end - read)`.
    pub open spec fn remaining(self) -> Seq<T> {
        self.retained + self.unvisited
    }

    /// The scan continued over the next `tested.len()` elements. The predicate
    /// left the element at position `i` with the value `tested[i]` and answered
    /// `mask[i]`. The result is the state reached and the elements handed out
    /// on the way, in the order in which they were handed out.
    pub open spec fn run(self, tested: Seq<T>, mask: Seq<bool>) -> (Self, Seq<T>)
        decreases tested.len(),
    {
        if tested.len() == 0 {
            (self, Seq::empty())
        } else {
            let (before, drained) = self.run(tested.drop_last(), mask);
            let at = tested.len() - 1;
            if before.exhausted() || at >= mask.len() {
                (before, drained)
            } else {
                let under_test = before.inspect().holding(tested.last());
                let after = under_test.classify(mask[at]);
                match under_test.handed_out(mask[at]) {
                    Some(value) => (after, drained.push(value)),
                    None => (after, drained),
                }
            }
        }
    }

    /// The state after one call that advances the scan up to the next drained
    /// element: it passed over `kept.len()` elements, which the predicate left
    /// as `kept` and which were all retained, and then handed out one more if
    /// `handed` holds one. A call that passes over nothing changes nothing.
    pub open spec fn pass(self, kept: Seq<T>, handed: Option<T>) -> Self {
        let passed = kept.len() + if handed is Some {
            1int
        } else {
            0int
        };
        if passed == 0 {
            self
        } else {
            ScanState {
                retained: self.retained + kept,
                testing: None,
                unvisited: self.unvisited.skip(passed),
                end: self.end,
            }
        }
    }

    /// The elements retained since the scan was in the state `earlier`, each
    /// as a pair: first the element as the scan came to it, then the element
    /// as it was retained.
    pub open spec fn retained_since(self, earlier: Self) -> Seq<(T, T)> {
        earlier.unvisited.take(self.gap() - earlier.gap()).zip_with(
            self.retained.skip(earlier.gap() as int),
        )
    }

    /// A run in closed form: the retained region grows by the tested elements
    /// with verdict `false`, the elements with verdict `true` are handed out,
    /// and the elements after the tested ones stay where they are.
    pub proof fn lemma_run(self, tested: Seq<T>, mask: Seq<bool>)
        requires
            tested.len() == mask.len(),
            tested.len() <= self.unvisited.len(),
        ensures
            self.run(tested, mask).0 == (ScanState {
                retained: self.retained + select(tested, mask, false),
                testing: if tested.len() == 0 {
                    self.testing
                } else {
                    None
                },
                unvisited: self.unvisited.skip(tested.len() as int),
                end: self.end,
            }),
            self.run(tested, mask).1 == select(tested, mask, true),
        decreases tested.len(),
    {
        if tested.len() == 0 {
            assert(self.retained + select(tested, mask, false) == self.retained);
            assert(self.unvisited.skip(0) == self.unvisited);
        } else {
            let front = tested.drop_last();
            let verdicts = mask.drop_last();
            let at = tested.len() - 1;
            self.lemma_run_ignores_tail(front, mask);
            self.lemma_run(front, verdicts);
            lemma_select_push(front, verdicts, tested.last(), mask.last(), true);
            lemma_select_push(front, verdicts, tested.last(), mask.last(), false);
            assert(front.push(tested.last()) == tested);
            assert(verdicts.push(mask.last()) == mask);
            let before = self.run(front, mask).0;
            assert(before.unvisited.skip(1) == self.unvisited.skip(tested.len() as int));
            assert((self.retained + select(front, verdicts, false)).push(tested.last())
                == self.retained + select(front, verdicts, false).push(tested.last()));
        }
    }

    /// A run reads only the verdicts at the positions of the tested elements.
    pub proof fn lemma_run_ignores_tail(self, tested: Seq<T>, mask: Seq<bool>)
        requires
            tested.len() <= mask.len(),
        ensures
            self.run(tested, mask) == self.run(tested, mask.take(tested.len() as int)),
        decreases tested.len(),
    {
        if tested.len() > 0 {
            let short = mask.take(tested.len() as int);
            self.lemma_run_ignores_tail(tested.drop_last(), mask);
            self.lemma_run_ignores_tail(tested.drop_last(), short);
            assert(short.take(tested.len() - 1) == mask.take(tested.len() - 1));
        }
    }

    /// A run can be taken in two parts: the second part continues where the
    /// first one stopped, and what they hand out is laid end to end.
    pub proof fn lemma_run_add(
        self,
        first: Seq<T>,
        first_mask: Seq<bool>,
        then: Seq<T>,
        then_mask: Seq<bool>,
    )
        requires
            first.len() == first_mask.len(),
            then.len() == then_mask.len(),
            first.len() + then.len() <= self.unvisited.len(),
        ensures
            self.run(first + then, first_mask + then_mask) == ({
                let (reached, drained) = self.run(first, first_mask);
                let (last, more) = reached.run(then, then_mask);
                (last, drained + more)
            }),
    {
        let (reached, drained) = self.run(first, first_mask);
        let (last, more) = reached.run(then, then_mask);
        let (whole, all) = self.run(first + then, first_mask + then_mask);
        self.lemma_run(first, first_mask);
        reached.lemma_run(then, then_mask);
        self.lemma_run(first + then, first_mask + then_mask);
        lemma_select_add(first, first_mask, then, then_mask, true);
        lemma_select_add(first, first_mask, then, then_mask, false);
        assert(whole.retained =~= last.retained);
        assert(whole.unvisited =~= last.unvisited);
        assert(whole =~= last);
        assert(all =~= drained + more);
    }

    /// One call that advances the scan is a run in which every verdict but the
    /// last is `false`, and it hands out at most the last element it tested.
    pub proof fn lemma_pass_is_run(self, kept: Seq<T>, handed: Option<T>)
        requires
            kept.len() + (if handed is Some { 1int } else { 0int }) <= self.unvisited.len(),
        ensures
            handed is None ==> self.run(kept, uniform(kept.len(), false)) == (
                self.pass(kept, handed),
                Seq::<T>::empty(),
            ),
            handed matches Some(value) ==> self.run(
                kept.push(value),
                uniform(kept.len(), false).push(true),
            ) == (self.pass(kept, handed), seq![value]),
    {
        lemma_select_uniform(kept, false);
        match handed {
            None => {
                self.lemma_run(kept, uniform(kept.len(), false));
            },
            Some(value) => {
                let tested = kept.push(value);
                let mask = uniform(kept.len(), false).push(true);
                self.lemma_run(tested, mask);
                lemma_select_push(kept, uniform(kept.len(), false), value, true, true);
                lemma_select_push(kept, uniform(kept.len(), false), value, true, false);
                assert(Seq::<T>::empty().push(value) == seq![value]);
            },
        }
    }
}

} // verus!
