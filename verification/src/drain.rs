//! The executable scan.
//!
//! The scan owns the elements of the vector while it lives: every element sits
//! in a slot of its own, and a slot is empty once its element was handed out or
//! moved down. Three cursors into the slots tell the retained elements, the
//! vacated slots and the elements not yet looked at apart. The vector itself
//! is empty until [`VecDrainWhere::drop`] gives it the elements back.

use vstd::prelude::*;
use crate::mask::{select, uniform};
use crate::model::{outcomes, ScanState};

verus! {

/// Why a scan could not start.
#[derive(Debug, Clone, Copy, PartialEq, Eq)]
pub enum DrainError {
    /// The vector holds more than `isize::MAX` elements.
    CapacityExceeded,
}

/// A scan over the elements of a vector, which drains those that a predicate
/// selects.
#[must_use]
#[derive(Debug)]
pub struct VecDrainWhere<'a, Item, Pred> {
    pos: usize,
    gap_pos: usize,
    end: usize,
    predicate: Pred,
    self_ref: &'a mut Vec<Item>,
    slots: Vec<Option<Item>>,
}

impl<'a, Item, Pred> View for VecDrainWhere<'a, Item, Pred> {
    type V = ScanState<Item>;

    /// The state of the scan: the retained elements, the element under test
    /// and the elements not yet looked at.
    closed spec fn view(&self) -> ScanState<Item> {
        ScanState {
            retained: Seq::new(self.gap_pos as nat, |i: int| self.slots@[i]->0),
            testing: if self.gap_pos < self.pos {
                self.slots@[self.pos - 1]
            } else {
                None
            },
            unvisited: Seq::new((self.end - self.pos) as nat, |i: int| self.slots@[self.pos + i]->0),
            end: self.end as nat,
        }
    }
}

impl<'a, Item, Pred> VecDrainWhere<'a, Item, Pred> {
    /// The vector that is being drained.
    pub closed spec fn source(self) -> &'a mut Vec<Item> {
        self.self_ref
    }

    /// The predicate that selects the elements to drain.
    pub closed spec fn predicate(self) -> Pred {
        self.predicate
    }

    /// The cursors are in order, the slots before the gap cursor and from the
    /// read cursor on are filled, the slots between them are empty, except
    /// that the last of them may hold an element under test, and the vector
    /// that is being drained reports no elements.
    pub closed spec fn wf(self) -> bool {
        &&& self.gap_pos <= self.pos <= self.end
        &&& self.end == self.slots@.len()
        &&& forall|i: int| 0 <= i < self.gap_pos ==> (#[trigger] self.slots@[i]) is Some
        &&& forall|i: int| self.gap_pos <= i < self.pos - 1 ==> (#[trigger] self.slots@[i]) is None
        &&& forall|i: int| self.pos <= i < self.end ==> (#[trigger] self.slots@[i]) is Some
        &&& self.self_ref@.len() == 0
    }

    /// A well-formed scan is in a state whose cursors are in order, and its
    /// vector reports no elements.
    pub proof fn lemma_wf(self)
        requires
            self.wf(),
        ensures
            self@.inv(),
            self.source()@.len() == 0,
    {
    }
}

impl<'a, Item, Pred> VecDrainWhere<'a, Item, Pred> {
    /// A lower and an upper bound on the number of elements that the scan will
    /// still hand out. The upper bound is the length that the vector reports,
    /// and the vector reports no elements while the scan lives: both bounds
    /// are zero, whatever is left to look at.
    pub fn size_hint(&self) -> (bounds: (usize, Option<usize>))
        requires
            self.wf(),
        ensures
            bounds.0 == 0,
            bounds.1 == Some(self.source()@.len() as usize),
            bounds.1 == Some(0usize),
    {
        (0, Some(self.self_ref.len()))
    }

    /// Gives up the element under test, if there is one: its slot is emptied
    /// and the element is never dropped.
    fn forsake(&mut self)
        requires
            old(self).wf(),
        ensures
            final(self).wf(),
            final(self)@ == (ScanState { testing: None, ..old(self)@ }),
            final(self).source() == old(self).source(),
            final(self).predicate() == old(self).predicate(),
    {
        if self.gap_pos < self.pos {
            let stale = self.slots[self.pos - 1].take();
            if let Some(item) = stale {
                let _leaked = core::mem::ManuallyDrop::new(item);
            }
        }
        assert(self@ =~= (ScanState { testing: None, ..old(self)@ }));
    }

    /// Moves the read cursor past the next element and hands that element out
    /// for testing; [`classify`](Self::classify) then settles it. An element
    /// that was still under test is given up. Once the scan is exhausted
    /// nothing is handed out and nothing changes.
    pub fn inspect(&mut self) -> (under_test: Option<&mut Item>)
        requires
            old(self).wf(),
        ensures
            final(self).wf(),
            final(self)@.inv(),
            final(self).source() == old(self).source(),
            final(self).predicate() == old(self).predicate(),
            old(self)@.exhausted() ==> under_test is None && *final(self) == *old(self),
            !old(self)@.exhausted() ==> (under_test matches Some(element) && *element == old(
                self,
            )@.unvisited[0] && final(self)@ == old(self)@.inspect().holding(*final(element))),
    {
        if self.pos >= self.end {
            return None;
        }
        self.forsake();
        let at = self.pos;
        self.pos = at + 1;
        self.slots[at].as_mut()
    }

    /// Settles the element under test. With `drain` it is handed to the
    /// caller and its slot stays vacated. Otherwise it is retained: it moves
    /// down to the gap cursor, unless it is there already, and the gap cursor
    /// advances. When no element is under test nothing happens.
    pub fn classify(&mut self, drain: bool) -> (handed: Option<Item>)
        requires
            old(self).wf(),
        ensures
            final(self).wf(),
            final(self)@.inv(),
            final(self)@ == old(self)@.classify(drain),
            handed == old(self)@.handed_out(drain),
            final(self).source() == old(self).source(),
            final(self).predicate() == old(self).predicate(),
    {
        if self.gap_pos >= self.pos {
            return None;
        }
        let at = self.pos - 1;
        if drain {
            let item = self.slots[at].take();
            assert(self@ =~= old(self)@.classify(drain));
            item
        } else {
            if self.slots[at].is_some() {
                if self.gap_pos < at {
                    let item = self.slots[at].take();
                    self.slots[self.gap_pos] = item;
                }
                self.gap_pos = self.gap_pos + 1;
            }
            assert(self@ =~= old(self)@.classify(drain));
            None
        }
    }

    /// Ends the scan and gives the vector its elements back: the retained
    /// ones, followed directly by those that were not looked at, each group
    /// in its original order. An element that is still under test is given
    /// up: the vector does not get it back, and it is never dropped.
    pub fn drop(self)
        requires
            self.wf(),
        ensures
            final(self.source())@ == self@.remaining(),
            final(self.source())@.len() == self@.gap() + (self@.end - self@.read()),
    {
        let mut scan = self;
        scan.forsake();
        let VecDrainWhere { pos, gap_pos, end, self_ref, mut slots, .. } = scan;
        if end == 0 {
            return ;
        }
        let ghost retained = scan@.retained;
        let ghost unvisited = scan@.unvisited;
        let mut at: usize = 0;
        while at < gap_pos
            invariant
                at <= gap_pos <= pos <= end,
                end == slots@.len(),
                retained.len() == gap_pos,
                unvisited.len() == end - pos,
                forall|i: int| at <= i < gap_pos ==> #[trigger] slots@[i] == Some(retained[i]),
                forall|i: int| pos <= i < end ==> #[trigger] slots@[i] == Some(unvisited[i - pos]),
                self_ref@ == retained.take(at as int),
            decreases gap_pos - at,
        {
            let item = slots[at].take();
            if let Some(value) = item {
                self_ref.push(value);
            }
            at = at + 1;
        }
        let mut from: usize = pos;
        while from < end
            invariant
                gap_pos <= pos <= from <= end,
                end == slots@.len(),
                unvisited.len() == end - pos,
                forall|i: int| from <= i < end ==> #[trigger] slots@[i] == Some(unvisited[i - pos]),
                self_ref@ == retained + unvisited.take(from - pos),
            decreases end - from,
        {
            let item = slots[from].take();
            if let Some(value) = item {
                self_ref.push(value);
            }
            from = from + 1;
        }
        assert(unvisited.take(end - pos) == unvisited);
    }
}

impl<'a, Item, Pred> VecDrainWhere<'a, Item, Pred> where Pred: FnMut(&mut Item) -> bool {
    /// Advances the scan to the next element that the predicate selects and
    /// hands that element out, or runs to the end and returns `None`. The
    /// elements passed over on the way are retained. Each element is handed
    /// to the predicate once, after the read cursor has moved past it, and is
    /// kept or handed out as the predicate left it. Once the scan is
    /// exhausted every call returns `None` and changes nothing.
    pub fn next(&mut self) -> (drained: Option<Item>)
        requires
            old(self).wf(),
            forall|e: &mut Item|
                old(self)@.unvisited.contains(*e) ==> #[trigger] call_requires(
                    old(self).predicate(),
                    (e,),
                ),
        ensures
            final(self).wf(),
            final(self)@.inv(),
            final(self).source() == old(self).source(),
            final(self).predicate() == old(self).predicate(),
            old(self)@.exhausted() ==> drained is None && *final(self) == *old(self),
            drained is None ==> final(self)@.exhausted(),
            old(self)@.gap() <= final(self)@.gap(),
            final(self)@.gap() - old(self)@.gap() + (if drained is Some { 1int } else { 0int })
                <= old(self)@.unvisited.len(),
            final(self)@ == old(self)@.pass(
                final(self)@.retained.skip(old(self)@.gap() as int),
                drained,
            ),
            forall|pair: (Item, Item)| #[trigger]
                final(self)@.retained_since(old(self)@).contains(pair) ==> exists|e: &mut Item|
                    *e == pair.0 && *final(e) == pair.1 && call_ensures(
                        old(self).predicate(),
                        (e,),
                        false,
                    ),
            drained matches Some(item) ==> exists|e: &mut Item|
                *e == old(self)@.unvisited[final(self)@.gap() - old(self)@.gap()] && *final(e)
                    == item && call_ensures(old(self).predicate(), (e,), true),
    {
        loop
            invariant
                self.wf(),
                self.source() == old(self).source(),
                self.predicate() == old(self).predicate(),
                old(self)@.gap() <= self@.gap(),
                self@.gap() - old(self)@.gap() <= old(self)@.unvisited.len(),
                self@ == old(self)@.pass(self@.retained.skip(old(self)@.gap() as int), None),
                self@.gap() == old(self)@.gap() ==> *self == *old(self),
                forall|e: &mut Item|
                    old(self)@.unvisited.contains(*e) ==> #[trigger] call_requires(
                        self.predicate(),
                        (e,),
                    ),
                forall|pair: (Item, Item)| #[trigger]
                    self@.retained_since(old(self)@).contains(pair) ==> exists|e: &mut Item|
                        *e == pair.0 && *final(e) == pair.1 && call_ensures(
                            old(self).predicate(),
                            (e,),
                            false,
                        ),
            decreases self@.unvisited.len(),
        {
            if self.pos >= self.end {
                return None;
            }
            let ghost head = self@;
            let ghost passed = head.gap() - old(self)@.gap();
            assert(head.unvisited[0] == old(self)@.unvisited[passed]);
            assert(old(self)@.unvisited.contains(head.unvisited[0]));
            let drain = self.test();
            let ghost settled = self@.testing->0;
            assert(exists|e: &mut Item|
                *e == head.unvisited[0] && *final(e) == settled && call_ensures(
                    old(self).predicate(),
                    (e,),
                    drain,
                ));
            let item = self.classify(drain);
            proof {
                let gap = old(self)@.gap() as int;
                assert(self@.retained.skip(gap) =~= if drain {
                    head.retained.skip(gap)
                } else {
                    head.retained.skip(gap).push(settled)
                });
                assert(self@ =~= old(self)@.pass(self@.retained.skip(gap), item));
                assert(self@.retained_since(old(self)@) =~= if drain {
                    head.retained_since(old(self)@)
                } else {
                    head.retained_since(old(self)@).push((head.unvisited[0], settled))
                });
                assert forall|pair: (Item, Item)| #[trigger]
                    self@.retained_since(old(self)@).contains(pair) implies exists|e: &mut Item|
                    *e == pair.0 && *final(e) == pair.1 && call_ensures(
                        old(self).predicate(),
                        (e,),
                        false,
                    ) by {
                    let earlier = head.retained_since(old(self)@);
                    let at = self@.retained_since(old(self)@).index_of(pair);
                    if at < earlier.len() {
                        assert(earlier[at] == pair);
                        assert(earlier.contains(pair));
                    }
                }
            }
            if drain {
                return item;
            }
        }
    }

    /// Runs the scan to its end, ends it, and returns the drained elements in
    /// the order in which the scan came to them. The vector gets back the
    /// elements that were retained. Every element not yet looked at is handed
    /// to the predicate once, and is drained or retained as the predicate left
    /// it.
    pub fn collect(self) -> (drained: Vec<Item>)
        requires
            self.wf(),
            forall|e: &mut Item|
                self@.unvisited.contains(*e) ==> #[trigger] call_requires(self.predicate(), (e,)),
        ensures
            exists|tested: Seq<Item>, mask: Seq<bool>|
                {
                    &&& tested.len() == self@.unvisited.len()
                    &&& mask.len() == self@.unvisited.len()
                    &&& forall|outcome: (Item, Item, bool)| #[trigger]
                        outcomes(self@.unvisited, tested, mask).contains(outcome) ==> exists|
                            e: &mut Item,
                        |
                            *e == outcome.0 && *final(e) == outcome.1 && call_ensures(
                                self.predicate(),
                                (e,),
                                outcome.2,
                            )
                    &&& drained@ == #[trigger] self@.run(tested, mask).1
                    &&& drained@ == select(tested, mask, true)
                    &&& final(self.source())@ == self@.run(tested, mask).0.remaining()
                    &&& final(self.source())@ == self@.retained + select(tested, mask, false)
                },
    {
        let mut scan = self;
        let mut drained: Vec<Item> = Vec::new();
        let ghost mut tested: Seq<Item> = Seq::empty();
        let ghost mut mask: Seq<bool> = Seq::empty();
        let mut running = true;
        while running
            invariant
                scan.wf(),
                scan.source() == self.source(),
                scan.predicate() == self.predicate(),
                tested.len() == mask.len(),
                tested.len() <= self@.unvisited.len(),
                !running ==> tested.len() == self@.unvisited.len(),
                (scan@, drained@) == self@.run(tested, mask),
                forall|e: &mut Item|
                    self@.unvisited.contains(*e) ==> #[trigger] call_requires(
                        self.predicate(),
                        (e,),
                    ),
                forall|outcome: (Item, Item, bool)| #[trigger]
                    outcomes(self@.unvisited, tested, mask).contains(outcome) ==> exists|
                        e: &mut Item,
                    |
                        *e == outcome.0 && *final(e) == outcome.1 && call_ensures(
                            self.predicate(),
                            (e,),
                            outcome.2,
                        ),
            decreases self@.unvisited.len() - tested.len() + if running { 1int } else { 0int },
        {
            let ghost head = scan@;
            let ghost before = tested;
            let ghost answers = mask;
            proof {
                self@.lemma_run(tested, mask);
                assert forall|e: &mut Item| head.unvisited.contains(*e) implies #[trigger] call_requires(
                    scan.predicate(),
                    (e,),
                ) by {
                    let at = head.unvisited.index_of(*e);
                    assert(self@.unvisited[tested.len() + at] == *e);
                }
            }
            let found = scan.next();
            let ghost kept = scan@.retained.skip(head.gap() as int);
            let ghost pairs = scan@.retained_since(head);
            proof {
                tested = before + kept;
                mask = answers + uniform(kept.len(), false);
            }
            match found {
                Some(item) => {
                    proof {
                        tested = tested.push(item);
                        mask = mask.push(true);
                        head.lemma_pass_is_run(kept, Some(item));
                        self@.lemma_run_add(before, answers, kept.push(item), uniform(kept.len(), false).push(true));
                        assert(before + kept.push(item) == tested);
                        assert(answers + uniform(kept.len(), false).push(true) == mask);
                    }
                    drained.push(item);
                    assert(drained@ == self@.run(tested, mask).1);
                },
                None => {
                    proof {
                        head.lemma_pass_is_run(kept, None);
                        self@.lemma_run_add(before, answers, kept, uniform(kept.len(), false));
                        self@.lemma_run(tested, mask);
                        assert(drained@ + Seq::<Item>::empty() == drained@);
                    }
                    running = false;
                },
            }
            proof {
                assert forall|outcome: (Item, Item, bool)| #[trigger]
                    outcomes(self@.unvisited, tested, mask).contains(outcome) implies exists|
                    e: &mut Item,
                |
                    *e == outcome.0 && *final(e) == outcome.1 && call_ensures(
                        self.predicate(),
                        (e,),
                        outcome.2,
                    ) by {
                    let all = outcomes(self@.unvisited, tested, mask);
                    let earlier = outcomes(self@.unvisited, before, answers);
                    let at = all.index_of(outcome);
                    if at < before.len() {
                        assert(earlier[at] == outcome);
                        assert(earlier.contains(outcome));
                    } else if at < before.len() + kept.len() {
                        let pair = (outcome.0, outcome.1);
                        assert(pairs[at - before.len()] == pair);
                        assert(pairs.contains(pair));
                    }
                }
            }
        }
        proof {
            self@.lemma_run(tested, mask);
        }
        scan.drop();
        drained
    }

    /// Moves the read cursor past the next element and asks the predicate
    /// about it. The element stays under test.
    fn test(&mut self) -> (drain: bool)
        requires
            old(self).wf(),
            !old(self)@.exhausted(),
            forall|e: &mut Item|
                *e == old(self)@.unvisited[0] ==> #[trigger] call_requires(
                    old(self).predicate(),
                    (e,),
                ),
        ensures
            final(self).wf(),
            final(self).source() == old(self).source(),
            final(self).predicate() == old(self).predicate(),
            exists|e: &mut Item|
                *e == old(self)@.unvisited[0] && final(self)@ == old(self)@.inspect().holding(
                    *final(e),
                ) && #[trigger] call_ensures(old(self).predicate(), (e,), drain),
    {
        self.forsake();
        let at = self.pos;
        self.pos = at + 1;
        assert(self.predicate() == self.predicate);
        match self.slots[at].as_mut() {
            Some(element) => (self.predicate)(element),
            None => false,
        }
    }
}

/// Draining a vector by a predicate.
pub trait VecDrainWhereExt<Item>: View<V = Seq<Item>> {
    /// Starts a scan that drains the elements for which `predicate` answers
    /// `true`. The scan is about to look at the first element, and the
    /// vector reports length zero from now on, until the scan is ended with
    /// [`VecDrainWhere::drop`], which decides what the vector holds then. A
    /// vector of more than `isize::MAX` elements is refused and left as it
    /// is.
    fn e_drain_where<F>(&mut self, predicate: F) -> (scan: Result<
        VecDrainWhere<'_, Item, F>,
        DrainError,
    >) where F: FnMut(&mut Item) -> bool
        ensures
            scan is Err <==> old(self)@.len() > isize::MAX,
            scan matches Err(e) ==> e == DrainError::CapacityExceeded && final(self)@ == old(self)@,
            scan matches Ok(it) ==> {
                &&& it.wf()
                &&& it@.inv()
                &&& it@ == ScanState::start(old(self)@)
                &&& it.predicate() == predicate
                &&& it.source()@.len() == 0
                &&& final(self)@ == final(it.source())@
            },
    ;
}

impl<Item> VecDrainWhereExt<Item> for Vec<Item> {
    /// Moves the elements of the vector into the slots of the scan. A vector
    /// that is refused is left untouched, and a scan over a vector is ended
    /// by writing to that very vector.
    fn e_drain_where<F>(&mut self, predicate: F) -> (scan: Result<
        VecDrainWhere<'_, Item, F>,
        DrainError,
    >) where F: FnMut(&mut Item) -> bool
        ensures
            scan is Err ==> *final(self) == *old(self),
            scan matches Ok(it) ==> *final(self) == *final(it.source()),
    {
        let len = self.len();
        if len == 0 {
            let it = VecDrainWhere { pos: 0, gap_pos: 0, end: 0, predicate, self_ref: self, slots: Vec::new() };
            assert(it@ =~= ScanState::start(old(self)@));
            return Ok(it);
        }
        if len > isize::MAX as usize {
            return Err(DrainError::CapacityExceeded);
        }
        let mut slots: Vec<Option<Item>> = Vec::with_capacity(len);
        let mut made: usize = 0;
        while made < len
            invariant
                made <= len,
                slots@.len() == made,
                forall|i: int| 0 <= i < made ==> (#[trigger] slots@[i]) is None,
            decreases len - made,
        {
            slots.push(None);
            made = made + 1;
        }
        let mut left: usize = len;
        while left > 0
            invariant
                left <= len,
                len == old(self)@.len(),
                slots@.len() == len,
                self@ == old(self)@.take(left as int),
                forall|i: int| left <= i < len ==> #[trigger] slots@[i] == Some(old(self)@[i]),
            decreases left,
        {
            left = left - 1;
            let item = self.pop();
            slots[left] = item;
        }
        let it = VecDrainWhere { pos: 0, gap_pos: 0, end: len, predicate, self_ref: self, slots };
        assert(it@ =~= ScanState::start(old(self)@));
        Ok(it)
    }
}

} // verus!
