use vstd::prelude::*;
use crate::bits::{bits_of, lemma_bits_of_zero, lemma_bits_of_set, lemma_bits_of_clear};

verus! {

/// Number of tasks whose wake-up state one page holds.
pub const WAKER_PAGE_SIZE: usize = 64;

/// Wake-up state of `WAKER_PAGE_SIZE` consecutive tasks: for each slot, whether
/// the task has been notified since the page was last drained, and whether
/// it has been marked as finished.
#[derive(Clone, Copy)]
pub struct WakerPage {
    notified: u64,
    dropped: u64,
}

impl WakerPage {
    /// Slots whose task was notified and not yet taken.
    pub closed spec fn notified(self) -> Set<int> {
        bits_of(self.notified)
    }

    /// Slots whose task was marked as finished and not yet taken.
    pub closed spec fn dropped(self) -> Set<int> {
        bits_of(self.dropped)
    }

    /// Slots are below `WAKER_PAGE_SIZE`.
    pub proof fn lemma_slots_in_range(self)
        ensures
            forall|i: int| #[trigger] self.notified().contains(i) ==> 0 <= i < 64,
            forall|i: int| #[trigger] self.dropped().contains(i) ==> 0 <= i < 64,
    {
    }

    /// A page with no slot notified or dropped.
    pub fn new() -> (p: WakerPage)
        ensures
            p.notified() == Set::<int>::empty(),
            p.dropped() == Set::<int>::empty(),
    {
        proof {
            lemma_bits_of_zero();
        }
        WakerPage { notified: 0, dropped: 0 }
    }

    /// Prepares slot `ix` for a newly inserted task: the task is notified, so
    /// that it is polled once, and not dropped.
    pub fn initialize(&mut self, ix: usize)
        requires
            ix < WAKER_PAGE_SIZE,
        ensures
            final(self).notified() == old(self).notified().insert(ix as int),
            final(self).dropped() == old(self).dropped().remove(ix as int),
    {
        let bit: u64 = 1u64 << (ix as u64);
        proof {
            lemma_bits_of_set(self.notified, ix as u64);
            lemma_bits_of_clear(self.dropped, ix as u64);
        }
        self.notified = self.notified | bit;
        self.dropped = self.dropped & !bit;
    }

    /// Records a wake-up of the task in slot `ix`.
    pub fn notify(&mut self, ix: usize)
        requires
            ix < WAKER_PAGE_SIZE,
        ensures
            final(self).notified() == old(self).notified().insert(ix as int),
            final(self).dropped() == old(self).dropped(),
    {
        let bit: u64 = 1u64 << (ix as u64);
        proof {
            lemma_bits_of_set(self.notified, ix as u64);
        }
        self.notified = self.notified | bit;
    }

    /// Records that the task in slot `ix` has finished.
    pub fn mark_dropped(&mut self, ix: usize)
        requires
            ix < WAKER_PAGE_SIZE,
        ensures
            final(self).dropped() == old(self).dropped().insert(ix as int),
            final(self).notified() == old(self).notified(),
    {
        let bit: u64 = 1u64 << (ix as u64);
        proof {
            lemma_bits_of_set(self.dropped, ix as u64);
        }
        self.dropped = self.dropped | bit;
    }

    /// Returns the word of notified slots and clears it.
    pub fn take_notified(&mut self) -> (w: u64)
        ensures
            bits_of(w) == old(self).notified(),
            final(self).notified() == Set::<int>::empty(),
            final(self).dropped() == old(self).dropped(),
    {
        proof {
            lemma_bits_of_zero();
        }
        let w = self.notified;
        self.notified = 0;
        w
    }

    /// Returns the word of dropped slots and clears it.
    pub fn take_dropped(&mut self) -> (w: u64)
        ensures
            bits_of(w) == old(self).dropped(),
            final(self).dropped() == Set::<int>::empty(),
            final(self).notified() == old(self).notified(),
    {
        proof {
            lemma_bits_of_zero();
        }
        let w = self.dropped;
        self.dropped = 0;
        w
    }
}

} // verus!
