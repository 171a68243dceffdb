//! The striped latch table: a fixed array of stripes, a document's slot
//! mapped to a stripe by remainder. One write per stripe is in flight at a
//! time; the highest slot's stripe doubles as the role-change sentinel.

use vstd::prelude::*;

verus! {

/// Fixed-size striped mutual exclusion.
pub struct Latch {
    slots: Vec<bool>,
}

impl View for Latch {
    type V = Seq<bool>;

    closed spec fn view(&self) -> Seq<bool> {
        self.slots@
    }
}

impl Latch {
    /// All stripes are free.
    pub open spec fn all_free(&self) -> bool {
        forall|i: int| 0 <= i < self@.len() ==> !self@[i]
    }

    /// The stripe that latches `slot`.
    pub open spec fn bucket_of(&self, slot: u32) -> int {
        slot as int % self@.len() as int
    }

    /// A table of `n` free stripes.
    pub fn new(n: usize) -> (r: Latch)
        requires
            n >= 1,
        ensures
            r@.len() == n,
            r.all_free(),
    {
        let mut slots: Vec<bool> = Vec::new();
        let mut i: usize = 0;
        while i < n
            invariant
                i <= n,
                slots@.len() == i,
                forall|j: int| 0 <= j < i ==> !slots@[j],
            decreases n - i,
        {
            slots.push(false);
            i = i + 1;
        }
        Latch { slots }
    }

    /// Acquire the stripe of `slot`.
    pub fn acquire(&mut self, slot: u32)
        requires
            old(self)@.len() >= 1,
            !old(self)@[old(self).bucket_of(slot)],
        ensures
            final(self)@ == old(self)@.update(old(self).bucket_of(slot), true),
    {
        let b = (slot as usize) % self.slots.len();
        self.slots[b] = true;
    }

    /// Release the stripe of `slot`.
    pub fn release(&mut self, slot: u32)
        requires
            old(self)@.len() >= 1,
        ensures
            final(self)@ == old(self)@.update(old(self).bucket_of(slot), false),
    {
        let b = (slot as usize) % self.slots.len();
        self.slots[b] = false;
    }
}

} // verus!
