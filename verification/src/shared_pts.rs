//! Timestamps that several owners read and that one of them sets.
//!
//! A track and its siblings agree on a starting point that none of them knows in advance. Each
//! such point lives in a slot of a table; the owners hold the slot's number.

use crate::time::Duration;
use vstd::prelude::*;

verus! {

/// The table of shared timestamps. A slot is empty until someone sets it.
#[derive(Debug)]
pub struct SharedPts {
    slots: Vec<Option<Duration>>,
}

impl View for SharedPts {
    type V = Seq<Option<Duration>>;

    closed spec fn view(&self) -> Seq<Option<Duration>> {
        self.slots@
    }
}

impl SharedPts {
    pub fn new() -> (r: Self)
        ensures
            r@ == Seq::<Option<Duration>>::empty(),
    {
        SharedPts { slots: Vec::new() }
    }

    /// Adds a slot that holds `value` and returns its number.
    pub fn add_slot(&mut self, value: Option<Duration>) -> (slot: usize)
        ensures
            slot == old(self)@.len(),
            final(self)@ == old(self)@.push(value),
    {
        let slot: usize = self.slots.len();
        self.slots.push(value);
        slot
    }

    /// What a slot holds.
    pub fn get(&self, slot: usize) -> (r: Option<Duration>)
        requires
            slot < self@.len(),
        ensures
            r == self@[slot as int],
    {
        self.slots[slot]
    }

    /// Puts a value into a slot.
    pub fn set(&mut self, slot: usize, value: Duration)
        requires
            slot < old(self)@.len(),
        ensures
            final(self)@ == old(self)@.update(slot as int, Some(value)),
    {
        self.slots.set(slot, Some(value));
    }

    /// What a slot holds; an empty slot is set to `value` first.
    pub fn get_or_init(&mut self, slot: usize, value: Duration) -> (r: Duration)
        requires
            slot < old(self)@.len(),
        ensures
            r == or_else(old(self)@[slot as int], value),
            final(self)@ == old(self)@.update(slot as int, Some(r)),
    {
        match self.slots[slot] {
            Some(held) => {
                assert(self@.update(slot as int, Some(held)) =~= self@);
                held
            },
            None => {
                self.slots.set(slot, Some(value));
                value
            },
        }
    }
}

/// The value held, or else `value`.
pub open spec fn or_else(held: Option<Duration>, value: Duration) -> Duration {
    match held {
        Some(held) => held,
        None => value,
    }
}

} // verus!
