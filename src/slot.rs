//! A write-once result cell for work that finishes elsewhere: empty until
//! the result is stored, then holding that result for good.
use vstd::prelude::*;

verus! {

/// What a cell holds after a result is offered to it: the offered result if
/// it was empty, what it held otherwise.
pub open spec fn after_fill<T>(held: Option<T>, offered: T) -> Option<T> {
    match held {
        None => Some(offered),
        Some(v) => Some(v),
    }
}

/// A one-shot result cell.
pub struct ResultSlot<T> {
    value: Option<T>,
}

impl<T> View for ResultSlot<T> {
    type V = Option<T>;

    closed spec fn view(&self) -> Option<T> {
        self.value
    }
}

impl<T> ResultSlot<T> {
    /// An empty cell.
    pub fn new() -> (r: Self)
        ensures
            r@ is None,
    {
        ResultSlot { value: None }
    }

    /// Stores a result if the cell is still empty; a full cell is left as it
    /// is. Returns whether the result was stored.
    pub fn fill(&mut self, v: T) -> (stored: bool)
        ensures
            final(self)@ == after_fill(old(self)@, v),
            stored == (old(self)@ is None),
    {
        if self.value.is_none() {
            self.value = Some(v);
            true
        } else {
            false
        }
    }

    /// The result, once there is one; `None` before.
    pub fn poll(&self) -> (r: Option<&T>)
        ensures
            match r {
                None => self@ is None,
                Some(v) => self@ == Some(*v),
            },
    {
        match &self.value {
            None => None,
            Some(v) => Some(v),
        }
    }

    /// Whether a result has been stored.
    pub fn is_ready(&self) -> (r: bool)
        ensures
            r == (self@ is Some),
    {
        self.value.is_some()
    }
}

/// Once a cell holds a result it holds that result for good: later offers
/// change nothing, so every later poll sees the first stored value.
pub proof fn lemma_write_once<T>(held: Option<T>, first: T, later: T)
    ensures
        after_fill(held, first) is Some,
        after_fill(after_fill(held, first), later) == after_fill(held, first),
        held is None ==> after_fill(held, first) == Some(first),
{
}

} // verus!
