//! A two-slot memo: the previously observed value and the current one.
//! The solver uses it to detect a drain round that made no progress.

use vstd::prelude::*;

verus! {

/// Keeps track of the last and the current value.
pub struct History<T> {
    pub last: T,
    pub current: T,
}

impl<T> History<T> {
    pub fn new(last: T, current: T) -> (r: Self)
        ensures
            r.last == last,
            r.current == current,
    {
        Self { last, current }
    }

    /// Shifts the current value into the last slot and records a new current.
    pub fn push(self, new: T) -> (r: Self)
        ensures
            r.last == self.current,
            r.current == new,
    {
        Self { last: self.current, current: new }
    }
}

} // verus!
