//! A single-value cell.

use vstd::prelude::*;

verus! {

/// A cell that owns one value. Reading borrows the cell; writing needs the
/// cell exclusively, so two writers can never meet in one cell.
pub struct SuperCell<T> {
    value: T,
}

impl<T> View for SuperCell<T> {
    type V = T;

    closed spec fn view(&self) -> T {
        self.value
    }
}

impl<T> SuperCell<T> {
    /// A cell that holds `value`.
    pub fn new(value: T) -> (cell: Self)
        ensures
            cell@ == value,
    {
        SuperCell { value }
    }

    /// The value.
    pub fn get(&self) -> (value: &T)
        ensures
            *value == self@,
    {
        &self.value
    }

    /// Exclusive access to the value.
    pub fn get_mut(&mut self) -> (value: &mut T)
        ensures
            *value == old(self)@,
            final(self)@ == *final(value),
    {
        &mut self.value
    }

    /// The value, out of the cell.
    pub fn into_inner(self) -> (value: T)
        ensures
            value == self@,
    {
        self.value
    }
}

} // verus!
