//! What the planner asks of the records it stores.

use crate::geometry::Position;
use vstd::prelude::*;

verus! {

/// A record with a place on the map.
pub trait Positional {
    spec fn position_spec(&self) -> Position;

    fn position(&self) -> (p: &Position)
        ensures
            *p == self.position_spec(),
    ;
}

/// A record that names the slot it belongs in.
pub trait Indexable {
    spec fn index_spec(&self) -> u32;

    fn index(&self) -> (i: u32)
        ensures
            i == self.index_spec(),
    ;
}

} // verus!
