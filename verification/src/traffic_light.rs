//! Traffic lights.

use crate::fixed::{coordinate_from_bits, coordinate_of};
use crate::geometry::Position;
use crate::loader::{be_u32, be_u64, read_f64, read_u32, ByteConvertable};
use crate::traits::{Indexable, Positional};
use vstd::prelude::*;

verus! {

/// A traffic light. Bit `h` of `flag` says whether power is cut at the
/// light during hour `h`.
#[derive(Clone, Copy, Debug, PartialEq, Eq, Structural)]
pub struct TrafficLight {
    pub id: u32,
    pub position: Position,
    pub flag: u32,
}

impl Indexable for TrafficLight {
    open spec fn index_spec(&self) -> u32 {
        self.id
    }

    fn index(&self) -> (i: u32) {
        self.id
    }
}

impl Positional for TrafficLight {
    open spec fn position_spec(&self) -> Position {
        self.position
    }

    fn position(&self) -> (p: &Position) {
        &self.position
    }
}

/// A traffic light arrives as its id, its flag and the two doubles of its
/// position in degrees: 24 bytes.
impl ByteConvertable for TrafficLight {
    open spec fn parses(bytes: Seq<u8>) -> bool {
        &&& bytes.len() >= 24
        &&& coordinate_of(be_u64(bytes, 8) as u64) is Some
        &&& coordinate_of(be_u64(bytes, 16) as u64) is Some
    }

    open spec fn slot(bytes: Seq<u8>) -> u32 {
        be_u32(bytes, 0) as u32
    }

    open spec fn encoded_by(&self, bytes: Seq<u8>) -> bool {
        &&& self.id == be_u32(bytes, 0)
        &&& self.flag == be_u32(bytes, 4)
        &&& Some(self.position.x) == coordinate_of(be_u64(bytes, 8) as u64)
        &&& Some(self.position.y) == coordinate_of(be_u64(bytes, 16) as u64)
    }

    fn from_bytes(byte_array: &[u8]) -> (record: Option<Self>) {
        if byte_array.len() < 24 {
            return None;
        }
        let mut index: usize = 0;
        let id = read_u32(byte_array, &mut index);
        let flag = read_u32(byte_array, &mut index);
        let x = coordinate_from_bits(read_f64(byte_array, &mut index));
        let y = coordinate_from_bits(read_f64(byte_array, &mut index));
        match (x, y) {
            (Some(x), Some(y)) => Some(TrafficLight { id, position: Position { x, y }, flag }),
            _ => None,
        }
    }
}

} // verus!
