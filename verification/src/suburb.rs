//! Suburbs: polygons with a bounding box, and the test whether a point lies
//! in one.

use crate::fixed::{coordinate_from_bits, coordinate_of};
use crate::geometry::{Boundary, Position};
use crate::loader::{
    be_i32, be_u32, be_u64, read_f64, read_i32, read_u32, skip_string, ByteConvertable,
};
use crate::traits::Indexable;
use vstd::prelude::*;

verus! {

/// A suburb. Its outline is the closed polygon through the points
/// `(x_points[i], y_points[i])`; the first point is repeated at the end.
#[derive(Clone, Debug)]
pub struct Suburb {
    pub id: u32,
    pub boundary: Boundary,
    pub x_points: Vec<i32>,
    pub y_points: Vec<i32>,
}

/// On which side of the line through `a` and `b` the point `p` lies: zero
/// on the line, and of opposite sign on the two sides.
pub open spec fn side(p: Position, a: Position, b: Position) -> int {
    (p.x - a.x) * (b.y - a.y) - (b.x - a.x) * (p.y - a.y)
}

/// Whether the edge between `a` and `b` is crossed by the ray that leaves
/// `p` along the x axis: the edge spans the height of `p`, and `p` lies on
/// the side of it from which the ray meets it.
pub open spec fn crosses(p: Position, a: Position, b: Position) -> bool {
    (p.y < a.y) != (p.y < b.y) && (side(p, a, b) < 0) != (b.y < a.y)
}

/// The outline point number `i`.
pub open spec fn vertex(xs: Seq<i32>, ys: Seq<i32>, i: int) -> Position {
    Position { x: xs[i], y: ys[i] }
}

/// Whether the ray from `p` crosses an odd number of the first `edges`
/// edges of the outline; edge `i` joins the points `i` and `i + 1`.
pub open spec fn odd_crossings(xs: Seq<i32>, ys: Seq<i32>, p: Position, edges: nat) -> bool
    decreases edges,
{
    if edges == 0 {
        false
    } else {
        odd_crossings(xs, ys, p, (edges - 1) as nat) != crosses(
            p,
            vertex(xs, ys, edges as int),
            vertex(xs, ys, edges - 1),
        )
    }
}

/// The even-odd rule: a point is in a polygon if a ray from it crosses the
/// outline an odd number of times.
pub open spec fn inside_outline(xs: Seq<i32>, ys: Seq<i32>, p: Position) -> bool {
    xs.len() >= 1 && odd_crossings(xs, ys, p, (xs.len() - 1) as nat)
}

impl Suburb {
    /// The outline has as many x as y coordinates.
    pub open spec fn wf(&self) -> bool {
        self.x_points@.len() == self.y_points@.len()
    }

    /// Whether `pos` lies in the bounding box and, by the even-odd rule, in
    /// the polygon.
    pub open spec fn inside_spec(&self, pos: Position) -> bool {
        self.boundary.contains_spec(pos) && inside_outline(self.x_points@, self.y_points@, pos)
    }

    /// Whether `pos` lies in the suburb. A point outside the bounding box
    /// does not.
    pub fn is_inside(&self, pos: &Position) -> (inside: bool)
        requires
            self.wf(),
        ensures
            inside == self.inside_spec(*pos),
            !self.boundary.contains_spec(*pos) ==> !inside,
    {
        if self.boundary.contains(pos) {
            self.is_inside_no_bound_check(pos)
        } else {
            false
        }
    }

    /// Whether `pos` lies in the polygon by the even-odd rule, without a
    /// look at the bounding box.
    pub fn is_inside_no_bound_check(&self, pos: &Position) -> (inside: bool)
        requires
            self.wf(),
        ensures
            inside == inside_outline(self.x_points@, self.y_points@, *pos),
    {
        let point_count = self.x_points.len();
        if point_count == 0 {
            return false;
        }
        let x: i128 = pos.x as i128;
        let y: i128 = pos.y as i128;
        let mut bx: i128 = self.x_points[0] as i128;
        let mut by: i128 = self.y_points[0] as i128;
        let mut inside = false;
        let mut eb: usize = 1;
        while eb < point_count
            invariant
                1 <= eb <= point_count,
                point_count == self.x_points@.len(),
                point_count == self.y_points@.len(),
                x == pos.x,
                y == pos.y,
                bx == self.x_points@[eb - 1],
                by == self.y_points@[eb - 1],
                inside == odd_crossings(self.x_points@, self.y_points@, *pos, (eb - 1) as nat),
            decreases point_count - eb,
        {
            let ax: i128 = self.x_points[eb] as i128;
            let ay: i128 = self.y_points[eb] as i128;
            assert(-0x1_0000_0000_0000_0000 <= (x - ax) * (by - ay) <= 0x1_0000_0000_0000_0000)
                by (nonlinear_arith)
                requires
                    -0x1_0000_0000 < x - ax < 0x1_0000_0000,
                    -0x1_0000_0000 < by - ay < 0x1_0000_0000,
            ;
            assert(-0x1_0000_0000_0000_0000 <= (bx - ax) * (y - ay) <= 0x1_0000_0000_0000_0000)
                by (nonlinear_arith)
                requires
                    -0x1_0000_0000 < bx - ax < 0x1_0000_0000,
                    -0x1_0000_0000 < y - ay < 0x1_0000_0000,
            ;
            let slope: i128 = (x - ax) * (by - ay) - (bx - ax) * (y - ay);
            assert(slope == side(
                *pos,
                vertex(self.x_points@, self.y_points@, eb as int),
                vertex(self.x_points@, self.y_points@, eb - 1),
            ));
            if (y < ay) != (y < by) && (slope < 0) != (by < ay) {
                inside = !inside;
            }
            bx = ax;
            by = ay;
            eb = eb + 1;
        }
        inside
    }
}

impl Indexable for Suburb {
    open spec fn index_spec(&self) -> u32 {
        self.id
    }

    fn index(&self) -> (i: u32) {
        self.id
    }
}

/// The bytes of a suburb before its name: id, the length of the name, the
/// number of outline points, and the four doubles of its bounding box in
/// degrees: least x, least y, greatest x, greatest y.
pub const SUBURB_HEADER: usize = 44;

/// The x coordinate of the outline point number `j` of those that start in
/// `bytes` at `at`, if its double is a coordinate.
pub open spec fn outline_x(bytes: Seq<u8>, at: int, j: int) -> Option<i32> {
    coordinate_of(be_u64(bytes, at + 16 * j) as u64)
}

/// The y coordinate of the outline point number `j` of those that start in
/// `bytes` at `at`, if its double is a coordinate.
pub open spec fn outline_y(bytes: Seq<u8>, at: int, j: int) -> Option<i32> {
    coordinate_of(be_u64(bytes, at + 16 * j + 8) as u64)
}

/// Whether `count` outline points are well-formed in `bytes` from `at` on.
pub open spec fn outline_parses(bytes: Seq<u8>, at: int, count: int) -> bool {
    &&& count >= 0
    &&& at + 16 * count <= bytes.len()
    &&& forall|j: int| 0 <= j < count ==> (#[trigger] outline_x(bytes, at, j)) is Some
    &&& forall|j: int| 0 <= j < count ==> (#[trigger] outline_y(bytes, at, j)) is Some
}

/// Whether `xs` and `ys` are the `count` outline points in `bytes` from
/// `at` on.
pub open spec fn outline_encoded(
    xs: Seq<i32>,
    ys: Seq<i32>,
    bytes: Seq<u8>,
    at: int,
    count: int,
) -> bool {
    &&& xs.len() == count
    &&& ys.len() == count
    &&& forall|j: int| 0 <= j < count ==> Some(#[trigger] xs[j]) == outline_x(bytes, at, j)
    &&& forall|j: int| 0 <= j < count ==> Some(#[trigger] ys[j]) == outline_y(bytes, at, j)
}

/// Reads `count` outline points from `bytes` at `at`.
fn read_outline(bytes: &[u8], at: usize, count: i32) -> (outline: Option<(Vec<i32>, Vec<i32>)>)
    requires
        at <= bytes@.len(),
    ensures
        outline is Some <==> outline_parses(bytes@, at as int, count as int),
        match outline {
            Some((xs, ys)) => outline_encoded(xs@, ys@, bytes@, at as int, count as int),
            None => true,
        },
{
    if count < 0 {
        return None;
    }
    let total = count as usize;
    if (bytes.len() - at) / 16 < total {
        return None;
    }
    let mut x_points: Vec<i32> = Vec::new();
    let mut y_points: Vec<i32> = Vec::new();
    let mut index: usize = at;
    let mut j: usize = 0;
    while j < total
        invariant
            j <= total,
            total == count,
            at + 16 * total <= bytes@.len(),
            index == at + 16 * j,
            x_points@.len() == j,
            y_points@.len() == j,
            forall|m: int| 0 <= m < j ==> (#[trigger] outline_x(bytes@, at as int, m)) is Some,
            forall|m: int| 0 <= m < j ==> (#[trigger] outline_y(bytes@, at as int, m)) is Some,
            forall|m: int|
                0 <= m < j ==> Some(#[trigger] x_points@[m]) == outline_x(bytes@, at as int, m),
            forall|m: int|
                0 <= m < j ==> Some(#[trigger] y_points@[m]) == outline_y(bytes@, at as int, m),
        decreases total - j,
    {
        let x_bits = read_f64(bytes, &mut index);
        let y_bits = read_f64(bytes, &mut index);
        assert(coordinate_of(x_bits) == outline_x(bytes@, at as int, j as int));
        assert(coordinate_of(y_bits) == outline_y(bytes@, at as int, j as int));
        match (coordinate_from_bits(x_bits), coordinate_from_bits(y_bits)) {
            (Some(x), Some(y)) => {
                x_points.push(x);
                y_points.push(y);
            },
            _ => {
                assert(outline_x(bytes@, at as int, j as int) is None || outline_y(
                    bytes@,
                    at as int,
                    j as int,
                ) is None);
                return None;
            },
        }
        j = j + 1;
    }
    Some((x_points, y_points))
}

/// A suburb arrives as a header of `SUBURB_HEADER` bytes, its name, which
/// is passed over, and its outline points.
impl ByteConvertable for Suburb {
    open spec fn parses(bytes: Seq<u8>) -> bool {
        &&& bytes.len() >= SUBURB_HEADER
        &&& 0 <= be_i32(bytes, 4) <= bytes.len() - SUBURB_HEADER
        &&& coordinate_of(be_u64(bytes, 12) as u64) is Some
        &&& coordinate_of(be_u64(bytes, 20) as u64) is Some
        &&& coordinate_of(be_u64(bytes, 28) as u64) is Some
        &&& coordinate_of(be_u64(bytes, 36) as u64) is Some
        &&& outline_parses(bytes, SUBURB_HEADER + be_i32(bytes, 4), be_i32(bytes, 8))
    }

    open spec fn slot(bytes: Seq<u8>) -> u32 {
        be_u32(bytes, 0) as u32
    }

    open spec fn encoded_by(&self, bytes: Seq<u8>) -> bool {
        &&& self.id == be_u32(bytes, 0)
        &&& Some(self.boundary.corner_min.x) == coordinate_of(be_u64(bytes, 12) as u64)
        &&& Some(self.boundary.corner_min.y) == coordinate_of(be_u64(bytes, 20) as u64)
        &&& Some(self.boundary.corner_max.x) == coordinate_of(be_u64(bytes, 28) as u64)
        &&& Some(self.boundary.corner_max.y) == coordinate_of(be_u64(bytes, 36) as u64)
        &&& outline_encoded(
            self.x_points@,
            self.y_points@,
            bytes,
            SUBURB_HEADER + be_i32(bytes, 4),
            be_i32(bytes, 8),
        )
    }

    fn from_bytes(byte_array: &[u8]) -> (record: Option<Self>) {
        if byte_array.len() < SUBURB_HEADER {
            return None;
        }
        let mut index: usize = 0;
        let id = read_u32(byte_array, &mut index);
        let name_length = read_i32(byte_array, &mut index);
        let coordinate_length = read_i32(byte_array, &mut index);
        let min_x = coordinate_from_bits(read_f64(byte_array, &mut index));
        let min_y = coordinate_from_bits(read_f64(byte_array, &mut index));
        let max_x = coordinate_from_bits(read_f64(byte_array, &mut index));
        let max_y = coordinate_from_bits(read_f64(byte_array, &mut index));
        if name_length < 0 || byte_array.len() - SUBURB_HEADER < name_length as usize {
            return None;
        }
        skip_string(&mut index, name_length as usize);
        match (min_x, min_y, max_x, max_y, read_outline(byte_array, index, coordinate_length)) {
            (Some(min_x), Some(min_y), Some(max_x), Some(max_y), Some((x_points, y_points))) => {
                Some(
                    Suburb {
                        id,
                        x_points,
                        y_points,
                        boundary: Boundary {
                            corner_max: Position { x: max_x, y: max_y },
                            corner_min: Position { x: min_x, y: min_y },
                        },
                    },
                )
            },
            _ => None,
        }
    }
}

/// Every suburb that was loaded from a payload has as many x as y
/// coordinates.
pub proof fn lemma_loaded_suburbs_are_outlined(bytes: Seq<u8>, slots: Seq<Option<Suburb>>)
    requires
        crate::loader::loaded(bytes, slots),
    ensures
        forall|i: int| 0 <= i < slots.len() ==> (#[trigger] slots[i])->0.wf(),
{
    assert forall|i: int| 0 <= i < slots.len() implies (#[trigger] slots[i])->0.wf() by {
        let ranges = crate::loader::frames(bytes)->Ok_0;
        let h = crate::loader::holder::<Suburb>(bytes, ranges, i, ranges.len());
        assert(slots[i]->0.encoded_by(crate::loader::record(bytes, ranges[h->0])));
    }
}

} // verus!
