//! Graph vertices, their edges and their classification by nearness to
//! traffic lights.

use crate::fixed::{coordinate_from_bits, coordinate_of, metres_from_bits, metres_of};
use crate::geometry::{
    distance_sq, distance_squared, is_floor_sqrt, lemma_sqrt_below_bound, Position,
    UNITS_PER_METRE,
};
use crate::loader::{
    be_i32, be_u32, be_u64, read_f64, read_i32, read_u32, skip_f64, skip_i32, ByteConvertable,
};
use crate::traffic_light::TrafficLight;
use crate::traits::{Indexable, Positional};
use vstd::prelude::*;

verus! {

/// How close a node is to the nearest traffic light.
#[derive(Clone, Copy, Debug, PartialEq, Eq, Structural)]
pub enum NodeType {
    AtTrafficLight,
    NearTrafficLight,
    Normal,
}

/// A node closer than this many metres to a light is at the light.
pub const AT_TRAFFIC_LIGHT_THRESHOLD: u64 = 25;

/// A node closer than this many metres to a light is near the light.
pub const NEAR_TRAFFIC_LIGHT_THRESHOLD: u64 = 100;

/// The square of `metres`, in the unit of `distance_squared`.
pub open spec fn metres_squared(metres: u64) -> int {
    (metres * UNITS_PER_METRE) * (metres * UNITS_PER_METRE)
}

impl NodeType {
    /// 0 for `Normal`, 1 for `NearTrafficLight`, 2 for `AtTrafficLight`.
    pub open spec fn rank(self) -> int {
        match self {
            NodeType::Normal => 0,
            NodeType::NearTrafficLight => 1,
            NodeType::AtTrafficLight => 2,
        }
    }

    /// The type that a light at squared distance `d2` gives a node by itself.
    pub open spec fn by_distance(d2: int) -> NodeType {
        if d2 < metres_squared(AT_TRAFFIC_LIGHT_THRESHOLD) {
            NodeType::AtTrafficLight
        } else if d2 < metres_squared(NEAR_TRAFFIC_LIGHT_THRESHOLD) {
            NodeType::NearTrafficLight
        } else {
            NodeType::Normal
        }
    }

    /// The type of a node of type `self` once a light at squared distance
    /// `d2` has been taken into account: the closer of the two.
    pub open spec fn seen_light(self, d2: int) -> NodeType {
        if NodeType::by_distance(d2).rank() > self.rank() {
            NodeType::by_distance(d2)
        } else {
            self
        }
    }

    /// Takes one light at squared distance `distance_squared` into account.
    /// The result is never farther from a light than `self`; in particular
    /// `AtTrafficLight` stays.
    pub fn classify(self, distance_squared: u128) -> (updated: NodeType)
        ensures
            updated == self.seen_light(distance_squared as int),
            updated.rank() >= self.rank(),
            self == NodeType::AtTrafficLight ==> updated == NodeType::AtTrafficLight,
    {
        let at: u128 = 2_500_000_000 * 2_500_000_000;
        let near: u128 = 10_000_000_000 * 10_000_000_000;
        assert(at == metres_squared(AT_TRAFFIC_LIGHT_THRESHOLD));
        assert(near == metres_squared(NEAR_TRAFFIC_LIGHT_THRESHOLD));
        match self {
            NodeType::Normal => {
                if distance_squared < at {
                    NodeType::AtTrafficLight
                } else if distance_squared < near {
                    NodeType::NearTrafficLight
                } else {
                    NodeType::Normal
                }
            },
            NodeType::NearTrafficLight => {
                if distance_squared < at {
                    NodeType::AtTrafficLight
                } else {
                    NodeType::NearTrafficLight
                }
            },
            NodeType::AtTrafficLight => NodeType::AtTrafficLight,
        }
    }
}

/// Typing by squared distance is typing by distance: a node is at a light
/// if its distance to it, rounded down, is below 25 metres, near it if below
/// 100 metres, and otherwise left alone.
pub proof fn lemma_typed_by_distance(distance: int, d2: int)
    requires
        is_floor_sqrt(distance, d2),
    ensures
        NodeType::by_distance(d2) == if distance < AT_TRAFFIC_LIGHT_THRESHOLD * UNITS_PER_METRE {
            NodeType::AtTrafficLight
        } else if distance < NEAR_TRAFFIC_LIGHT_THRESHOLD * UNITS_PER_METRE {
            NodeType::NearTrafficLight
        } else {
            NodeType::Normal
        },
{
    lemma_sqrt_below_bound(distance, d2, AT_TRAFFIC_LIGHT_THRESHOLD * UNITS_PER_METRE);
    lemma_sqrt_below_bound(distance, d2, NEAR_TRAFFIC_LIGHT_THRESHOLD * UNITS_PER_METRE);
}

/// The types of the nodes once the first `k` items of `bucket` have been
/// held against a light at `light`: each item names a node, and that node
/// takes the light at its distance into account.
pub open spec fn types_after_light(
    types: Seq<NodeType>,
    positions: Seq<Position>,
    light: Position,
    bucket: Seq<Located>,
    k: nat,
) -> Seq<NodeType>
    decreases k,
{
    if k == 0 {
        types
    } else {
        let before = types_after_light(types, positions, light, bucket, (k - 1) as nat);
        let node = bucket[k - 1].index as int;
        if node < before.len() {
            before.update(
                node,
                before[node].seen_light(distance_squared(light, positions[node])),
            )
        } else {
            before
        }
    }
}

/// Holding a bucket against a light keeps the number of nodes and demotes
/// no node.
pub proof fn lemma_light_never_demotes(
    types: Seq<NodeType>,
    positions: Seq<Position>,
    light: Position,
    bucket: Seq<Located>,
    k: nat,
)
    ensures
        types_after_light(types, positions, light, bucket, k).len() == types.len(),
        forall|i: int|
            0 <= i < types.len() ==> (#[trigger] types_after_light(
                types,
                positions,
                light,
                bucket,
                k,
            )[i]).rank() >= types[i].rank(),
    decreases k,
{
    if k > 0 {
        lemma_light_never_demotes(types, positions, light, bucket, (k - 1) as nat);
    }
}

/// The types of `nodes`.
pub open spec fn types_of(nodes: Seq<Node>) -> Seq<NodeType> {
    Seq::new(nodes.len(), |i: int| nodes[i].node_type)
}

/// The positions of `nodes`.
pub open spec fn positions_of(nodes: Seq<Node>) -> Seq<Position> {
    Seq::new(nodes.len(), |i: int| nodes[i].position)
}

/// Whether `after` are the nodes `before` with nothing changed but,
/// possibly, their types.
pub open spec fn same_but_types(after: Seq<Node>, before: Seq<Node>) -> bool {
    &&& after.len() == before.len()
    &&& forall|i: int|
        0 <= i < before.len() ==> {
            &&& (#[trigger] after[i]).index == before[i].index
            &&& after[i].flag == before[i].flag
            &&& after[i].position == before[i].position
            &&& after[i].connections == before[i].connections
        }
}

impl NodeType {
    /// Holds the nodes that `bucket` names against `traffic_light`: each
    /// takes the light at its distance into account. No node is demoted,
    /// and nothing but types changes.
    pub fn assign_types(traffic_light: &TrafficLight, bucket: &Vec<Located>, nodes: &mut Vec<Node>)
        ensures
            same_but_types(final(nodes)@, old(nodes)@),
            types_of(final(nodes)@) == types_after_light(
                types_of(old(nodes)@),
                positions_of(old(nodes)@),
                traffic_light.position,
                bucket@,
                bucket@.len(),
            ),
            forall|i: int|
                0 <= i < old(nodes)@.len() ==> (#[trigger] final(nodes)@[i]).node_type.rank()
                    >= old(nodes)@[i].node_type.rank(),
    {
        let mut k: usize = 0;
        while k < bucket.len()
            invariant
                k <= bucket@.len(),
                same_but_types(nodes@, old(nodes)@),
                types_of(nodes@) == types_after_light(
                    types_of(old(nodes)@),
                    positions_of(old(nodes)@),
                    traffic_light.position,
                    bucket@,
                    k as nat,
                ),
            decreases bucket@.len() - k,
        {
            let index = bucket[k].index as usize;
            if index < nodes.len() {
                let ghost before = nodes@;
                let distance = distance_sq(&traffic_light.position, &nodes[index].position);
                let updated = nodes[index].node_type.classify(distance);
                nodes[index].node_type = updated;
                proof {
                    assert(types_of(nodes@) =~= types_of(before).update(index as int, updated));
                }
            }
            k = k + 1;
        }
        proof {
            lemma_light_never_demotes(
                types_of(old(nodes)@),
                positions_of(old(nodes)@),
                traffic_light.position,
                bucket@,
                bucket@.len(),
            );
            assert forall|i: int| 0 <= i < old(nodes)@.len() implies (#[trigger] nodes@[i]).node_type.rank()
                >= old(nodes)@[i].node_type.rank() by {
                assert(types_of(nodes@)[i] == nodes@[i].node_type);
                assert(types_of(old(nodes)@)[i] == old(nodes)@[i].node_type);
            }
        }
    }
}

/// A directed edge.
#[derive(Clone, Copy, Debug, PartialEq, Eq, Structural)]
pub struct Connection {
    /// The index of the node that the edge leads to.
    pub index: u32,
    /// The length of the edge in metres.
    pub cost: u32,
    /// The posted speed on the edge in km/h.
    pub speed: u16,
}

/// A vertex of the road graph. Its index is its slot in the node array.
#[derive(Clone, Debug)]
pub struct Node {
    pub index: u32,
    pub flag: u32,
    pub node_type: NodeType,
    pub position: Position,
    pub connections: Vec<Connection>,
}

impl Node {
    /// A node of type `Normal` whose flag has every bit set.
    pub fn new(index: u32, position: Position, connections: Vec<Connection>) -> (node: Node)
        ensures
            node.index == index,
            node.position == position,
            node.connections == connections,
            node.flag == u32::MAX,
            node.node_type == NodeType::Normal,
    {
        Node { index, position, flag: u32::MAX, node_type: NodeType::Normal, connections }
    }

    /// The edges that leave the node.
    pub fn get_connections(&self) -> (connections: &Vec<Connection>)
        ensures
            *connections == self.connections,
    {
        &self.connections
    }
}

impl Positional for Node {
    open spec fn position_spec(&self) -> Position {
        self.position
    }

    fn position(&self) -> (p: &Position) {
        &self.position
    }
}

impl Indexable for Node {
    open spec fn index_spec(&self) -> u32 {
        self.index
    }

    fn index(&self) -> (i: u32) {
        self.index
    }
}

/// The place of a record and the slot it is stored in: what a spatial index
/// keeps in place of the record itself.
#[derive(Clone, Copy, Debug, PartialEq, Eq, Structural)]
pub struct Located {
    pub position: Position,
    pub index: u32,
}

impl Positional for Located {
    open spec fn position_spec(&self) -> Position {
        self.position
    }

    fn position(&self) -> (p: &Position) {
        &self.position
    }
}

impl Indexable for Located {
    open spec fn index_spec(&self) -> u32 {
        self.index
    }

    fn index(&self) -> (i: u32) {
        self.index
    }
}

/// The bytes of a node before its edges: id, the two doubles of its
/// position in degrees, the posted speed on its edges in km/h and the
/// number of its edges.
pub const NODE_HEADER: usize = 28;

/// The bytes of one edge: the index of its target and the double of its
/// length in kilometres.
pub const EDGE_SIZE: usize = 12;

/// The bytes of a node of the older layout before its edges: a double and
/// a number, which are passed over, stand where the newer layout has the
/// speed.
pub const OLD_NODE_HEADER: usize = 36;

/// The length in metres of the edge number `j` of those that start in
/// `bytes` at `at`, if its double is a length.
pub open spec fn edge_length(bytes: Seq<u8>, at: int, j: int) -> Option<u32> {
    metres_of(be_u64(bytes, at + 12 * j + 4) as u64)
}

/// Whether `count` edges are well-formed in `bytes` from `at` on.
pub open spec fn edges_parse(bytes: Seq<u8>, at: int, count: int) -> bool {
    &&& count >= 0
    &&& at + 12 * count <= bytes.len()
    &&& forall|j: int| 0 <= j < count ==> (#[trigger] edge_length(bytes, at, j)) is Some
}

/// The edge number `j` of those that start in `bytes` at `at`, with the
/// speed `speed`.
pub open spec fn edge_at(bytes: Seq<u8>, at: int, j: int, speed: u16) -> Connection {
    Connection {
        index: be_u32(bytes, at + 12 * j) as u32,
        cost: edge_length(bytes, at, j)->0,
        speed,
    }
}

/// The index of the node to which the edge number `j` of the node in
/// `record` leads.
pub open spec fn target_at(record: Seq<u8>, j: int) -> int {
    be_u32(record, 28 + 12 * j)
}

/// Whether every edge of the node in `record` leads to a node with an
/// index below `count`.
pub open spec fn targets_below(record: Seq<u8>, count: int) -> bool {
    forall|j: int| 0 <= j < be_i32(record, 24) ==> #[trigger] target_at(record, j) < count
}

/// Whether `connections` are the `count` edges in `bytes` from `at` on.
pub open spec fn edges_encoded(
    connections: Seq<Connection>,
    bytes: Seq<u8>,
    at: int,
    count: int,
    speed: u16,
) -> bool {
    &&& connections.len() == count
    &&& forall|j: int| 0 <= j < count
        ==> (#[trigger] connections[j]) == edge_at(bytes, at, j, speed)
}

/// Reads `count` edges from `bytes` at `at`.
fn read_edges(bytes: &[u8], at: usize, count: i32, speed: u16) -> (edges: Option<Vec<Connection>>)
    requires
        at <= bytes@.len(),
    ensures
        edges is Some <==> edges_parse(bytes@, at as int, count as int),
        edges is Some ==> edges_encoded(edges->0@, bytes@, at as int, count as int, speed),
{
    if count < 0 {
        return None;
    }
    let total = count as usize;
    if (bytes.len() - at) / 12 < total {
        return None;
    }
    let mut edges: Vec<Connection> = Vec::new();
    let mut index: usize = at;
    let mut j: usize = 0;
    while j < total
        invariant
            j <= total,
            total == count,
            at + 12 * total <= bytes@.len(),
            index == at + 12 * j,
            edges@.len() == j,
            forall|m: int| 0 <= m < j ==> (#[trigger] edge_length(bytes@, at as int, m)) is Some,
            forall|m: int|
                0 <= m < j ==> (#[trigger] edges@[m]) == edge_at(bytes@, at as int, m, speed),
        decreases total - j,
    {
        let target = read_u32(bytes, &mut index);
        let bits = read_f64(bytes, &mut index);
        assert(metres_of(bits) == edge_length(bytes@, at as int, j as int));
        let length = match metres_from_bits(bits) {
            Some(length) => length,
            None => {
                assert(edge_length(bytes@, at as int, j as int) is None);
                return None;
            },
        };
        edges.push(Connection { index: target, cost: length, speed });
        j = j + 1;
    }
    Some(edges)
}

impl Node {
    /// Whether `bytes` hold a node of the older layout.
    pub open spec fn parses_old(bytes: Seq<u8>) -> bool {
        &&& bytes.len() >= OLD_NODE_HEADER
        &&& coordinate_of(be_u64(bytes, 4) as u64) is Some
        &&& coordinate_of(be_u64(bytes, 12) as u64) is Some
        &&& edges_parse(bytes, OLD_NODE_HEADER as int, be_i32(bytes, 32))
    }

    /// Whether `self` is the node that `bytes` hold in the older layout,
    /// with `speed` as the speed of its edges.
    pub open spec fn encoded_by_old(&self, bytes: Seq<u8>, speed: u16) -> bool {
        &&& self.index == be_u32(bytes, 0)
        &&& Some(self.position.x) == coordinate_of(be_u64(bytes, 4) as u64)
        &&& Some(self.position.y) == coordinate_of(be_u64(bytes, 12) as u64)
        &&& self.flag == u32::MAX
        &&& self.node_type == NodeType::Normal
        &&& edges_encoded(
            self.connections@,
            bytes,
            OLD_NODE_HEADER as int,
            be_i32(bytes, 32),
            speed,
        )
    }

    /// Reads a node of the older layout, in which no speed is given: every
    /// edge gets `speed`.
    pub fn from_old_bytes(byte_array: &[u8], speed: u16) -> (record: Option<Node>)
        ensures
            record is Some <==> Node::parses_old(byte_array@),
            record is Some ==> record->0.encoded_by_old(byte_array@, speed),
    {
        if byte_array.len() < OLD_NODE_HEADER {
            return None;
        }
        let mut index: usize = 0;
        let id = read_u32(byte_array, &mut index);
        let x = coordinate_from_bits(read_f64(byte_array, &mut index));
        let y = coordinate_from_bits(read_f64(byte_array, &mut index));
        skip_f64(&mut index);
        skip_i32(&mut index);
        let connected_indices_size = read_i32(byte_array, &mut index);
        match (x, y, read_edges(byte_array, index, connected_indices_size, speed)) {
            (Some(x), Some(y), Some(connections)) => Some(
                Node::new(id, Position { x, y }, connections),
            ),
            _ => None,
        }
    }
}

/// A node arrives as a header of `NODE_HEADER` bytes and its edges.
impl ByteConvertable for Node {
    open spec fn parses(bytes: Seq<u8>) -> bool {
        &&& bytes.len() >= NODE_HEADER
        &&& coordinate_of(be_u64(bytes, 4) as u64) is Some
        &&& coordinate_of(be_u64(bytes, 12) as u64) is Some
        &&& 0 <= be_i32(bytes, 20) <= u16::MAX
        &&& edges_parse(bytes, NODE_HEADER as int, be_i32(bytes, 24))
    }

    open spec fn slot(bytes: Seq<u8>) -> u32 {
        be_u32(bytes, 0) as u32
    }

    open spec fn encoded_by(&self, bytes: Seq<u8>) -> bool {
        &&& self.index == be_u32(bytes, 0)
        &&& Some(self.position.x) == coordinate_of(be_u64(bytes, 4) as u64)
        &&& Some(self.position.y) == coordinate_of(be_u64(bytes, 12) as u64)
        &&& self.flag == u32::MAX
        &&& self.node_type == NodeType::Normal
        &&& edges_encoded(
            self.connections@,
            bytes,
            NODE_HEADER as int,
            be_i32(bytes, 24),
            be_i32(bytes, 20) as u16,
        )
    }

    fn from_bytes(byte_array: &[u8]) -> (record: Option<Self>) {
        if byte_array.len() < NODE_HEADER {
            return None;
        }
        let mut index: usize = 0;
        let id = read_u32(byte_array, &mut index);
        let x = coordinate_from_bits(read_f64(byte_array, &mut index));
        let y = coordinate_from_bits(read_f64(byte_array, &mut index));
        let speed = read_i32(byte_array, &mut index);
        let connected_indices_size = read_i32(byte_array, &mut index);
        if speed < 0 || speed > 0xffff {
            return None;
        }
        match (x, y, read_edges(byte_array, index, connected_indices_size, speed as u16)) {
            (Some(x), Some(y), Some(connections)) => Some(
                Node::new(id, Position { x, y }, connections),
            ),
            _ => None,
        }
    }
}

} // verus!
