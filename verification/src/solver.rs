//! The search: a label-correcting shortest-path computation over a monotone
//! radix queue, run in batches of bounded length.

use crate::clock::current_minute;
use crate::geometry::{distance_sq, distance_squared, Position};
use crate::heap::{
    heap_entries, heap_top, radix_clear, radix_entries, radix_is_empty, radix_new, radix_pop,
    radix_push, radix_top,
};
use crate::node::{Connection, Node, NodeType};
use crate::pairing::{
    pairing_delete_min, pairing_entries, pairing_insert, pairing_is_empty, pairing_new,
};
use radix_heap::RadixHeapMap;
use vstd::multiset::Multiset;
use vstd::prelude::*;

verus! {

/// What a search minimises.
#[derive(Clone, Copy, Debug, PartialEq, Eq, Structural)]
pub enum SearchMethod {
    /// Travel time, with a penalty at traffic lights that are without power.
    FASTEST,
    /// Length.
    SHORTEST,
    /// Travel time, with a prohibitive penalty at traffic lights that are
    /// without power.
    AVOID,
}

impl SearchMethod {
    /// The method that a host names by a number: 0 is `FASTEST`, 1 is
    /// `SHORTEST`, every other number is `AVOID`.
    pub fn from_code(code: i32) -> (method: SearchMethod)
        ensures
            method == match code {
                0 => SearchMethod::FASTEST,
                1 => SearchMethod::SHORTEST,
                _ => SearchMethod::AVOID,
            },
    {
        match code {
            0 => SearchMethod::FASTEST,
            1 => SearchMethod::SHORTEST,
            _ => SearchMethod::AVOID,
        }
    }
}

/// The queue key of cost zero: the seconds in sixteen hours. A node at cost
/// `c` milliseconds has the key `MAX_TIME - c / 1000`.
pub const MAX_TIME: u32 = 57_600;

/// The largest cost, in milliseconds, that a search assigns: sixteen hours.
/// A node that can only be reached at a higher cost counts as not reached.
pub const MAX_COST: u64 = 57_600_000;

/// The cost of a node that the search has not reached.
pub const UNREACHED: u64 = u64::MAX;

/// Stands in the predecessor table for "no predecessor".
pub const NO_PREVIOUS: u32 = u32::MAX;

/// Milliseconds in an hour.
pub const HOUR: u64 = 3_600_000;

/// Every edge of every node leads to a node of the graph, and node indices
/// fit the predecessor table.
pub open spec fn valid_graph(nodes: Seq<Node>) -> bool {
    &&& nodes.len() <= u32::MAX
    &&& forall|i: int, j: int|
        0 <= i < nodes.len() && 0 <= j < nodes[i].connections@.len() ==> (
        #[trigger] nodes[i].connections@[j]).index < nodes.len()
}

/// The graph has an edge from `from` to `to` of `length` metres.
pub open spec fn has_edge(nodes: Seq<Node>, from: int, to: int, length: int) -> bool {
    &&& 0 <= from < nodes.len()
    &&& exists|j: int|
        0 <= j < nodes[from].connections@.len() && (#[trigger] nodes[from].connections@[j]).index
            == to && nodes[from].connections@[j].cost == length
}

/// Whether every edge of every node leads to a node of the graph.
pub fn is_valid_graph(nodes: &Vec<Node>) -> (valid: bool)
    ensures
        valid == valid_graph(nodes@),
{
    if nodes.len() > 0xffff_ffff {
        return false;
    }
    let mut i: usize = 0;
    while i < nodes.len()
        invariant
            i <= nodes@.len() <= u32::MAX,
            forall|a: int, b: int|
                0 <= a < i && 0 <= b < nodes@[a].connections@.len() ==> (
                #[trigger] nodes@[a].connections@[b]).index < nodes@.len(),
        decreases nodes@.len() - i,
    {
        let connections = &nodes[i].connections;
        let mut j: usize = 0;
        while j < connections.len()
            invariant
                i < nodes@.len() <= u32::MAX,
                *connections == nodes@[i as int].connections,
                j <= connections@.len(),
                forall|b: int| 0 <= b < j ==> (#[trigger] connections@[b]).index < nodes@.len(),
            decreases connections@.len() - j,
        {
            if connections[j].index as usize >= nodes.len() {
                return false;
            }
            j = j + 1;
        }
        i = i + 1;
    }
    true
}

/// The bit of the schedule `flag` for hour `hour`: 1 if power is cut at
/// traffic lights during that hour, else 0.
///
/// The hours are counted from the lowest bit: shifting the flag left by
/// `31 - hour` and then right by 31 leaves bit number `hour`, so that bit 0
/// stands for hour 0 and bit 31 for hour 31. Read from the other end, as
/// bit `31 - hour`, the schedule would be mirrored; the two readings agree
/// only on flags that read the same from both ends (`lemma_shed_mirrored`).
pub open spec fn shed(flag: u32, hour: u32) -> u32 {
    (flag << ((31 - hour) as u32)) >> 31u32
}

/// The hour, counted from the start of the current hour of the day, at
/// which a node at cost `cost` milliseconds is reached when the search is
/// run `minute` minutes past the hour.
pub open spec fn hour_at(minute: u32, cost: u64) -> int {
    (minute * 60_000 + cost) / (HOUR as int)
}

/// The time in milliseconds to drive `length` metres at `speed` km/h;
/// `UNREACHED` at speed zero.
pub open spec fn drive_time(length: u32, speed: u16) -> int {
    if speed == 0 {
        UNREACHED as int
    } else {
        (length * 3600) / (speed as int)
    }
}

/// A drive time with the penalty for a traffic light without power:
/// `factor` times the drive time on top, where `shed` is 1.
pub open spec fn penalised(base: int, factor: int, shed: int) -> int {
    if base == UNREACHED {
        UNREACHED as int
    } else {
        base + base * factor * shed
    }
}

/// The penalty factor of a method at a node of a type.
pub open spec fn penalty_factor(method: SearchMethod, node_type: NodeType) -> int {
    match (method, node_type) {
        (_, NodeType::Normal) => 0,
        (SearchMethod::SHORTEST, _) => 0,
        (SearchMethod::FASTEST, NodeType::NearTrafficLight) => 3,
        (SearchMethod::FASTEST, NodeType::AtTrafficLight) => 5,
        (SearchMethod::AVOID, NodeType::NearTrafficLight) => 100,
        (SearchMethod::AVOID, NodeType::AtTrafficLight) => 200,
    }
}

/// The cost in milliseconds of taking `connection` out of a node of type
/// `node_type` with schedule `flag` during hour `hour`.
pub open spec fn weight(
    method: SearchMethod,
    connection: Connection,
    node_type: NodeType,
    flag: u32,
    hour: u32,
) -> int {
    match method {
        SearchMethod::SHORTEST => connection.cost * 60,
        _ => penalised(
            drive_time(connection.cost, connection.speed),
            penalty_factor(method, node_type),
            shed(flag, hour) as int,
        ),
    }
}

/// The schedule bit is 0 or 1, and it is bit number `hour` of the flag.
pub proof fn lemma_shed_is_bit(flag: u32, hour: u32)
    requires
        hour <= 31,
    ensures
        shed(flag, hour) <= 1,
        shed(flag, hour) == (flag >> hour) & 1,
{
    assert(((flag << ((31 - hour) as u32)) >> 31u32) <= 1 && ((flag << ((31 - hour) as u32))
        >> 31u32) == (flag >> hour) & 1) by (bit_vector)
        requires
            hour <= 31,
    ;
}

/// Where bit `hour` and bit `31 - hour` of a flag agree, the schedule bit
/// for `hour` is bit `31 - hour` of the flag.
pub proof fn lemma_shed_mirrored(flag: u32, hour: u32)
    requires
        hour <= 31,
        (flag >> hour) & 1 == (flag >> ((31 - hour) as u32)) & 1,
    ensures
        shed(flag, hour) == (flag >> ((31 - hour) as u32)) & 1,
{
    lemma_shed_is_bit(flag, hour);
}

/// The schedule bit of `flag` for hour `hour`.
pub fn is_load_shedding(flag: u32, hour: u32) -> (bit: u32)
    requires
        hour <= 31,
    ensures
        bit == shed(flag, hour),
        bit <= 1,
{
    proof {
        lemma_shed_is_bit(flag, hour);
    }
    (flag << (31 - hour)) >> 31
}

/// The cost in milliseconds of taking `connection` out of a node of type
/// `node_type` with schedule `flag` during hour `hour`.
pub fn edge_weight(
    method: SearchMethod,
    connection: &Connection,
    node_type: NodeType,
    flag: u32,
    hour: u32,
) -> (w: u64)
    requires
        hour <= 31,
    ensures
        w == weight(method, *connection, node_type, flag, hour),
        w == UNREACHED || w <= 0xffff_ffff * 3600 * 201,
{
    match method {
        SearchMethod::SHORTEST => connection.cost as u64 * 60,
        _ => {
            if connection.speed == 0 {
                return u64::MAX;
            }
            let base: u64 = (connection.cost as u64 * 3600) / (connection.speed as u64);
            let factor: u64 = match (method, node_type) {
                (_, NodeType::Normal) => 0,
                (SearchMethod::FASTEST, NodeType::NearTrafficLight) => 3,
                (SearchMethod::FASTEST, NodeType::AtTrafficLight) => 5,
                (SearchMethod::AVOID, NodeType::NearTrafficLight) => 100,
                (_, _) => 200,
            };
            let bit: u64 = is_load_shedding(flag, hour) as u64;
            assert(base <= 0xffff_ffff * 3600);
            assert(base * factor * bit <= 0xffff_ffff * 3600 * 200) by (nonlinear_arith)
                requires
                    0 <= base <= 0xffff_ffff * 3600,
                    0 <= factor <= 200,
                    0 <= bit <= 1,
            ;
            assert(0 <= base * factor <= 0xffff_ffff * 3600 * 200) by (nonlinear_arith)
                requires
                    0 <= base <= 0xffff_ffff * 3600,
                    0 <= factor <= 200,
            ;
            base + base * factor * bit
        },
    }
}

/// `s` read from its last item to its first.
pub open spec fn backwards<A>(s: Seq<A>) -> Seq<A> {
    Seq::new(s.len(), |k: int| s[s.len() - 1 - k])
}

/// The nodes met when the predecessor table is followed from `node` for at
/// most `hops` edges, or up to a node without predecessor, listed from the
/// farthest back to `node`.
pub open spec fn walk(previous: Seq<u32>, node: u32, hops: nat) -> Seq<u32>
    decreases hops,
{
    if hops == 0 || node >= previous.len() || previous[node as int] == NO_PREVIOUS {
        seq![node]
    } else {
        walk(previous, previous[node as int], (hops - 1) as nat).push(node)
    }
}

/// The summed lengths of the edges along `walk`.
pub open spec fn walk_length(previous: Seq<u32>, distances: Seq<u32>, node: u32, hops: nat) -> int
    decreases hops,
{
    if hops == 0 || node >= previous.len() || previous[node as int] == NO_PREVIOUS {
        0
    } else {
        walk_length(previous, distances, previous[node as int], (hops - 1) as nat)
            + distances[node as int]
    }
}

/// The travel time of the edge by which `node` was reached from `from`: its
/// recorded length, driven at the speed of the first edge of `from`, with
/// the penalty that `FASTEST` puts on `from` at the hour at which `from` is
/// reached.
pub open spec fn hop_time(
    nodes: Seq<Node>,
    costs: Seq<u64>,
    distances: Seq<u32>,
    from: u32,
    node: u32,
) -> int {
    weight(
        SearchMethod::FASTEST,
        Connection {
            index: node,
            cost: distances[node as int],
            speed: nodes[from as int].connections@[0].speed,
        },
        nodes[from as int].node_type,
        nodes[from as int].flag,
        (costs[from as int] / HOUR) as u32,
    )
}

/// The summed travel times of the edges along `walk`.
pub open spec fn walk_time(
    nodes: Seq<Node>,
    costs: Seq<u64>,
    previous: Seq<u32>,
    distances: Seq<u32>,
    node: u32,
    hops: nat,
) -> int
    decreases hops,
{
    if hops == 0 || node >= previous.len() || previous[node as int] == NO_PREVIOUS {
        0
    } else {
        walk_time(nodes, costs, previous, distances, previous[node as int], (hops - 1) as nat)
            + hop_time(nodes, costs, distances, previous[node as int], node)
    }
}

/// A cost as it counts towards the potential of a search: every cost
/// beyond `MAX_COST` counts as `MAX_COST + 1`.
pub open spec fn capped(cost: u64) -> int {
    if cost > MAX_COST {
        MAX_COST + 1
    } else {
        cost as int
    }
}

/// The sum of the capped costs.
pub open spec fn potential_of(costs: Seq<u64>) -> int
    decreases costs.len(),
{
    if costs.len() == 0 {
        0
    } else {
        potential_of(costs.drop_last()) + capped(costs.last())
    }
}

/// Replacing one cost changes the potential by the difference of the two
/// as capped; and no potential is negative.
pub proof fn lemma_potential_update(costs: Seq<u64>, i: int, value: u64)
    requires
        0 <= i < costs.len(),
    ensures
        potential_of(costs.update(i, value)) == potential_of(costs) - capped(costs[i]) + capped(
            value,
        ),
        potential_of(costs) >= 0,
    decreases costs.len(),
{
    let front = costs.drop_last();
    if i == costs.len() - 1 {
        assert(costs.update(i, value).drop_last() =~= front);
        lemma_potential_nonneg(front);
    } else {
        lemma_potential_update(front, i, value);
        assert(costs.update(i, value).drop_last() =~= front.update(i, value));
    }
}

/// No potential is negative.
pub proof fn lemma_potential_nonneg(costs: Seq<u64>)
    ensures
        potential_of(costs) >= 0,
    decreases costs.len(),
{
    if costs.len() > 0 {
        lemma_potential_nonneg(costs.drop_last());
    }
}

/// Whether the cost of the edges that leave `node` is the same at every
/// hour: no penalty applies to the node, or its schedule cuts power at no
/// hour, or at every hour.
pub open spec fn is_steady_node(node: Node) -> bool {
    node.node_type == NodeType::Normal || node.flag == 0 || node.flag == u32::MAX
}

/// Whether the time of day decides nothing in a search by `method` over
/// `nodes`: the search minimises length, or every node is steady.
pub open spec fn steady(nodes: Seq<Node>, method: SearchMethod) -> bool {
    method == SearchMethod::SHORTEST || forall|i: int|
        0 <= i < nodes.len() ==> is_steady_node(#[trigger] nodes[i])
}

/// The least that `connection` costs out of a node of type `node_type`
/// with schedule `flag`, at whatever hour: the penalty counts only if the
/// schedule cuts power at every hour.
pub open spec fn floor_weight(
    method: SearchMethod,
    connection: Connection,
    node_type: NodeType,
    flag: u32,
) -> int {
    match method {
        SearchMethod::SHORTEST => connection.cost * 60,
        _ => penalised(
            drive_time(connection.cost, connection.speed),
            penalty_factor(method, node_type),
            if flag == u32::MAX {
                1
            } else {
                0
            },
        ),
    }
}

/// No hour makes an edge cheaper than its floor weight, and where the time
/// of day decides nothing the edge costs its floor weight at every hour.
pub proof fn lemma_floor_weight(
    method: SearchMethod,
    connection: Connection,
    node_type: NodeType,
    flag: u32,
    hour: u32,
)
    requires
        hour <= 31,
    ensures
        0 <= floor_weight(method, connection, node_type, flag) <= weight(
            method,
            connection,
            node_type,
            flag,
            hour,
        ),
        method == SearchMethod::SHORTEST || node_type == NodeType::Normal || flag == 0 || flag
            == u32::MAX ==> floor_weight(method, connection, node_type, flag) == weight(
            method,
            connection,
            node_type,
            flag,
            hour,
        ),
{
    let base = drive_time(connection.cost, connection.speed);
    let factor = penalty_factor(method, node_type);
    let bit = shed(flag, hour) as int;
    lemma_shed_is_bit(flag, hour);
    assert(flag == u32::MAX ==> ((flag << ((31 - hour) as u32)) >> 31u32) == 1) by (bit_vector)
        requires
            hour <= 31,
    ;
    assert(flag == 0 ==> ((flag << ((31 - hour) as u32)) >> 31u32) == 0) by (bit_vector)
        requires
            hour <= 31,
    ;
    if connection.speed != 0 {
        assert(base >= 0) by (nonlinear_arith)
            requires
                base == (connection.cost * 3600) / (connection.speed as int),
                connection.speed > 0,
                connection.cost >= 0,
        ;
    }
    assert(base * factor * bit >= 0) by (nonlinear_arith)
        requires
            base >= 0,
            factor >= 0,
            bit >= 0,
    ;
    assert(base * factor * 0 == 0) by (nonlinear_arith);
    assert(factor == 0 ==> base * factor * bit == 0) by (nonlinear_arith);
    assert(base * factor * 1 >= 0) by (nonlinear_arith)
        requires
            base >= 0,
            factor >= 0,
    ;
}

/// The floor weight of the edge number `edge` of the node `from`.
pub open spec fn edge_floor(nodes: Seq<Node>, method: SearchMethod, from: int, edge: int) -> int {
    floor_weight(
        method,
        nodes[from].connections@[edge],
        nodes[from].node_type,
        nodes[from].flag,
    )
}

/// One hop more than `len`, as far as hop counts go.
pub open spec fn next_hop(len: u16) -> u16 {
    if len == u16::MAX {
        u16::MAX
    } else {
        (len + 1) as u16
    }
}

/// The state of one search over a graph of a fixed number of nodes.
pub struct Solver {
    start_node: u32,
    end_node: u32,
    total_iterations: u32,
    costs: Vec<u64>,
    previous_indices: Vec<u32>,
    previous_distances: Vec<u32>,
    connection_lens: Vec<u16>,
    path: Option<(Vec<u32>, u64, u64)>,
    heap: RadixHeapMap<u32, u32>,
    backup_heap: RadixHeapMap<u32, u32>,
    current_iteration: u32,
    max_iterations: u32,
    pub search_method: SearchMethod,
}

impl Solver {
    /// The best known cost of each node in milliseconds, `UNREACHED` for a
    /// node not reached.
    pub closed spec fn costs(&self) -> Seq<u64> {
        self.costs@
    }

    /// The predecessor of each node on its best known route, `NO_PREVIOUS`
    /// for a node without one.
    pub closed spec fn previous(&self) -> Seq<u32> {
        self.previous_indices@
    }

    /// The length in metres of the edge by which each node was reached.
    pub closed spec fn distances(&self) -> Seq<u32> {
        self.previous_distances@
    }

    /// The number of edges on the best known route to each node.
    pub closed spec fn lens(&self) -> Seq<u16> {
        self.connection_lens@
    }

    /// The node at which the search begins.
    pub closed spec fn start_index(&self) -> u32 {
        self.start_node
    }

    /// The node that the search is to reach.
    pub closed spec fn end_index(&self) -> u32 {
        self.end_node
    }

    /// The pairs of key and node that wait in the primary queue.
    pub closed spec fn queue(&self) -> Multiset<(u32, u32)> {
        heap_entries(self.heap)
    }

    /// The largest key that the primary queue accepts, if it is limited.
    pub closed spec fn queue_top(&self) -> Option<u32> {
        heap_top(self.heap)
    }

    /// The pairs that could not go into the primary queue and wait for the
    /// next merge.
    pub closed spec fn backlog(&self) -> Multiset<(u32, u32)> {
        heap_entries(self.backup_heap)
    }

    closed spec fn backlog_top(&self) -> Option<u32> {
        heap_top(self.backup_heap)
    }

    /// The route found last: its nodes from start to end, its cost and its
    /// length.
    pub closed spec fn found_path(&self) -> Option<(Seq<u32>, u64, u64)> {
        match self.path {
            Some((nodes, time, distance)) => Some((nodes@, time, distance)),
            None => None,
        }
    }

    /// What the search minimises.
    pub closed spec fn method(&self) -> SearchMethod {
        self.search_method
    }

    /// The steps taken in the batch under way.
    pub closed spec fn iteration(&self) -> u32 {
        self.current_iteration
    }

    /// The most steps that one batch takes.
    pub closed spec fn iteration_budget(&self) -> u32 {
        self.max_iterations
    }

    /// The steps taken since the search began, up to `u32::MAX`.
    pub closed spec fn iterations_done(&self) -> u32 {
        self.total_iterations
    }

    /// The number of nodes that the tables are made for.
    pub open spec fn node_count(&self) -> nat {
        self.costs().len()
    }

    /// The tables have one length, and start and end are nodes.
    pub open spec fn sized(&self) -> bool {
        &&& self.previous().len() == self.node_count()
        &&& self.distances().len() == self.node_count()
        &&& self.lens().len() == self.node_count()
        &&& self.node_count() <= u32::MAX
        &&& self.start_index() < self.node_count()
        &&& self.end_index() < self.node_count()
    }

    /// Every pair in `entries` names a node and has a key up to `MAX_TIME`.
    pub open spec fn entries_in_range(&self, entries: Multiset<(u32, u32)>) -> bool {
        forall|entry: (u32, u32)| #[trigger]
            entries.contains(entry) ==> entry.1 < self.node_count() && entry.0 <= MAX_TIME
    }

    /// What holds of the tables and queues whatever graph they are used on.
    pub open spec fn wf(&self) -> bool {
        &&& self.sized()
        &&& self.entries_in_range(self.queue())
        &&& self.entries_in_range(self.backlog())
        &&& self.backlog_unlimited()
        &&& forall|i: int|
            0 <= i < self.node_count() ==> (#[trigger] self.previous()[i]) == NO_PREVIOUS
                || self.previous()[i] < self.node_count()
        &&& forall|i: int|
            0 <= i < self.node_count() ==> (#[trigger] self.costs()[i]) == UNREACHED
                || self.costs()[i] <= MAX_COST
    }

    /// The backlog accepts every key.
    pub closed spec fn backlog_unlimited(&self) -> bool {
        self.backlog_top() is None
    }

    /// What holds of a search over the graph `nodes` between any two steps:
    /// the start costs nothing; every other reached node has a predecessor
    /// that costs no more than it and from which an edge of the recorded
    /// length leads to it.
    pub open spec fn inv(&self, nodes: Seq<Node>) -> bool {
        &&& self.wf()
        &&& nodes.len() == self.node_count()
        &&& valid_graph(nodes)
        &&& self.costs()[self.start_index() as int] == 0
        &&& self.previous()[self.start_index() as int] == NO_PREVIOUS
        &&& forall|v: int|
            0 <= v < self.node_count() && (#[trigger] self.previous()[v]) != NO_PREVIOUS ==> {
                &&& self.costs()[v] <= MAX_COST
                &&& self.costs()[self.previous()[v] as int] <= self.costs()[v]
                &&& has_edge(nodes, self.previous()[v] as int, v, self.distances()[v] as int)
            }
        &&& forall|v: int|
            0 <= v < self.node_count() && v != self.start_index() && (#[trigger] self.costs()[v])
                != UNREACHED ==> self.previous()[v] != NO_PREVIOUS
    }

    /// The state in which every search begins: nothing reached but the
    /// start, which waits in the primary queue at key `MAX_TIME`.
    pub open spec fn is_fresh(&self) -> bool {
        &&& self.sized()
        &&& forall|i: int|
            0 <= i < self.node_count() && i != self.start_index() ==> (#[trigger] self.costs()[i])
                == UNREACHED
        &&& self.costs()[self.start_index() as int] == 0
        &&& forall|i: int|
            0 <= i < self.node_count() ==> (#[trigger] self.previous()[i]) == NO_PREVIOUS
        &&& forall|i: int| 0 <= i < self.node_count() ==> (#[trigger] self.lens()[i]) == 0
        &&& forall|i: int| 0 <= i < self.node_count() ==> (#[trigger] self.distances()[i]) == 0
        &&& self.queue() == Multiset::<(u32, u32)>::empty().insert((MAX_TIME, self.start_index()))
        &&& self.queue_top() is None
        &&& self.backlog() == Multiset::<(u32, u32)>::empty()
        &&& self.backlog_unlimited()
        &&& self.found_path() is None
        &&& self.iteration() == 0
        &&& self.iterations_done() == 0
    }

    /// A fresh search satisfies the search invariant on every valid graph
    /// of its size.
    pub proof fn lemma_fresh_inv(&self, nodes: Seq<Node>)
        requires
            self.is_fresh(),
            valid_graph(nodes),
            nodes.len() == self.node_count(),
        ensures
            self.inv(nodes),
    {
        broadcast use vstd::multiset::group_multiset_axioms;

        assert forall|entry: (u32, u32)| #[trigger] self.queue().contains(entry) implies entry.1
            < self.node_count() && entry.0 <= MAX_TIME by {
            assert(entry == (MAX_TIME, self.start_index()));
        }
        assert forall|i: int| 0 <= i < self.node_count() implies (#[trigger] self.costs()[i])
            == UNREACHED || self.costs()[i] <= MAX_COST by {
            if i != self.start_index() {
            }
        }
    }

    /// A solver for a graph of `nodes.len()` nodes, ready to search from
    /// `start_node_index` to `end_node_index`.
    pub fn new(
        nodes: &Vec<Node>,
        start_node_index: usize,
        end_node_index: usize,
        max_iterations: u32,
        search_method: SearchMethod,
    ) -> (solver: Solver)
        requires
            nodes@.len() <= u32::MAX,
            start_node_index < nodes@.len(),
            end_node_index < nodes@.len(),
        ensures
            solver.is_fresh(),
            solver.node_count() == nodes@.len(),
            solver.start_index() == start_node_index,
            solver.end_index() == end_node_index,
            solver.iteration_budget() == max_iterations,
            solver.method() == search_method,
    {
        let count = nodes.len();
        let mut costs: Vec<u64> = Vec::new();
        let mut previous_indices: Vec<u32> = Vec::new();
        let mut previous_distances: Vec<u32> = Vec::new();
        let mut connection_lens: Vec<u16> = Vec::new();
        let mut i: usize = 0;
        while i < count
            invariant
                i <= count,
                costs@.len() == i,
                previous_indices@.len() == i,
                previous_distances@.len() == i,
                connection_lens@.len() == i,
            decreases count - i,
        {
            costs.push(u64::MAX);
            previous_indices.push(u32::MAX);
            previous_distances.push(0);
            connection_lens.push(0);
            i = i + 1;
        }
        let mut solver = Solver {
            heap: radix_new(),
            backup_heap: radix_new(),
            path: None,
            start_node: start_node_index as u32,
            end_node: end_node_index as u32,
            current_iteration: 0,
            total_iterations: 0,
            costs,
            previous_indices,
            previous_distances,
            connection_lens,
            max_iterations,
            search_method,
        };
        solver.start();
        solver
    }

    /// Begins the search anew: the same as `reset`.
    pub fn start(&mut self)
        requires
            old(self).sized(),
        ensures
            final(self).is_fresh(),
            final(self).node_count() == old(self).node_count(),
            final(self).start_index() == old(self).start_index(),
            final(self).end_index() == old(self).end_index(),
            final(self).iteration_budget() == old(self).iteration_budget(),
            final(self).method() == old(self).method(),
    {
        self.reset();
    }

    /// Forgets everything that was reached: every cost becomes `UNREACHED`,
    /// every predecessor `NO_PREVIOUS`, every hop count and edge length 0,
    /// both queues are emptied and the route is dropped. Then the start gets
    /// cost 0 and is queued at key `MAX_TIME`.
    pub fn reset(&mut self)
        requires
            old(self).sized(),
        ensures
            final(self).is_fresh(),
            final(self).node_count() == old(self).node_count(),
            final(self).start_index() == old(self).start_index(),
            final(self).end_index() == old(self).end_index(),
            final(self).iteration_budget() == old(self).iteration_budget(),
            final(self).method() == old(self).method(),
    {
        radix_clear(&mut self.heap);
        radix_clear(&mut self.backup_heap);
        self.path = None;
        let count = self.costs.len();
        let mut i: usize = 0;
        while i < count
            invariant
                i <= count <= u32::MAX,
                self.costs@.len() == count,
                self.previous_indices@.len() == count,
                self.previous_distances@.len() == count,
                self.connection_lens@.len() == count,
                self.start_node == old(self).start_node,
                self.end_node == old(self).end_node,
                self.max_iterations == old(self).max_iterations,
                self.search_method == old(self).search_method,
                self.path is None,
                heap_entries(self.heap) == Multiset::<(u32, u32)>::empty(),
                heap_top(self.heap) is None,
                heap_entries(self.backup_heap) == Multiset::<(u32, u32)>::empty(),
                heap_top(self.backup_heap) is None,
                forall|j: int| 0 <= j < i ==> (#[trigger] self.costs@[j]) == UNREACHED,
                forall|j: int| 0 <= j < i ==> (#[trigger] self.previous_indices@[j]) == NO_PREVIOUS,
                forall|j: int| 0 <= j < i ==> (#[trigger] self.previous_distances@[j]) == 0,
                forall|j: int| 0 <= j < i ==> (#[trigger] self.connection_lens@[j]) == 0,
            decreases count - i,
        {
            self.reset_index(i as u32);
            self.previous_distances[i] = 0;
            i = i + 1;
        }
        self.current_iteration = 0;
        self.total_iterations = 0;
        radix_push(&mut self.heap, MAX_TIME, self.start_node);
        let start = self.start_node as usize;
        self.costs[start] = 0;
    }

    fn reset_index(&mut self, index: u32)
        requires
            index < old(self).costs@.len(),
            old(self).previous_indices@.len() == old(self).costs@.len(),
            old(self).connection_lens@.len() == old(self).costs@.len(),
        ensures
            final(self).costs@ == old(self).costs@.update(index as int, UNREACHED),
            final(self).previous_indices@ == old(self).previous_indices@.update(
                index as int,
                NO_PREVIOUS,
            ),
            final(self).connection_lens@ == old(self).connection_lens@.update(index as int, 0u16),
            final(self).previous_distances == old(self).previous_distances,
            final(self).start_node == old(self).start_node,
            final(self).end_node == old(self).end_node,
            final(self).max_iterations == old(self).max_iterations,
            final(self).search_method == old(self).search_method,
            final(self).path == old(self).path,
            final(self).heap == old(self).heap,
            final(self).backup_heap == old(self).backup_heap,
            final(self).current_iteration == old(self).current_iteration,
            final(self).total_iterations == old(self).total_iterations,
    {
        let i = index as usize;
        self.costs[i] = u64::MAX;
        self.previous_indices[i] = u32::MAX;
        self.connection_lens[i] = 0;
    }

    /// The number of edges on the best known route to `index`.
    pub fn get_connection_len(&self, index: u32) -> (len: u16)
        requires
            self.sized(),
            index < self.node_count(),
        ensures
            len == self.lens()[index as int],
    {
        self.connection_lens[index as usize]
    }

    /// The best known cost of `index`.
    pub fn get_cost(&self, index: u32) -> (cost: u64)
        requires
            index < self.node_count(),
        ensures
            cost == self.costs()[index as int],
    {
        self.costs[index as usize]
    }

    /// Whether `index` is known to cost less than `new_cost`.
    pub fn is_lower_cost(&self, index: u32, new_cost: u64) -> (lower: bool)
        requires
            index < self.node_count(),
        ensures
            lower == (self.costs()[index as int] < new_cost),
    {
        self.get_cost(index) < new_cost
    }

    /// Whether the search has reached `index`.
    pub fn has_visited(&self, index: u32) -> (visited: bool)
        requires
            index < self.node_count(),
        ensures
            visited == (self.costs()[index as int] != UNREACHED),
    {
        self.costs[index as usize] != u64::MAX
    }

    /// The predecessor of `index` on its best known route.
    pub fn get_previous(&self, index: u32) -> (previous: u32)
        requires
            self.sized(),
            index < self.node_count(),
        ensures
            previous == self.previous()[index as int],
    {
        self.previous_indices[index as usize]
    }

    /// Sets the number of steps that one batch may take.
    pub fn update_search_speed(&mut self, new_speed: u32)
        ensures
            final(self).iteration_budget() == new_speed,
            final(self).costs() == old(self).costs(),
            final(self).previous() == old(self).previous(),
            final(self).distances() == old(self).distances(),
            final(self).lens() == old(self).lens(),
            final(self).start_index() == old(self).start_index(),
            final(self).end_index() == old(self).end_index(),
            final(self).queue() == old(self).queue(),
            final(self).queue_top() == old(self).queue_top(),
            final(self).backlog() == old(self).backlog(),
            final(self).backlog_unlimited() == old(self).backlog_unlimited(),
            final(self).found_path() == old(self).found_path(),
            final(self).iteration() == old(self).iteration(),
            final(self).iterations_done() == old(self).iterations_done(),
            final(self).method() == old(self).method(),
    {
        self.max_iterations = new_speed;
    }

    /// Begins a search between two other nodes.
    pub fn update_search(&mut self, start_node_index: u32, end_node_index: u32)
        requires
            old(self).sized(),
            start_node_index < old(self).node_count(),
            end_node_index < old(self).node_count(),
        ensures
            final(self).is_fresh(),
            final(self).node_count() == old(self).node_count(),
            final(self).start_index() == start_node_index,
            final(self).end_index() == end_node_index,
            final(self).iteration_budget() == old(self).iteration_budget(),
            final(self).method() == old(self).method(),
    {
        self.start_node = start_node_index;
        self.end_node = end_node_index;
        self.reset();
    }

    /// Start, end, budget, counters, route and method of both are the same.
    pub open spec fn same_search_as(&self, other: &Solver) -> bool {
        &&& self.start_index() == other.start_index()
        &&& self.end_index() == other.end_index()
        &&& self.iteration_budget() == other.iteration_budget()
        &&& self.iteration() == other.iteration()
        &&& self.iterations_done() == other.iterations_done()
        &&& self.found_path() == other.found_path()
        &&& self.method() == other.method()
    }

    /// Both queues of both are the same.
    pub open spec fn same_queues_as(&self, other: &Solver) -> bool {
        &&& self.queue() == other.queue()
        &&& self.queue_top() == other.queue_top()
        &&& self.backlog() == other.backlog()
        &&& self.backlog_unlimited() == other.backlog_unlimited()
    }

    /// The four tables of both are the same.
    pub open spec fn same_tables_as(&self, other: &Solver) -> bool {
        &&& self.costs() == other.costs()
        &&& self.previous() == other.previous()
        &&& self.distances() == other.distances()
        &&& self.lens() == other.lens()
    }

    /// Records a cheaper way to `index_source`, if `new_cost` is one: its
    /// cost, its predecessor, the number of edges and the length of the last
    /// edge. Returns whether it was cheaper.
    pub fn check_updated_and_save(
        &mut self,
        index_source: u32,
        new_cost: u64,
        connection_cost: u32,
        previous: usize,
        length: u16,
    ) -> (updated: bool)
        requires
            old(self).sized(),
            index_source < old(self).node_count(),
            previous <= u32::MAX,
        ensures
            updated == (old(self).costs()[index_source as int] > new_cost),
            final(self).same_search_as(old(self)),
            final(self).same_queues_as(old(self)),
            !updated ==> final(self).same_tables_as(old(self)),
            updated ==> {
                &&& final(self).costs() == old(self).costs().update(index_source as int, new_cost)
                &&& final(self).previous() == old(self).previous().update(
                    index_source as int,
                    previous as u32,
                )
                &&& final(self).lens() == old(self).lens().update(index_source as int, length)
                &&& final(self).distances() == old(self).distances().update(
                    index_source as int,
                    connection_cost,
                )
            },
    {
        let i = index_source as usize;
        if self.costs[i] > new_cost {
            self.costs[i] = new_cost;
            self.previous_indices[i] = previous as u32;
            self.connection_lens[i] = length;
            self.previous_distances[i] = connection_cost;
            return true;
        }
        false
    }

    /// What taking one edge into account does to a search. The edge
    /// `connection` leaves `from`, costs `w`, and is looked at after a pair
    /// with key `pop_cost` was popped. If the edge is passable, stays within
    /// `MAX_COST` and gives its target a lower cost, the target's entries
    /// in the four tables are replaced, and unless the target is the end it
    /// is queued at the key of its new cost: in the primary queue if that
    /// key is at most `pop_cost`, else in the backlog. Otherwise nothing
    /// changes.
    pub open spec fn relaxation(
        before: &Solver,
        after: &Solver,
        from: u32,
        connection: Connection,
        w: int,
        pop_cost: u32,
    ) -> bool {
        let to = connection.index as int;
        let new_cost = before.costs()[from as int] + w;
        let improves = w != UNREACHED && new_cost <= MAX_COST && new_cost < before.costs()[to];
        let key = (MAX_TIME - new_cost / 1000) as u32;
        let queued = improves && to != before.end_index();
        let hops = if before.lens()[from as int] == u16::MAX {
            u16::MAX
        } else {
            (before.lens()[from as int] + 1) as u16
        };
        &&& after.same_search_as(before)
        &&& after.queue_top() == before.queue_top()
        &&& after.backlog_unlimited() == before.backlog_unlimited()
        &&& if improves {
            &&& after.costs() == before.costs().update(to, new_cost as u64)
            &&& after.previous() == before.previous().update(to, from)
            &&& after.distances() == before.distances().update(to, connection.cost)
            &&& after.lens() == before.lens().update(to, hops)
        } else {
            after.same_tables_as(before)
        }
        &&& after.queue() == if queued && key <= pop_cost {
            before.queue().insert((key, connection.index))
        } else {
            before.queue()
        }
        &&& after.backlog() == if queued && key > pop_cost {
            before.backlog().insert((key, connection.index))
        } else {
            before.backlog()
        }
    }

    /// Takes the edge number `edge` of node `from` into account, as
    /// `relaxation` says, at the weight the edge has during hour `hour`.
    pub fn relax_connection(
        &mut self,
        nodes: &Vec<Node>,
        from: u32,
        edge: usize,
        hour: u32,
        pop_cost: u32,
    ) -> (improved: bool)
        requires
            old(self).inv(nodes@),
            from < nodes@.len(),
            edge < nodes@[from as int].connections@.len(),
            hour <= 31,
            old(self).costs()[from as int] <= MAX_COST,
            old(self).queue_top() is Some ==> pop_cost <= old(self).queue_top()->0,
        ensures
            final(self).inv(nodes@),
            final(self).improves_on(old(self)),
            final(self).costs()[from as int] == old(self).costs()[from as int],
            improved == (final(self).costs() != old(self).costs()),
            improved ==> final(self).potential() < old(self).potential(),
            final(self).keeps_by_length(old(self)),
            final(self).potential() < old(self).potential()
                || (final(self).potential() == old(self).potential()
                && final(self).pending() == old(self).pending()),
            Solver::relaxation(
                old(self),
                final(self),
                from,
                nodes@[from as int].connections@[edge as int],
                weight(
                    old(self).method(),
                    nodes@[from as int].connections@[edge as int],
                    nodes@[from as int].node_type,
                    nodes@[from as int].flag,
                    hour,
                ),
                pop_cost,
            ),
            final(self).keeps_attained(old(self), nodes@),
            final(self).keeps_each_settled(old(self), nodes@),
    {
        let ghost before = *self;
        let improved = self.relax_edge(nodes, from, edge, hour, pop_cost);
        proof {
            Solver::lemma_relaxation_keeps_each_settled(
                &before,
                &*self,
                nodes@,
                from,
                edge as int,
                hour,
                pop_cost,
            );
            if before.attained(nodes@) {
                Solver::lemma_relaxation_attains(
                    &before,
                    &*self,
                    nodes@,
                    from,
                    edge as int,
                    hour,
                    pop_cost,
                );
            }
        }
        improved
    }

    /// Does what `relax_connection` does.
    fn relax_edge(
        &mut self,
        nodes: &Vec<Node>,
        from: u32,
        edge: usize,
        hour: u32,
        pop_cost: u32,
    ) -> (improved: bool)
        requires
            old(self).inv(nodes@),
            from < nodes@.len(),
            edge < nodes@[from as int].connections@.len(),
            hour <= 31,
            old(self).costs()[from as int] <= MAX_COST,
            old(self).queue_top() is Some ==> pop_cost <= old(self).queue_top()->0,
        ensures
            final(self).inv(nodes@),
            final(self).improves_on(old(self)),
            final(self).costs()[from as int] == old(self).costs()[from as int],
            improved == (final(self).costs() != old(self).costs()),
            improved ==> final(self).potential() < old(self).potential(),
            final(self).keeps_by_length(old(self)),
            final(self).potential() < old(self).potential()
                || (final(self).potential() == old(self).potential()
                && final(self).pending() == old(self).pending()),
            Solver::relaxation(
                old(self),
                final(self),
                from,
                nodes@[from as int].connections@[edge as int],
                weight(
                    old(self).method(),
                    nodes@[from as int].connections@[edge as int],
                    nodes@[from as int].node_type,
                    nodes@[from as int].flag,
                    hour,
                ),
                pop_cost,
            ),
    {
        broadcast use vstd::multiset::group_multiset_axioms;

        let node = &nodes[from as usize];
        let connection = node.connections[edge];
        let w = edge_weight(self.search_method, &connection, node.node_type, node.flag, hour);
        if w == u64::MAX {
            return false;
        }
        let local_cost = self.costs[from as usize];
        let new_cost: u64 = local_cost + w;
        if new_cost > MAX_COST {
            return false;
        }
        let len = self.connection_lens[from as usize];
        let hops: u16 = if len == u16::MAX {
            u16::MAX
        } else {
            len + 1
        };
        let to = connection.index;
        if self.check_updated_and_save(to, new_cost, connection.cost, from as usize, hops) {
            proof {
                lemma_potential_update(old(self).costs(), to as int, new_cost);
                assert(has_edge(nodes@, from as int, to as int, connection.cost as int));
                assert forall|v: int|
                    0 <= v < self.node_count() && (#[trigger] self.previous()[v])
                        != NO_PREVIOUS implies {
                    &&& self.costs()[v] <= MAX_COST
                    &&& self.costs()[self.previous()[v] as int] <= self.costs()[v]
                    &&& has_edge(nodes@, self.previous()[v] as int, v, self.distances()[v] as int)
                } by {
                    if v != to {
                        assert(old(self).previous()[v] != NO_PREVIOUS);
                    }
                }
                assert forall|v: int|
                    0 <= v < self.node_count() && v != self.start_index() && (
                    #[trigger] self.costs()[v]) != UNREACHED implies self.previous()[v]
                    != NO_PREVIOUS by {
                    if v != to {
                        assert(old(self).costs()[v] != UNREACHED);
                    }
                }
                assert forall|i: int| 0 <= i < self.node_count() implies (
                #[trigger] self.previous()[i]) == NO_PREVIOUS || self.previous()[i]
                    < self.node_count() by {
                    if i != to {
                        assert(old(self).previous()[i] == self.previous()[i]);
                    }
                }
                assert forall|i: int| 0 <= i < self.node_count() implies (
                #[trigger] self.costs()[i]) == UNREACHED || self.costs()[i] <= MAX_COST by {
                    if i != to {
                        assert(old(self).costs()[i] == self.costs()[i]);
                    }
                }
                if old(self).method() == SearchMethod::SHORTEST && old(self).by_length() {
                    assert forall|v: int|
                        0 <= v < self.node_count() && (#[trigger] self.previous()[v])
                            != NO_PREVIOUS implies self.costs()[v] >= self.costs()[self.previous()[v] as int]
                        + 60 * self.distances()[v] by {
                        if v != to {
                            assert(old(self).previous()[v] != NO_PREVIOUS);
                        }
                    }
                }
            }
            if to != self.end_node {
                let key: u32 = MAX_TIME - (new_cost / 1000) as u32;
                let ghost saved = *self;
                if key <= pop_cost {
                    radix_push(&mut self.heap, key, to);
                } else {
                    radix_push(&mut self.backup_heap, key, to);
                }
                proof {
                    assert forall|entry: (u32, u32)| #[trigger]
                        self.queue().contains(entry) implies entry.1 < self.node_count()
                        && entry.0 <= MAX_TIME by {
                        if entry != (key, to) {
                            assert(saved.queue().contains(entry));
                        }
                    }
                    assert forall|entry: (u32, u32)| #[trigger]
                        self.backlog().contains(entry) implies entry.1 < self.node_count()
                        && entry.0 <= MAX_TIME by {
                        if entry != (key, to) {
                            assert(saved.backlog().contains(entry));
                        }
                    }
                }
            }
            true
        } else {
            false
        }
    }

    /// Moves the backlog into the primary queue. If the backlog holds
    /// anything, the primary queue is rebuilt from the pairs of both and
    /// accepts every key again.
    pub fn merge(&mut self)
        requires
            old(self).wf(),
        ensures
            final(self).wf(),
            final(self).same_search_as(old(self)),
            final(self).same_tables_as(old(self)),
            final(self).queue() == old(self).queue().add(old(self).backlog()),
            final(self).backlog() == Multiset::<(u32, u32)>::empty(),
            final(self).queue_top() == if old(self).backlog().len() == 0 {
                old(self).queue_top()
            } else {
                None
            },
    {
        broadcast use vstd::multiset::group_multiset_axioms;
        broadcast use vstd::seq_lib::group_to_multiset_ensures;

        if !radix_is_empty(&self.backup_heap) {
            let mut fresh = radix_new();
            let left_over = radix_entries(&self.heap);
            let bad = radix_entries(&self.backup_heap);
            let mut i: usize = 0;
            proof {
                assert(left_over@.subrange(0, 0).to_multiset() =~= Multiset::<(u32, u32)>::empty());
            }
            while i < left_over.len()
                invariant
                    i <= left_over@.len(),
                    heap_top(fresh) is None,
                    heap_entries(fresh) == left_over@.subrange(0, i as int).to_multiset(),
                decreases left_over@.len() - i,
            {
                let (key, value) = left_over[i];
                proof {
                    assert(left_over@.subrange(0, i + 1) == left_over@.subrange(0, i as int).push(
                        (key, value),
                    ));
                    vstd::seq_lib::to_multiset_build(
                        left_over@.subrange(0, i as int),
                        (key, value),
                    );
                }
                radix_push(&mut fresh, key, value);
                i = i + 1;
            }
            proof {
                assert(left_over@.subrange(0, i as int) == left_over@);
                assert(bad@.subrange(0, 0).to_multiset() =~= Multiset::<(u32, u32)>::empty());
                assert(heap_entries(fresh) =~= left_over@.to_multiset().add(
                    bad@.subrange(0, 0).to_multiset(),
                ));
            }
            let mut j: usize = 0;
            while j < bad.len()
                invariant
                    j <= bad@.len(),
                    heap_top(fresh) is None,
                    heap_entries(fresh) == left_over@.to_multiset().add(
                        bad@.subrange(0, j as int).to_multiset(),
                    ),
                decreases bad@.len() - j,
            {
                let (key, value) = bad[j];
                proof {
                    assert(bad@.subrange(0, j + 1) == bad@.subrange(0, j as int).push(
                        (key, value),
                    ));
                    vstd::seq_lib::to_multiset_build(bad@.subrange(0, j as int), (key, value));
                    assert(left_over@.to_multiset().add(
                        bad@.subrange(0, j as int).to_multiset().insert((key, value)),
                    ) =~= left_over@.to_multiset().add(
                        bad@.subrange(0, j as int).to_multiset(),
                    ).insert((key, value)));
                }
                radix_push(&mut fresh, key, value);
                j = j + 1;
            }
            proof {
                assert(bad@.subrange(0, j as int) == bad@);
            }
            self.heap = fresh;
            radix_clear(&mut self.backup_heap);
            proof {
                assert forall|entry: (u32, u32)| #[trigger]
                    self.queue().contains(entry) implies entry.1 < self.node_count() && entry.0
                    <= MAX_TIME by {
                    assert(old(self).queue().contains(entry) || old(self).backlog().contains(
                        entry,
                    ));
                }
            }
        } else {
            proof {
                assert(self.queue().add(self.backlog()) =~= self.queue());
                assert(self.backlog() =~= Multiset::<(u32, u32)>::empty());
            }
        }
    }

    /// The sum of all costs, each capped at `MAX_COST + 1`. It falls
    /// whenever a node gets a lower cost.
    pub open spec fn potential(&self) -> int {
        potential_of(self.costs())
    }

    /// The number of pairs that wait in the two queues.
    pub open spec fn pending(&self) -> nat {
        self.queue().len() + self.backlog().len()
    }

    /// `self` is no farther from the end of the search than `other`: its
    /// potential is lower, or the same with no more pairs waiting.
    pub open spec fn not_behind(&self, other: &Solver) -> bool {
        self.potential() < other.potential() || (self.potential() == other.potential()
            && self.pending() <= other.pending())
    }

    /// `self` is nearer to the end of the search than `other`: its
    /// potential is lower, or the same with fewer pairs waiting.
    pub open spec fn ahead_of(&self, other: &Solver) -> bool {
        self.potential() < other.potential() || (self.potential() == other.potential()
            && self.pending() < other.pending())
    }

    /// Whether the pair of `key` and `node` waits in one of the two queues.
    pub open spec fn waiting_at(&self, key: u32, node: u32) -> bool {
        self.queue().contains((key, node)) || self.backlog().contains((key, node))
    }

    /// Whether `node` waits in one of the two queues, at whatever key.
    pub open spec fn waits(&self, node: int) -> bool {
        exists|key: u32| #[trigger] self.waiting_at(key, node as u32)
    }

    /// Whether the edge number `edge` of `from` offers nothing better to its
    /// target, for a search run `minute` minutes past the hour: the edge is
    /// impassable, or leads beyond `MAX_COST`, or its target costs no more
    /// than `from` and the edge together.
    pub open spec fn edge_relaxed(&self, nodes: Seq<Node>, minute: u32, from: int, edge: int) -> bool {
        let connection = nodes[from].connections@[edge];
        let w = weight(
            self.method(),
            connection,
            nodes[from].node_type,
            nodes[from].flag,
            hour_at(minute, self.costs()[from]) as u32,
        );
        w == UNREACHED || self.costs()[from] + w > MAX_COST || self.costs()[connection.index as int]
            <= self.costs()[from] + w
    }

    /// Whether nothing is left to do for `node`: it is not reached, or it is
    /// the end, or it waits in a queue, or the end costs no more than it, or
    /// none of its edges offers anything better.
    pub open spec fn node_settled(&self, nodes: Seq<Node>, minute: u32, node: int) -> bool {
        ||| self.costs()[node] == UNREACHED
        ||| node == self.end_index()
        ||| self.waits(node)
        ||| self.costs()[self.end_index() as int] <= self.costs()[node]
        ||| forall|edge: int|
            0 <= edge < nodes[node].connections@.len() ==> #[trigger] self.edge_relaxed(
                nodes,
                minute,
                node,
                edge,
            )
    }

    /// Whether nothing is left to do for any node but those that wait in a
    /// queue. A search that keeps its method, on a graph that keeps its types
    /// and flags, run at one minute of the hour, is settled between any two
    /// steps.
    pub open spec fn settled(&self, nodes: Seq<Node>, minute: u32) -> bool {
        forall|node: int|
            0 <= node < self.node_count() ==> #[trigger] self.node_settled(nodes, minute, node)
    }

    /// Whether every reached node can be walked to from the start at no
    /// more than it costs: along a route whose edges, each at the least it
    /// costs at any hour, cost no more than the node.
    pub open spec fn has_ways(&self, nodes: Seq<Node>) -> bool {
        forall|v: int|
            0 <= v < self.node_count() && (#[trigger] self.costs()[v]) != UNREACHED ==> exists|
                path: Seq<u32>,
                edges: Seq<int>,
            |
                #[trigger] is_way(
                    nodes,
                    self.method(),
                    self.start_index(),
                    v,
                    self.costs()[v] as int,
                    path,
                    edges,
                )
    }

    /// Whether the edge number `edge` of the predecessor of `node` is one
    /// by which `node` may have been reached: it leads to `node`, has the
    /// recorded length, and `node` costs at least what the predecessor and
    /// the edge cost; and if it costs exactly that, `node` is one hop
    /// farther than its predecessor.
    pub open spec fn tight_edge(&self, nodes: Seq<Node>, node: int, edge: int) -> bool {
        let from = self.previous()[node] as int;
        &&& 0 <= edge < nodes[from].connections@.len()
        &&& nodes[from].connections@[edge].index == node
        &&& nodes[from].connections@[edge].cost == self.distances()[node]
        &&& self.costs()[node] >= self.costs()[from] + edge_floor(nodes, self.method(), from, edge)
        &&& (self.costs()[node] == self.costs()[from] + edge_floor(
            nodes,
            self.method(),
            from,
            edge,
        ) ==> self.lens()[node] == next_hop(self.lens()[from]))
    }

    /// Whether hop counts and costs follow the predecessors: every node
    /// with a predecessor has a tight edge from it, and a node without
    /// predecessor has no hops.
    pub open spec fn in_step(&self, nodes: Seq<Node>) -> bool {
        &&& forall|v: int|
            0 <= v < self.node_count() && (#[trigger] self.previous()[v]) != NO_PREVIOUS
                ==> exists|edge: int| #[trigger] self.tight_edge(nodes, v, edge)
        &&& forall|v: int|
            0 <= v < self.node_count() && self.previous()[v] == NO_PREVIOUS ==> (
            #[trigger] self.lens()[v]) == 0
    }

    /// Whether the search has accounted for what it reached: every reached
    /// node can be walked to at no more than it costs, and hop counts and
    /// costs follow the predecessors. So it is in a search that has kept
    /// its method, over a graph that has kept its types and flags, since it
    /// began.
    pub open spec fn attained(&self, nodes: Seq<Node>) -> bool {
        self.has_ways(nodes) && self.in_step(nodes)
    }

    /// Whether `self` still has every reached node attained if `before`
    /// had.
    pub open spec fn keeps_attained(&self, before: &Solver, nodes: Seq<Node>) -> bool {
        before.attained(nodes) ==> self.attained(nodes)
    }

    /// Whether `self` is still settled at midnight sharp if `before` was
    /// and the time of day decides nothing.
    pub open spec fn keeps_settled_if_steady(&self, before: &Solver, nodes: Seq<Node>) -> bool {
        steady(nodes, before.method()) && before.settled(nodes, 0) ==> self.settled(nodes, 0)
    }

    /// Whether `self` is still settled at `minute` minutes past the hour if
    /// `before` was.
    pub open spec fn keeps_settled_at(&self, before: &Solver, nodes: Seq<Node>, minute: u32) -> bool {
        before.settled(nodes, minute) ==> self.settled(nodes, minute)
    }

    /// Whether there is a minute of the hour at which `self` is still
    /// settled if `before` was.
    pub open spec fn keeps_settled_at_a_minute(&self, before: &Solver, nodes: Seq<Node>) -> bool {
        exists|minute: u32| minute < 60 && #[trigger] self.keeps_settled_at(before, nodes, minute)
    }

    /// What a step at one minute of the hour keeps, it keeps at some minute;
    /// and at midnight sharp too, where the time of day decides nothing.
    pub proof fn lemma_kept_whatever_the_minute(
        &self,
        before: &Solver,
        nodes: Seq<Node>,
        minute: u32,
    )
        requires
            before.inv(nodes),
            self.inv(nodes),
            self.method() == before.method(),
            minute < 60,
            self.keeps_settled_at(before, nodes, minute),
        ensures
            self.keeps_settled_at_a_minute(before, nodes),
            self.keeps_settled_if_steady(before, nodes),
    {
        if steady(nodes, before.method()) && before.settled(nodes, 0) {
            before.lemma_settled_at_any_minute(nodes, 0, minute);
            self.lemma_settled_at_any_minute(nodes, minute, 0);
        }
    }

    /// A fresh search has attained what it has reached: the start, by the
    /// route without edges.
    pub proof fn lemma_fresh_attained(&self, nodes: Seq<Node>)
        requires
            self.is_fresh(),
        ensures
            self.attained(nodes),
    {
        assert forall|v: int|
            0 <= v < self.node_count() && (#[trigger] self.costs()[v]) != UNREACHED implies exists|
            path: Seq<u32>,
            edges: Seq<int>,
        |
            #[trigger] is_way(
                nodes,
                self.method(),
                self.start_index(),
                v,
                self.costs()[v] as int,
                path,
                edges,
            ) by {
            assert(v == self.start_index());
            let path = seq![self.start_index()];
            let edges = Seq::<int>::empty();
            assert(is_way(nodes, self.method(), self.start_index(), v, 0, path, edges));
        }
    }

    /// Two searches with the same costs, start and method have attained
    /// alike.
    pub proof fn lemma_attained_of_same_state(&self, other: &Solver, nodes: Seq<Node>)
        requires
            other.attained(nodes),
            self.same_tables_as(other),
            self.start_index() == other.start_index(),
            self.method() == other.method(),
        ensures
            self.attained(nodes),
    {
        assert forall|v: int|
            0 <= v < self.node_count() && (#[trigger] self.previous()[v])
                != NO_PREVIOUS implies exists|edge: int| #[trigger] self.tight_edge(nodes, v, edge) by {
            assert(other.previous()[v] != NO_PREVIOUS);
            let edge = choose|edge: int| #[trigger] other.tight_edge(nodes, v, edge);
            assert(self.tight_edge(nodes, v, edge));
        }
        assert forall|v: int|
            0 <= v < self.node_count() && (#[trigger] self.costs()[v]) != UNREACHED implies exists|
            path: Seq<u32>,
            edges: Seq<int>,
        |
            #[trigger] is_way(
                nodes,
                self.method(),
                self.start_index(),
                v,
                self.costs()[v] as int,
                path,
                edges,
            ) by {
            assert(other.costs()[v] != UNREACHED);
        }
    }

    /// What `relaxation` does for the attained: the target of the edge, if
    /// it gets a new cost, can be walked to along the route to the node of
    /// the edge and the edge; every other node keeps its route.
    pub proof fn lemma_relaxation_attains(
        before: &Solver,
        after: &Solver,
        nodes: Seq<Node>,
        from: u32,
        edge: int,
        hour: u32,
        pop_cost: u32,
    )
        requires
            before.inv(nodes),
            before.attained(nodes),
            from < nodes.len(),
            0 <= edge < nodes[from as int].connections@.len(),
            before.costs()[from as int] <= MAX_COST,
            hour <= 31,
            Solver::relaxation(
                before,
                after,
                from,
                nodes[from as int].connections@[edge],
                weight(
                    before.method(),
                    nodes[from as int].connections@[edge],
                    nodes[from as int].node_type,
                    nodes[from as int].flag,
                    hour,
                ),
                pop_cost,
            ),
        ensures
            after.attained(nodes),
    {
        let connection = nodes[from as int].connections@[edge];
        let to = connection.index as int;
        let w = weight(
            before.method(),
            connection,
            nodes[from as int].node_type,
            nodes[from as int].flag,
            hour,
        );
        let new_cost = before.costs()[from as int] + w;
        let improves = w != UNREACHED && new_cost <= MAX_COST && new_cost < before.costs()[to];
        lemma_floor_weight(
            before.method(),
            connection,
            nodes[from as int].node_type,
            nodes[from as int].flag,
            hour,
        );
        assert forall|v: int|
            0 <= v < after.node_count()
                && (#[trigger] after.costs()[v]) != UNREACHED implies exists|
            path: Seq<u32>,
            edges: Seq<int>,
        |
            #[trigger] is_way(
                nodes,
                after.method(),
                after.start_index(),
                v,
                after.costs()[v] as int,
                path,
                edges,
            ) by {
            if improves && v == to {
                assert(before.costs()[from as int] != UNREACHED);
                let (path, edges) = choose|path: Seq<u32>, edges: Seq<int>|
                    #[trigger] is_way(
                        nodes,
                        before.method(),
                        before.start_index(),
                        from as int,
                        before.costs()[from as int] as int,
                        path,
                        edges,
                    );
                lemma_route_extended(nodes, before.method(), path, edges, edge);
                let longer_path = path.push(connection.index);
                let longer_edges = edges.push(edge);
                assert(longer_path[0] == path[0]);
                assert(is_way(
                    nodes,
                    after.method(),
                    after.start_index(),
                    v,
                    after.costs()[v] as int,
                    longer_path,
                    longer_edges,
                ));
            } else {
                assert(before.costs()[v] == after.costs()[v]);
            }
        }
        Solver::lemma_weight_not_negative(
            before.method(),
            connection,
            nodes[from as int].node_type,
            nodes[from as int].flag,
            hour,
        );
        assert forall|v: int|
            0 <= v < after.node_count() && (#[trigger] after.previous()[v])
                != NO_PREVIOUS implies exists|other: int| #[trigger] after.tight_edge(
            nodes,
            v,
            other,
        ) by {
            if improves && v == to {
                assert(after.tight_edge(nodes, v, edge));
            } else {
                assert(before.previous()[v] != NO_PREVIOUS);
                let other = choose|other: int| #[trigger] before.tight_edge(nodes, v, other);
                assert(after.tight_edge(nodes, v, other));
            }
        }
        assert forall|v: int|
            0 <= v < after.node_count() && after.previous()[v] == NO_PREVIOUS implies (
        #[trigger] after.lens()[v]) == 0 by {
            if !(improves && v == to) {
                assert(before.previous()[v] == NO_PREVIOUS);
                assert(before.lens()[v] == 0);
            }
        }
    }

    /// Where the time of day decides nothing, a search that is settled at
    /// one minute of the hour is settled at every minute.
    pub proof fn lemma_settled_at_any_minute(&self, nodes: Seq<Node>, minute: u32, other: u32)
        requires
            self.inv(nodes),
            steady(nodes, self.method()),
            minute < 60,
            other < 60,
            self.settled(nodes, minute),
        ensures
            self.settled(nodes, other),
    {
        assert forall|node: int| 0 <= node < self.node_count() implies #[trigger] self.node_settled(
            nodes,
            other,
            node,
        ) by {
            assert(self.node_settled(nodes, minute, node));
            if self.waits(node) {
            } else if self.costs()[node] != UNREACHED && node != self.end_index()
                && self.costs()[self.end_index() as int] > self.costs()[node] {
                assert forall|edge: int|
                    0 <= edge < nodes[node].connections@.len() implies #[trigger] self.edge_relaxed(
                    nodes,
                    other,
                    node,
                    edge,
                ) by {
                    assert(self.edge_relaxed(nodes, minute, node, edge));
                    let from = nodes[node];
                    assert(is_steady_node(from) || self.method() == SearchMethod::SHORTEST);
                    assert(self.costs()[node] <= MAX_COST);
                    lemma_floor_weight(
                        self.method(),
                        from.connections@[edge],
                        from.node_type,
                        from.flag,
                        hour_at(minute, self.costs()[node]) as u32,
                    );
                    lemma_floor_weight(
                        self.method(),
                        from.connections@[edge],
                        from.node_type,
                        from.flag,
                        hour_at(other, self.costs()[node]) as u32,
                    );
                }
            }
        }
    }

    /// Whether every reached node costs at least what its predecessor costs
    /// and sixty times the length of the edge between them: so it is while
    /// a search minimises length, where a metre costs sixty milliseconds.
    pub open spec fn by_length(&self) -> bool {
        forall|v: int|
            0 <= v < self.node_count() && (#[trigger] self.previous()[v]) != NO_PREVIOUS
                ==> self.costs()[v] >= self.costs()[self.previous()[v] as int] + 60
                * self.distances()[v]
    }

    /// Whether `self` still counts by length if `other` did and minimises
    /// length.
    pub open spec fn keeps_by_length(&self, other: &Solver) -> bool {
        other.method() == SearchMethod::SHORTEST && other.by_length() ==> self.by_length()
    }

    /// A fresh search is settled: only the start is reached, and it waits.
    pub proof fn lemma_fresh_settled(&self, nodes: Seq<Node>, minute: u32)
        requires
            self.is_fresh(),
        ensures
            self.settled(nodes, minute),
    {
        broadcast use vstd::multiset::group_multiset_axioms;

        assert forall|node: int| 0 <= node < self.node_count() implies #[trigger] self.node_settled(
            nodes,
            minute,
            node,
        ) by {
            if node == self.start_index() {
                assert(self.waiting_at(MAX_TIME, node as u32));
            }
        }
    }

    /// Two searches with the same tables, queue contents, end and method
    /// are settled alike.
    pub proof fn lemma_settled_of_same_state(&self, other: &Solver, nodes: Seq<Node>, minute: u32)
        requires
            other.settled(nodes, minute),
            self.same_tables_as(other),
            self.queue() == other.queue(),
            self.backlog() == other.backlog(),
            self.end_index() == other.end_index(),
            self.method() == other.method(),
        ensures
            self.settled(nodes, minute),
    {
        assert forall|node: int| 0 <= node < self.node_count() implies #[trigger] self.node_settled(
            nodes,
            minute,
            node,
        ) by {
            assert(other.node_settled(nodes, minute, node));
            if other.waits(node) {
                let key = choose|key: u32| #[trigger] other.waiting_at(key, node as u32);
                assert(self.waiting_at(key, node as u32));
            } else if self.costs()[node] != UNREACHED && node != self.end_index()
                && self.costs()[self.end_index() as int] > self.costs()[node] {
                assert forall|edge: int|
                    0 <= edge < nodes[node].connections@.len() implies #[trigger] self.edge_relaxed(
                    nodes,
                    minute,
                    node,
                    edge,
                ) by {
                    assert(other.edge_relaxed(nodes, minute, node, edge));
                }
            }
        }
    }

    /// Taking a pair out of the primary queue leaves every node settled that
    /// was, but perhaps the node of the pair.
    pub proof fn lemma_pop_keeps_settled(
        &self,
        before: &Solver,
        nodes: Seq<Node>,
        minute: u32,
        key: u32,
        popped: u32,
        node: int,
    )
        requires
            before.node_settled(nodes, minute, node),
            0 <= node <= u32::MAX,
            node != popped,
            self.same_tables_as(before),
            self.queue() == before.queue().remove((key, popped)),
            self.backlog() == before.backlog(),
            self.end_index() == before.end_index(),
            self.method() == before.method(),
        ensures
            self.node_settled(nodes, minute, node),
    {
        broadcast use vstd::multiset::group_multiset_axioms;

        if before.waits(node) {
            let k = choose|k: u32| #[trigger] before.waiting_at(k, node as u32);
            assert(self.waiting_at(k, node as u32));
        } else if self.costs()[node] != UNREACHED && node != self.end_index()
            && self.costs()[self.end_index() as int] > self.costs()[node] {
            assert forall|edge: int|
                0 <= edge < nodes[node].connections@.len() implies #[trigger] self.edge_relaxed(
                nodes,
                minute,
                node,
                edge,
            ) by {
                assert(before.edge_relaxed(nodes, minute, node, edge));
            }
        }
    }

    /// Merging the backlog into the primary queue leaves a settled search
    /// settled.
    pub proof fn lemma_merge_keeps_settled(&self, before: &Solver, nodes: Seq<Node>, minute: u32)
        requires
            before.settled(nodes, minute),
            self.same_tables_as(before),
            self.queue() == before.queue().add(before.backlog()),
            self.end_index() == before.end_index(),
            self.method() == before.method(),
        ensures
            self.settled(nodes, minute),
    {
        broadcast use vstd::multiset::group_multiset_axioms;

        assert forall|node: int| 0 <= node < self.node_count() implies #[trigger] self.node_settled(
            nodes,
            minute,
            node,
        ) by {
            assert(before.node_settled(nodes, minute, node));
            if before.waits(node) {
                let k = choose|k: u32| #[trigger] before.waiting_at(k, node as u32);
                assert(self.waiting_at(k, node as u32));
            } else if self.costs()[node] != UNREACHED && node != self.end_index()
                && self.costs()[self.end_index() as int] > self.costs()[node] {
                assert forall|edge: int|
                    0 <= edge < nodes[node].connections@.len() implies #[trigger] self.edge_relaxed(
                    nodes,
                    minute,
                    node,
                    edge,
                ) by {
                    assert(before.edge_relaxed(nodes, minute, node, edge));
                }
            }
        }
    }

    /// What `relaxation` does for the settled: the edge that was looked at
    /// offers nothing better afterwards; the edges of its node that offered
    /// nothing better still do not; and every other node that was settled
    /// still is.
    pub proof fn lemma_relaxation_settles(
        before: &Solver,
        after: &Solver,
        nodes: Seq<Node>,
        minute: u32,
        from: u32,
        edge: int,
        pop_cost: u32,
    )
        requires
            before.inv(nodes),
            after.inv(nodes),
            from < nodes.len(),
            0 <= edge < nodes[from as int].connections@.len(),
            before.costs()[from as int] <= MAX_COST,
            minute < 60,
            Solver::relaxation(
                before,
                after,
                from,
                nodes[from as int].connections@[edge],
                weight(
                    before.method(),
                    nodes[from as int].connections@[edge],
                    nodes[from as int].node_type,
                    nodes[from as int].flag,
                    hour_at(minute, before.costs()[from as int]) as u32,
                ),
                pop_cost,
            ),
        ensures
            after.edge_relaxed(nodes, minute, from as int, edge),
            forall|other: int|
                0 <= other < nodes[from as int].connections@.len()
                    && #[trigger] before.edge_relaxed(
                    nodes,
                    minute,
                    from as int,
                    other,
                ) ==> after.edge_relaxed(nodes, minute, from as int, other),
            forall|node: int|
                0 <= node < nodes.len() && #[trigger] before.node_settled(nodes, minute, node)
                    ==> after.node_settled(nodes, minute, node),
    {
        broadcast use vstd::multiset::group_multiset_axioms;

        let connection = nodes[from as int].connections@[edge];
        let to = connection.index as int;
        let w = weight(
            before.method(),
            connection,
            nodes[from as int].node_type,
            nodes[from as int].flag,
            hour_at(minute, before.costs()[from as int]) as u32,
        );
        let new_cost = before.costs()[from as int] + w;
        let improves = w != UNREACHED && new_cost <= MAX_COST && new_cost < before.costs()[to];
        let key = (MAX_TIME - new_cost / 1000) as u32;
        Solver::lemma_weight_not_negative(
            before.method(),
            connection,
            nodes[from as int].node_type,
            nodes[from as int].flag,
            hour_at(minute, before.costs()[from as int]) as u32,
        );
        assert(to != from || !improves);
        assert(after.costs()[from as int] == before.costs()[from as int]);
        assert forall|i: int| 0 <= i < nodes.len() implies after.costs()[i] <= before.costs()[i] by {
            if improves && i == to {
            }
        }
        assert forall|other: int|
            0 <= other < nodes[from as int].connections@.len() && #[trigger] before.edge_relaxed(
                nodes,
                minute,
                from as int,
                other,
            ) implies after.edge_relaxed(nodes, minute, from as int, other) by {
            let target = nodes[from as int].connections@[other].index as int;
            assert(after.costs()[target] <= before.costs()[target]);
        }
        assert forall|node: int|
            0 <= node < nodes.len() && #[trigger] before.node_settled(
                nodes,
                minute,
                node,
            ) implies after.node_settled(nodes, minute, node) by {
            if improves && node == to {
                if to != before.end_index() {
                    assert(after.waiting_at(key, node as u32));
                }
            } else {
                assert(after.costs()[node] == before.costs()[node]);
                if before.waits(node) {
                    let k = choose|k: u32| #[trigger] before.waiting_at(k, node as u32);
                    assert(after.waiting_at(k, node as u32));
                } else if before.costs()[node] != UNREACHED && node != before.end_index()
                    && !(before.costs()[before.end_index() as int] <= before.costs()[node]) {
                    assert forall|other: int|
                        0 <= other < nodes[node].connections@.len() implies #[trigger] after.edge_relaxed(
                        nodes,
                        minute,
                        node,
                        other,
                    ) by {
                        assert(before.edge_relaxed(nodes, minute, node, other));
                        let target = nodes[node].connections@[other].index as int;
                        assert(after.costs()[target] <= before.costs()[target]);
                    }
                } else {
                    assert(after.costs()[after.end_index() as int]
                        <= before .costs()[before.end_index() as int]);
                }
            }
        }
    }

    /// Whether there is a minute of the hour at which nothing is left to
    /// do for `node`.
    pub open spec fn settled_at_some_minute(&self, nodes: Seq<Node>, node: int) -> bool {
        exists|minute: u32| minute < 60 && #[trigger] self.node_settled(nodes, minute, node)
    }

    /// Whether every node for which nothing was left to do in `before`, at
    /// some minute of the hour, is still such a node, at some minute of the
    /// hour. So it is whatever the clock gave while the search ran; in
    /// particular, if every node was such a node, every node still is.
    pub open spec fn keeps_each_settled(&self, before: &Solver, nodes: Seq<Node>) -> bool {
        forall|node: int|
            0 <= node < self.node_count() && #[trigger] before.settled_at_some_minute(nodes, node)
                ==> self.settled_at_some_minute(nodes, node)
    }

    /// Two searches with the same tables, queue contents, end and method
    /// have the same nodes for which nothing is left to do.
    pub proof fn lemma_node_settled_of_same_state(
        &self,
        other: &Solver,
        nodes: Seq<Node>,
        minute: u32,
        node: int,
    )
        requires
            other.node_settled(nodes, minute, node),
            self.same_tables_as(other),
            self.queue() == other.queue(),
            self.backlog() == other.backlog(),
            self.end_index() == other.end_index(),
            self.method() == other.method(),
        ensures
            self.node_settled(nodes, minute, node),
    {
        if other.waits(node) {
            let key = choose|key: u32| #[trigger] other.waiting_at(key, node as u32);
            assert(self.waiting_at(key, node as u32));
        } else if self.costs()[node] != UNREACHED && node != self.end_index()
            && self.costs()[self.end_index() as int] > self.costs()[node] {
            assert forall|edge: int|
                0 <= edge < nodes[node].connections@.len() implies #[trigger] self.edge_relaxed(
                nodes,
                minute,
                node,
                edge,
            ) by {
                assert(other.edge_relaxed(nodes, minute, node, edge));
            }
        }
    }

    /// Two searches with the same tables, queue contents, end and method:
    /// the one keeps each node settled that the other has.
    pub proof fn lemma_each_settled_of_same_state(&self, other: &Solver, nodes: Seq<Node>)
        requires
            self.same_tables_as(other),
            self.queue() == other.queue(),
            self.backlog() == other.backlog(),
            self.end_index() == other.end_index(),
            self.method() == other.method(),
        ensures
            self.keeps_each_settled(other, nodes),
    {
        assert forall|node: int|
            0 <= node < self.node_count() && #[trigger] other.settled_at_some_minute(
                nodes,
                node,
            ) implies self.settled_at_some_minute(nodes, node) by {
            let minute = choose|minute: u32|
                minute < 60 && #[trigger] other.node_settled(nodes, minute, node);
            self.lemma_node_settled_of_same_state(other, nodes, minute, node);
        }
    }

    /// Merging the backlog into the primary queue keeps each node settled.
    pub proof fn lemma_merge_keeps_each_settled(&self, before: &Solver, nodes: Seq<Node>)
        requires
            self.same_tables_as(before),
            self.queue() == before.queue().add(before.backlog()),
            self.end_index() == before.end_index(),
            self.method() == before.method(),
        ensures
            self.keeps_each_settled(before, nodes),
    {
        broadcast use vstd::multiset::group_multiset_axioms;

        assert forall|node: int|
            0 <= node < self.node_count() && #[trigger] before.settled_at_some_minute(
                nodes,
                node,
            ) implies self.settled_at_some_minute(nodes, node) by {
            let minute = choose|minute: u32|
                minute < 60 && #[trigger] before.node_settled(nodes, minute, node);
            if before.waits(node) {
                let k = choose|k: u32| #[trigger] before.waiting_at(k, node as u32);
                assert(self.waiting_at(k, node as u32));
            } else if self.costs()[node] != UNREACHED && node != self.end_index()
                && self.costs()[self.end_index() as int] > self.costs()[node] {
                assert forall|edge: int|
                    0 <= edge < nodes[node].connections@.len() implies #[trigger] self.edge_relaxed(
                    nodes,
                    minute,
                    node,
                    edge,
                ) by {
                    assert(before.edge_relaxed(nodes, minute, node, edge));
                }
            }
            assert(self.node_settled(nodes, minute, node));
        }
    }

    /// Taking a pair out of the primary queue keeps each node settled but
    /// perhaps the node of the pair.
    pub proof fn lemma_pop_keeps_each_settled(
        &self,
        before: &Solver,
        nodes: Seq<Node>,
        key: u32,
        popped: u32,
    )
        requires
            self.node_count() <= u32::MAX,
            self.same_tables_as(before),
            self.queue() == before.queue().remove((key, popped)),
            self.backlog() == before.backlog(),
            self.end_index() == before.end_index(),
            self.method() == before.method(),
        ensures
            forall|node: int|
                0 <= node < self.node_count() && node != popped
                    && #[trigger] before.settled_at_some_minute(nodes, node)
                    ==> self.settled_at_some_minute(nodes, node),
    {
        assert forall|node: int|
            0 <= node < self.node_count() && node != popped
                && #[trigger] before.settled_at_some_minute(
                nodes,
                node,
            ) implies self.settled_at_some_minute(nodes, node) by {
            let minute = choose|minute: u32|
                minute < 60 && #[trigger] before.node_settled(nodes, minute, node);
            self.lemma_pop_keeps_settled(before, nodes, minute, key, popped, node);
        }
    }

    /// What `relaxation` does, at whatever hour the edge was weighed, for a
    /// node for which nothing was left to do at the minute `minute`:
    /// nothing is left to do for it at that minute still.
    pub proof fn lemma_relaxation_keeps_node(
        before: &Solver,
        after: &Solver,
        nodes: Seq<Node>,
        from: u32,
        edge: int,
        hour: u32,
        pop_cost: u32,
        minute: u32,
        node: int,
    )
        requires
            before.inv(nodes),
            after.inv(nodes),
            from < nodes.len(),
            0 <= edge < nodes[from as int].connections@.len(),
            before.costs()[from as int] <= MAX_COST,
            Solver::relaxation(
                before,
                after,
                from,
                nodes[from as int].connections@[edge],
                weight(
                    before.method(),
                    nodes[from as int].connections@[edge],
                    nodes[from as int].node_type,
                    nodes[from as int].flag,
                    hour,
                ),
                pop_cost,
            ),
            0 <= node < nodes.len(),
            before.node_settled(nodes, minute, node),
        ensures
            after.node_settled(nodes, minute, node),
    {
        broadcast use vstd::multiset::group_multiset_axioms;

        let connection = nodes[from as int].connections@[edge];
        let to = connection.index as int;
        let w = weight(
            before.method(),
            connection,
            nodes[from as int].node_type,
            nodes[from as int].flag,
            hour,
        );
        let new_cost = before.costs()[from as int] + w;
        let improves = w != UNREACHED && new_cost <= MAX_COST && new_cost < before.costs()[to];
        let key = (MAX_TIME - new_cost / 1000) as u32;
        Solver::lemma_weight_not_negative(
            before.method(),
            connection,
            nodes[from as int].node_type,
            nodes[from as int].flag,
            hour,
        );
        assert forall|i: int| 0 <= i < nodes.len() implies after.costs()[i] <= before.costs()[i] by {
            if improves && i == to {
            }
        }
        if improves && node == to {
            if to != before.end_index() {
                assert(after.waiting_at(key, node as u32));
            }
        } else {
            assert(after.costs()[node] == before.costs()[node]);
            if before.waits(node) {
                let k = choose|k: u32| #[trigger] before.waiting_at(k, node as u32);
                assert(after.waiting_at(k, node as u32));
            } else if before.costs()[node] != UNREACHED && node != before.end_index() && !(
            before.costs()[before.end_index() as int] <= before.costs()[node]) {
                assert forall|other: int|
                    0 <= other < nodes[node].connections@.len() implies #[trigger] after.edge_relaxed(
                    nodes,
                    minute,
                    node,
                    other,
                ) by {
                    assert(before.edge_relaxed(nodes, minute, node, other));
                    let target = nodes[node].connections@[other].index as int;
                    assert(after.costs()[target] <= before.costs()[target]);
                }
            } else {
                assert(after.costs()[after.end_index() as int]
                    <= before.costs()[before.end_index() as int]);
            }
        }
    }

    /// What `relaxation` does, at whatever hour the edge was weighed: it
    /// keeps each node settled.
    pub proof fn lemma_relaxation_keeps_each_settled(
        before: &Solver,
        after: &Solver,
        nodes: Seq<Node>,
        from: u32,
        edge: int,
        hour: u32,
        pop_cost: u32,
    )
        requires
            before.inv(nodes),
            after.inv(nodes),
            from < nodes.len(),
            0 <= edge < nodes[from as int].connections@.len(),
            before.costs()[from as int] <= MAX_COST,
            Solver::relaxation(
                before,
                after,
                from,
                nodes[from as int].connections@[edge],
                weight(
                    before.method(),
                    nodes[from as int].connections@[edge],
                    nodes[from as int].node_type,
                    nodes[from as int].flag,
                    hour,
                ),
                pop_cost,
            ),
        ensures
            after.keeps_each_settled(before, nodes),
    {
        assert forall|node: int|
            0 <= node < after.node_count() && #[trigger] before.settled_at_some_minute(
                nodes,
                node,
            ) implies after.settled_at_some_minute(nodes, node) by {
            let minute = choose|minute: u32|
                minute < 60 && #[trigger] before.node_settled(nodes, minute, node);
            Solver::lemma_relaxation_keeps_node(
                before,
                after,
                nodes,
                from,
                edge,
                hour,
                pop_cost,
                minute,
                node,
            );
        }
    }

    /// No weight is negative.
    pub proof fn lemma_weight_not_negative(
        method: SearchMethod,
        connection: Connection,
        node_type: NodeType,
        flag: u32,
        hour: u32,
    )
        ensures
            weight(method, connection, node_type, flag, hour) >= 0,
    {
        let base = drive_time(connection.cost, connection.speed);
        let factor = penalty_factor(method, node_type);
        let bit = shed(flag, hour) as int;
        if connection.speed != 0 {
            assert(base >= 0) by (nonlinear_arith)
                requires
                    base == (connection.cost * 3600) / (connection.speed as int),
                    connection.speed > 0,
                    connection.cost >= 0,
            ;
        }
        assert(base * factor * bit >= 0) by (nonlinear_arith)
            requires
                base >= 0,
                factor >= 0,
                bit >= 0,
        ;
    }

    /// No node of `self` costs more than it does in `other`.
    pub open spec fn improves_on(&self, other: &Solver) -> bool {
        &&& self.node_count() == other.node_count()
        &&& forall|i: int|
            0 <= i < self.node_count() ==> (#[trigger] self.costs()[i]) <= other.costs()[i]
    }

    /// Start, end, budget and method of both are the same.
    pub open spec fn same_task_as(&self, other: &Solver) -> bool {
        &&& self.start_index() == other.start_index()
        &&& self.end_index() == other.end_index()
        &&& self.iteration_budget() == other.iteration_budget()
        &&& self.method() == other.method()
    }

    /// Looks at every edge of `current`, which was popped with the key
    /// `pop_cost`, unless the end is already known to cost no more than
    /// `current`: then nothing changes.
    fn relax_node(&mut self, nodes: &Vec<Node>, minute: u32, pop_cost: u32, current: u32)
        requires
            old(self).inv(nodes@),
            current < nodes@.len(),
            minute < 60,
            old(self).queue_top() is Some ==> pop_cost <= old(self).queue_top()->0,
        ensures
            final(self).inv(nodes@),
            final(self).same_search_as(old(self)),
            final(self).improves_on(old(self)),
            final(self).queue_top() == old(self).queue_top(),
            final(self).potential() < old(self).potential()
                || (final(self).potential() == old(self).potential()
                && final(self).pending() == old(self).pending()),
            final(self).node_settled(nodes@, minute, current as int),
            forall|node: int|
                0 <= node < nodes@.len() && node != current && #[trigger] old(self).node_settled(
                    nodes@,
                    minute,
                    node,
                ) ==> final(self).node_settled(nodes@, minute, node),
            final(self).keeps_by_length(old(self)),
            final(self).keeps_attained(old(self), nodes@),
            final(self).keeps_each_settled(old(self), nodes@),
    {
        let local_cost = self.costs[current as usize];
        if self.costs[self.end_node as usize] <= local_cost {
            return ;
        }
        let hour: u32 = ((minute as u64 * 60_000 + local_cost) / HOUR) as u32;
        assert(hour == hour_at(minute, local_cost));
        let count = nodes[current as usize].connections.len();
        let mut edge: usize = 0;
        while edge < count
            invariant
                edge <= count,
                count == nodes@[current as int].connections@.len(),
                current < nodes@.len(),
                hour <= 31,
                local_cost <= MAX_COST,
                self.inv(nodes@),
                self.costs()[current as int] == local_cost,
                self.same_search_as(old(self)),
                self.improves_on(old(self)),
                self.queue_top() == old(self).queue_top(),
                self.queue_top() is Some ==> pop_cost <= self.queue_top()->0,
                self.potential() < old(self).potential() || (self.potential() == old(self).potential()
                    && self.pending() == old(self).pending()),
                minute < 60,
                hour == hour_at(minute, local_cost),
                self.keeps_by_length(old(self)),
                self.keeps_attained(old(self), nodes@),
                self.keeps_each_settled(old(self), nodes@),
                forall|done: int|
                    0 <= done < edge ==> #[trigger] self.edge_relaxed(
                        nodes@,
                        minute,
                        current as int,
                        done,
                    ),
                forall|node: int|
                    0 <= node < nodes@.len()
                        && node != current
                        && #[trigger] old(self).node_settled(nodes@, minute, node)
                        ==> self.node_settled(
                        nodes@,
                        minute,
                        node,
                    ),
            decreases count - edge,
        {
            let ghost before = *self;
            self.relax_connection(nodes, current, edge, hour, pop_cost);
            proof {
                Solver::lemma_relaxation_settles(
                    &before,
                    &*self,
                    nodes@,
                    minute,
                    current,
                    edge as int,
                    pop_cost,
                );
                assert forall|node: int|
                    0 <= node < nodes@.len()
                        && node != current
                        && #[trigger] old(self).node_settled(nodes@, minute, node) implies self.node_settled(
                    nodes@,
                    minute,
                    node,
                ) by {
                    assert(before.node_settled(nodes@, minute, node));
                }
                assert forall|done: int| 0 <= done < edge + 1 implies #[trigger] self.edge_relaxed(
                    nodes@,
                    minute,
                    current as int,
                    done,
                ) by {
                    if done < edge {
                        assert(before.edge_relaxed(nodes@, minute, current as int, done));
                    }
                }
            }
            edge = edge + 1;
        }
    }

    /// Pops and looks at nodes until the primary queue is empty or the
    /// budget of this batch is used up.
    fn compute_radix(&mut self, nodes: &Vec<Node>, minute: u32)
        requires
            old(self).inv(nodes@),
            minute < 60,
        ensures
            final(self).inv(nodes@),
            final(self).same_task_as(old(self)),
            final(self).found_path() == old(self).found_path(),
            final(self).improves_on(old(self)),
            final(self).iterations_done() >= old(self).iterations_done(),
            old(self).queue().len() > 0 && old(self).iteration() < old(self).iteration_budget()
                && old(self).iterations_done() < u32::MAX ==> final(self).iterations_done()
                > old(self).iterations_done(),
            final(self).not_behind(old(self)),
            old(self).queue().len() > 0 && old(self).iteration() < old(self).iteration_budget()
                ==> final(self).ahead_of(old(self)),
            old(self).settled(nodes@, minute) ==> final(self).settled(nodes@, minute),
            final(self).keeps_by_length(old(self)),
            final(self).keeps_attained(old(self), nodes@),
            final(self).keeps_each_settled(old(self), nodes@),
            final(self).queue().len() == 0 || final(self).iteration() >= final(self).iteration_budget(),
            final(self).iteration() >= old(self).iteration(),
            old(self).iteration() <= old(self).iteration_budget() ==> final(self).iteration()
                <= old(self).iteration_budget(),
            final(self).iterations_done() < u32::MAX
                ==> final(self).iterations_done() - old(self).iterations_done()
                    == final (self).iteration() - old(self).iteration(),
            final(self).iterations_done() - old(self).iterations_done() <= final(self).iteration()
                - old(self).iteration(),
            old(self).iteration() >= old(self).iteration_budget() || old(self).queue().len() == 0
                ==> final(self).same_tables_as(old(self)) && final(self).same_queues_as(old(self))
                && final(self).same_search_as(old(self)),
    {
        broadcast use vstd::multiset::group_multiset_axioms;

        let ghost mut stepped = false;
        while !radix_is_empty(&self.heap) && self.current_iteration < self.max_iterations
            invariant
                minute < 60,
                self.inv(nodes@),
                self.same_task_as(old(self)),
                self.found_path() == old(self).found_path(),
                self.improves_on(old(self)),
                self.iterations_done() >= old(self).iterations_done(),
                stepped && old(self).iterations_done() < u32::MAX ==> self.iterations_done()
                    > old(self).iterations_done(),
                !stepped ==> self.same_tables_as(old(self)) && self.same_queues_as(old(self))
                    && self.same_search_as(old(self)),
                stepped
                    ==> old(self).iteration() < old(self).iteration_budget()
                        && old(self).queue().len() > 0,
                self.iteration() >= old(self).iteration(),
                old(self).iteration() <= old(self).iteration_budget() ==> self.iteration()
                    <= old(self).iteration_budget(),
                self.iterations_done() < u32::MAX
                    ==> self.iterations_done() - old(self).iterations_done()
                        == self.iteration()  - old(self).iteration(),
                self.iterations_done() - old(self).iterations_done()
                    <= self.iteration()  - old(self).iteration(),
                self.not_behind(old(self)),
                stepped ==> self.ahead_of(old(self)),
                old(self).settled(nodes@, minute) ==> self.settled(nodes@, minute),
                self.keeps_by_length(old(self)),
                self.keeps_attained(old(self), nodes@),
                self.keeps_each_settled(old(self), nodes@),
            decreases self.max_iterations - self.current_iteration,
        {
            self.step(nodes, minute);
            proof {
                stepped = true;
            }
        }
    }

    /// One step of a batch: pops the pair with the greatest key from the
    /// primary queue and looks at the node of the pair.
    #[verifier::rlimit(60)]
    fn step(&mut self, nodes: &Vec<Node>, minute: u32)
        requires
            old(self).inv(nodes@),
            minute < 60,
            old(self).queue().len() > 0,
            old(self).iteration() < old(self).iteration_budget(),
        ensures
            final(self).inv(nodes@),
            final(self).same_task_as(old(self)),
            final(self).found_path() == old(self).found_path(),
            final(self).improves_on(old(self)),
            final(self).iteration() == old(self).iteration() + 1,
            final(self).iterations_done() == if old(self).iterations_done() < u32::MAX {
                old(self).iterations_done() + 1
            } else {
                old(self).iterations_done() as int
            },
            final(self).ahead_of(old(self)),
            old(self).settled(nodes@, minute) ==> final(self).settled(nodes@, minute),
            final(self).keeps_by_length(old(self)),
            final(self).keeps_attained(old(self), nodes@),
            final(self).keeps_each_settled(old(self), nodes@),
    {
        broadcast use vstd::multiset::group_multiset_axioms;


        let ghost head = *self;
        self.current_iteration = self.current_iteration + 1;
        if self.total_iterations < u32::MAX {
            self.total_iterations = self.total_iterations + 1;
        }
        let ghost before = *self;
        proof {
            if head.settled(nodes@, minute) {
                before.lemma_settled_of_same_state(&head, nodes@, minute);
            }
        }
        let popped = radix_pop(&mut self.heap);
        proof {
            if old(self).attained(nodes@) {
                self.lemma_attained_of_same_state(old(self), nodes@);
            }
            assert forall|entry: (u32, u32)| #[trigger]
                self.queue().contains(entry) implies entry.1 < self.node_count() && entry.0
                <= MAX_TIME by {
                assert(before.queue().contains(entry));
            }
        }
        match popped {
            Some((pop_cost, current)) => {
                assert(before.queue().contains((pop_cost, current)));
                assert(Multiset::singleton((pop_cost, current)).subset_of(before.queue()));
                assert(self.pending() == before.pending() - 1);
                let ghost popped_state = *self;
                proof {
                    if old(self).settled(nodes@, minute) {
                        assert forall|node: int|
                            0 <= node < nodes@.len() && node
                                != current implies #[trigger] popped_state.node_settled(
                            nodes@,
                            minute,
                            node,
                        ) by {
                            assert(before.node_settled(nodes@, minute, node));
                            popped_state.lemma_pop_keeps_settled(
                                &before,
                                nodes@,
                                minute,
                                pop_cost,
                                current,
                                node,
                            );
                        }
                    }
                }
                proof {
                    popped_state.lemma_pop_keeps_each_settled(&before, nodes@, pop_cost, current);
                    before.lemma_each_settled_of_same_state(old(self), nodes@);
                }
                self.relax_node(nodes, minute, pop_cost, current);
                proof {
                    assert forall|node: int|
                        0 <= node < self.node_count() && #[trigger] old(self).settled_at_some_minute(nodes@, node)
                            implies self.settled_at_some_minute(
                        nodes@,
                        node,
                    ) by {
                        if node != current {
                            assert(before.settled_at_some_minute(nodes@, node));
                            assert(popped_state.settled_at_some_minute(nodes@, node));
                        } else {
                            assert(self.node_settled(nodes@, minute, current as int));
                        }
                    }
                    if old(self).settled(nodes@, minute) {
                        assert forall|node: int|
                            0 <= node < self.node_count() implies #[trigger] self.node_settled(
                            nodes@,
                            minute,
                            node,
                        ) by {
                            if node != current {
                                assert(popped_state.node_settled(nodes@, minute, node));
                            }
                        }
                    }
                }
            },
            None => {},
        }
    }

    /// Whether none of the edges of `node` offers anything better to its
    /// target, for a search run `minute` minutes past the hour.
    pub open spec fn edges_relaxed(&self, nodes: Seq<Node>, minute: u32, node: int) -> bool {
        forall|edge: int|
            0 <= edge < nodes[node].connections@.len() ==> #[trigger] self.edge_relaxed(
                nodes,
                minute,
                node,
                edge,
            )
    }

    /// Whether, since the state `before`, every edge has been followed up
    /// that leaves the start or a node that got a new cost: none of these
    /// edges offers anything better to its target. The end is left aside;
    /// no search goes on from it.
    pub open spec fn explored_since(&self, before: &Solver, nodes: Seq<Node>, minute: u32) -> bool {
        forall|node: int|
            0 <= node < self.node_count() && node != self.end_index() && (node
                == self.start_index() || self.costs()[node] != before.costs()[node])
                ==> #[trigger] self.edges_relaxed(nodes, minute, node)
    }

    /// The priority of `node` in the warm-up pass: the square of its
    /// straight-line distance to the end.
    pub open spec fn crow_line(&self, nodes: Seq<Node>, node: int) -> u128 {
        distance_squared(nodes[node].position, nodes[self.end_index() as int].position) as u128
    }

    /// Whether the warm-up pass that began in the state `before` has `node`
    /// in hand while `entries` wait: the node is the end, or it is not the
    /// start and costs what it did, or it waits, or none of its edges
    /// offers anything better.
    pub open spec fn in_hand(
        &self,
        before: &Solver,
        nodes: Seq<Node>,
        minute: u32,
        entries: Multiset<(u32, u128)>,
        node: int,
    ) -> bool {
        ||| node == self.end_index()
        ||| (node != self.start_index() && self.costs()[node] == before.costs()[node])
        ||| entries.contains((node as u32, self.crow_line(nodes, node)))
        ||| self.edges_relaxed(nodes, minute, node)
    }

    /// Every node in `entries` is reached.
    pub open spec fn nodes_reached(&self, entries: Multiset<(u32, u128)>) -> bool {
        forall|entry: (u32, u128)| #[trigger] entries.contains(entry)
            ==> entry.0 < self.node_count() && self.costs()[entry.0 as int] <= MAX_COST
    }

    /// What `relaxation` leaves alone: a node that keeps its cost, and none
    /// of whose edges offered anything better, still has no such edge.
    pub proof fn lemma_relaxation_keeps_edges(
        before: &Solver,
        after: &Solver,
        nodes: Seq<Node>,
        minute: u32,
        from: u32,
        edge: int,
        pop_cost: u32,
        node: int,
    )
        requires
            before.inv(nodes),
            after.inv(nodes),
            from < nodes.len(),
            0 <= edge < nodes[from as int].connections@.len(),
            before.costs()[from as int] <= MAX_COST,
            minute < 60,
            Solver::relaxation(
                before,
                after,
                from,
                nodes[from as int].connections@[edge],
                weight(
                    before.method(),
                    nodes[from as int].connections@[edge],
                    nodes[from as int].node_type,
                    nodes[from as int].flag,
                    hour_at(minute, before.costs()[from as int]) as u32,
                ),
                pop_cost,
            ),
            0 <= node < nodes.len(),
            after.costs()[node] == before.costs()[node],
            before.edges_relaxed(nodes, minute, node),
        ensures
            after.edges_relaxed(nodes, minute, node),
    {
        Solver::lemma_weight_not_negative(
            before.method(),
            nodes[from as int].connections@[edge],
            nodes[from as int].node_type,
            nodes[from as int].flag,
            hour_at(minute, before.costs()[from as int]) as u32,
        );
        assert forall|other: int|
            0 <= other < nodes[node].connections@.len() implies #[trigger] after.edge_relaxed(
            nodes,
            minute,
            node,
            other,
        ) by {
            assert(before.edge_relaxed(nodes, minute, node, other));
            let target = nodes[node].connections@[other].index as int;
            assert(after.costs()[target] <= before.costs()[target]);
        }
    }

    /// Whether `self` has a lower potential than `before`, or else the same
    /// tables and queues.
    pub open spec fn lowered_or_same(&self, before: &Solver) -> bool {
        self.potential() < before.potential() || (self.same_tables_as(before)
            && self.same_queues_as(before))
    }

    /// Every node in `entries` is a node of the tables.
    pub open spec fn nodes_in_range(&self, entries: Multiset<(u32, u128)>) -> bool {
        forall|entry: (u32, u128)| #[trigger] entries.contains(entry)
            ==> entry.0 < self.node_count()
    }

    /// The warm-up pass: unless the end is reached already, looks at nodes
    /// in the order of their straight-line distance to the end, nearest
    /// first, beginning with the start, until the end is reached or no node
    /// is left. Every edge is taken into account as in a batch, so that what
    /// the pass finds is kept and queued for the batches that follow; the
    /// cost it finds for the end is an upper bound that spares them work.
    /// A pass that ends without the end reached has followed up every edge
    /// that leaves the start or a node to which it gave a new cost.
    pub fn compute_pairing_direct(&mut self, nodes: &Vec<Node>, minute: u32)
        requires
            old(self).inv(nodes@),
            minute < 60,
        ensures
            final(self).inv(nodes@),
            final(self).same_search_as(old(self)),
            final(self).improves_on(old(self)),
            final(self).queue_top() == old(self).queue_top(),
            old(self).costs()[old(self).end_index() as int] != UNREACHED
                ==> final(self).same_tables_as(old(self)) && final(self).same_queues_as(old(self)),
            final(self).potential() <= old(self).potential(),
            final(self).lowered_or_same(old(self)),
            final(self).queue().len() >= old(self).queue().len(),
            old(self).settled(nodes@, minute) ==> final(self).settled(nodes@, minute),
            final(self).keeps_by_length(old(self)),
            final(self).keeps_attained(old(self), nodes@),
            final(self).keeps_each_settled(old(self), nodes@),
            old(self).costs()[old(self).end_index() as int] == UNREACHED
                ==> final(self).costs()[final(self).end_index() as int] != UNREACHED
                || final(self).explored_since(old(self), nodes@, minute),
    {
        broadcast use vstd::multiset::group_multiset_axioms;

        let end = self.end_node;
        if self.has_visited(end) {
            return ;
        }
        let pop_cost = match radix_top(&self.heap) {
            Some(top) => top,
            None => MAX_TIME,
        };
        let mut direct = pairing_new();
        pairing_insert(
            &mut direct,
            self.start_node,
            distance_sq(&nodes[self.start_node as usize].position, &nodes[end as usize].position),
        );
        proof {
            assert(pairing_entries(direct).contains(
                (self.start_node, self.crow_line(nodes@, self.start_node as int)),
            ));
            assert forall|node: int| 0 <= node < self.node_count() implies #[trigger] self.in_hand(
                old(self),
                nodes@,
                minute,
                pairing_entries(direct),
                node,
            ) by {}
        }
        while !pairing_is_empty(&direct) && !self.has_visited(end)
            invariant
                minute < 60,
                end == self.end_index(),
                self.inv(nodes@),
                self.same_search_as(old(self)),
                self.improves_on(old(self)),
                self.queue_top() == old(self).queue_top(),
                self.queue_top() is Some ==> pop_cost <= self.queue_top()->0,
                self.nodes_in_range(pairing_entries(direct)),
                self.nodes_reached(pairing_entries(direct)),
                forall|node: int|
                    0 <= node < self.node_count() ==> #[trigger] self.in_hand(
                        old(self),
                        nodes@,
                        minute,
                        pairing_entries(direct),
                        node,
                    ),
                self.potential() <= old(self).potential(),
                self.lowered_or_same(old(self)),
                self.queue().len() >= old(self).queue().len(),
                old(self).settled(nodes@, minute) ==> self.settled(nodes@, minute),
                self.keeps_by_length(old(self)),
                self.keeps_attained(old(self), nodes@),
                self.keeps_each_settled(old(self), nodes@),
            decreases self.potential(), pairing_entries(direct).len(),
        {
            proof {
                lemma_potential_nonneg(self.costs());
            }
            let ghost waiting = pairing_entries(direct);
            let ghost at_pop = *self;
            match pairing_delete_min(&mut direct) {
                Some((current, priority)) => {
                    assert(waiting.contains((current, priority)));
                    assert(Multiset::singleton((current, priority)).subset_of(waiting));
                    assert(pairing_entries(direct).len() == waiting.len() - 1);
                    assert forall|entry: (u32, u128)| #[trigger]
                        pairing_entries(direct).contains(entry) implies entry.0
                        < self.node_count() && self.costs()[entry.0 as int] <= MAX_COST by {
                        assert(waiting.contains(entry));
                    }
                    assert forall|node: int|
                        0 <= node < self.node_count() && node
                            != current implies #[trigger] self.in_hand(
                        old(self),
                        nodes@,
                        minute,
                        pairing_entries(direct),
                        node,
                    ) by {
                        assert(self.in_hand(old(self), nodes@, minute, waiting, node));
                    }
                    let local_cost = self.costs[current as usize];
                    if local_cost <= MAX_COST {
                        let hour: u32 = ((minute as u64 * 60_000 + local_cost) / HOUR) as u32;
                        let count = nodes[current as usize].connections.len();
                        let mut edge: usize = 0;
                        while edge < count
                            invariant
                                edge <= count,
                                count == nodes@[current as int].connections@.len(),
                                current < nodes@.len(),
                                minute < 60,
                                hour <= 31,
                                hour == hour_at(minute, local_cost),
                                local_cost <= MAX_COST,
                                end == self.end_index(),
                                self.inv(nodes@),
                                self.costs()[current as int] == local_cost,
                                self.same_search_as(old(self)),
                                self.improves_on(old(self)),
                                self.queue_top() == old(self).queue_top(),
                                self.queue_top() is Some ==> pop_cost <= self.queue_top()->0,
                                self.nodes_in_range(pairing_entries(direct)),
                                self.nodes_reached(pairing_entries(direct)),
                                forall|node: int|
                                    0 <= node < self.node_count() && node != current
                                        ==> #[trigger] self.in_hand(
                                        old(self),
                                        nodes@,
                                        minute,
                                        pairing_entries(direct),
                                        node,
                                    ),
                                forall|done: int|
                                    0 <= done < edge ==> #[trigger] self.edge_relaxed(
                                        nodes@,
                                        minute,
                                        current as int,
                                        done,
                                    ),
                                self.potential() <= old(self).potential(),
                                self.lowered_or_same(old(self)),
                                self.queue().len() >= old(self).queue().len(),
                                self.potential() < at_pop.potential() || (self.potential()
                                    == at_pop.potential() && pairing_entries(direct).len()
                                    == waiting.len() - 1),
                                old(self).settled(nodes@, minute) ==> self.settled(nodes@, minute),
                                self.keeps_by_length(old(self)),
                                self.keeps_attained(old(self), nodes@),
                                self.keeps_each_settled(old(self), nodes@),
                            decreases count - edge,
                        {
                            let ghost before = *self;
                            let ghost before_entries = pairing_entries(direct);
                            let improved = self.relax_connection(
                                nodes,
                                current,
                                edge,
                                hour,
                                pop_cost,
                            );
                            proof {
                                Solver::lemma_relaxation_settles(
                                    &before,
                                    &*self,
                                    nodes@,
                                    minute,
                                    current,
                                    edge as int,
                                    pop_cost,
                                );
                                if before.settled(nodes@, minute) {
                                    assert forall|node: int|
                                        0 <= node
                                            < self.node_count() implies #[trigger] self.node_settled(
                                        nodes@,
                                        minute,
                                        node,
                                    ) by {
                                        assert(before.node_settled(nodes@, minute, node));
                                    }
                                }
                            }
                            let to = nodes[current as usize].connections[edge].index;
                            if improved && to != end {
                                pairing_insert(
                                    &mut direct,
                                    to,
                                    distance_sq(
                                        &nodes[to as usize].position,
                                        &nodes[end as usize].position,
                                    ),
                                );
                                proof {
                                    assert(pairing_entries(direct).contains(
                                        (to, self.crow_line(nodes@, to as int)),
                                    ));
                                }
                            }
                            proof {
                                assert forall|entry: (u32, u128)| #[trigger]
                                    pairing_entries(direct).contains(entry) implies entry.0
                                    < self.node_count() && self.costs()[entry.0 as int]
                                    <= MAX_COST by {
                                    if before_entries.contains(entry) {
                                        assert(self.costs()[entry.0 as int]
                                            <= before.costs()[entry.0 as int]);
                                    } else {
                                        assert(entry.0 == to);
                                    }
                                }
                                assert forall|node: int|
                                    0 <= node < self.node_count() && node
                                        != current implies #[trigger] self.in_hand(
                                    old(self),
                                    nodes@,
                                    minute,
                                    pairing_entries(direct),
                                    node,
                                ) by {
                                    assert(before.in_hand(
                                        old(self),
                                        nodes@,
                                        minute,
                                        before_entries,
                                        node,
                                    ));
                                    if self.costs()[node] == before.costs()[node] {
                                        if before.edges_relaxed(nodes@, minute, node) {
                                            Solver::lemma_relaxation_keeps_edges(
                                                &before,
                                                &*self,
                                                nodes@,
                                                minute,
                                                current,
                                                edge as int,
                                                pop_cost,
                                                node,
                                            );
                                        }
                                        if before_entries.contains(
                                            (node as u32, before.crow_line(nodes@, node)),
                                        ) {
                                            assert(pairing_entries(direct).contains(
                                                (node as u32, self.crow_line(nodes@, node)),
                                            ));
                                        }
                                    } else {
                                        assert(node == to);
                                    }
                                }
                                assert forall|done: int|
                                    0 <= done < edge + 1 implies #[trigger] self.edge_relaxed(
                                    nodes@,
                                    minute,
                                    current as int,
                                    done,
                                ) by {
                                    if done < edge {
                                        assert(before.edge_relaxed(
                                            nodes@,
                                            minute,
                                            current as int,
                                            done,
                                        ));
                                    }
                                }
                            }
                            edge = edge + 1;
                        }
                        assert(self.potential() < at_pop.potential() || (self.potential()
                            == at_pop.potential() && pairing_entries(direct).len()
                            < waiting.len()));
                        assert(self.edges_relaxed(nodes@, minute, current as int));
                        assert(self.in_hand(
                            old(self),
                            nodes@,
                            minute,
                            pairing_entries(direct),
                            current as int,
                        ));
                    } else {
                        assert(self.potential() == at_pop.potential());
                        assert(pairing_entries(direct).len() < waiting.len());
                    }
                },
                None => {},
            }
            proof {
                lemma_potential_nonneg(self.costs());
            }
        }
        proof {
            if self.costs()[self.end_index() as int] == UNREACHED {
                let left = pairing_entries(direct);
                vstd::multiset::lemma_multiset_empty_len(left);
                assert forall|node: int|
                    0 <= node < self.node_count() && node != self.end_index() && (node
                        == self.start_index() || self.costs()[node] != old(self).costs()[node])
                    implies #[trigger] self.edges_relaxed(nodes@, minute, node) by {
                    assert(self.in_hand(old(self), nodes@, minute, left, node));
                    assert(!left.contains((node as u32, self.crow_line(nodes@, node))));
                }
            }
        }
    }

    /// The warm-up pass, then one batch, at `minute` minutes past the hour.
    pub fn compute_pre_find_at(&mut self, nodes: &Vec<Node>, minute: u32)
        requires
            old(self).inv(nodes@),
            minute < 60,
        ensures
            final(self).inv(nodes@),
            final(self).same_task_as(old(self)),
            final(self).improves_on(old(self)),
            final(self).iteration() == 0,
            final(self).backlog() == Multiset::<(u32, u32)>::empty(),
            final(self).iterations_done() >= old(self).iterations_done(),
            old(self).queue().len() > 0 && old(self).iteration() < old(self).iteration_budget()
                && old(self).iterations_done() < u32::MAX ==> final(self).iterations_done()
                > old(self).iterations_done(),
            old(self).iteration() <= old(self).iteration_budget() ==> final(self).iterations_done()
                <= old(self).iterations_done() + old(self).iteration_budget() - old(self).iteration(),
            final(self).not_behind(old(self)),
            old(self).queue().len() > 0 && old(self).iteration() < old(self).iteration_budget()
                ==> final(self).ahead_of(old(self)),
            final(self).costs()[final(self).end_index() as int] == UNREACHED
                ==> final(self).found_path() == old(self).found_path(),
            final(self).costs()[final(self).end_index() as int] != UNREACHED
                ==> final(self).reports_route(nodes@),
            old(self).settled(nodes@, minute) ==> final(self).settled(nodes@, minute),
            final(self).keeps_by_length(old(self)),
            final(self).keeps_attained(old(self), nodes@),
            final(self).keeps_each_settled(old(self), nodes@),
    {
        self.compute_pairing_direct(nodes, minute);
        self.compute_at(nodes, minute);
    }

    /// The warm-up pass, then one batch, at the present minute of the hour.
    pub fn compute_pre_find(&mut self, nodes: &Vec<Node>)
        requires
            old(self).inv(nodes@),
        ensures
            final(self).inv(nodes@),
            final(self).same_task_as(old(self)),
            final(self).improves_on(old(self)),
            final(self).iteration() == 0,
            final(self).backlog() == Multiset::<(u32, u32)>::empty(),
            final(self).iterations_done() >= old(self).iterations_done(),
            old(self).queue().len() > 0 && old(self).iteration() < old(self).iteration_budget()
                && old(self).iterations_done() < u32::MAX ==> final(self).iterations_done()
                > old(self).iterations_done(),
            old(self).iteration() <= old(self).iteration_budget() ==> final(self).iterations_done()
                <= old(self).iterations_done() + old(self).iteration_budget() - old(self).iteration(),
            final(self).not_behind(old(self)),
            old(self).queue().len() > 0 && old(self).iteration() < old(self).iteration_budget()
                ==> final(self).ahead_of(old(self)),
            final(self).costs()[final(self).end_index() as int] == UNREACHED
                ==> final(self).found_path() == old(self).found_path(),
            final(self).costs()[final(self).end_index() as int] != UNREACHED
                ==> final(self).reports_route(nodes@),
            final(self).keeps_by_length(old(self)),
            final(self).keeps_attained(old(self), nodes@),
            final(self).keeps_each_settled(old(self), nodes@),
            final(self).keeps_settled_at_a_minute(old(self), nodes@),
            final(self).keeps_settled_if_steady(old(self), nodes@),
    {
        let ghost before = *self;
        let minute = current_minute();
        self.compute_pre_find_at(nodes, minute);
        proof {
            self.lemma_kept_whatever_the_minute(&before, nodes@, minute);
        }
    }

    /// The route to the end that the tables hold: the nodes from the start
    /// side to the end, the summed lengths of its edges in metres, and the
    /// summed travel times of its edges in milliseconds, at most `u64::MAX`.
    pub open spec fn route(&self, nodes: Seq<Node>) -> (Seq<u32>, int, int) {
        let hops = self.lens()[self.end_index() as int] as nat;
        let time = walk_time(
            nodes,
            self.costs(),
            self.previous(),
            self.distances(),
            self.end_index(),
            hops,
        );
        (
            walk(self.previous(), self.end_index(), hops),
            walk_length(self.previous(), self.distances(), self.end_index(), hops),
            if time > u64::MAX {
                u64::MAX as int
            } else {
                time
            },
        )
    }

    /// Follows the predecessors back from the end, for as many edges as the
    /// end's hop count says or up to a node without predecessor, and returns
    /// the nodes passed in travel order with the length and the travel time
    /// of the route.
    pub fn backtrack(&self, nodes: &Vec<Node>) -> (found: (Vec<u32>, u64, u64))
        requires
            self.inv(nodes@),
        ensures
            (found.0@, found.1 as int, found.2 as int) == self.route(nodes@),
    {
        let length = self.connection_lens[self.end_node as usize] as usize;
        let mut reversed: Vec<u32> = Vec::new();
        let mut node: u32 = self.end_node;
        let mut distance: u64 = 0;
        let mut time: u64 = 0;
        let ghost mut unbounded_time: int = 0;
        let mut i: usize = 0;
        proof {
            assert(backwards(reversed@) =~= Seq::<u32>::empty());
            assert(walk(self.previous(), self.end_index(), length as nat) + backwards(reversed@)
                =~= walk(self.previous(), self.end_index(), length as nat));
        }
        while i < length && self.previous_indices[node as usize] != NO_PREVIOUS
            invariant
                self.inv(nodes@),
                i <= length <= u16::MAX,
                node < self.node_count(),
                reversed@.len() == i,
                distance <= i * u32::MAX,
                time == if unbounded_time > u64::MAX {
                    u64::MAX as int
                } else {
                    unbounded_time
                },
                0 <= unbounded_time,
                walk(self.previous(), self.end_index(), length as nat) == walk(
                    self.previous(),
                    node,
                    (length - i) as nat,
                ) + backwards(reversed@),
                walk_length(self.previous(), self.distances(), self.end_index(), length as nat)
                    == walk_length(self.previous(), self.distances(), node, (length - i) as nat)
                    + distance,
                walk_time(
                    nodes@,
                    self.costs(),
                    self.previous(),
                    self.distances(),
                    self.end_index(),
                    length as nat,
                ) == walk_time(
                    nodes@,
                    self.costs(),
                    self.previous(),
                    self.distances(),
                    node,
                    (length - i) as nat,
                ) + unbounded_time,
            decreases length - i,
        {
            let previous_index = self.previous_indices[node as usize];
            let ghost rest = walk(self.previous(), previous_index, (length - i - 1) as nat);
            proof {
                assert(self.previous()[node as int] != NO_PREVIOUS);
                assert(has_edge(
                    nodes@,
                    previous_index as int,
                    node as int,
                    self.distances()[node as int] as int,
                ));
                assert(walk(self.previous(), node, (length - i) as nat) == rest.push(node));
                assert(backwards(reversed@.push(node)) =~= seq![node] + backwards(reversed@));
                assert(rest + backwards(reversed@.push(node)) =~= rest.push(node) + backwards(
                    reversed@,
                ));
            }
            reversed.push(node);
            let length_of_edge = self.previous_distances[node as usize];
            distance = distance + length_of_edge as u64;
            let from = &nodes[previous_index as usize];
            let hour: u32 = (self.costs[previous_index as usize] / HOUR) as u32;
            let w = edge_weight(
                SearchMethod::FASTEST,
                &Connection { index: node, cost: length_of_edge, speed: from.connections[0].speed },
                from.node_type,
                from.flag,
                hour,
            );
            time = if w > u64::MAX - time {
                u64::MAX
            } else {
                time + w
            };
            proof {
                unbounded_time = unbounded_time + w;
            }
            node = previous_index;
            i = i + 1;
        }
        proof {
            assert(walk(self.previous(), node, (length - i) as nat) == seq![node]);
            assert(backwards(reversed@.push(node)) =~= seq![node] + backwards(reversed@));
        }
        reversed.push(node);
        let mut path: Vec<u32> = Vec::new();
        let count = reversed.len();
        let mut k: usize = 0;
        while k < count
            invariant
                k <= count,
                count == reversed@.len(),
                path@.len() == k,
                forall|m: int| 0 <= m < k ==> (#[trigger] path@[m]) == backwards(reversed@)[m],
            decreases count - k,
        {
            path.push(reversed[count - 1 - k]);
            k = k + 1;
        }
        proof {
            assert(path@ =~= backwards(reversed@));
        }
        (path, distance, time)
    }

    /// Whether `self` is `before` after one batch, at whatever minute of
    /// the hour: the task is the same and no cost is higher; the batch
    /// counter is back at zero and the backlog is merged; the batch took no
    /// more steps than its budget left, and at least one if a pair waited
    /// and the budget left one, which brought the search nearer to its end;
    /// a budget used up or an empty queue left the tables alone; the route
    /// is recorded if the end is reached; and what the search had accounted
    /// for and settled, it still has.
    pub open spec fn is_batch_after(&self, before: &Solver, nodes: Seq<Node>) -> bool {
        &&& self.same_task_as(before)
        &&& self.improves_on(before)
        &&& self.iteration() == 0
        &&& self.backlog() == Multiset::<(u32, u32)>::empty()
        &&& self.iterations_done() >= before.iterations_done()
        &&& (before.queue().len() > 0 && before.iteration() < before.iteration_budget()
            && before.iterations_done() < u32::MAX ==> self.iterations_done()
            > before.iterations_done())
        &&& (before.iteration() <= before.iteration_budget() ==> self.iterations_done()
            <= before.iterations_done() + before.iteration_budget() - before.iteration())
        &&& self.not_behind(before)
        &&& (before.queue().len() > 0 && before.iteration() < before.iteration_budget()
            ==> self.ahead_of(before))
        &&& (before.iteration() >= before.iteration_budget() || before.queue().len() == 0
            ==> self.same_tables_as(before) && self.queue() == before.queue().add(
            before.backlog(),
        ) && self.iterations_done() == before.iterations_done())
        &&& (self.costs()[self.end_index() as int] == UNREACHED ==> self.found_path()
            == before.found_path())
        &&& (self.costs()[self.end_index() as int] != UNREACHED ==> self.reports_route(nodes))
        &&& self.keeps_by_length(before)
        &&& self.keeps_attained(before, nodes)
        &&& self.keeps_each_settled(before, nodes)
    }

    /// One batch of the search at `minute` minutes past the hour: up to
    /// `iteration_budget` nodes are popped and their edges looked at; then
    /// the backlog is merged into the primary queue; and if the end has been
    /// reached, the route to it is recorded with its time and its length.
    pub fn compute_at(&mut self, nodes: &Vec<Node>, minute: u32)
        requires
            old(self).inv(nodes@),
            minute < 60,
        ensures
            final(self).inv(nodes@),
            final(self).same_task_as(old(self)),
            final(self).improves_on(old(self)),
            final(self).iteration() == 0,
            final(self).backlog() == Multiset::<(u32, u32)>::empty(),
            final(self).iterations_done() >= old(self).iterations_done(),
            old(self).queue().len() > 0 && old(self).iteration() < old(self).iteration_budget()
                && old(self).iterations_done() < u32::MAX ==> final(self).iterations_done()
                > old(self).iterations_done(),
            final(self).not_behind(old(self)),
            old(self).queue().len() > 0 && old(self).iteration() < old(self).iteration_budget()
                ==> final(self).ahead_of(old(self)),
            final(self).costs()[final(self).end_index() as int] == UNREACHED
                ==> final(self).found_path() == old(self).found_path(),
            final(self).costs()[final(self).end_index() as int] != UNREACHED
                ==> final(self).reports_route(nodes@),
            old(self).settled(nodes@, minute) ==> final(self).settled(nodes@, minute),
            final(self).keeps_by_length(old(self)),
            final(self).keeps_attained(old(self), nodes@),
            final(self).keeps_each_settled(old(self), nodes@),
            old(self).iteration() <= old(self).iteration_budget()
                ==> final(self).iterations_done()
                    <= old (self).iterations_done() + old(self).iteration_budget()
                - old(self).iteration(),
            old(self).iteration() >= old(self).iteration_budget() || old(self).queue().len() == 0

                    ==> final(self).same_tables_as(old(self))
                        && final(self).queue() == old(self).queue().add(old(self).backlog())
                        && final(self).iterations_done() == old(self).iterations_done(),
            final(self).is_batch_after(old(self), nodes@),
    {
        self.compute_radix(nodes, minute);
        let ghost searched = *self;
        self.merge();
        proof {
            if searched.settled(nodes@, minute) {
                self.lemma_merge_keeps_settled(&searched, nodes@, minute);
            }
            if searched.attained(nodes@) {
                self.lemma_attained_of_same_state(&searched, nodes@);
            }
            self.lemma_merge_keeps_each_settled(&searched, nodes@);
        }
        let ghost merged = *self;
        self.record_route(nodes);
        proof {
            self.lemma_each_settled_of_same_state(&merged, nodes@);
            if merged.settled(nodes@, minute) {
                self.lemma_settled_of_same_state(&merged, nodes@, minute);
            }
            if merged.attained(nodes@) {
                self.lemma_attained_of_same_state(&merged, nodes@);
            }
        }
    }

    /// Ends a batch: sets the step counter of the batch to zero and, if the
    /// end is reached, records the route to it.
    fn record_route(&mut self, nodes: &Vec<Node>)
        requires
            old(self).inv(nodes@),
        ensures
            final(self).inv(nodes@),
            final(self).same_tables_as(old(self)),
            final(self).same_queues_as(old(self)),
            final(self).same_task_as(old(self)),
            final(self).iterations_done() == old(self).iterations_done(),
            final(self).iteration() == 0,
            final(self).costs()[final(self).end_index() as int] == UNREACHED
                ==> final(self).found_path() == old(self).found_path(),
            final(self).costs()[final(self).end_index() as int] != UNREACHED
                ==> final(self).reports_route(nodes@),
    {
        let end_index = self.end_node;
        if self.has_visited(end_index) {
            let (path, distance, time) = self.backtrack(nodes);
            let ghost merged = *self;
            self.finish_batch(Some((path, time, distance)));
            proof {
                self.lemma_inv_of_same_state(&merged, nodes@);
            }
        } else {
            let ghost merged = *self;
            self.current_iteration = 0;
            proof {
                self.lemma_inv_of_same_state(&merged, nodes@);
            }
        }
    }

    /// Ends a batch: sets the step counter of the batch to zero and records
    /// `path`.
    fn finish_batch(&mut self, path: Option<(Vec<u32>, u64, u64)>)
        ensures
            final(self).same_tables_as(old(self)),
            final(self).same_queues_as(old(self)),
            final(self).same_task_as(old(self)),
            final(self).iterations_done() == old(self).iterations_done(),
            final(self).iteration() == 0,
            match path {
                Some((nodes, time, distance)) => final(self).found_path() == Some(
                    (nodes@, time, distance),
                ),
                None => final(self).found_path() is None,
            },
    {
        self.current_iteration = 0;
        self.path = path;
    }

    /// The search invariant speaks of the tables, the queues, the start and
    /// the end only.
    pub proof fn lemma_inv_of_same_state(&self, other: &Solver, nodes: Seq<Node>)
        requires
            other.inv(nodes),
            self.same_tables_as(other),
            self.same_queues_as(other),
            self.start_index() == other.start_index(),
            self.end_index() == other.end_index(),
        ensures
            self.inv(nodes),
    {
    }

    /// The recorded route is the one that the tables hold: its nodes, its
    /// time and its length, in this order.
    pub open spec fn reports_route(&self, nodes: Seq<Node>) -> bool {
        match self.found_path() {
            Some((path, time, distance)) => {
                &&& path == self.route(nodes).0
                &&& time == self.route(nodes).2
                &&& distance == self.route(nodes).1
            },
            None => false,
        }
    }

    /// One batch of the search at the present minute of the hour. What it
    /// does is what `compute_at` does at that minute.
    pub fn compute(&mut self, nodes: &Vec<Node>)
        requires
            old(self).inv(nodes@),
        ensures
            final(self).inv(nodes@),
            final(self).same_task_as(old(self)),
            final(self).improves_on(old(self)),
            final(self).iteration() == 0,
            final(self).backlog() == Multiset::<(u32, u32)>::empty(),
            final(self).iterations_done() >= old(self).iterations_done(),
            old(self).queue().len() > 0 && old(self).iteration() < old(self).iteration_budget()
                && old(self).iterations_done() < u32::MAX ==> final(self).iterations_done()
                > old(self).iterations_done(),
            final(self).not_behind(old(self)),
            old(self).queue().len() > 0 && old(self).iteration() < old(self).iteration_budget()
                ==> final(self).ahead_of(old(self)),
            final(self).costs()[final(self).end_index() as int] == UNREACHED
                ==> final(self).found_path() == old(self).found_path(),
            final(self).costs()[final(self).end_index() as int] != UNREACHED
                ==> final(self).reports_route(nodes@),
            final(self).keeps_by_length(old(self)),
            final(self).keeps_attained(old(self), nodes@),
            final(self).keeps_each_settled(old(self), nodes@),
            final(self).keeps_settled_at_a_minute(old(self), nodes@),
            final(self).keeps_settled_if_steady(old(self), nodes@),
            final(self).is_batch_after(old(self), nodes@),
    {
        let ghost before = *self;
        let minute = current_minute();
        self.compute_at(nodes, minute);
        proof {
            self.lemma_kept_whatever_the_minute(&before, nodes@, minute);
        }
    }

    /// Runs batches at `minute` minutes past the hour until the primary
    /// queue is empty. Then nothing waits in either queue, and the route is
    /// recorded if the end was reached.
    pub fn run_at(&mut self, nodes: &Vec<Node>, minute: u32)
        requires
            old(self).inv(nodes@),
            minute < 60,
            old(self).iteration() < old(self).iteration_budget(),
            old(self).backlog() == Multiset::<(u32, u32)>::empty(),
        ensures
            final(self).inv(nodes@),
            final(self).same_task_as(old(self)),
            final(self).improves_on(old(self)),
            final(self).queue().len() == 0,
            final(self).backlog() == Multiset::<(u32, u32)>::empty(),
            old(self).queue().len() > 0 ==> final(self).iteration() == 0,
            old(self).queue().len() > 0 && final(self).costs()[final(self).end_index() as int]
                != UNREACHED ==> final(self).reports_route(nodes@),
            old(self).queue().len() == 0 || final(self).costs()[final(self).end_index() as int]
                == UNREACHED ==> final(self).found_path() == old(self).found_path(),
            old(self).settled(nodes@, minute) ==> final(self).settled(nodes@, minute),
            final(self).keeps_by_length(old(self)),
            final(self).keeps_attained(old(self), nodes@),
            final(self).keeps_each_settled(old(self), nodes@),
    {
        let ghost mut ran = false;
        while !self.fully_searched()
            invariant
                minute < 60,
                self.inv(nodes@),
                self.same_task_as(old(self)),
                self.improves_on(old(self)),
                self.iteration() < self.iteration_budget(),
                self.backlog() == Multiset::<(u32, u32)>::empty(),
                !ran
                    ==> self.queue() == old(self).queue()
                        && self.found_path() == old(self).found_path(),
                ran ==> old(self).queue().len() > 0 && self.iteration() == 0,
                ran && self.costs()[self.end_index() as int] != UNREACHED ==> self.reports_route(
                    nodes@,
                ),
                self.costs()[self.end_index() as int] == UNREACHED
                    ==> self.found_path() == old(self).found_path(),
                old(self).settled(nodes@, minute) ==> self.settled(nodes@, minute),
                self.keeps_by_length(old(self)),
                self.keeps_attained(old(self), nodes@),
                self.keeps_each_settled(old(self), nodes@),
            decreases self.potential(), self.pending(),
        {
            proof {
                lemma_potential_nonneg(self.costs());
                ran = true;
            }
            self.compute_at(nodes, minute);
            proof {
                lemma_potential_nonneg(self.costs());
            }
        }
    }

    /// Runs batches, each at the minute of the hour at which it begins,
    /// until the primary queue is empty. Then nothing waits in either queue,
    /// and the route is recorded if the end was reached.
    pub fn run(&mut self, nodes: &Vec<Node>)
        requires
            old(self).inv(nodes@),
            old(self).iteration() < old(self).iteration_budget(),
            old(self).backlog() == Multiset::<(u32, u32)>::empty(),
        ensures
            final(self).inv(nodes@),
            final(self).same_task_as(old(self)),
            final(self).improves_on(old(self)),
            final(self).queue().len() == 0,
            final(self).backlog() == Multiset::<(u32, u32)>::empty(),
            old(self).queue().len() > 0 ==> final(self).iteration() == 0,
            old(self).queue().len() > 0 && final(self).costs()[final(self).end_index() as int]
                != UNREACHED ==> final(self).reports_route(nodes@),
            old(self).queue().len() == 0 || final(self).costs()[final(self).end_index() as int]
                == UNREACHED ==> final(self).found_path() == old(self).found_path(),
            final(self).keeps_by_length(old(self)),
            final(self).keeps_attained(old(self), nodes@),
            final(self).keeps_each_settled(old(self), nodes@),
            final(self).keeps_settled_if_steady(old(self), nodes@),
    {
        let ghost mut ran = false;
        while !self.fully_searched()
            invariant
                self.inv(nodes@),
                self.same_task_as(old(self)),
                self.improves_on(old(self)),
                self.iteration() < self.iteration_budget(),
                self.backlog() == Multiset::<(u32, u32)>::empty(),
                !ran
                    ==> self.queue() == old(self).queue()
                        && self.found_path() == old(self).found_path(),
                ran ==> old(self).queue().len() > 0 && self.iteration() == 0,
                ran && self.costs()[self.end_index() as int] != UNREACHED ==> self.reports_route(
                    nodes@,
                ),
                self.costs()[self.end_index() as int] == UNREACHED
                    ==> self.found_path() == old(self).found_path(),
            self.keeps_by_length(old(self)),
            self.keeps_attained(old(self), nodes@),
            self.keeps_each_settled(old(self), nodes@),
            self.keeps_settled_if_steady(old(self), nodes@),
            decreases self.potential(), self.pending(),
        {
            proof {
                lemma_potential_nonneg(self.costs());
                ran = true;
            }
            self.compute(nodes);
            proof {
                lemma_potential_nonneg(self.costs());
            }
        }
    }

    /// Changes what the search minimises. A search under way is not begun
    /// anew.
    pub fn set_search_method(&mut self, method: SearchMethod)
        ensures
            final(self).method() == method,
            final(self).same_tables_as(old(self)),
            final(self).same_queues_as(old(self)),
            final(self).start_index() == old(self).start_index(),
            final(self).end_index() == old(self).end_index(),
            final(self).iteration_budget() == old(self).iteration_budget(),
            final(self).iteration() == old(self).iteration(),
            final(self).iterations_done() == old(self).iterations_done(),
            final(self).found_path() == old(self).found_path(),
    {
        self.search_method = method;
    }

    /// The route found last as positions, with its cost and its length.
    pub fn get_path_as_positions(&self, nodes: &Vec<Node>) -> (found: Option<
        (Vec<Position>, u64, u64),
    >)
        requires
            match self.found_path() {
                Some((path, time, distance)) => forall|k: int|
                    0 <= k < path.len() ==> (#[trigger] path[k]) < nodes@.len(),
                None => true,
            },
        ensures
            match (found, self.found_path()) {
                (Some((positions, time, distance)), Some((path, path_time, path_distance))) => {
                    &&& time == path_time
                    &&& distance == path_distance
                    &&& positions@.len() == path.len()
                    &&& forall|k: int|
                        0 <= k < path.len() ==> (#[trigger] positions@[k])
                            == nodes@[path[k] as int].position
                },
                (None, None) => true,
                _ => false,
            },
    {
        match &self.path {
            Some((indices, time, distance)) => {
                let mut positions: Vec<Position> = Vec::new();
                let mut k: usize = 0;
                while k < indices.len()
                    invariant
                        k <= indices@.len(),
                        positions@.len() == k,
                        forall|m: int| 0 <= m < indices@.len()
                            ==> (#[trigger] indices@[m]) < nodes@.len(),
                        forall|m: int|
                            0 <= m < k ==> (#[trigger] positions@[m])
                                == nodes@[indices@[m] as int].position,
                    decreases indices@.len() - k,
                {
                    positions.push(nodes[indices[k] as usize].position);
                    k = k + 1;
                }
                Some((positions, *time, *distance))
            },
            None => None,
        }
    }

    /// Whether the primary queue is empty: nothing is left to do, once a
    /// batch has ended.
    pub fn fully_searched(&self) -> (done: bool)
        ensures
            done == (self.queue().len() == 0),
    {
        radix_is_empty(&self.heap)
    }

    /// The node at which the search begins.
    pub fn get_start_node_index(&self) -> (index: usize)
        ensures
            index == self.start_index(),
    {
        self.start_node as usize
    }

    /// The node that the search is to reach.
    pub fn get_end_node_index(&self) -> (index: usize)
        ensures
            index == self.end_index(),
    {
        self.end_node as usize
    }

    /// The route found last: its nodes from start to end, its cost in
    /// milliseconds and its length in metres.
    pub fn get_path_as_indices(&self) -> (path: &Option<(Vec<u32>, u64, u64)>)
        ensures
            match *path {
                Some((nodes, time, distance)) => self.found_path() == Some(
                    (nodes@, time, distance),
                ),
                None => self.found_path() is None,
            },
    {
        &self.path
    }
}

/// Whether each node of `path` but the last has an edge to the next, of
/// the length that `distances` records for the next.
pub open spec fn is_walk(nodes: Seq<Node>, distances: Seq<u32>, path: Seq<u32>) -> bool {
    forall|k: int|
        0 <= k < path.len() - 1 ==> has_edge(
            nodes,
            #[trigger] path[k] as int,
            path[k + 1] as int,
            distances[path[k + 1] as int] as int,
        )
}

/// The summed lengths that `distances` records for the nodes of `path` but
/// the first: the lengths of the edges of the walk.
pub open spec fn path_length(distances: Seq<u32>, path: Seq<u32>) -> int
    decreases path.len(),
{
    if path.len() <= 1 {
        0
    } else {
        path_length(distances, path.drop_last()) + distances[path.last() as int]
    }
}

/// In every state of a search, a reached node with a predecessor costs no
/// less than its predecessor.
pub proof fn lemma_cost_not_below_previous(solver: &Solver, nodes: Seq<Node>, i: int)
    requires
        solver.inv(nodes),
        0 <= i < solver.node_count(),
        solver.previous()[i] != NO_PREVIOUS,
    ensures
        solver.previous()[i] < solver.node_count(),
        solver.costs()[i] >= solver.costs()[solver.previous()[i] as int],
        solver.costs()[i] != UNREACHED,
{
}

/// Following the predecessors back from a node gives a walk through the
/// graph that ends in that node: consecutive nodes are joined by an edge of
/// the recorded length, and these lengths sum to the length of the walk.
/// If the node is reached, so is every node of the walk; and if the walk
/// begins at a node without predecessor, that node is the start.
pub proof fn lemma_walk_is_connected(solver: &Solver, nodes: Seq<Node>, node: u32, hops: nat)
    requires
        solver.inv(nodes),
        node < solver.node_count(),
    ensures
        ({
            let path = walk(solver.previous(), node, hops);
            &&& 1 <= path.len() <= hops + 1
            &&& path.last() == node
            &&& forall|k: int| 0 <= k < path.len() ==> (#[trigger] path[k]) < solver.node_count()
            &&& is_walk(nodes, solver.distances(), path)
            &&& path_length(solver.distances(), path) == walk_length(
                solver.previous(),
                solver.distances(),
                node,
                hops,
            )
            &&& solver.costs()[node as int] != UNREACHED ==> solver.costs()[path[0] as int]
                != UNREACHED
            &&& solver.costs()[node as int] != UNREACHED && solver.previous()[path[0] as int]
                == NO_PREVIOUS ==> path[0] == solver.start_index()
        }),
    decreases hops,
{
    let previous = solver.previous();
    let path = walk(previous, node, hops);
    if hops == 0 || previous[node as int] == NO_PREVIOUS {
        assert(path =~= seq![node]);
    } else {
        let from = previous[node as int];
        lemma_walk_is_connected(solver, nodes, from, (hops - 1) as nat);
        let rest = walk(previous, from, (hops - 1) as nat);
        assert(path == rest.push(node));
        assert(path.drop_last() =~= rest);
        assert forall|k: int| 0 <= k < path.len() - 1 implies has_edge(
            nodes,
            #[trigger] path[k] as int,
            path[k + 1] as int,
            solver.distances()[path[k + 1] as int] as int,
        ) by {
            if k < rest.len() - 1 {
                assert(path[k] == rest[k]);
                assert(path[k + 1] == rest[k + 1]);
            } else {
                assert(path[k] == from);
            }
        }
    }
}

/// The route that a search reports for a reached end is a walk through the
/// graph that ends in the end, and the lengths of its edges sum to the
/// reported length. It begins at the start if following the predecessors
/// came to a node without one, which is so unless the hop count of the end
/// cut the walk short.
pub proof fn lemma_route_is_connected(solver: &Solver, nodes: Seq<Node>)
    requires
        solver.inv(nodes),
        solver.costs()[solver.end_index() as int] != UNREACHED,
    ensures
        solver.route(nodes).0.len() >= 1,
        solver.route(nodes).0.last() == solver.end_index(),
        is_walk(nodes, solver.distances(), solver.route(nodes).0),
        path_length(solver.distances(), solver.route(nodes).0) == solver.route(nodes).1,
        solver.previous()[solver.route(nodes).0[0] as int] == NO_PREVIOUS ==> solver.route(
            nodes,
        ).0[0] == solver.start_index(),
{
    lemma_walk_is_connected(
        solver,
        nodes,
        solver.end_index(),
        solver.lens()[solver.end_index() as int] as nat,
    );
}

/// Whether `edges` lead through the graph along `path`: the edge number
/// `edges[k]` of the node `path[k]` leads to the node `path[k + 1]`.
pub open spec fn is_route(nodes: Seq<Node>, path: Seq<u32>, edges: Seq<int>) -> bool {
    &&& path.len() == edges.len() + 1
    &&& forall|k: int|
        0 <= k < edges.len() ==> {
            &&& (#[trigger] path[k]) < nodes.len()
            &&& 0 <= edges[k] < nodes[path[k] as int].connections@.len()
            &&& nodes[path[k] as int].connections@[edges[k]].index == path[k + 1]
        }
}

/// The summed lengths in metres of the first `k` edges of a route.
pub open spec fn route_length(nodes: Seq<Node>, path: Seq<u32>, edges: Seq<int>, k: nat) -> int
    decreases k,
{
    if k == 0 {
        0
    } else {
        route_length(nodes, path, edges, (k - 1) as nat) + nodes[path[k
            - 1] as int].connections@[edges[k - 1]].cost
    }
}

/// The length of a route grows with the number of its edges.
pub proof fn lemma_route_length_grows(
    nodes: Seq<Node>,
    path: Seq<u32>,
    edges: Seq<int>,
    k: nat,
    n: nat,
)
    requires
        k <= n,
    ensures
        0 <= route_length(nodes, path, edges, k) <= route_length(nodes, path, edges, n),
    decreases n,
{
    if k < n {
        lemma_route_length_grows(nodes, path, edges, k, (n - 1) as nat);
    } else if k > 0 {
        lemma_route_length_grows(nodes, path, edges, (k - 1) as nat, (k - 1) as nat);
    }
}

/// In a settled search for the shortest route in which nothing waits, the
/// end or the node after `k` edges of a route from the start costs no more
/// than the route does so far, if the whole route stays within `MAX_COST`.
proof fn lemma_shortest_prefix(
    solver: &Solver,
    nodes: Seq<Node>,
    minute: u32,
    path: Seq<u32>,
    edges: Seq<int>,
    k: nat,
)
    requires
        solver.inv(nodes),
        solver.settled(nodes, minute),
        solver.pending() == 0,
        solver.method() == SearchMethod::SHORTEST,
        is_route(nodes, path, edges),
        path[0] == solver.start_index(),
        k <= edges.len(),
        60 * route_length(nodes, path, edges, edges.len()) <= MAX_COST,
    ensures
        path[k as int] < nodes.len(),
        solver.costs()[solver.end_index() as int] <= 60 * route_length(
            nodes,
            path,
            edges,
            edges.len(),
        ) || solver.costs()[path[k as int] as int] <= 60 * route_length(nodes, path, edges, k),
    decreases k,
{
    broadcast use vstd::multiset::group_multiset_axioms;

    let total = 60 * route_length(nodes, path, edges, edges.len());
    if k > 0 {
        lemma_shortest_prefix(solver, nodes, minute, path, edges, (k - 1) as nat);
        lemma_route_length_grows(nodes, path, edges, (k - 1) as nat, edges.len());
        lemma_route_length_grows(nodes, path, edges, k, edges.len());
        let from = path[k - 1] as int;
        let connection = nodes[from].connections@[edges[k - 1]];
        let so_far = 60 * route_length(nodes, path, edges, (k - 1) as nat);
        assert(connection.index == path[k as int]);
        assert(connection.index < nodes.len());
        if solver.costs()[solver.end_index() as int] > total {
            assert(solver.costs()[from] <= so_far);
            assert(solver.node_settled(nodes, minute, from));
            assert(!solver.waits(from)) by {
                vstd::multiset::lemma_multiset_empty_len(solver.queue());
                vstd::multiset::lemma_multiset_empty_len(solver.backlog());
                assert forall|key: u32| !#[trigger] solver.waiting_at(key, from as u32) by {}
            }
            assert(solver.edge_relaxed(nodes, minute, from, edges[k - 1]));
        }
    }
}

/// A finished search for the shortest route has found one: when nothing
/// waits in a settled search under `SHORTEST`, the end costs no more than
/// sixty times the length of any route from the start to the end that stays
/// within `MAX_COST`.
pub proof fn lemma_shortest_is_shortest(
    solver: &Solver,
    nodes: Seq<Node>,
    minute: u32,
    path: Seq<u32>,
    edges: Seq<int>,
)
    requires
        solver.inv(nodes),
        solver.settled(nodes, minute),
        solver.pending() == 0,
        solver.method() == SearchMethod::SHORTEST,
        is_route(nodes, path, edges),
        path[0] == solver.start_index(),
        path.last() == solver.end_index(),
        60 * route_length(nodes, path, edges, edges.len()) <= MAX_COST,
    ensures
        solver.costs()[solver.end_index() as int] <= 60 * route_length(
            nodes,
            path,
            edges,
            edges.len(),
        ),
{
    lemma_shortest_prefix(solver, nodes, minute, path, edges, edges.len());
}

/// In a search that counts by length, a node costs at least sixty times
/// the length of the walk that leads back from it, on top of what the node
/// costs at which the walk begins.
pub proof fn lemma_walk_within_cost(solver: &Solver, nodes: Seq<Node>, node: u32, hops: nat)
    requires
        solver.inv(nodes),
        solver.by_length(),
        node < solver.node_count(),
    ensures
        60 * walk_length(solver.previous(), solver.distances(), node, hops)
            + solver.costs()[walk(solver.previous(), node, hops)[0] as int]
            <= solver.costs()[node as int],
    decreases hops,
{
    let previous = solver.previous();
    if hops == 0 || previous[node as int] == NO_PREVIOUS {
        assert(walk(previous, node, hops) =~= seq![node]);
    } else {
        let from = previous[node as int];
        lemma_walk_within_cost(solver, nodes, from, (hops - 1) as nat);
        lemma_walk_is_connected(solver, nodes, from, (hops - 1) as nat);
        let rest = walk(previous, from, (hops - 1) as nat);
        assert(walk(previous, node, hops) == rest.push(node));
        assert(rest.push(node)[0] == rest[0]);
    }
}

/// **A finished search for the shortest route reports a shortest route.**
/// When nothing waits in a settled search that has counted by length, and
/// the route it reports begins at the start, then no route through the
/// graph from the start to the end is shorter than the reported one.
pub proof fn lemma_shortest_route_is_shortest(
    solver: &Solver,
    nodes: Seq<Node>,
    minute: u32,
    path: Seq<u32>,
    edges: Seq<int>,
)
    requires
        solver.inv(nodes),
        solver.settled(nodes, minute),
        solver.pending() == 0,
        solver.method() == SearchMethod::SHORTEST,
        solver.by_length(),
        solver.costs()[solver.end_index() as int] != UNREACHED,
        solver.previous()[solver.route(nodes).0[0] as int] == NO_PREVIOUS,
        is_route(nodes, path, edges),
        path[0] == solver.start_index(),
        path.last() == solver.end_index(),
    ensures
        solver.route(nodes).1 <= route_length(nodes, path, edges, edges.len()),
{
    let end = solver.end_index();
    let hops = solver.lens()[end as int] as nat;
    lemma_walk_within_cost(solver, nodes, end, hops);
    lemma_walk_is_connected(solver, nodes, end, hops);
    lemma_route_length_grows(nodes, path, edges, 0, edges.len());
    if 60 * route_length(nodes, path, edges, edges.len()) <= MAX_COST {
        lemma_shortest_is_shortest(solver, nodes, minute, path, edges);
    }
}

/// The summed floor weights of the first `k` edges of a route.
pub open spec fn route_cost(
    nodes: Seq<Node>,
    method: SearchMethod,
    path: Seq<u32>,
    edges: Seq<int>,
    k: nat,
) -> int
    decreases k,
{
    if k == 0 {
        0
    } else {
        route_cost(nodes, method, path, edges, (k - 1) as nat) + edge_floor(
            nodes,
            method,
            path[k - 1] as int,
            edges[k - 1],
        )
    }
}

/// Whether `path` and `edges` are a route from `from` to `to` whose floor
/// weights sum to `bound` at most.
pub open spec fn is_way(
    nodes: Seq<Node>,
    method: SearchMethod,
    from: u32,
    to: int,
    bound: int,
    path: Seq<u32>,
    edges: Seq<int>,
) -> bool {
    &&& is_route(nodes, path, edges)
    &&& path[0] == from
    &&& path.last() == to
    &&& route_cost(nodes, method, path, edges, edges.len()) <= bound
}

/// The cost of the first `k` edges of a route is that of any route that
/// begins with the same `k` edges; and no cost is negative.
pub proof fn lemma_route_cost_of_prefix(
    nodes: Seq<Node>,
    method: SearchMethod,
    path: Seq<u32>,
    edges: Seq<int>,
    longer_path: Seq<u32>,
    longer_edges: Seq<int>,
    k: nat,
)
    requires
        k <= edges.len() <= longer_edges.len(),
        k < path.len() <= longer_path.len(),
        forall|i: int| 0 <= i < path.len() ==> path[i] == longer_path[i],
        forall|i: int| 0 <= i < edges.len() ==> edges[i] == longer_edges[i],
    ensures
        route_cost(nodes, method, path, edges, k) == route_cost(
            nodes,
            method,
            longer_path,
            longer_edges,
            k,
        ),
    decreases k,
{
    if k > 0 {
        lemma_route_cost_of_prefix(
            nodes,
            method,
            path,
            edges,
            longer_path,
            longer_edges,
            (k - 1) as nat,
        );
    }
}

/// A route with one more edge at its end is a route, and costs what the
/// route and the edge cost.
pub proof fn lemma_route_extended(
    nodes: Seq<Node>,
    method: SearchMethod,
    path: Seq<u32>,
    edges: Seq<int>,
    edge: int,
)
    requires
        is_route(nodes, path, edges),
        path.last() < nodes.len(),
        0 <= edge < nodes[path.last() as int].connections@.len(),
    ensures
        is_route(
            nodes,
            path.push(nodes[path.last() as int].connections@[edge].index),
            edges.push(edge),
        ),
        route_cost(
            nodes,
            method,
            path.push(nodes[path.last() as int].connections@[edge].index),
            edges.push(edge),
            edges.len() + 1,
        ) == route_cost(nodes, method, path, edges, edges.len()) + edge_floor(
            nodes,
            method,
            path.last() as int,
            edge,
        ),
{
    let to = nodes[path.last() as int].connections@[edge].index;
    let longer_path = path.push(to);
    let longer_edges = edges.push(edge);
    lemma_route_cost_of_prefix(nodes, method, path, edges, longer_path, longer_edges, edges.len());
    assert forall|k: int| 0 <= k < longer_edges.len() implies {
        &&& (#[trigger] longer_path[k]) < nodes.len()
        &&& 0 <= longer_edges[k] < nodes[longer_path[k] as int].connections@.len()
        &&& nodes[longer_path[k] as int].connections@[longer_edges[k]].index == longer_path[k + 1]
    } by {
        if k < edges.len() {
            assert(path[k] < nodes.len());
            assert(longer_path[k] == path[k]);
            assert(longer_path[k + 1] == path[k + 1]);
        }
    }
}

/// The cost of a route grows with the number of its edges.
pub proof fn lemma_route_cost_grows(
    nodes: Seq<Node>,
    method: SearchMethod,
    path: Seq<u32>,
    edges: Seq<int>,
    k: nat,
    n: nat,
)
    requires
        k <= n,
    ensures
        0 <= route_cost(nodes, method, path, edges, k) <= route_cost(nodes, method, path, edges, n),
    decreases n,
{
    if n > 0 {
        let from = nodes[path[n - 1] as int];
        lemma_floor_weight(method, from.connections@[edges[n - 1]], from.node_type, from.flag, 0);
        if k < n {
            lemma_route_cost_grows(nodes, method, path, edges, k, (n - 1) as nat);
        } else {
            lemma_route_cost_grows(nodes, method, path, edges, (k - 1) as nat, (k - 1) as nat);
        }
    }
}

/// In a settled search in which nothing waits and the time of day decides
/// nothing, the end or the node after `k` edges of a route from the start
/// costs no more than the route does so far, if the whole route stays
/// within `MAX_COST`.
proof fn lemma_cheapest_prefix(
    solver: &Solver,
    nodes: Seq<Node>,
    minute: u32,
    path: Seq<u32>,
    edges: Seq<int>,
    k: nat,
)
    requires
        solver.inv(nodes),
        minute < 60,
        solver.settled(nodes, minute),
        solver.pending() == 0,
        steady(nodes, solver.method()),
        is_route(nodes, path, edges),
        path[0] == solver.start_index(),
        k <= edges.len(),
        route_cost(nodes, solver.method(), path, edges, edges.len()) <= MAX_COST,
    ensures
        path[k as int] < nodes.len(),
        solver.costs()[solver.end_index() as int] <= route_cost(
            nodes,
            solver.method(),
            path,
            edges,
            edges.len(),
        ) || solver.costs()[path[k as int] as int] <= route_cost(
            nodes,
            solver.method(),
            path,
            edges,
            k,
        ),
    decreases k,
{
    broadcast use vstd::multiset::group_multiset_axioms;

    let method = solver.method();
    let total = route_cost(nodes, method, path, edges, edges.len());
    if k > 0 {
        lemma_cheapest_prefix(solver, nodes, minute, path, edges, (k - 1) as nat);
        lemma_route_cost_grows(nodes, method, path, edges, (k - 1) as nat, edges.len());
        lemma_route_cost_grows(nodes, method, path, edges, k, edges.len());
        let from = path[k - 1] as int;
        let connection = nodes[from].connections@[edges[k - 1]];
        let so_far = route_cost(nodes, method, path, edges, (k - 1) as nat);
        assert(connection.index == path[k as int]);
        assert(connection.index < nodes.len());
        if solver.costs()[solver.end_index() as int] > total {
            assert(solver.costs()[from] <= so_far);
            assert(solver.node_settled(nodes, minute, from));
            assert(!solver.waits(from)) by {
                vstd::multiset::lemma_multiset_empty_len(solver.queue());
                vstd::multiset::lemma_multiset_empty_len(solver.backlog());
                assert forall|key: u32| !#[trigger] solver.waiting_at(key, from as u32) by {}
            }
            assert(solver.edge_relaxed(nodes, minute, from, edges[k - 1]));
            assert(is_steady_node(nodes[from]) || method == SearchMethod::SHORTEST);
            lemma_floor_weight(
                method,
                connection,
                nodes[from].node_type,
                nodes[from].flag,
                hour_at(minute, solver.costs()[from]) as u32,
            );
        }
    }
}

/// **Where the time of day decides nothing, a finished search has found
/// the least cost.** When nothing waits in a settled search, the end costs
/// no more than any route from the start to the end that stays within
/// `MAX_COST`; so the end is reached if there is such a route.
pub proof fn lemma_cheapest(
    solver: &Solver,
    nodes: Seq<Node>,
    minute: u32,
    path: Seq<u32>,
    edges: Seq<int>,
)
    requires
        solver.inv(nodes),
        minute < 60,
        solver.settled(nodes, minute),
        solver.pending() == 0,
        steady(nodes, solver.method()),
        is_route(nodes, path, edges),
        path[0] == solver.start_index(),
        path.last() == solver.end_index(),
        route_cost(nodes, solver.method(), path, edges, edges.len()) <= MAX_COST,
    ensures
        solver.costs()[solver.end_index() as int] <= route_cost(
            nodes,
            solver.method(),
            path,
            edges,
            edges.len(),
        ),
{
    lemma_cheapest_prefix(solver, nodes, minute, path, edges, edges.len());
}

/// **The cost of the end is the cost of a cheapest route.** Where the time
/// of day decides nothing, and nothing waits in a settled search that has
/// attained what it reached, some route from the start to the end costs
/// exactly what the end costs, and none costs less.
pub proof fn lemma_cost_is_least(solver: &Solver, nodes: Seq<Node>, minute: u32) -> (way: (
    Seq<u32>,
    Seq<int>,
))
    requires
        solver.inv(nodes),
        minute < 60,
        solver.settled(nodes, minute),
        solver.pending() == 0,
        steady(nodes, solver.method()),
        solver.attained(nodes),
        solver.costs()[solver.end_index() as int] != UNREACHED,
    ensures
        is_route(nodes, way.0, way.1),
        way.0[0] == solver.start_index(),
        way.0.last() == solver.end_index(),
        route_cost(nodes, solver.method(), way.0, way.1, way.1.len())
            == solver.costs()[solver.end_index() as int],
        forall|path: Seq<u32>, edges: Seq<int>|
            is_route(nodes, path, edges) && path[0] == solver.start_index() && path.last()
                == solver.end_index() ==> solver.costs()[solver.end_index() as int]
                <= #[trigger] route_cost(nodes, solver.method(), path, edges, edges.len()),
{
    let end = solver.end_index() as int;
    let (path, edges) = choose|path: Seq<u32>, edges: Seq<int>|
        #[trigger] is_way(
            nodes,
            solver.method(),
            solver.start_index(),
            end,
            solver.costs()[end] as int,
            path,
            edges,
        );
    lemma_cheapest(solver, nodes, minute, path, edges);
    assert forall|other: Seq<u32>, other_edges: Seq<int>|
        is_route(nodes, other, other_edges) && other[0] == solver.start_index() && other.last()
            == solver.end_index() implies solver.costs()[end] <= #[trigger] route_cost(
        nodes,
        solver.method(),
        other,
        other_edges,
        other_edges.len(),
    ) by {
        if route_cost(nodes, solver.method(), other, other_edges, other_edges.len()) <= MAX_COST {
            lemma_cheapest(solver, nodes, minute, other, other_edges);
        }
    }
    (path, edges)
}

/// A node to which no route leads from the start is not reached, in a
/// search that has attained what it reached.
pub proof fn lemma_no_route_no_cost(solver: &Solver, nodes: Seq<Node>, node: int)
    requires
        solver.attained(nodes),
        0 <= node < solver.node_count(),
        forall|path: Seq<u32>, edges: Seq<int>|
            !(#[trigger] is_route(nodes, path, edges) && path[0] == solver.start_index()
                && path.last() == node),
    ensures
        solver.costs()[node] == UNREACHED,
{
    if solver.costs()[node] != UNREACHED {
        let (path, edges) = choose|path: Seq<u32>, edges: Seq<int>|
            #[trigger] is_way(
                nodes,
                solver.method(),
                solver.start_index(),
                node,
                solver.costs()[node] as int,
                path,
                edges,
            );
        assert(is_route(nodes, path, edges));
    }
}

/// In a settled search in which nothing waits and the time of day decides
/// nothing, the walk back from a reached node that costs no more than the
/// end, for as many hops as the node counts, comes to the start, and along
/// it every node costs exactly what its predecessor and the edge between
/// them cost.
proof fn lemma_tight_walk(solver: &Solver, nodes: Seq<Node>, minute: u32, node: u32) -> (edges:
    Seq<int>)
    requires
        solver.inv(nodes),
        minute < 60,
        solver.settled(nodes, minute),
        solver.pending() == 0,
        steady(nodes, solver.method()),
        solver.attained(nodes),
        node < solver.node_count(),
        solver.costs()[node as int] != UNREACHED,
        solver.costs()[node as int] <= solver.costs()[solver.end_index() as int],
        solver.lens()[node as int] < u16::MAX,
    ensures
        ({
            let path = walk(solver.previous(), node, solver.lens()[node as int] as nat);
            &&& path.len() == solver.lens()[node as int] + 1
            &&& edges.len() == solver.lens()[node as int]
            &&& path[0] == solver.start_index()
            &&& path.last() == node
            &&& is_route(nodes, path, edges)
            &&& route_cost(nodes, solver.method(), path, edges, edges.len())
                == solver.costs()[node as int]
        }),
    decreases solver.lens()[node as int],
{
    broadcast use vstd::multiset::group_multiset_axioms;

    let previous = solver.previous();
    let method = solver.method();
    let hops = solver.lens()[node as int] as nat;
    if previous[node as int] == NO_PREVIOUS {
        assert(node == solver.start_index());
        assert(solver.lens()[node as int] == 0);
        assert(walk(previous, node, hops) =~= seq![node]);
        Seq::<int>::empty()
    } else {
        let from = previous[node as int];
        let edge = choose|edge: int| #[trigger] solver.tight_edge(nodes, node as int, edge);
        let floor = edge_floor(nodes, method, from as int, edge);
        let connection = nodes[from as int].connections@[edge];
        lemma_floor_weight(
            method,
            connection,
            nodes[from as int].node_type,
            nodes[from as int].flag,
            hour_at(minute, solver.costs()[from as int]) as u32,
        );
        assert(solver.costs()[from as int] <= solver.costs()[node as int]);
        // the edge is tight
        if from != solver.end_index() && solver.costs()[solver.end_index() as int]
            > solver.costs()[from as int] {
            assert(solver.node_settled(nodes, minute, from as int));
            assert(!solver.waits(from as int)) by {
                vstd::multiset::lemma_multiset_empty_len(solver.queue());
                vstd::multiset::lemma_multiset_empty_len(solver.backlog());
                assert forall|key: u32| !#[trigger] solver.waiting_at(key, from) by {}
            }
            assert(solver.edge_relaxed(nodes, minute, from as int, edge));
            assert(is_steady_node(nodes[from as int]) || method == SearchMethod::SHORTEST);
        }
        assert(solver.costs()[node as int] == solver.costs()[from as int] + floor);
        assert(solver.lens()[node as int] == next_hop(solver.lens()[from as int]));
        let rest = lemma_tight_walk(solver, nodes, minute, from);
        let path = walk(previous, from, solver.lens()[from as int] as nat);
        assert(walk(previous, node, hops) == path.push(node));
        lemma_route_extended(nodes, method, path, rest, edge);
        assert(path.push(node)[0] == path[0]);
        rest.push(edge)
    }
}

/// **Where the time of day decides nothing, the route that a finished
/// search reports is a cheapest route.** When nothing waits in a settled
/// search that has accounted for what it reached, and the end is reached in
/// fewer hops than hop counts go to, the reported route begins at the
/// start, ends at the end, has one node more than the end counts hops,
/// follows edges of the graph, and costs exactly what the end costs; and
/// no route from the start to the end costs less.
pub proof fn lemma_route_is_cheapest(solver: &Solver, nodes: Seq<Node>, minute: u32) -> (edges:
    Seq<int>)
    requires
        solver.inv(nodes),
        minute < 60,
        solver.settled(nodes, minute),
        solver.pending() == 0,
        steady(nodes, solver.method()),
        solver.attained(nodes),
        solver.costs()[solver.end_index() as int] != UNREACHED,
        solver.lens()[solver.end_index() as int] < u16::MAX,
    ensures
        solver.route(nodes).0.len() == solver.lens()[solver.end_index() as int] + 1,
        solver.route(nodes).0[0] == solver.start_index(),
        solver.route(nodes).0.last() == solver.end_index(),
        is_route(nodes, solver.route(nodes).0, edges),
        route_cost(nodes, solver.method(), solver.route(nodes).0, edges, edges.len())
            == solver.costs()[solver.end_index() as int],
        forall|path: Seq<u32>, other: Seq<int>|
            is_route(nodes, path, other) && path[0] == solver.start_index() && path.last()
                == solver.end_index() ==> solver.costs()[solver.end_index() as int]
                <= #[trigger] route_cost(nodes, solver.method(), path, other, other.len()),
{
    let edges = lemma_tight_walk(solver, nodes, minute, solver.end_index());
    let way = lemma_cost_is_least(solver, nodes, minute);
    edges
}

} // verus!
