//! What ties the parts together: building the spatial index, classifying
//! nodes by the lights near them, finding the node nearest to a point, and
//! naming the suburb of each light.

use crate::clock::current_minute;
use crate::geometry::{distance_sq, distance_squared, Boundary, Position};
use crate::loader::{
    frames, holder, lemma_frames_count, load_fault, load_from_bytes, loaded, record, ByteConvertable,
    LoadError,
};
use crate::node::{
    positions_of, same_but_types, target_at, targets_below, types_after_light, types_of, Located,
    Node, NodeType,
};
use crate::parallel_list::{all_filled, ParallelList};
use crate::quad_tree::QuadTree;
use crate::solver::{
    has_edge, is_valid_graph, steady, valid_graph, SearchMethod, Solver, MAX_TIME, NO_PREVIOUS,
    UNREACHED,
};
use crate::suburb::Suburb;
use crate::traffic_light::TrafficLight;
use crate::traits::{Indexable, Positional};
use vstd::prelude::*;

verus! {

/// A quarter turn in coordinate units: 90 degrees.
pub const QUARTER_TURN: i32 = 900_000_000;

/// A quarter turn the other way.
pub const MINUS_QUARTER_TURN: i32 = -900_000_000;

/// The corner with the least coordinates among `QUARTER_TURN` on both axes
/// and the first `k` positions of `values`.
pub open spec fn least_corner<T: Positional>(values: Seq<T>, k: nat) -> Position
    decreases k,
{
    if k == 0 {
        Position { x: QUARTER_TURN, y: QUARTER_TURN }
    } else {
        let before = least_corner(values, (k - 1) as nat);
        let p = values[k - 1].position_spec();
        Position {
            x: if p.x < before.x {
                p.x
            } else {
                before.x
            },
            y: if p.y < before.y {
                p.y
            } else {
                before.y
            },
        }
    }
}

/// The corner with the greatest coordinates among `MINUS_QUARTER_TURN` on both
/// axes and the first `k` positions of `values`.
pub open spec fn greatest_corner<T: Positional>(values: Seq<T>, k: nat) -> Position
    decreases k,
{
    if k == 0 {
        Position { x: MINUS_QUARTER_TURN, y: MINUS_QUARTER_TURN }
    } else {
        let before = greatest_corner(values, (k - 1) as nat);
        let p = values[k - 1].position_spec();
        Position {
            x: if p.x > before.x {
                p.x
            } else {
                before.x
            },
            y: if p.y > before.y {
                p.y
            } else {
                before.y
            },
        }
    }
}

/// The box between the two corners for the first `k` of `values`.
pub open spec fn box_of<T: Positional>(values: Seq<T>, k: nat) -> Boundary {
    Boundary { corner_min: least_corner(values, k), corner_max: greatest_corner(values, k) }
}

/// The box that `get_boundary` gives for `values`.
pub open spec fn bounds_of<T: Positional>(values: Seq<T>) -> Boundary {
    box_of(values, values.len())
}

/// The box between the two corners holds each of the first `k` positions.
pub proof fn lemma_corners_hold<T: Positional>(values: Seq<T>, k: nat, i: int)
    requires
        0 <= i < k <= values.len(),
    ensures
        box_of(values, k).contains_spec(values[i].position_spec()),
    decreases k,
{
    if i < k - 1 {
        lemma_corners_hold(values, (k - 1) as nat, i);
    }
}

/// The least box that holds every position of `values` and has no corner
/// beyond a quarter turn from the origin on the inside: its least corner is
/// at most `QUARTER_TURN`, its greatest at least `MINUS_QUARTER_TURN`.
pub fn get_boundary<T: Positional>(values: &Vec<T>) -> (boundary: Boundary)
    ensures
        boundary == bounds_of(values@),
{
    let mut min = Position { x: QUARTER_TURN, y: QUARTER_TURN };
    let mut max = Position { x: MINUS_QUARTER_TURN, y: MINUS_QUARTER_TURN };
    let mut i: usize = 0;
    while i < values.len()
        invariant
            i <= values@.len(),
            min == least_corner(values@, i as nat),
            max == greatest_corner(values@, i as nat),
        decreases values@.len() - i,
    {
        let position = *values[i].position();
        if position.x < min.x {
            min.x = position.x;
        }
        if position.y < min.y {
            min.y = position.y;
        }
        if position.x > max.x {
            max.x = position.x;
        }
        if position.y > max.y {
            max.y = position.y;
        }
        i = i + 1;
    }
    Boundary { corner_max: max, corner_min: min }
}

/// `size` copies of `default`.
pub fn new_slice<T: Copy>(default: T, size: usize) -> (slice: Vec<T>)
    ensures
        slice@.len() == size,
        forall|i: int| 0 <= i < size ==> (#[trigger] slice@[i]) == default,
{
    let mut slice: Vec<T> = Vec::new();
    let mut i: usize = 0;
    while i < size
        invariant
            i <= size,
            slice@.len() == i,
            forall|j: int| 0 <= j < i ==> (#[trigger] slice@[j]) == default,
        decreases size - i,
    {
        slice.push(default);
        i = i + 1;
    }
    slice
}

/// `size` coordinates, all zero.
pub fn new_pos_slice(size: usize) -> (slice: Vec<i32>)
    ensures
        slice@.len() == size,
        forall|i: int| 0 <= i < size ==> (#[trigger] slice@[i]) == 0,
{
    new_slice(0i32, size)
}

/// `size` numbers, all zero.
pub fn new_usize_slice(size: usize) -> (slice: Vec<usize>)
    ensures
        slice@.len() == size,
        forall|i: int| 0 <= i < size ==> (#[trigger] slice@[i]) == 0,
{
    new_slice(0usize, size)
}

/// `size` bytes, all zero.
pub fn new_u8_slice(size: usize) -> (slice: Vec<u8>)
    ensures
        slice@.len() == size,
        forall|i: int| 0 <= i < size ==> (#[trigger] slice@[i]) == 0,
{
    new_slice(0u8, size)
}

/// What the index keeps of each of `values`: its place and its slot.
pub open spec fn located<T: Positional + Indexable>(values: Seq<T>) -> Seq<Located> {
    Seq::new(
        values.len(),
        |i: int| Located { position: values[i].position_spec(), index: values[i].index_spec() },
    )
}

/// A quadtree over the box of `values` that holds the place and the slot
/// of each of them.
pub fn create_tree<T: Positional + Indexable>(values: &Vec<T>) -> (tree: QuadTree<Located>)
    ensures
        tree.wf(),
        tree.depth == 0,
        tree.boundary == bounds_of(values@),
        tree.items() == located(values@).to_multiset(),
{
    broadcast use vstd::seq_lib::group_to_multiset_ensures;

    let boundary = get_boundary(values);
    let mut tree: QuadTree<Located> = QuadTree::new(boundary, 0);
    let mut i: usize = 0;
    proof {
        assert(located(values@).subrange(0, 0) =~= Seq::<Located>::empty());
    }
    while i < values.len()
        invariant
            i <= values@.len(),
            tree.wf(),
            tree.depth == 0,
            tree.boundary == bounds_of(values@),
            tree.items() == located(values@).subrange(0, i as int).to_multiset(),
        decreases values@.len() - i,
    {
        let item = Located { position: *values[i].position(), index: values[i].index() };
        proof {
            lemma_corners_hold(values@, values@.len(), i as int);
            assert(item == located(values@)[i as int]);
            assert(located(values@).subrange(0, i + 1) == located(values@).subrange(
                0,
                i as int,
            ).push(item));
            vstd::seq_lib::to_multiset_build(located(values@).subrange(0, i as int), item);
        }
        tree.add_data(item);
        i = i + 1;
    }
    proof {
        assert(located(values@).subrange(0, i as int) == located(values@));
    }
    tree
}

/// The types of the nodes once the first `k` of `lights` have been taken
/// into account: each light is held against the nodes in the bucket of the
/// leaf of `tree` that the light falls in.
pub open spec fn types_after_lights(
    types: Seq<NodeType>,
    positions: Seq<Position>,
    lights: Seq<TrafficLight>,
    tree: QuadTree<Located>,
    k: nat,
) -> Seq<NodeType>
    decreases k,
{
    if k == 0 {
        types
    } else {
        let before = types_after_lights(types, positions, lights, tree, (k - 1) as nat);
        match tree.find_spec(lights[k - 1].position) {
            Some(bucket) => types_after_light(
                before,
                positions,
                lights[k - 1].position,
                bucket,
                bucket.len(),
            ),
            None => before,
        }
    }
}

/// The types that nodes at `positions` get from `lights`: every node starts
/// as `Normal`, then every light is taken into account.
pub open spec fn association(
    positions: Seq<Position>,
    lights: Seq<TrafficLight>,
    tree: QuadTree<Located>,
) -> Seq<NodeType> {
    types_after_lights(
        Seq::new(positions.len(), |i: int| NodeType::Normal),
        positions,
        lights,
        tree,
        lights.len(),
    )
}

/// Classifying again gives the same types: what comes out depends on where
/// the nodes and the lights are, and on nothing that an earlier run left
/// behind.
pub proof fn lemma_association_is_idempotent(
    first: Seq<Node>,
    second: Seq<Node>,
    lights: Seq<TrafficLight>,
    tree: QuadTree<Located>,
)
    requires
        same_but_types(second, first),
        types_of(second) == association(positions_of(first), lights, tree),
    ensures
        association(positions_of(second), lights, tree) == types_of(second),
{
    assert(positions_of(second) =~= positions_of(first));
}

/// Sets every node to `Normal`, then takes every light into account: the
/// nodes in the bucket of the leaf that the light falls in are typed by
/// their distance to it.
pub fn associate_traffic_lights_to_nodes(
    nodes: &mut Vec<Node>,
    traffic_lights: &Vec<TrafficLight>,
    tree: &QuadTree<Located>,
)
    ensures
        same_but_types(final(nodes)@, old(nodes)@),
        types_of(final(nodes)@) == association(positions_of(old(nodes)@), traffic_lights@, *tree),
{
    let mut i: usize = 0;
    while i < nodes.len()
        invariant
            i <= nodes@.len(),
            same_but_types(nodes@, old(nodes)@),
            forall|j: int| 0 <= j < i ==> (#[trigger] nodes@[j]).node_type == NodeType::Normal,
        decreases nodes@.len() - i,
    {
        nodes[i].node_type = NodeType::Normal;
        i = i + 1;
    }
    proof {
        assert(types_of(nodes@) =~= Seq::new(
            positions_of(old(nodes)@).len(),
            |i: int| NodeType::Normal,
        ));
        assert(positions_of(nodes@) =~= positions_of(old(nodes)@));
    }
    let mut k: usize = 0;
    while k < traffic_lights.len()
        invariant
            k <= traffic_lights@.len(),
            same_but_types(nodes@, old(nodes)@),
            positions_of(nodes@) == positions_of(old(nodes)@),
            types_of(nodes@) == types_after_lights(
                Seq::new(positions_of(old(nodes)@).len(), |i: int| NodeType::Normal),
                positions_of(old(nodes)@),
                traffic_lights@,
                *tree,
                k as nat,
            ),
        decreases traffic_lights@.len() - k,
    {
        let traffic_light = &traffic_lights[k];
        match tree.find_data(&traffic_light.position) {
            Some(data) => {
                NodeType::assign_types(traffic_light, data, nodes);
            },
            None => {},
        }
        proof {
            assert(positions_of(nodes@) =~= positions_of(old(nodes)@));
        }
        k = k + 1;
    }
}

/// The place in `bucket` of the item nearest to `point` among the first
/// `k`; of several at the least distance, the first.
pub open spec fn nearest_in(bucket: Seq<Located>, point: Position, k: nat) -> Option<int>
    decreases k,
{
    if k == 0 {
        None
    } else {
        match nearest_in(bucket, point, (k - 1) as nat) {
            None => Some(k - 1),
            Some(best) => if distance_squared(bucket[best].position, point) > distance_squared(
                bucket[k - 1].position,
                point,
            ) {
                Some(k - 1)
            } else {
                Some(best)
            },
        }
    }
}

/// The item that `nearest_in` picks is one of the first `k`, and none of
/// them is nearer to the point.
pub proof fn lemma_nearest_is_nearest(bucket: Seq<Located>, point: Position, k: nat)
    requires
        k <= bucket.len(),
    ensures
        nearest_in(bucket, point, k) is Some <==> k > 0,
        k > 0 ==> 0 <= nearest_in(bucket, point, k)->0 < k,
        forall|j: int|
            0 <= j < k ==> distance_squared(
                bucket[nearest_in(bucket, point, k)->0].position,
                point,
            ) <= distance_squared((#[trigger] bucket[j]).position, point),
    decreases k,
{
    if k > 0 {
        lemma_nearest_is_nearest(bucket, point, (k - 1) as nat);
    }
}

/// The slot of the node nearest to `position` among those in the bucket of
/// the leaf of `tree` that `position` falls in; nothing if `position` is
/// outside the tree or the bucket is empty.
pub fn get_closest_node(tree: &QuadTree<Located>, position: &Position) -> (closest: Option<u32>)
    ensures
        match tree.find_spec(*position) {
            None => closest is None,
            Some(bucket) => match nearest_in(bucket, *position, bucket.len()) {
                None => closest is None,
                Some(best) => closest == Some(bucket[best].index),
            },
        },
{
    match tree.find_data(position) {
        None => None,
        Some(list) => {
            let mut closest: Option<u32> = None;
            let mut current_distance: u128 = 0;
            let mut k: usize = 0;
            while k < list.len()
                invariant
                    k <= list@.len(),
                    match nearest_in(list@, *position, k as nat) {
                        None => closest is None,
                        Some(best) => {
                            &&& 0 <= best < k
                            &&& closest == Some(list@[best].index)
                            &&& current_distance == distance_squared(
                                list@[best].position,
                                *position,
                            )
                        },
                    },
                decreases list@.len() - k,
            {
                let cell_distance = distance_sq(&list[k].position, position);
                if closest.is_none() || current_distance > cell_distance {
                    current_distance = cell_distance;
                    closest = Some(list[k].index);
                }
                k = k + 1;
            }
            closest
        },
    }
}

/// The place in `geometries` of the suburb of least area among the first
/// `k` that hold `point`; of several of the least area, the first.
pub open spec fn smallest_holding(geometries: Seq<Suburb>, point: Position, k: nat) -> Option<int>
    decreases k,
{
    if k == 0 {
        None
    } else {
        let before = smallest_holding(geometries, point, (k - 1) as nat);
        if !geometries[k - 1].inside_spec(point) {
            before
        } else {
            match before {
                None => Some(k - 1),
                Some(other) => if geometries[other].boundary.area_spec() > geometries[k
                    - 1].boundary.area_spec() {
                    Some(k - 1)
                } else {
                    Some(other)
                },
            }
        }
    }
}

/// The id of the suburb that `smallest_holding` picks among all of
/// `geometries`, or 0 if no suburb holds the point.
pub open spec fn suburb_id_of(geometries: Seq<Suburb>, point: Position) -> u32 {
    match smallest_holding(geometries, point, geometries.len()) {
        Some(chosen) => geometries[chosen].id,
        None => 0,
    }
}

/// Every suburb of `geometries` has as many x as y coordinates.
pub open spec fn all_outlined(geometries: Seq<Suburb>) -> bool {
    forall|i: int| 0 <= i < geometries.len() ==> (#[trigger] geometries[i]).wf()
}

/// The id of a light with the id of the suburb of least area that holds
/// it, or with 0 if none does.
pub fn suburb_of_light(geometries: &Vec<Suburb>, traffic_light: &TrafficLight) -> (pair: (
    u32,
    u32,
))
    requires
        all_outlined(geometries@),
    ensures
        pair == (traffic_light.id, suburb_id_of(geometries@, traffic_light.position)),
{
    let mut suburb: Option<usize> = None;
    let mut k: usize = 0;
    while k < geometries.len()
        invariant
            k <= geometries@.len(),
            all_outlined(geometries@),
            match smallest_holding(geometries@, traffic_light.position, k as nat) {
                None => suburb is None,
                Some(chosen) => 0 <= chosen < k && suburb == Some(chosen as usize),
            },
        decreases geometries@.len() - k,
    {
        if geometries[k].is_inside(&traffic_light.position) {
            match suburb {
                Some(other) => {
                    if geometries[other].boundary.area() > geometries[k].boundary.area() {
                        suburb = Some(k);
                    }
                },
                None => {
                    suburb = Some(k);
                },
            }
        }
        k = k + 1;
    }
    match suburb {
        Some(chosen) => (traffic_light.id, geometries[chosen].id),
        None => (traffic_light.id, 0),
    }
}

/// For each light, in order, its id and the id of the suburb of least area
/// that holds it, or 0 if none does.
pub fn compute(geometries: &Vec<Suburb>, traffic_lights: &Vec<TrafficLight>) -> (pairs: Vec<
    (u32, u32),
>)
    requires
        all_outlined(geometries@),
    ensures
        pairs@.len() == traffic_lights@.len(),
        forall|i: int|
            0 <= i < pairs@.len() ==> (#[trigger] pairs@[i]) == (
                traffic_lights@[i].id,
                suburb_id_of(geometries@, traffic_lights@[i].position),
            ),
{
    let mut pairs: Vec<(u32, u32)> = Vec::new();
    let mut i: usize = 0;
    while i < traffic_lights.len()
        invariant
            i <= traffic_lights@.len(),
            all_outlined(geometries@),
            pairs@.len() == i,
            forall|j: int|
                0 <= j < i ==> (#[trigger] pairs@[j]) == (
                    traffic_lights@[j].id,
                    suburb_id_of(geometries@, traffic_lights@[j].position),
                ),
        decreases traffic_lights@.len() - i,
    {
        pairs.push(suburb_of_light(geometries, &traffic_lights[i]));
        i = i + 1;
    }
    pairs
}

/// The ids of those of the first `k` suburbs whose box overlaps `boundary`,
/// in order, as long as no more than `limit` ids have been listed: at most
/// `limit + 1` ids.
pub open spec fn overlapping_ids(
    geometries: Seq<Suburb>,
    boundary: Boundary,
    limit: nat,
    k: nat,
) -> Seq<u32>
    decreases k,
{
    if k == 0 {
        Seq::empty()
    } else {
        let before = overlapping_ids(geometries, boundary, limit, (k - 1) as nat);
        if boundary.overlaps_spec(geometries[k - 1].boundary) && before.len() <= limit {
            before.push(geometries[k - 1].id)
        } else {
            before
        }
    }
}

/// The ids of the suburbs whose box overlaps `boundary`, in order; the list
/// ends once it holds more than `limit` ids.
pub fn get_suburbs_in_bounds(geometries: &Vec<Suburb>, boundary: &Boundary, limit: usize) -> (ids:
    Vec<u32>)
    ensures
        ids@ == overlapping_ids(geometries@, *boundary, limit as nat, geometries@.len()),
{
    let mut ids: Vec<u32> = Vec::new();
    let mut k: usize = 0;
    while k < geometries.len()
        invariant
            k <= geometries@.len(),
            ids@ == overlapping_ids(geometries@, *boundary, limit as nat, k as nat),
        decreases geometries@.len() - k,
    {
        if boundary.does_overlap(&geometries[k].boundary) && ids.len() <= limit {
            ids.push(geometries[k].id);
        }
        k = k + 1;
    }
    ids
}

/// The ids of those of the first `k` lights that lie in `boundary`, in
/// order, as long as no more than `limit` ids have been listed: at most
/// `limit + 1` ids.
pub open spec fn contained_ids(
    traffic_lights: Seq<TrafficLight>,
    boundary: Boundary,
    limit: nat,
    k: nat,
) -> Seq<u32>
    decreases k,
{
    if k == 0 {
        Seq::empty()
    } else {
        let before = contained_ids(traffic_lights, boundary, limit, (k - 1) as nat);
        if boundary.contains_spec(traffic_lights[k - 1].position) && before.len() <= limit {
            before.push(traffic_lights[k - 1].id)
        } else {
            before
        }
    }
}

/// The ids of the lights that lie in `boundary`, in order; the list ends
/// once it holds more than `limit` ids.
pub fn get_traffic_lights_in_bounds(
    traffic_lights: &Vec<TrafficLight>,
    boundary: &Boundary,
    limit: usize,
) -> (ids: Vec<u32>)
    ensures
        ids@ == contained_ids(traffic_lights@, *boundary, limit as nat, traffic_lights@.len()),
{
    let mut ids: Vec<u32> = Vec::new();
    let mut k: usize = 0;
    while k < traffic_lights.len()
        invariant
            k <= traffic_lights@.len(),
            ids@ == contained_ids(traffic_lights@, *boundary, limit as nat, k as nat),
        decreases traffic_lights@.len() - k,
    {
        if boundary.contains(&traffic_lights[k].position) && ids.len() <= limit {
            ids.push(traffic_lights[k].id);
        }
        k = k + 1;
    }
    ids
}

/// The id of the light nearest to `position`: the one that the index `tree`
/// of the lights names as nearest in the leaf that `position` falls in; or
/// the id of the first light, if `position` falls outside the index or its
/// leaf is empty. Nothing without lights.
pub fn get_nearest_traffic_light(
    traffic_lights: &Vec<TrafficLight>,
    tree: &QuadTree<Located>,
    position: &Position,
) -> (id: Option<u32>)
    ensures
        id is Some <==> traffic_lights@.len() > 0,
        id is Some ==> id->0 == match tree.find_spec(*position) {
            None => traffic_lights@[0].id,
            Some(bucket) => match nearest_in(bucket, *position, bucket.len()) {
                None => traffic_lights@[0].id,
                Some(best) => bucket[best].index,
            },
        },
{
    if traffic_lights.len() == 0 {
        return None;
    }
    match get_closest_node(tree, position) {
        Some(id) => Some(id),
        None => Some(traffic_lights[0].id),
    }
}

/// The slots of a collection in which each of `values` fills its slot.
pub open spec fn filled<T>(values: Seq<T>) -> Seq<Option<T>> {
    Seq::new(values.len(), |i: int| Some(values[i]))
}

/// Whether every edge in a payload of nodes leads to a node of the
/// payload: for every slot, the edges of the record that fills it lead to
/// nodes with an index below the number of records.
pub open spec fn edges_lead_on(bytes: Seq<u8>) -> bool {
    &&& frames(bytes) is Ok
    &&& forall|i: int|
        0 <= i < frames(bytes)->Ok_0.len() ==> match #[trigger] holder::<Node>(
            bytes,
            frames(bytes)->Ok_0,
            i,
            frames(bytes)->Ok_0.len(),
        ) {
            Some(h) => targets_below(
                record(bytes, frames(bytes)->Ok_0[h]),
                frames(bytes)->Ok_0.len() as int,
            ),
            None => true,
        }
}

/// The edges of nodes that were loaded from a payload lead to nodes of the
/// collection exactly if the edges in the payload lead on.
pub proof fn lemma_targets_of_loaded(bytes: Seq<u8>, slots: Seq<Option<Node>>)
    requires
        loaded::<Node>(bytes, slots),
    ensures
        slots.len() <= u32::MAX,
        edges_lead_on(bytes) <==> (forall|i: int, j: int|
            0 <= i < slots.len() && 0 <= j < slots[i]->0.connections@.len() ==> (
            #[trigger] slots[i]->0.connections@[j]).index < slots.len()),
{
    lemma_frames_count(bytes);
    let ranges = frames(bytes)->Ok_0;
    let count = ranges.len() as int;
    if edges_lead_on(bytes) {
        assert forall|i: int, j: int|
            0 <= i < slots.len() && 0 <= j < slots[i]->0.connections@.len() implies (
        #[trigger] slots[i]->0.connections@[j]).index < slots.len() by {
            let h = holder::<Node>(bytes, ranges, i, ranges.len());
            let rec = record(bytes, ranges[h->0]);
            assert(slots[i]->0.encoded_by(rec));
            assert(targets_below(rec, count));
            assert(target_at(rec, j) < count);
            assert(slots[i]->0.connections@[j] == crate::node::edge_at(
                rec,
                28,
                j,
                be_speed(rec),
            ));
        }
    }
    if forall|i: int, j: int|
        0 <= i < slots.len() && 0 <= j < slots[i]->0.connections@.len() ==> (
        #[trigger] slots[i]->0.connections@[j]).index < slots.len() {
        assert forall|i: int| 0 <= i < ranges.len() implies match #[trigger] holder::<Node>(
            bytes,
            ranges,
            i,
            ranges.len(),
        ) {
            Some(h) => targets_below(record(bytes, ranges[h]), count),
            None => true,
        } by {
            let h = holder::<Node>(bytes, ranges, i, ranges.len());
            let rec = record(bytes, ranges[h->0]);
            assert(slots[i]->0.encoded_by(rec));
            assert forall|j: int| 0 <= j < crate::loader::be_i32(rec, 24) implies #[trigger] target_at(
                rec,
                j,
            ) < count by {
                assert(slots[i]->0.connections@[j] == crate::node::edge_at(
                    rec,
                    28,
                    j,
                    be_speed(rec),
                ));
                assert(slots[i]->0.connections@[j].index < slots.len());
            }
        }
    }
}

/// The speed that the node in `record` gives its edges.
pub open spec fn be_speed(record: Seq<u8>) -> u16 {
    crate::loader::be_i32(record, 20) as u16
}

/// Whether every suburb of `geometries` has as many x as y coordinates.
pub fn is_all_outlined(geometries: &Vec<Suburb>) -> (outlined: bool)
    ensures
        outlined == all_outlined(geometries@),
{
    let mut i: usize = 0;
    while i < geometries.len()
        invariant
            i <= geometries@.len(),
            forall|j: int| 0 <= j < i ==> (#[trigger] geometries@[j]).wf(),
        decreases geometries@.len() - i,
    {
        if geometries[i].x_points.len() != geometries[i].y_points.len() {
            return false;
        }
        i = i + 1;
    }
    true
}

/// The search invariant does not look at the types of nodes.
pub proof fn lemma_inv_ignores_types(solver: &Solver, before: Seq<Node>, after: Seq<Node>)
    requires
        solver.inv(before),
        same_but_types(after, before),
    ensures
        solver.inv(after),
{
    assert forall|i: int, j: int|
        0 <= i < after.len() && 0 <= j < after[i].connections@.len() implies (
    #[trigger] after[i].connections@[j]).index < after.len() by {
        assert(after[i].connections == before[i].connections);
        assert(before[i].connections@[j].index < before.len());
    }
    assert forall|v: int|
        0 <= v < solver.node_count() && (#[trigger] solver.previous()[v])
            != NO_PREVIOUS implies has_edge(
        after,
        solver.previous()[v] as int,
        v,
        solver.distances()[v] as int,
    ) by {
        let from = solver.previous()[v] as int;
        assert(has_edge(before, from, v, solver.distances()[v] as int));
        assert(after[from].connections == before[from].connections);
    }
}

/// The most solvers that an engine keeps at a time.
pub const MAX_SOLVERS: usize = 24;

/// The graph, the lights, the suburbs, the two spatial indices and the
/// solvers, kept together so that they always fit one another.
pub struct Engine {
    nodes: Vec<Node>,
    traffic_lights: Vec<TrafficLight>,
    suburbs: Vec<Suburb>,
    node_tree: Option<QuadTree<Located>>,
    traffic_light_tree: Option<QuadTree<Located>>,
    solvers: Vec<Solver>,
}

impl Engine {
    #[verifier::type_invariant]
    spec fn well_formed(self) -> bool {
        &&& valid_graph(self.nodes@)
        &&& all_outlined(self.suburbs@)
        &&& (self.node_tree is Some ==> self.node_tree->0.wf())
        &&& (self.traffic_light_tree is Some ==> self.traffic_light_tree->0.wf())
        &&& self.solvers@.len() <= MAX_SOLVERS
        &&& forall|i: int|
            0 <= i < self.solvers@.len() ==> (#[trigger] self.solvers@[i]).inv(self.nodes@)
    }

    /// The graph.
    pub closed spec fn nodes(&self) -> Seq<Node> {
        self.nodes@
    }

    /// The traffic lights.
    pub closed spec fn lights(&self) -> Seq<TrafficLight> {
        self.traffic_lights@
    }

    /// The suburbs.
    pub closed spec fn geometries(&self) -> Seq<Suburb> {
        self.suburbs@
    }

    /// The spatial index of the nodes, once it is built.
    pub closed spec fn node_index(&self) -> Option<QuadTree<Located>> {
        self.node_tree
    }

    /// The spatial index of the lights, once it is built.
    pub closed spec fn light_index(&self) -> Option<QuadTree<Located>> {
        self.traffic_light_tree
    }

    /// The solvers; the handle of a solver is its place here.
    pub closed spec fn solver_pool(&self) -> Seq<Solver> {
        self.solvers@
    }

    /// What every engine satisfies: the graph is valid, the outlines are
    /// well-formed, the indices are well-formed trees, and every solver is
    /// in a state of a search over the graph.
    pub open spec fn coherent(&self) -> bool {
        &&& valid_graph(self.nodes())
        &&& all_outlined(self.geometries())
        &&& (self.node_index() is Some ==> self.node_index()->0.wf())
        &&& (self.light_index() is Some ==> self.light_index()->0.wf())
        &&& self.solver_pool().len() <= MAX_SOLVERS
        &&& forall|i: int|
            0 <= i < self.solver_pool().len() ==> (#[trigger] self.solver_pool()[i]).inv(
                self.nodes(),
            )
    }

    /// Every engine is coherent: calling this proves it of `self`, and does
    /// nothing.
    pub fn witness_coherence(&self)
        ensures
            self.coherent(),
    {
        proof {
            use_type_invariant(self);
        }
    }

    /// An engine without nodes, lights, suburbs, indices or solvers.
    pub fn new() -> (engine: Engine)
        ensures
            engine.nodes().len() == 0,
            engine.lights().len() == 0,
            engine.geometries().len() == 0,
            engine.node_index() is None,
            engine.light_index() is None,
            engine.solver_pool().len() == 0,
    {
        Engine {
            nodes: Vec::new(),
            traffic_lights: Vec::new(),
            suburbs: Vec::new(),
            node_tree: None,
            traffic_light_tree: None,
            solvers: Vec::new(),
        }
    }

    /// Takes `nodes` as the graph, if every slot is filled and every edge
    /// leads to a node; else nothing changes. A new graph ends all searches:
    /// the solvers and the index of the old graph are dropped.
    pub fn add_nodes(&mut self, nodes: ParallelList<Node>) -> (accepted: bool)
        ensures
            accepted ==> {
                &&& all_filled(nodes@)
                &&& final(self).nodes().len() == nodes@.len()
                &&& forall|i: int|
                    0 <= i < nodes@.len() ==> (#[trigger] final(self).nodes()[i]) == nodes@[i]->0
                &&& final(self).node_index() is None
                &&& final(self).solver_pool().len() == 0
            },
            accepted == (all_filled(nodes@) && nodes@.len() <= u32::MAX && forall|i: int, j: int|
                0 <= i < nodes@.len() && 0 <= j < nodes@[i]->0.connections@.len() ==> (
                #[trigger] nodes@[i]->0.connections@[j]).index < nodes@.len()),
            !accepted ==> {
                &&& final(self).nodes() == old(self).nodes()
                &&& final(self).node_index() == old(self).node_index()
                &&& final(self).solver_pool() == old(self).solver_pool()
            },
            final(self).lights() == old(self).lights(),
            final(self).geometries() == old(self).geometries(),
            final(self).light_index() == old(self).light_index(),
    {
        proof {
            use_type_invariant(&*self);
        }
        if !nodes.is_full() {
            return false;
        }
        let values = nodes.into_vec();
        if !is_valid_graph(&values) {
            proof {
                if nodes@.len() <= u32::MAX {
                    let (a, b) = choose|a: int, b: int|
                        0 <= a < values@.len() && 0 <= b < values@[a].connections@.len() && !((
                        #[trigger] values@[a].connections@[b]).index < values@.len());
                    assert(!(nodes@[a]->0.connections@[b].index < nodes@.len()));
                }
            }
            return false;
        }
        proof {
            assert forall|i: int, j: int|
                0 <= i < nodes@.len() && 0 <= j < nodes@[i]->0.connections@.len() implies (
            #[trigger] nodes@[i]->0.connections@[j]).index < nodes@.len() by {
                assert(values@[i].connections@[j].index < values@.len());
            }
        }
        self.solvers = Vec::new();
        self.node_tree = None;
        self.nodes = values;
        true
    }

    /// Takes `traffic_lights` as the lights, if every slot is filled; else
    /// nothing changes. The index of the old lights is dropped.
    pub fn add_traffic_lights(&mut self, traffic_lights: ParallelList<TrafficLight>) -> (accepted:
        bool)
        ensures
            accepted == all_filled(traffic_lights@),
            accepted ==> {
                &&& final(self).lights().len() == traffic_lights@.len()
                &&& forall|i: int|
                    0 <= i < traffic_lights@.len() ==> (#[trigger] final(self).lights()[i])
                        == traffic_lights@[i]->0
                &&& final(self).light_index() is None
            },
            !accepted ==> final(self).lights() == old(self).lights() && final(self).light_index()
                == old(self).light_index(),
            final(self).nodes() == old(self).nodes(),
            final(self).geometries() == old(self).geometries(),
            final(self).node_index() == old(self).node_index(),
            final(self).solver_pool() == old(self).solver_pool(),
    {
        proof {
            use_type_invariant(&*self);
        }
        if !traffic_lights.is_full() {
            return false;
        }
        self.traffic_light_tree = None;
        self.traffic_lights = traffic_lights.into_vec();
        true
    }

    /// Takes `suburbs` as the suburbs, if every slot is filled and every
    /// outline has as many x as y coordinates; else nothing changes.
    pub fn add_suburbs(&mut self, suburbs: ParallelList<Suburb>) -> (accepted: bool)
        ensures
            accepted == (all_filled(suburbs@) && forall|i: int|
                0 <= i < suburbs@.len() ==> (#[trigger] suburbs@[i])->0.wf()),
            accepted ==> {
                &&& final(self).geometries().len() == suburbs@.len()
                &&& forall|i: int|
                    0 <= i < suburbs@.len() ==> (#[trigger] final(self).geometries()[i])
                        == suburbs@[i]->0
            },
            !accepted ==> final(self).geometries() == old(self).geometries(),
            final(self).nodes() == old(self).nodes(),
            final(self).lights() == old(self).lights(),
            final(self).node_index() == old(self).node_index(),
            final(self).light_index() == old(self).light_index(),
            final(self).solver_pool() == old(self).solver_pool(),
    {
        proof {
            use_type_invariant(&*self);
        }
        if !suburbs.is_full() {
            return false;
        }
        let values = suburbs.into_vec();
        if !is_all_outlined(&values) {
            proof {
                let bad = choose|i: int| 0 <= i < values@.len() && !(#[trigger] values@[i]).wf();
                assert(!suburbs@[bad]->0.wf());
            }
            return false;
        }
        proof {
            assert forall|i: int| 0 <= i < suburbs@.len() implies (#[trigger] suburbs@[i])->0.wf() by {
                assert(values@[i].wf());
            }
        }
        self.suburbs = values;
        true
    }

    /// Reads the nodes from their payload, takes them as the graph and
    /// indexes them. A payload that `load_from_bytes` refuses is refused
    /// with its error, and one in which an edge leads to a node that is not
    /// there with `UnknownTarget`; then nothing changes. Every other payload
    /// is taken.
    pub fn send_nodes(&mut self, bytes: &[u8]) -> (result: Result<(), LoadError>)
        ensures
            result is Ok <==> load_fault::<Node>(bytes@) is None && edges_lead_on(bytes@),
            match result {
                Ok(_) => {
                    &&& load_fault::<Node>(bytes@) is None
                    &&& loaded(bytes@, filled(final(self).nodes()))
                    &&& final(self).node_index() is Some
                    &&& final(self).node_index()->0.wf()
                    &&& final(self).node_index()->0.boundary == bounds_of(final(self).nodes())
                    &&& final(self).node_index()->0.items() == located(
                        final(self).nodes(),
                    ).to_multiset()
                    &&& final(self).solver_pool().len() == 0
                },
                Err(e) => {
                    &&& load_fault::<Node>(bytes@) == Some(e) || (load_fault::<Node>(bytes@)
                        is None && e == LoadError::UnknownTarget)
                    &&& final(self).nodes() == old(self).nodes()
                    &&& final(self).node_index() == old(self).node_index()
                    &&& final(self).solver_pool() == old(self).solver_pool()
                },
            },
            final(self).lights() == old(self).lights(),
            final(self).geometries() == old(self).geometries(),
            final(self).light_index() == old(self).light_index(),
    {
        let list = match load_from_bytes::<Node>(bytes) {
            Ok(list) => list,
            Err(e) => {
                return Err(e);
            },
        };
        let ghost slots = list@;
        proof {
            lemma_targets_of_loaded(bytes@, slots);
        }
        if !self.add_nodes(list) {
            return Err(LoadError::UnknownTarget);
        }
        proof {
            assert(filled(self.nodes()) =~= slots);
        }
        self.build_node_tree();
        Ok(())
    }

    /// Reads the lights from their payload, takes them as the lights and
    /// indexes them. A payload that `load_from_bytes` refuses is refused
    /// with its error; then nothing changes.
    pub fn send_traffic_lights(&mut self, bytes: &[u8]) -> (result: Result<(), LoadError>)
        ensures
            match result {
                Ok(_) => {
                    &&& load_fault::<TrafficLight>(bytes@) is None
                    &&& loaded(bytes@, filled(final(self).lights()))
                    &&& final(self).light_index() is Some
                    &&& final(self).light_index()->0.wf()
                    &&& final(self).light_index()->0.boundary == bounds_of(final(self).lights())
                    &&& final(self).light_index()->0.items() == located(
                        final(self).lights(),
                    ).to_multiset()
                },
                Err(e) => {
                    &&& load_fault::<TrafficLight>(bytes@) == Some(e)
                    &&& final(self).lights() == old(self).lights()
                    &&& final(self).light_index() == old(self).light_index()
                },
            },
            final(self).nodes() == old(self).nodes(),
            final(self).geometries() == old(self).geometries(),
            final(self).node_index() == old(self).node_index(),
            final(self).solver_pool() == old(self).solver_pool(),
    {
        let list = match load_from_bytes::<TrafficLight>(bytes) {
            Ok(list) => list,
            Err(e) => {
                return Err(e);
            },
        };
        let ghost slots = list@;
        self.add_traffic_lights(list);
        proof {
            assert(filled(self.lights()) =~= slots);
        }
        self.build_traffic_light_tree();
        Ok(())
    }

    /// Reads the suburbs from their payload and takes them as the suburbs.
    /// A payload that `load_from_bytes` refuses is refused with its error;
    /// then nothing changes.
    pub fn send_suburbs(&mut self, bytes: &[u8]) -> (result: Result<(), LoadError>)
        ensures
            match result {
                Ok(_) => {
                    &&& load_fault::<Suburb>(bytes@) is None
                    &&& loaded(bytes@, filled(final(self).geometries()))
                },
                Err(e) => {
                    &&& load_fault::<Suburb>(bytes@) == Some(e)
                    &&& final(self).geometries() == old(self).geometries()
                },
            },
            final(self).nodes() == old(self).nodes(),
            final(self).lights() == old(self).lights(),
            final(self).node_index() == old(self).node_index(),
            final(self).light_index() == old(self).light_index(),
            final(self).solver_pool() == old(self).solver_pool(),
    {
        let list = match load_from_bytes::<Suburb>(bytes) {
            Ok(list) => list,
            Err(e) => {
                return Err(e);
            },
        };
        let ghost slots = list@;
        proof {
            crate::suburb::lemma_loaded_suburbs_are_outlined(bytes@, slots);
        }
        self.add_suburbs(list);
        proof {
            assert(filled(self.geometries()) =~= slots);
        }
        Ok(())
    }

    /// The graph.
    pub fn get_nodes(&self) -> (nodes: &Vec<Node>)
        ensures
            nodes@ == self.nodes(),
            valid_graph(nodes@),
    {
        proof {
            use_type_invariant(self);
        }
        &self.nodes
    }

    /// The traffic lights.
    pub fn get_traffic_lights(&self) -> (traffic_lights: &Vec<TrafficLight>)
        ensures
            traffic_lights@ == self.lights(),
    {
        &self.traffic_lights
    }

    /// The suburbs.
    pub fn get_suburbs(&self) -> (suburbs: &Vec<Suburb>)
        ensures
            suburbs@ == self.geometries(),
            all_outlined(suburbs@),
    {
        proof {
            use_type_invariant(self);
        }
        &self.suburbs
    }

    /// The spatial index of the nodes, once it is built.
    pub fn get_node_tree(&self) -> (tree: &Option<QuadTree<Located>>)
        ensures
            *tree == self.node_index(),
            tree is Some ==> tree->0.wf(),
    {
        proof {
            use_type_invariant(self);
        }
        &self.node_tree
    }

    /// The spatial index of the lights, once it is built.
    pub fn get_traffic_light_tree(&self) -> (tree: &Option<QuadTree<Located>>)
        ensures
            *tree == self.light_index(),
            tree is Some ==> tree->0.wf(),
    {
        proof {
            use_type_invariant(self);
        }
        &self.traffic_light_tree
    }

    /// Builds the index of the nodes.
    pub fn build_node_tree(&mut self)
        ensures
            final(self).node_index() is Some,
            final(self).node_index()->0.wf(),
            final(self).node_index()->0.boundary == bounds_of(old(self).nodes()),
            final(self).node_index()->0.items() == located(old(self).nodes()).to_multiset(),
            final(self).nodes() == old(self).nodes(),
            final(self).lights() == old(self).lights(),
            final(self).geometries() == old(self).geometries(),
            final(self).light_index() == old(self).light_index(),
            final(self).solver_pool() == old(self).solver_pool(),
    {
        proof {
            use_type_invariant(&*self);
        }
        let tree = create_tree(&self.nodes);
        self.node_tree = Some(tree);
    }

    /// Builds the index of the lights.
    pub fn build_traffic_light_tree(&mut self)
        ensures
            final(self).light_index() is Some,
            final(self).light_index()->0.wf(),
            final(self).light_index()->0.boundary == bounds_of(old(self).lights()),
            final(self).light_index()->0.items() == located(old(self).lights()).to_multiset(),
            final(self).nodes() == old(self).nodes(),
            final(self).lights() == old(self).lights(),
            final(self).geometries() == old(self).geometries(),
            final(self).node_index() == old(self).node_index(),
            final(self).solver_pool() == old(self).solver_pool(),
    {
        proof {
            use_type_invariant(&*self);
        }
        let tree = create_tree(&self.traffic_lights);
        self.traffic_light_tree = Some(tree);
    }

    /// Types every node by the lights near it, as the function
    /// `associate_traffic_lights_to_nodes` of this module does with the index
    /// of the nodes. Without that index nothing changes.
    pub fn associate_traffic_lights_to_nodes(&mut self)
        ensures
            same_but_types(final(self).nodes(), old(self).nodes()),
            match old(self).node_index() {
                Some(tree) => types_of(final(self).nodes()) == association(
                    positions_of(old(self).nodes()),
                    old(self).lights(),
                    tree,
                ),
                None => final(self).nodes() == old(self).nodes(),
            },
            final(self).lights() == old(self).lights(),
            final(self).geometries() == old(self).geometries(),
            final(self).node_index() == old(self).node_index(),
            final(self).light_index() == old(self).light_index(),
            final(self).solver_pool() == old(self).solver_pool(),
    {
        proof {
            use_type_invariant(&*self);
        }
        if self.node_tree.is_none() {
            return ;
        }
        let mut solvers: Vec<Solver> = Vec::new();
        std::mem::swap(&mut solvers, &mut self.solvers);
        let mut nodes: Vec<Node> = Vec::new();
        std::mem::swap(&mut nodes, &mut self.nodes);
        let ghost before = nodes@;
        match &self.node_tree {
            Some(tree) => {
                associate_traffic_lights_to_nodes(&mut nodes, &self.traffic_lights, tree);
            },
            None => {},
        }
        proof {
            assert forall|i: int, j: int|
                0 <= i < nodes@.len() && 0 <= j < nodes@[i].connections@.len() implies (
            #[trigger] nodes@[i].connections@[j]).index < nodes@.len() by {
                assert(nodes@[i].connections == before[i].connections);
                assert(before[i].connections@[j].index < before.len());
            }
            assert forall|i: int| 0 <= i < solvers@.len() implies (#[trigger] solvers@[i]).inv(
                nodes@,
            ) by {
                lemma_inv_ignores_types(&solvers@[i], before, nodes@);
            }
        }
        self.nodes = nodes;
        self.solvers = solvers;
    }

    /// Gives the first lights the flags in `flags`, in order, and types
    /// the nodes anew. Flags beyond the number of lights are ignored.
    pub fn update_traffic_light_flags(&mut self, flags: &Vec<u32>)
        ensures
            final(self).lights().len() == old(self).lights().len(),
            forall|i: int|
                0 <= i < old(self).lights().len() ==> {
                    &&& (#[trigger] final(self).lights()[i]).id == old(self).lights()[i].id
                    &&& final(self).lights()[i].position == old(self).lights()[i].position
                    &&& final(self).lights()[i].flag == if i < flags@.len() {
                        flags@[i]
                    } else {
                        old(self).lights()[i].flag
                    }
                },
            same_but_types(final(self).nodes(), old(self).nodes()),
            match old(self).node_index() {
                Some(tree) => types_of(final(self).nodes()) == association(
                    positions_of(old(self).nodes()),
                    final(self).lights(),
                    tree,
                ),
                None => final(self).nodes() == old(self).nodes(),
            },
            final(self).geometries() == old(self).geometries(),
            final(self).node_index() == old(self).node_index(),
            final(self).light_index() == old(self).light_index(),
            final(self).solver_pool() == old(self).solver_pool(),
    {
        proof {
            use_type_invariant(&*self);
        }
        let mut i: usize = 0;
        while i < flags.len() && i < self.traffic_lights.len()
            invariant
                i <= flags@.len(),
                self.well_formed(),
                self.traffic_lights@.len() == old(self).traffic_lights@.len(),
                self.nodes == old(self).nodes,
                self.suburbs == old(self).suburbs,
                self.node_tree == old(self).node_tree,
                self.traffic_light_tree == old(self).traffic_light_tree,
                self.solvers == old(self).solvers,
                forall|j: int|
                    0 <= j < self.traffic_lights@.len() ==> {
                        &&& (#[trigger] self.traffic_lights@[j]).id == old(self).traffic_lights@[j].id
                        &&& self.traffic_lights@[j].position == old(self).traffic_lights@[j].position
                        &&& self.traffic_lights@[j].flag == if j < i {
                            flags@[j]
                        } else {
                            old(self).traffic_lights@[j].flag
                        }
                    },
            decreases flags@.len() - i,
        {
            let light = self.traffic_lights[i];
            self.traffic_lights[i] = TrafficLight {
                id: light.id,
                position: light.position,
                flag: flags[i],
            };
            i = i + 1;
        }
        self.associate_traffic_lights_to_nodes();
    }

    /// The slot of the node nearest to `position` among those in the leaf
    /// of the node index that `position` falls in, as the function
    /// `get_closest_node` of this module finds it. Without the index, or for
    /// a slot that the graph does not have, nothing.
    pub fn get_closest_node(&self, position: &Position) -> (closest: Option<u32>)
        ensures
            closest is Some ==> closest->0 < self.nodes().len(),
            match self.node_index() {
                None => closest is None,
                Some(tree) => match tree.find_spec(*position) {
                    None => closest is None,
                    Some(bucket) => match nearest_in(bucket, *position, bucket.len()) {
                        None => closest is None,
                        Some(best) => closest == if bucket[best].index < self.nodes().len() {
                            Some(bucket[best].index)
                        } else {
                            None
                        },
                    },
                },
            },
    {
        match &self.node_tree {
            None => None,
            Some(tree) => match get_closest_node(tree, position) {
                Some(index) => if (index as usize) < self.nodes.len() {
                    Some(index)
                } else {
                    None
                },
                None => None,
            },
        }
    }

    /// Adds a solver for a search from `start` to `end` and returns its
    /// handle; nothing if the engine keeps `MAX_SOLVERS` already or the graph
    /// lacks one of the two nodes.
    pub fn add_solver(
        &mut self,
        start: usize,
        end: usize,
        max_iterations: u32,
        search_method: SearchMethod,
    ) -> (handle: Option<usize>)
        ensures
            handle is Some <==>
                old(self).solver_pool().len() < MAX_SOLVERS
                && start < old(self).nodes().len()
                && end < old(self).nodes().len(),
            handle is None ==> final(self).solver_pool() == old(self).solver_pool(),
            handle is Some ==> {
                &&& handle->0 == old(self).solver_pool().len()
                &&& final(self).solver_pool().len() == old(self).solver_pool().len() + 1
                &&& forall|i: int|
                    0 <= i < old(self).solver_pool().len()
                        ==> (#[trigger] final(self).solver_pool()[i]) == old(self).solver_pool()[i]
                &&& final(self).solver_pool()[handle->0 as int].is_fresh()
                &&& final(self).solver_pool()[handle->0 as int].start_index() == start
                &&& final(self).solver_pool()[handle->0 as int].end_index() == end
                &&& final(self).solver_pool()[handle->0 as int].iteration_budget()
                    == max_iterations
                &&& final(self).solver_pool()[handle->0 as int].method() == search_method
            },
            final(self).nodes() == old(self).nodes(),
            final(self).lights() == old(self).lights(),
            final(self).geometries() == old(self).geometries(),
            final(self).node_index() == old(self).node_index(),
            final(self).light_index() == old(self).light_index(),
    {
        proof {
            use_type_invariant(&*self);
        }
        if self.solvers.len() >= MAX_SOLVERS || start >= self.nodes.len() || end
            >= self.nodes.len() {
            return None;
        }
        let solver = Solver::new(&self.nodes, start, end, max_iterations, search_method);
        proof {
            solver.lemma_fresh_inv(self.nodes@);
        }
        let mut solvers: Vec<Solver> = Vec::new();
        std::mem::swap(&mut solvers, &mut self.solvers);
        let handle = solvers.len();
        solvers.push(solver);
        self.solvers = solvers;
        Some(handle)
    }

    /// Adds a solver with the settings that a host starts from: a search
    /// from node 0 to node 0 for the fastest route, in batches of a hundred
    /// million steps.
    pub fn build_solver(&mut self) -> (handle: Option<usize>)
        ensures
            handle is Some <==>
                old(self).solver_pool().len() < MAX_SOLVERS
                && 0 < old(self).nodes().len(),
            handle is None ==> final(self).solver_pool() == old(self).solver_pool(),
            handle is Some ==> {
                &&& handle->0 == old(self).solver_pool().len()
                &&& final(self).solver_pool().len() == old(self).solver_pool().len() + 1
                &&& forall|i: int|
                    0 <= i < old(self).solver_pool().len() ==> (#[trigger] final(self).solver_pool()[i])
                        == old( self).solver_pool()[i]
                &&& final(self).solver_pool()[handle->0 as int].is_fresh()
                &&& final(self).solver_pool()[handle->0 as int].start_index() == 0
                &&& final(self).solver_pool()[handle->0 as int].end_index() == 0
                &&& final(self).solver_pool()[handle->0 as int].iteration_budget() == 100_000_000
                &&& final(self).solver_pool()[handle->0 as int].method() == SearchMethod::FASTEST
            },
            final(self).nodes() == old(self).nodes(),
            final(self).lights() == old(self).lights(),
            final(self).geometries() == old(self).geometries(),
            final(self).node_index() == old(self).node_index(),
            final(self).light_index() == old(self).light_index(),
    {
        self.add_solver(0, 0, 100_000_000, SearchMethod::FASTEST)
    }

    /// Drops the solver that was added last, if there is one.
    pub fn remove_solver(&mut self)
        ensures
            final(self).solver_pool() == if old(self).solver_pool().len() > 0 {
                old(self).solver_pool().drop_last()
            } else {
                old(self).solver_pool()
            },
            final(self).nodes() == old(self).nodes(),
            final(self).lights() == old(self).lights(),
            final(self).geometries() == old(self).geometries(),
            final(self).node_index() == old(self).node_index(),
            final(self).light_index() == old(self).light_index(),
    {
        proof {
            use_type_invariant(&*self);
        }
        let mut solvers: Vec<Solver> = Vec::new();
        std::mem::swap(&mut solvers, &mut self.solvers);
        solvers.pop();
        proof {
            assert(old(self).solver_pool().len() == 0 ==> solvers@ =~= old(self).solver_pool());
        }
        self.solvers = solvers;
    }

    /// The solver with the handle `index`, if there is one.
    pub fn get_solver(&self, index: usize) -> (solver: Option<&Solver>)
        ensures
            solver is Some <==> index < self.solver_pool().len(),
            solver is Some ==> *solver->0 == self.solver_pool()[index as int] && solver->0.inv(
                self.nodes(),
            ),
    {
        proof {
            use_type_invariant(self);
        }
        if index < self.solvers.len() {
            Some(&self.solvers[index])
        } else {
            None
        }
    }

    /// Changes what the solver `index` minimises. Returns whether there is
    /// such a solver.
    pub fn set_search_method(&mut self, index: usize, search_method: SearchMethod) -> (known: bool)
        ensures
            known == (index < old(self).solver_pool().len()),
            final(self).solver_pool().len() == old(self).solver_pool().len(),
            forall|i: int|
                0 <= i < old(self).solver_pool().len() && i != index
                    ==> (#[trigger] final(self).solver_pool()[i]) == old(self).solver_pool()[i],
            known ==> {
                let after = final(self).solver_pool()[index as int];
                let before = old(self).solver_pool()[index as int];
                &&& after.method() == search_method
                &&& after.same_tables_as(&before)
                &&& after.same_queues_as(&before)
                &&& after.start_index() == before.start_index()
                &&& after.end_index() == before.end_index()
                &&& after.found_path() == before.found_path()
            },
            final(self).nodes() == old(self).nodes(),
            final(self).lights() == old(self).lights(),
            final(self).geometries() == old(self).geometries(),
            final(self).node_index() == old(self).node_index(),
            final(self).light_index() == old(self).light_index(),
    {
        proof {
            use_type_invariant(&*self);
        }
        if index >= self.solvers.len() {
            return false;
        }
        let mut solvers: Vec<Solver> = Vec::new();
        std::mem::swap(&mut solvers, &mut self.solvers);
        let ghost before = solvers@;
        solvers[index].set_search_method(search_method);
        proof {
            solvers@[index as int].lemma_inv_of_same_state(&before[index as int], self.nodes@);
            assert forall|i: int| 0 <= i < solvers@.len() implies (#[trigger] solvers@[i]).inv(
                self.nodes@,
            ) by {
                if i != index {
                    assert(solvers@[i] == before[i]);
                }
            }
        }
        self.solvers = solvers;
        true
    }

    /// Begins a search of the solver `index` from `start` to `end`. Returns
    /// whether there is such a solver and the graph has both nodes; if not,
    /// nothing changes.
    pub fn update_search(&mut self, index: usize, start: u32, end: u32) -> (begun: bool)
        ensures
            begun == (index < old(self).solver_pool().len() && start < old(self).nodes().len()
                && end < old(self).nodes().len()),
            final(self).solver_pool().len() == old(self).solver_pool().len(),
            forall|i: int|
                0 <= i < old(self).solver_pool().len() && (i != index || !begun) ==> (
                #[trigger] final(self).solver_pool()[i]) == old(self).solver_pool()[i],
            begun ==> {
                let after = final(self).solver_pool()[index as int];
                let before = old(self).solver_pool()[index as int];
                &&& after.is_fresh()
                &&& after.start_index() == start
                &&& after.end_index() == end
                &&& after.iteration_budget() == before.iteration_budget()
                &&& after.method() == before.method()
            },
            final(self).nodes() == old(self).nodes(),
            final(self).lights() == old(self).lights(),
            final(self).geometries() == old(self).geometries(),
            final(self).node_index() == old(self).node_index(),
            final(self).light_index() == old(self).light_index(),
    {
        proof {
            use_type_invariant(&*self);
        }
        if index >= self.solvers.len() || start as usize >= self.nodes.len() || end as usize
            >= self.nodes.len() {
            return false;
        }
        let mut solvers: Vec<Solver> = Vec::new();
        std::mem::swap(&mut solvers, &mut self.solvers);
        let ghost before = solvers@;
        solvers[index].update_search(start, end);
        proof {
            solvers@[index as int].lemma_fresh_inv(self.nodes@);
            assert forall|i: int| 0 <= i < solvers@.len() implies (#[trigger] solvers@[i]).inv(
                self.nodes@,
            ) by {
                if i != index {
                    assert(solvers@[i] == before[i]);
                }
            }
        }
        self.solvers = solvers;
        true
    }

    /// Sets the number of steps that one batch of the solver `index` may
    /// take. Returns whether there is such a solver.
    pub fn update_search_speed(&mut self, index: usize, new_speed: u32) -> (known: bool)
        ensures
            known == (index < old(self).solver_pool().len()),
            final(self).solver_pool().len() == old(self).solver_pool().len(),
            forall|i: int|
                0 <= i < old(self).solver_pool().len() && i != index
                    ==> (#[trigger] final(self).solver_pool()[i]) == old(self).solver_pool()[i],
            known ==> {
                let after = final(self).solver_pool()[index as int];
                let before = old(self).solver_pool()[index as int];
                &&& after.iteration_budget() == new_speed
                &&& after.same_tables_as(&before)
                &&& after.same_queues_as(&before)
                &&& after.start_index() == before.start_index()
                &&& after.end_index() == before.end_index()
                &&& after.method() == before.method()
                &&& after.found_path() == before.found_path()
            },
            final(self).nodes() == old(self).nodes(),
            final(self).lights() == old(self).lights(),
            final(self).geometries() == old(self).geometries(),
            final(self).node_index() == old(self).node_index(),
            final(self).light_index() == old(self).light_index(),
    {
        proof {
            use_type_invariant(&*self);
        }
        if index >= self.solvers.len() {
            return false;
        }
        let mut solvers: Vec<Solver> = Vec::new();
        std::mem::swap(&mut solvers, &mut self.solvers);
        let ghost before = solvers@;
        solvers[index].update_search_speed(new_speed);
        proof {
            solvers@[index as int].lemma_inv_of_same_state(&before[index as int], self.nodes@);
            assert forall|i: int| 0 <= i < solvers@.len() implies (#[trigger] solvers@[i]).inv(
                self.nodes@,
            ) by {
                if i != index {
                    assert(solvers@[i] == before[i]);
                }
            }
        }
        self.solvers = solvers;
        true
    }

    /// One batch of the solver `index` at `minute` minutes past the hour, as
    /// `Solver::compute_at` runs it. Returns whether nothing is left to do
    /// afterwards; nothing if there is no such solver.
    pub fn step_at(&mut self, index: usize, minute: u32) -> (done: Option<bool>)
        requires
            minute < 60,
        ensures
            done is Some <==> index < old(self).solver_pool().len(),
            final(self).solver_pool().len() == old(self).solver_pool().len(),
            forall|i: int|
                0 <= i < old(self).solver_pool().len() && i != index
                    ==> (#[trigger] final(self).solver_pool()[i]) == old(self).solver_pool()[i],
            done is Some ==> {
                let after = final(self).solver_pool()[index as int];
                let before = old(self).solver_pool()[index as int];
                &&& done->0 == (after.queue().len() == 0)
                &&& after.inv(final(self).nodes())
                &&& after.is_batch_after(&before, final(self).nodes())
                &&& (before.settled(old(self).nodes(), minute) ==> after.settled(
                    final(self).nodes(),
                    minute,
                ))
            },
            final(self).nodes() == old(self).nodes(),
            final(self).lights() == old(self).lights(),
            final(self).geometries() == old(self).geometries(),
            final(self).node_index() == old(self).node_index(),
            final(self).light_index() == old(self).light_index(),
    {
        proof {
            use_type_invariant(&*self);
        }
        if index >= self.solvers.len() {
            return None;
        }
        let mut solvers: Vec<Solver> = Vec::new();
        std::mem::swap(&mut solvers, &mut self.solvers);
        let ghost before = solvers@;
        solvers[index].compute_at(&self.nodes, minute);
        let done = solvers[index].fully_searched();
        proof {
            assert forall|i: int| 0 <= i < solvers@.len() implies (#[trigger] solvers@[i]).inv(
                self.nodes@,
            ) by {
                if i != index {
                    assert(solvers@[i] == before[i]);
                }
            }
        }
        self.solvers = solvers;
        Some(done)
    }

    /// One batch of the solver `index` at the present minute of the hour.
    /// Returns whether nothing is left to do afterwards; nothing if there is
    /// no such solver.
    pub fn step(&mut self, index: usize) -> (done: Option<bool>)
        ensures
            done is Some <==> index < old(self).solver_pool().len(),
            final(self).solver_pool().len() == old(self).solver_pool().len(),
            forall|i: int|
                0 <= i < old(self).solver_pool().len() && i != index
                    ==> (#[trigger] final(self).solver_pool()[i]) == old(self).solver_pool()[i],
            done is Some ==> {
                let after = final(self).solver_pool()[index as int];
                let before = old(self).solver_pool()[index as int];
                &&& done->0 == (after.queue().len() == 0)
                &&& after.inv(final(self).nodes())
                &&& after.is_batch_after(&before, final(self).nodes())
                &&& after.keeps_settled_at_a_minute(&before, final(self).nodes())
                &&& after.keeps_settled_if_steady(&before, final(self).nodes())
            },
            final(self).nodes() == old(self).nodes(),
            final(self).lights() == old(self).lights(),
            final(self).geometries() == old(self).geometries(),
            final(self).node_index() == old(self).node_index(),
            final(self).light_index() == old(self).light_index(),
    {
        proof {
            use_type_invariant(&*self);
        }
        let minute = current_minute();
        let done = self.step_at(index, minute);
        proof {
            if index < old(self).solver_pool().len() {
                let after = self.solver_pool()[index as int];
                let before = old(self).solver_pool()[index as int];
                assert(before.inv(old(self).nodes()));
                after.lemma_kept_whatever_the_minute(&before, self.nodes(), minute);
            }
        }
        done
    }

    /// The route that a finished search of the solver `after` reports: the
    /// one that its tables hold if the end was reached, else no node at all
    /// at cost and length zero.
    pub open spec fn reported(after: &Solver, nodes: Seq<Node>) -> (Seq<u32>, int, int) {
        if after.costs()[after.end_index() as int] != UNREACHED {
            (after.route(nodes).0, after.route(nodes).2, after.route(nodes).1)
        } else {
            (Seq::<u32>::empty(), 0, 0)
        }
    }

    /// Searches with the solver `index` from the node nearest to `source` to
    /// the node nearest to `destination`, at `minute` minutes past the hour,
    /// in batches of a hundred million steps until nothing is left to do.
    /// Returns the nodes of the route in travel order, its cost in
    /// milliseconds and its length in metres; or no node, at cost and
    /// length zero, if there is no such solver, if one of the two points has
    /// no nearest node, or if the destination cannot be reached.
    pub fn find_path_at(
        &mut self,
        index: usize,
        source: &Position,
        destination: &Position,
        minute: u32,
    ) -> (found: (Vec<u32>, u64, u64))
        requires
            minute < 60,
        ensures
            final(self).nodes() == old(self).nodes(),
            final(self).lights() == old(self).lights(),
            final(self).geometries() == old(self).geometries(),
            final(self).node_index() == old(self).node_index(),
            final(self).light_index() == old(self).light_index(),
            final(self).solver_pool().len() == old(self).solver_pool().len(),
            forall|i: int|
                0 <= i < old(self).solver_pool().len() && i != index
                    ==> (#[trigger] final(self).solver_pool()[i]) == old(self).solver_pool()[i],
            index >= old(self).solver_pool().len() || old(self).closest_to(*source) is None
                || old(self).closest_to(*destination) is None
                    ==> found.0@.len() == 0
                        && found.1 == 0
                        && found.2 == 0
                        && final(self).solver_pool() == old(self).solver_pool(),
            index < old(self).solver_pool().len()
                && old(self).closest_to(*source) is Some
                && old(self).closest_to(*destination) is Some
                ==> {
                let after = final(self).solver_pool()[index as int];
                &&& after.inv(final(self).nodes())
                &&& after.start_index() == old(self).closest_to(*source)->0
                &&& after.end_index() == old(self).closest_to(*destination)->0
                &&& after.method() == old(self).solver_pool()[index as int].method()
                &&& after.pending() == 0
                &&& after.settled(final(self).nodes(), minute)
                &&& (after.method() == SearchMethod::SHORTEST ==> after.by_length())
                &&& after.attained(final(self).nodes())
                &&& (found.0@, found.1 as int, found.2 as int) == Engine::reported(
                    &after,
                    final(self).nodes(),
                )
            },
    {
        proof {
            use_type_invariant(&*self);
        }
        if index >= self.solvers.len() {
            return (Vec::new(), 0, 0);
        }
        let start = self.get_closest_node(source);
        let end = self.get_closest_node(destination);
        match (start, end) {
            (Some(start), Some(end)) => {
                let mut solvers: Vec<Solver> = Vec::new();
                std::mem::swap(&mut solvers, &mut self.solvers);
                let ghost before = solvers@;
                let found = Engine::search(&mut solvers[index], &self.nodes, start, end, minute);
                proof {
                    assert forall|i: int| 0 <= i < solvers@.len() implies (
                    #[trigger] solvers@[i]).inv(self.nodes@) by {
                        if i != index {
                            assert(solvers@[i] == before[i]);
                        }
                    }
                }
                self.solvers = solvers;
                found
            },
            _ => (Vec::new(), 0, 0),
        }
    }

    /// Searches as `find_path_at` does, at the present minute of the hour.
    pub fn find_path(&mut self, index: usize, source: &Position, destination: &Position) -> (found:
        (Vec<u32>, u64, u64))
        ensures
            final(self).nodes() == old(self).nodes(),
            final(self).lights() == old(self).lights(),
            final(self).geometries() == old(self).geometries(),
            final(self).node_index() == old(self).node_index(),
            final(self).light_index() == old(self).light_index(),
            final(self).solver_pool().len() == old(self).solver_pool().len(),
            forall|i: int|
                0 <= i < old(self).solver_pool().len() && i != index
                    ==> (#[trigger] final(self).solver_pool()[i]) == old(self).solver_pool()[i],
            index >= old(self).solver_pool().len() || old(self).closest_to(*source) is None
                || old(self).closest_to(*destination) is None
                    ==> found.0@.len() == 0
                        && found.1 == 0
                        && found.2 == 0
                        && final(self).solver_pool() == old(self).solver_pool(),
            index < old(self).solver_pool().len()
                && old(self).closest_to(*source) is Some
                && old(self).closest_to(*destination) is Some
                ==> {
                let after = final(self).solver_pool()[index as int];
                &&& after.inv(final(self).nodes())
                &&& after.start_index() == old(self).closest_to(*source)->0
                &&& after.end_index() == old(self).closest_to(*destination)->0
                &&& after.method() == old(self).solver_pool()[index as int].method()
                &&& after.pending() == 0
                &&& exists|minute: u32|
                    minute < 60 && #[trigger] after.settled(final(self).nodes(), minute)
                &&& (steady(final(self).nodes(), after.method()) ==> after.settled(
                    final(self).nodes(),
                    0,
                ))
                &&& (after.method() == SearchMethod::SHORTEST ==> after.by_length())
                &&& after.attained(final(self).nodes())
                &&& (found.0@, found.1 as int, found.2 as int) == Engine::reported(
                    &after,
                    final(self).nodes(),
                )
            },
    {
        let minute = current_minute();
        let found = self.find_path_at(index, source, destination, minute);
        proof {
            if index < old(self).solver_pool().len() && old(self).closest_to(*source) is Some
                && old(self).closest_to(*destination) is Some {
                let after = self.solver_pool()[index as int];
                assert(after.settled(self.nodes(), minute));
                if steady(self.nodes(), after.method()) {
                    after.lemma_settled_at_any_minute(self.nodes(), minute, 0);
                }
            }
        }
        found
    }

    /// The node that `get_closest_node` finds for `position`.
    pub open spec fn closest_to(&self, position: Position) -> Option<u32> {
        match self.node_index() {
            None => None,
            Some(tree) => match tree.find_spec(position) {
                None => None,
                Some(bucket) => match nearest_in(bucket, position, bucket.len()) {
                    None => None,
                    Some(best) => if bucket[best].index < self.nodes().len() {
                        Some(bucket[best].index)
                    } else {
                        None
                    },
                },
            },
        }
    }

    /// Begins a search from `start` to `end` with `solver`, runs it to its
    /// end at `minute` minutes past the hour, and returns what it reports.
    fn search(solver: &mut Solver, nodes: &Vec<Node>, start: u32, end: u32, minute: u32) -> (found:
        (Vec<u32>, u64, u64))
        requires
            old(solver).inv(nodes@),
            start < nodes@.len(),
            end < nodes@.len(),
            minute < 60,
        ensures
            final(solver).inv(nodes@),
            final(solver).start_index() == start,
            final(solver).end_index() == end,
            final(solver).method() == old(solver).method(),
            final(solver).pending() == 0,
            final(solver).settled(nodes@, minute),
            final(solver).method() == SearchMethod::SHORTEST ==> final(solver).by_length(),
            final(solver).attained(nodes@),
            (found.0@, found.1 as int, found.2 as int) == Engine::reported(final(solver), nodes@),
    {
        solver.update_search(start, end);
        let ghost begun = *solver;
        solver.update_search_speed(100_000_000);
        proof {
            begun.lemma_fresh_settled(nodes@, minute);
            solver.lemma_settled_of_same_state(&begun, nodes@, minute);
            begun.lemma_fresh_attained(nodes@);
            solver.lemma_attained_of_same_state(&begun, nodes@);
            solver.lemma_fresh_inv(nodes@);
            assert(solver.queue().contains((MAX_TIME, start))) by {
                broadcast use vstd::multiset::group_multiset_axioms;

            }
        }
        solver.run_at(nodes, minute);
        match solver.get_path_as_indices() {
            Some((path, time, distance)) => {
                let mut copy: Vec<u32> = Vec::new();
                let mut k: usize = 0;
                while k < path.len()
                    invariant
                        k <= path@.len(),
                        copy@ == path@.subrange(0, k as int),
                    decreases path@.len() - k,
                {
                    copy.push(path[k]);
                    proof {
                        assert(path@.subrange(0, k + 1) =~= path@.subrange(0, k as int).push(
                            path@[k as int],
                        ));
                    }
                    k = k + 1;
                }
                proof {
                    assert(path@.subrange(0, k as int) =~= path@);
                }
                (copy, *time, *distance)
            },
            None => (Vec::new(), 0, 0),
        }
    }

    /// For each light its id and the id of the suburb of least area that
    /// holds it, as the function `compute` of this module finds them.
    pub fn compute(&self) -> (pairs: Vec<(u32, u32)>)
        ensures
            pairs@.len() == self.lights().len(),
            forall|i: int|
                0 <= i < pairs@.len() ==> (#[trigger] pairs@[i]) == (
                    self.lights()[i].id,
                    suburb_id_of(self.geometries(), self.lights()[i].position),
                ),
    {
        proof {
            use_type_invariant(self);
        }
        compute(&self.suburbs, &self.traffic_lights)
    }
}

} // verus!
