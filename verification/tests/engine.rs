use roadnet::engine::{Engine, MAX_SOLVERS};
use roadnet::geometry::{Boundary, Position};
use roadnet::loader::LoadError;
use roadnet::node::{Connection, Node, NodeType};
use roadnet::parallel_list::ParallelList;
use roadnet::solver::SearchMethod;
use roadnet::suburb::Suburb;
use roadnet::traffic_light::TrafficLight;

const DEGREE: i32 = 10_000_000;

fn edge(to: u32, metres: u32, speed: u16) -> Connection {
    Connection { index: to, cost: metres, speed }
}

fn list<T>(values: Vec<T>) -> ParallelList<T> {
    let mut list = ParallelList::new(values.len());
    for (i, v) in values.into_iter().enumerate() {
        list.insert(v, i);
    }
    list
}

fn triangle() -> Vec<Node> {
    vec![
        Node::new(0, Position::new(0, 0), vec![edge(1, 1000, 60), edge(2, 3000, 120)]),
        Node::new(1, Position::new(DEGREE, 0), vec![edge(0, 1000, 60), edge(2, 1000, 60)]),
        Node::new(2, Position::new(2 * DEGREE, 0), vec![edge(1, 1000, 60), edge(0, 3000, 120)]),
    ]
}

fn engine() -> Engine {
    let mut engine = Engine::new();
    assert!(engine.add_nodes(list(triangle())));
    engine.build_node_tree();
    engine
}

#[test]
fn find_path_on_a_line() {
    let mut engine = Engine::new();
    let line = vec![
        Node::new(0, Position::new(0, 0), vec![edge(1, 1000, 60)]),
        Node::new(1, Position::new(DEGREE, 0), vec![edge(0, 1000, 60), edge(2, 1000, 60)]),
        Node::new(2, Position::new(2 * DEGREE, 0), vec![edge(1, 1000, 60)]),
    ];
    assert!(engine.add_nodes(list(line)));
    engine.build_node_tree();
    let handle = engine.build_solver().unwrap();
    let found =
        engine.find_path_at(handle, &Position::new(0, 0), &Position::new(2 * DEGREE, 0), 0);
    assert_eq!(found, (vec![0, 1, 2], 120_000, 2000));
    let found = engine.find_path(handle, &Position::new(2 * DEGREE, 0), &Position::new(5, 0));
    assert_eq!(found, (vec![2, 1, 0], 120_000, 2000));
}

#[test]
fn the_method_decides_the_route() {
    let mut engine = engine();
    let handle = engine.build_solver().unwrap();
    let a = Position::new(0, 0);
    let c = Position::new(2 * DEGREE, 0);
    assert_eq!(engine.find_path_at(handle, &a, &c, 30).0, vec![0, 2]);
    assert!(engine.set_search_method(handle, SearchMethod::SHORTEST));
    assert_eq!(engine.find_path_at(handle, &a, &c, 30), (vec![0, 1, 2], 120_000, 2000));
    assert!(!engine.set_search_method(handle + 1, SearchMethod::AVOID));
    assert_eq!(engine.get_solver(handle).unwrap().search_method, SearchMethod::SHORTEST);
}

#[test]
fn unresolved_points_give_the_empty_route() {
    let mut engine = engine();
    let handle = engine.build_solver().unwrap();
    let outside = Position::new(-1, 0);
    let inside = Position::new(3, 0);
    assert_eq!(engine.find_path_at(handle, &outside, &inside, 0), (vec![], 0, 0));
    assert_eq!(engine.find_path_at(handle, &inside, &outside, 0), (vec![], 0, 0));
    assert_eq!(engine.find_path_at(handle + 5, &inside, &inside, 0), (vec![], 0, 0));
    let mut bare = Engine::new();
    assert!(bare.add_nodes(list(triangle())));
    let handle = bare.build_solver().unwrap();
    assert_eq!(bare.find_path_at(handle, &inside, &inside, 0), (vec![], 0, 0));
}

#[test]
fn an_unreachable_destination_gives_the_empty_route() {
    let mut engine = Engine::new();
    let nodes = vec![
        Node::new(0, Position::new(0, 0), vec![]),
        Node::new(1, Position::new(DEGREE, 0), vec![edge(0, 1000, 60)]),
    ];
    assert!(engine.add_nodes(list(nodes)));
    engine.build_node_tree();
    let handle = engine.build_solver().unwrap();
    let found = engine.find_path_at(handle, &Position::new(0, 0), &Position::new(DEGREE, 0), 0);
    assert_eq!(found, (vec![], 0, 0));
}

#[test]
fn graphs_with_holes_or_loose_edges_are_refused() {
    let mut engine = engine();
    let mut holes: ParallelList<Node> = ParallelList::new(2);
    holes.insert(Node::new(0, Position::new(0, 0), vec![]), 0);
    assert!(!engine.add_nodes(holes));
    let loose = vec![Node::new(0, Position::new(0, 0), vec![edge(1, 5, 60)])];
    assert!(!engine.add_nodes(list(loose)));
    assert_eq!(engine.get_nodes().len(), 3);
    assert!(engine.get_node_tree().is_some());
    assert!(engine.add_nodes(list(vec![])));
    assert_eq!(engine.get_nodes().len(), 0);
    assert!(engine.get_node_tree().is_none());
    assert_eq!(engine.build_solver(), None);
}

#[test]
fn the_pool_of_solvers_is_bounded() {
    let mut engine = engine();
    for i in 0..MAX_SOLVERS {
        assert_eq!(engine.build_solver(), Some(i));
    }
    assert_eq!(engine.build_solver(), None);
    engine.remove_solver();
    assert!(engine.get_solver(MAX_SOLVERS - 1).is_none());
    assert_eq!(engine.add_solver(1, 2, 10, SearchMethod::AVOID), Some(MAX_SOLVERS - 1));
    assert_eq!(engine.add_solver(1, 3, 10, SearchMethod::AVOID), None);
    let solver = engine.get_solver(MAX_SOLVERS - 1).unwrap();
    assert_eq!(solver.get_start_node_index(), 1);
    assert_eq!(solver.get_end_node_index(), 2);
    assert!(engine.add_nodes(list(triangle())));
    assert!(engine.get_solver(0).is_none());
    let mut empty = Engine::new();
    empty.remove_solver();
    assert!(empty.get_solver(0).is_none());
}

#[test]
fn flags_are_overwritten_in_order_and_nodes_typed_anew() {
    let mut engine = engine();
    let lights = vec![
        TrafficLight { id: 0, position: Position::new(100, 0), flag: 1 },
        TrafficLight { id: 1, position: Position::new(2 * DEGREE - 5000, 0), flag: 2 },
    ];
    assert!(engine.add_traffic_lights(list(lights)));
    engine.build_traffic_light_tree();
    assert!(engine.get_traffic_light_tree().is_some());
    engine.associate_traffic_lights_to_nodes();
    let types: Vec<NodeType> = engine.get_nodes().iter().map(|n| n.node_type).collect();
    assert_eq!(
        types,
        vec![NodeType::AtTrafficLight, NodeType::Normal, NodeType::NearTrafficLight]
    );
    engine.update_traffic_light_flags(&vec![9, 8, 7]);
    let flags: Vec<u32> = engine.get_traffic_lights().iter().map(|l| l.flag).collect();
    assert_eq!(flags, vec![9, 8]);
    engine.update_traffic_light_flags(&vec![3]);
    let flags: Vec<u32> = engine.get_traffic_lights().iter().map(|l| l.flag).collect();
    assert_eq!(flags, vec![3, 8]);
    let again: Vec<NodeType> = engine.get_nodes().iter().map(|n| n.node_type).collect();
    assert_eq!(again, types);
    let mut holes: ParallelList<TrafficLight> = ParallelList::new(1);
    assert!(!engine.add_traffic_lights(holes));
    holes = ParallelList::new(0);
    assert!(engine.add_traffic_lights(holes));
    assert!(engine.get_traffic_light_tree().is_none());
}

#[test]
fn lights_are_mapped_to_suburbs() {
    let mut engine = Engine::new();
    let square = |id: u32, x0: i32, side: i32| Suburb {
        id,
        boundary: Boundary {
            corner_min: Position::new(x0, x0),
            corner_max: Position::new(x0 + side, x0 + side),
        },
        x_points: vec![x0, x0 + side, x0 + side, x0, x0],
        y_points: vec![x0, x0, x0 + side, x0 + side, x0],
    };
    assert!(engine.add_suburbs(list(vec![square(4, -DEGREE / 2, 2 * DEGREE), square(1, 0, DEGREE)])));
    let light = TrafficLight { id: 77, position: Position::new(DEGREE / 2, DEGREE / 2), flag: 0 };
    assert!(engine.add_traffic_lights(list(vec![light])));
    assert_eq!(engine.compute(), vec![(77, 1)]);
    let crooked =
        Suburb { id: 3, boundary: square(3, 0, 1).boundary, x_points: vec![1], y_points: vec![] };
    assert!(!engine.add_suburbs(list(vec![crooked])));
    assert_eq!(engine.get_suburbs().len(), 2);
}

#[test]
fn the_nearest_node_is_looked_up_in_the_index() {
    let engine = engine();
    assert_eq!(engine.get_closest_node(&Position::new(DEGREE + 10, 0)), Some(1));
    assert_eq!(engine.get_closest_node(&Position::new(2 * DEGREE, 0)), Some(2));
    assert_eq!(engine.get_closest_node(&Position::new(2 * DEGREE + 1, 0)), None);
    engine.witness_coherence();
}

fn node_record(id: i32, x: f64, y: f64, speed: i32, edges: &[(i32, f64)]) -> Vec<u8> {
    let mut b = Vec::new();
    b.extend_from_slice(&id.to_be_bytes());
    b.extend_from_slice(&x.to_be_bytes());
    b.extend_from_slice(&y.to_be_bytes());
    b.extend_from_slice(&speed.to_be_bytes());
    b.extend_from_slice(&(edges.len() as i32).to_be_bytes());
    for (to, km) in edges {
        b.extend_from_slice(&to.to_be_bytes());
        b.extend_from_slice(&km.to_be_bytes());
    }
    b
}

fn light_record(id: i32, flag: i32, x: f64, y: f64) -> Vec<u8> {
    let mut b = Vec::new();
    b.extend_from_slice(&id.to_be_bytes());
    b.extend_from_slice(&flag.to_be_bytes());
    b.extend_from_slice(&x.to_be_bytes());
    b.extend_from_slice(&y.to_be_bytes());
    b
}

fn payload(records: &[Vec<u8>]) -> Vec<u8> {
    let mut b = Vec::new();
    b.extend_from_slice(&(records.len() as i32).to_be_bytes());
    for r in records {
        b.extend_from_slice(&(r.len() as i32).to_be_bytes());
        b.extend_from_slice(r);
    }
    b
}

#[test]
fn payloads_are_taken_in() {
    let mut engine = Engine::new();
    let nodes = payload(&[
        node_record(1, 1.0, 0.0, 60, &[(0, 1.0), (2, 1.0)]),
        node_record(0, 0.0, 0.0, 60, &[(1, 1.0)]),
        node_record(2, 2.0, 0.0, 60, &[(1, 1.0)]),
    ]);
    assert_eq!(engine.send_nodes(&nodes), Ok(()));
    assert_eq!(engine.get_nodes().len(), 3);
    assert!(engine.get_node_tree().is_some());
    let handle = engine.build_solver().unwrap();
    let found =
        engine.find_path_at(handle, &Position::new(0, 0), &Position::new(2 * DEGREE, 0), 59);
    assert_eq!(found, (vec![0, 1, 2], 120_000, 2000));
    // a loose edge is refused and leaves everything as it was
    let loose = payload(&[node_record(0, 0.0, 0.0, 60, &[(5, 1.0)])]);
    assert_eq!(engine.send_nodes(&loose), Err(LoadError::UnknownTarget));
    assert_eq!(engine.send_nodes(&nodes[..nodes.len() - 2]), Err(LoadError::Truncated));
    assert_eq!(engine.get_nodes().len(), 3);
    assert!(engine.get_solver(handle).is_some());
    let lights = payload(&[light_record(0, 3, 0.00001, 0.0)]);
    assert_eq!(engine.send_traffic_lights(&lights), Ok(()));
    assert_eq!(engine.send_traffic_lights(&lights[..5]), Err(LoadError::Truncated));
    assert_eq!(engine.get_traffic_lights()[0].flag, 3);
    engine.associate_traffic_lights_to_nodes();
    assert_eq!(engine.get_nodes()[0].node_type, NodeType::AtTrafficLight);
    assert_eq!(engine.send_suburbs(&payload(&[])), Ok(()));
    assert_eq!(engine.send_suburbs(&payload(&[vec![0; 10]])), Err(LoadError::BadRecord));
}

#[test]
fn searches_can_be_stepped() {
    let mut engine = engine();
    let handle = engine.add_solver(0, 2, 1, SearchMethod::SHORTEST).unwrap();
    assert_eq!(engine.step_at(handle, 0), Some(false));
    assert_eq!(engine.step_at(handle + 1, 0), None);
    assert!(engine.update_search_speed(handle, 50));
    assert!(!engine.update_search_speed(handle + 1, 50));
    assert_eq!(engine.step(handle), Some(true));
    let solver = engine.get_solver(handle).unwrap();
    assert_eq!(solver.get_path_as_indices().clone().unwrap().0, vec![0, 1, 2]);
    assert!(engine.update_search(handle, 2, 0));
    assert!(!engine.update_search(handle, 2, 3));
    assert!(!engine.update_search(handle + 1, 0, 0));
    assert_eq!(engine.get_solver(handle).unwrap().get_start_node_index(), 2);
    assert!(engine.get_solver(handle).unwrap().get_path_as_indices().is_none());
}

#[test]
fn a_built_solver_is_fresh_and_leaves_the_others() {
    let mut engine = engine();
    let first = engine.add_solver(0, 2, 100_000_000, SearchMethod::SHORTEST).unwrap();
    assert_eq!(engine.step_at(first, 0), Some(true));
    let second = engine.build_solver().unwrap();
    assert_eq!(second, first + 1);
    let kept = engine.get_solver(first).unwrap();
    assert_eq!(kept.get_path_as_indices().clone().unwrap().0, vec![0, 1, 2]);
    assert_eq!(kept.get_start_node_index(), 0);
    assert_eq!(kept.get_end_node_index(), 2);
    let built = engine.get_solver(second).unwrap();
    assert_eq!(built.get_start_node_index(), 0);
    assert_eq!(built.get_end_node_index(), 0);
    assert!(built.get_path_as_indices().is_none());
    assert!(!built.fully_searched());
    assert_eq!(built.get_cost(0), 0);
    for node in 1..3 {
        assert!(!built.has_visited(node));
    }
}

#[test]
fn a_step_keeps_what_was_reached() {
    let mut engine = engine();
    let handle = engine.add_solver(0, 2, 1, SearchMethod::FASTEST).unwrap();
    assert_eq!(engine.step_at(handle, 0), Some(false));
    let reached: Vec<bool> =
        (0..3).map(|node| engine.get_solver(handle).unwrap().has_visited(node)).collect();
    let costs: Vec<u64> =
        (0..3).map(|node| engine.get_solver(handle).unwrap().get_cost(node)).collect();
    assert_eq!(engine.step_at(handle, 30), Some(true));
    let solver = engine.get_solver(handle).unwrap();
    for node in 0..3u32 {
        if reached[node as usize] {
            assert!(solver.has_visited(node));
        }
        assert!(solver.get_cost(node) <= costs[node as usize]);
    }
}
