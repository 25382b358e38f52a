use roadnet::geometry::Position;
use roadnet::node::{Connection, Node, NodeType};
use roadnet::solver::{
    edge_weight, is_load_shedding, is_valid_graph, SearchMethod, Solver, MAX_COST,
};

const DEGREE: i32 = 10_000_000;

fn edge(to: u32, metres: u32, speed: u16) -> Connection {
    Connection { index: to, cost: metres, speed }
}

/// A(0,0) - B(1,0) - C(2,0), each edge one kilometre at 60 km/h, both ways.
fn line() -> Vec<Node> {
    vec![
        Node::new(0, Position::new(0, 0), vec![edge(1, 1000, 60)]),
        Node::new(1, Position::new(DEGREE, 0), vec![edge(0, 1000, 60), edge(2, 1000, 60)]),
        Node::new(2, Position::new(2 * DEGREE, 0), vec![edge(1, 1000, 60)]),
    ]
}

/// The line with a direct edge A - C of three kilometres at 120 km/h.
fn triangle() -> Vec<Node> {
    vec![
        Node::new(0, Position::new(0, 0), vec![edge(2, 3000, 120), edge(1, 1000, 60)]),
        Node::new(1, Position::new(DEGREE, 0), vec![edge(0, 1000, 60), edge(2, 1000, 60)]),
        Node::new(2, Position::new(2 * DEGREE, 0), vec![edge(1, 1000, 60), edge(0, 3000, 120)]),
    ]
}

fn solve(nodes: &Vec<Node>, start: usize, end: usize, method: SearchMethod) -> Solver {
    assert!(is_valid_graph(nodes));
    let mut solver = Solver::new(nodes, start, end, 100, method);
    solver.run_at(nodes, 0);
    solver
}

#[test]
fn straight_line_route() {
    let nodes = line();
    let solver = solve(&nodes, 0, 2, SearchMethod::FASTEST);
    let (path, time, distance) = solver.get_path_as_indices().clone().unwrap();
    assert_eq!(path, vec![0, 1, 2]);
    assert_eq!(distance, 2000);
    assert_eq!(time, 120_000);
    assert_eq!(solver.get_cost(2), 120_000);
    assert!(solver.fully_searched());
}

#[test]
fn light_without_power_costs_six_times() {
    let mut nodes = line();
    nodes[1].node_type = NodeType::AtTrafficLight;
    nodes[1].flag = 0xFFFF_FFFF;
    let solver = solve(&nodes, 0, 2, SearchMethod::FASTEST);
    let (path, time, distance) = solver.get_path_as_indices().clone().unwrap();
    assert_eq!(path, vec![0, 1, 2]);
    assert_eq!(distance, 2000);
    assert_eq!(time, 60_000 + 360_000);
    assert_eq!(solver.get_cost(2), 420_000);
}

#[test]
fn light_with_power_costs_nothing_extra() {
    let mut nodes = line();
    nodes[1].node_type = NodeType::AtTrafficLight;
    nodes[1].flag = 0;
    let solver = solve(&nodes, 0, 2, SearchMethod::FASTEST);
    assert_eq!(solver.get_cost(2), 120_000);
}

#[test]
fn avoid_penalises_lights_heavily() {
    let mut nodes = line();
    nodes[1].node_type = NodeType::NearTrafficLight;
    let solver = solve(&nodes, 0, 2, SearchMethod::AVOID);
    assert_eq!(solver.get_cost(2), 60_000 + 60_000 * 101);
}

#[test]
fn fastest_takes_the_quick_edge_and_shortest_the_short_way() {
    let nodes = triangle();
    let fastest = solve(&nodes, 0, 2, SearchMethod::FASTEST);
    let (path, _, distance) = fastest.get_path_as_indices().clone().unwrap();
    assert_eq!(path, vec![0, 2]);
    assert_eq!(distance, 3000);
    assert_eq!(fastest.get_cost(2), 90_000);

    let shortest = solve(&nodes, 0, 2, SearchMethod::SHORTEST);
    let (path, _, distance) = shortest.get_path_as_indices().clone().unwrap();
    assert_eq!(path, vec![0, 1, 2]);
    assert_eq!(distance, 2000);
    assert_eq!(shortest.get_cost(2), 2000 * 60);
}

#[test]
fn reset_forgets_everything_but_the_start() {
    let nodes = line();
    let mut solver = solve(&nodes, 0, 2, SearchMethod::FASTEST);
    solver.reset();
    assert_eq!(solver.get_cost(0), 0);
    for i in 1..3u32 {
        assert_eq!(solver.get_cost(i), u64::MAX);
        assert!(!solver.has_visited(i));
    }
    for i in 0..3u32 {
        assert_eq!(solver.get_previous(i), u32::MAX);
        assert_eq!(solver.get_connection_len(i), 0);
    }
    assert!(solver.get_path_as_indices().is_none());
    assert!(!solver.fully_searched());
}

#[test]
fn costs_never_fall_below_the_predecessor() {
    let nodes = triangle();
    let solver = solve(&nodes, 1, 0, SearchMethod::FASTEST);
    for i in 0..3u32 {
        let p = solver.get_previous(i);
        if p != u32::MAX {
            assert!(solver.get_cost(i) >= solver.get_cost(p));
        }
    }
}

#[test]
fn unreachable_end_gives_no_route() {
    let nodes = vec![
        Node::new(0, Position::new(0, 0), vec![]),
        Node::new(1, Position::new(DEGREE, 0), vec![edge(0, 1000, 60)]),
    ];
    let solver = solve(&nodes, 0, 1, SearchMethod::FASTEST);
    assert!(solver.get_path_as_indices().is_none());
    assert!(!solver.has_visited(1));
    assert!(solver.fully_searched());
}

#[test]
fn batches_stop_at_the_budget() {
    let nodes = line();
    let mut solver = Solver::new(&nodes, 0, 2, 1, SearchMethod::FASTEST);
    solver.compute_at(&nodes, 0);
    assert!(!solver.fully_searched());
    assert!(solver.has_visited(1));
    assert!(!solver.has_visited(2));
    solver.update_search_speed(10);
    solver.compute_at(&nodes, 0);
    assert!(solver.has_visited(2));
    assert!(solver.fully_searched());
}

#[test]
fn start_equal_to_end_is_a_route_of_one_node() {
    let nodes = line();
    let solver = solve(&nodes, 1, 1, SearchMethod::FASTEST);
    let (path, time, distance) = solver.get_path_as_indices().clone().unwrap();
    assert_eq!(path, vec![1]);
    assert_eq!((time, distance), (0, 0));
}

#[test]
fn nodes_beyond_sixteen_hours_are_not_reached() {
    let nodes = vec![
        Node::new(0, Position::new(0, 0), vec![edge(1, 2_000_000, 100)]),
        Node::new(1, Position::new(DEGREE, 0), vec![]),
    ];
    let solver = solve(&nodes, 0, 1, SearchMethod::FASTEST);
    assert!(2_000_000u64 * 3600 / 100 > MAX_COST);
    assert!(!solver.has_visited(1));
}

#[test]
fn an_edge_without_speed_is_impassable_unless_only_length_counts() {
    let nodes = vec![
        Node::new(0, Position::new(0, 0), vec![edge(1, 1000, 0)]),
        Node::new(1, Position::new(DEGREE, 0), vec![]),
    ];
    assert!(!solve(&nodes, 0, 1, SearchMethod::FASTEST).has_visited(1));
    assert_eq!(solve(&nodes, 0, 1, SearchMethod::SHORTEST).get_cost(1), 60_000);
}

#[test]
fn shed_is_the_bit_of_the_hour() {
    assert_eq!(is_load_shedding(0xFFFF_FFFF, 0), 1);
    assert_eq!(is_load_shedding(0xFFFF_FFFF, 31), 1);
    assert_eq!(is_load_shedding(0, 7), 0);
    assert_eq!(is_load_shedding(1, 0), 1);
    assert_eq!(is_load_shedding(1, 1), 0);
    assert_eq!(is_load_shedding(0x8000_0000, 31), 1);
    assert_eq!(is_load_shedding(0x8000_0000, 0), 0);
    for hour in 0..32u32 {
        let flag = 0x0F0F_1234u32;
        assert_eq!(is_load_shedding(flag, hour), (flag >> hour) & 1);
        let mirrored = 0x8001_8001u32;
        assert_eq!(is_load_shedding(mirrored, hour), (mirrored >> (31 - hour)) & 1);
    }
}

#[test]
fn weights_follow_the_table() {
    let c = edge(1, 1000, 60);
    let all = 0xFFFF_FFFFu32;
    assert_eq!(edge_weight(SearchMethod::FASTEST, &c, NodeType::Normal, all, 3), 60_000);
    assert_eq!(edge_weight(SearchMethod::FASTEST, &c, NodeType::NearTrafficLight, all, 3), 240_000);
    assert_eq!(edge_weight(SearchMethod::FASTEST, &c, NodeType::AtTrafficLight, all, 3), 360_000);
    assert_eq!(edge_weight(SearchMethod::FASTEST, &c, NodeType::AtTrafficLight, 0, 3), 60_000);
    assert_eq!(edge_weight(SearchMethod::SHORTEST, &c, NodeType::AtTrafficLight, all, 3), 60_000);
    assert_eq!(edge_weight(SearchMethod::AVOID, &c, NodeType::Normal, all, 3), 60_000);
    assert_eq!(edge_weight(SearchMethod::AVOID, &c, NodeType::NearTrafficLight, all, 3), 6_060_000);
    assert_eq!(edge_weight(SearchMethod::AVOID, &c, NodeType::AtTrafficLight, all, 3), 12_060_000);
    assert_eq!(edge_weight(SearchMethod::FASTEST, &edge(1, 5, 0), NodeType::Normal, all, 3), u64::MAX);
    // bit 3 only
    assert_eq!(edge_weight(SearchMethod::FASTEST, &c, NodeType::AtTrafficLight, 8, 3), 360_000);
    assert_eq!(edge_weight(SearchMethod::FASTEST, &c, NodeType::AtTrafficLight, 8, 4), 60_000);
}

#[test]
fn the_hour_of_arrival_decides_the_penalty() {
    // Two hours to B; at B power is cut during hour 2 only.
    let mut nodes = vec![
        Node::new(0, Position::new(0, 0), vec![edge(1, 120_000, 60)]),
        Node::new(1, Position::new(DEGREE, 0), vec![edge(2, 1000, 60)]),
        Node::new(2, Position::new(2 * DEGREE, 0), vec![]),
    ];
    nodes[1].node_type = NodeType::AtTrafficLight;
    nodes[1].flag = 1 << 2;
    let solver = solve(&nodes, 0, 2, SearchMethod::FASTEST);
    assert_eq!(solver.get_cost(1), 7_200_000);
    assert_eq!(solver.get_cost(2), 7_200_000 + 360_000);
    nodes[1].flag = 1 << 3;
    let solver = solve(&nodes, 0, 2, SearchMethod::FASTEST);
    assert_eq!(solver.get_cost(2), 7_200_000 + 60_000);
}

#[test]
fn route_as_positions() {
    let nodes = line();
    let solver = solve(&nodes, 0, 2, SearchMethod::FASTEST);
    let (positions, time, distance) = solver.get_path_as_positions(&nodes).unwrap();
    assert_eq!(
        positions,
        vec![Position::new(0, 0), Position::new(DEGREE, 0), Position::new(2 * DEGREE, 0)]
    );
    assert_eq!((time, distance), (120_000, 2000));
}

#[test]
fn backtracked_route_is_a_walk_of_the_reported_length() {
    let nodes = triangle();
    let solver = solve(&nodes, 0, 2, SearchMethod::SHORTEST);
    let (path, distance, _) = solver.backtrack(&nodes);
    let mut sum = 0u64;
    for pair in path.windows(2) {
        let found = nodes[pair[0] as usize]
            .connections
            .iter()
            .find(|c| c.index == pair[1])
            .expect("consecutive nodes are joined by an edge");
        sum += found.cost as u64;
    }
    assert_eq!(path.first(), Some(&0));
    assert_eq!(path.last(), Some(&2));
    assert_eq!(sum, distance);
}

#[test]
fn the_warm_up_pass_reaches_the_end_along_the_crow_line() {
    // From A the way via B heads straight for D; the way via C is cheaper.
    let nodes = vec![
        Node::new(0, Position::new(0, 0), vec![edge(1, 5000, 60), edge(2, 1000, 60)]),
        Node::new(1, Position::new(2 * DEGREE, 0), vec![edge(3, 5000, 60)]),
        Node::new(2, Position::new(-DEGREE, 0), vec![edge(3, 1000, 60)]),
        Node::new(3, Position::new(3 * DEGREE, 0), vec![]),
    ];
    let mut solver = Solver::new(&nodes, 0, 3, 100, SearchMethod::FASTEST);
    solver.compute_pairing_direct(&nodes, 0);
    // the pass went A, B and found D at ten kilometres
    assert!(solver.has_visited(3));
    assert_eq!(solver.get_cost(3), 600_000);
    assert_eq!(solver.get_previous(3), 1);
    assert!(solver.get_path_as_indices().is_none());
    // the batches that follow find the cheaper way
    solver.run_at(&nodes, 0);
    assert_eq!(solver.get_cost(3), 120_000);
    let (path, time, distance) = solver.get_path_as_indices().clone().unwrap();
    assert_eq!((path, time, distance), (vec![0, 2, 3], 120_000, 2000));
    // a second pass changes nothing once the end is reached
    solver.compute_pairing_direct(&nodes, 0);
    assert_eq!(solver.get_cost(3), 120_000);
}

#[test]
fn warm_up_and_batch_in_one() {
    let nodes = triangle();
    let mut solver = Solver::new(&nodes, 0, 2, 100, SearchMethod::SHORTEST);
    solver.compute_pre_find_at(&nodes, 0);
    solver.run_at(&nodes, 0);
    let (path, _, distance) = solver.get_path_as_indices().clone().unwrap();
    assert_eq!((path, distance), (vec![0, 1, 2], 2000));
    let mut other = Solver::new(&nodes, 0, 2, 100, SearchMethod::FASTEST);
    other.compute_pre_find(&nodes);
    other.run(&nodes);
    assert_eq!(other.get_path_as_indices().clone().unwrap().0, vec![0, 2]);
}

#[test]
fn the_warm_up_pass_gives_up_where_nothing_leads_on() {
    let nodes = vec![
        Node::new(0, Position::new(0, 0), vec![edge(1, 1000, 60)]),
        Node::new(1, Position::new(DEGREE, 0), vec![edge(0, 1000, 60)]),
        Node::new(2, Position::new(2 * DEGREE, 0), vec![]),
    ];
    let mut solver = Solver::new(&nodes, 0, 2, 100, SearchMethod::FASTEST);
    solver.compute_pairing_direct(&nodes, 0);
    assert!(!solver.has_visited(2));
    assert_eq!(solver.get_cost(1), 60_000);
    solver.run_at(&nodes, 0);
    assert!(solver.get_path_as_indices().is_none());
}

#[test]
fn methods_by_number() {
    assert_eq!(SearchMethod::from_code(0), SearchMethod::FASTEST);
    assert_eq!(SearchMethod::from_code(1), SearchMethod::SHORTEST);
    assert_eq!(SearchMethod::from_code(2), SearchMethod::AVOID);
    assert_eq!(SearchMethod::from_code(-7), SearchMethod::AVOID);
}

#[test]
fn the_route_has_one_node_more_than_the_end_counts_hops() {
    for (nodes, method) in [
        (line(), SearchMethod::FASTEST),
        (triangle(), SearchMethod::FASTEST),
        (triangle(), SearchMethod::SHORTEST),
        (triangle(), SearchMethod::AVOID),
    ] {
        let solver = solve(&nodes, 0, 2, method);
        let path = solver.get_path_as_indices().clone().unwrap().0;
        assert_eq!(path.len(), solver.get_connection_len(2) as usize + 1);
        assert_eq!(path[0], 0);
        assert_eq!(*path.last().unwrap(), 2);
        // every node costs what its predecessor and the edge between them cost
        for pair in path.windows(2) {
            let from = &nodes[pair[0] as usize];
            let cheapest = from
                .connections
                .iter()
                .filter(|c| c.index == pair[1])
                .map(|c| edge_weight(method, c, from.node_type, from.flag, 0))
                .min()
                .unwrap();
            assert_eq!(solver.get_cost(pair[1]), solver.get_cost(pair[0]) + cheapest);
        }
    }
}

#[test]
fn a_batch_takes_no_more_steps_than_its_budget() {
    let nodes = triangle();
    let mut solver = Solver::new(&nodes, 0, 2, 0, SearchMethod::FASTEST);
    solver.compute_at(&nodes, 0);
    assert!(!solver.fully_searched());
    assert!(!solver.has_visited(1));
    assert_eq!(solver.get_cost(0), 0);
    solver.update_search_speed(1);
    solver.compute_at(&nodes, 0);
    assert!(solver.has_visited(1) && solver.has_visited(2));
    assert!(!solver.fully_searched());
}
