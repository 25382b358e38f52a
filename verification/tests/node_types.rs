use roadnet::engine::{associate_traffic_lights_to_nodes, create_tree, get_boundary, get_closest_node};
use roadnet::geometry::{distance_sq, Boundary, Position};
use roadnet::node::{Located, Node, NodeType};
use roadnet::traffic_light::TrafficLight;

fn metres_squared(m: u128) -> u128 {
    (m * 100_000_000) * (m * 100_000_000)
}

#[test]
fn distance_squared_uses_the_two_scales() {
    let a = Position::new(0, 0);
    assert_eq!(distance_sq(&a, &Position::new(1, 0)), 852_952u128 * 852_952);
    assert_eq!(distance_sq(&a, &Position::new(0, -1)), 1_109_480u128 * 1_109_480);
    assert_eq!(
        distance_sq(&Position::new(3, 4), &Position::new(1, 1)),
        (2 * 852_952u128).pow(2) + (3 * 1_109_480u128).pow(2)
    );
    assert_eq!(
        distance_sq(&Position::new(i32::MIN, i32::MIN), &Position::new(i32::MAX, i32::MAX)),
        (4_294_967_295u128 * 852_952).pow(2) + (4_294_967_295u128 * 1_109_480).pow(2)
    );
}

#[test]
fn classification_by_distance() {
    let at = metres_squared(25);
    let near = metres_squared(100);
    assert_eq!(NodeType::Normal.classify(at - 1), NodeType::AtTrafficLight);
    assert_eq!(NodeType::Normal.classify(at), NodeType::NearTrafficLight);
    assert_eq!(NodeType::Normal.classify(near - 1), NodeType::NearTrafficLight);
    assert_eq!(NodeType::Normal.classify(near), NodeType::Normal);
    assert_eq!(NodeType::NearTrafficLight.classify(at - 1), NodeType::AtTrafficLight);
    assert_eq!(NodeType::NearTrafficLight.classify(near + 5), NodeType::NearTrafficLight);
    assert_eq!(NodeType::AtTrafficLight.classify(near + 5), NodeType::AtTrafficLight);
    assert_eq!(NodeType::AtTrafficLight.classify(0), NodeType::AtTrafficLight);
}

fn nodes() -> Vec<Node> {
    // one unit along y is about 1.1 cm
    vec![
        Node::new(0, Position::new(0, 0), vec![]),
        Node::new(1, Position::new(0, 2_000), vec![]),   // ~22 m
        Node::new(2, Position::new(0, 8_000), vec![]),   // ~89 m
        Node::new(3, Position::new(0, 20_000), vec![]),  // ~222 m
    ]
}

#[test]
fn lights_type_the_nodes_near_them() {
    let mut nodes = nodes();
    let tree = create_tree(&nodes);
    let lights = vec![TrafficLight { id: 1, position: Position::new(0, 0), flag: 0 }];
    nodes[3].node_type = NodeType::AtTrafficLight;
    associate_traffic_lights_to_nodes(&mut nodes, &lights, &tree);
    let types: Vec<NodeType> = nodes.iter().map(|n| n.node_type).collect();
    assert_eq!(
        types,
        vec![
            NodeType::AtTrafficLight,
            NodeType::AtTrafficLight,
            NodeType::NearTrafficLight,
            NodeType::Normal
        ]
    );
    // a second run gives the same
    associate_traffic_lights_to_nodes(&mut nodes, &lights, &tree);
    let again: Vec<NodeType> = nodes.iter().map(|n| n.node_type).collect();
    assert_eq!(again, types);
}

#[test]
fn a_second_light_never_demotes() {
    let mut nodes = nodes();
    let tree = create_tree(&nodes);
    let lights = vec![
        TrafficLight { id: 1, position: Position::new(0, 0), flag: 0 },
        TrafficLight { id: 2, position: Position::new(0, 20_000), flag: 0 },
    ];
    associate_traffic_lights_to_nodes(&mut nodes, &lights, &tree);
    assert_eq!(nodes[0].node_type, NodeType::AtTrafficLight);
    assert_eq!(nodes[1].node_type, NodeType::AtTrafficLight);
    assert_eq!(nodes[2].node_type, NodeType::NearTrafficLight);
    assert_eq!(nodes[3].node_type, NodeType::AtTrafficLight);
    let bucket = vec![Located { position: Position::new(0, 0), index: 0 }];
    NodeType::assign_types(
        &TrafficLight { id: 3, position: Position::new(0, 9_000), flag: 0 },
        &bucket,
        &mut nodes,
    );
    assert_eq!(nodes[0].node_type, NodeType::AtTrafficLight);
}

#[test]
fn the_box_of_a_collection() {
    let nodes = nodes();
    assert_eq!(
        get_boundary(&nodes),
        Boundary { corner_min: Position::new(0, 0), corner_max: Position::new(0, 20_000) }
    );
    let none: Vec<Node> = vec![];
    assert_eq!(
        get_boundary(&none),
        Boundary {
            corner_min: Position::new(900_000_000, 900_000_000),
            corner_max: Position::new(-900_000_000, -900_000_000)
        }
    );
    let far = vec![Node::new(0, Position::new(1_530_000_000, -274_000_000), vec![])];
    assert_eq!(
        get_boundary(&far),
        Boundary {
            corner_min: Position::new(900_000_000, -274_000_000),
            corner_max: Position::new(1_530_000_000, -274_000_000)
        }
    );
}

#[test]
fn the_nearest_node_of_a_leaf() {
    let nodes = nodes();
    let tree = create_tree(&nodes);
    assert_eq!(get_closest_node(&tree, &Position::new(0, 7_000)), Some(2));
    assert_eq!(get_closest_node(&tree, &Position::new(0, 1_000)), Some(0));
    assert_eq!(get_closest_node(&tree, &Position::new(0, 1_001)), Some(1));
    assert_eq!(get_closest_node(&tree, &Position::new(1, 0)), None);
    let empty: Vec<Node> = vec![];
    assert_eq!(get_closest_node(&create_tree(&empty), &Position::new(0, 0)), None);
}
