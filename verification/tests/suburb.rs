use roadnet::engine::{
    compute, create_tree, get_nearest_traffic_light, get_suburbs_in_bounds,
    get_traffic_lights_in_bounds, new_pos_slice, new_slice, new_u8_slice, new_usize_slice,
    suburb_of_light,
};
use roadnet::geometry::{Boundary, Position};
use roadnet::suburb::Suburb;
use roadnet::traffic_light::TrafficLight;

const DEGREE: i32 = 10_000_000;

fn square(id: u32, x0: i32, y0: i32, side: i32) -> Suburb {
    Suburb {
        id,
        boundary: Boundary {
            corner_min: Position::new(x0, y0),
            corner_max: Position::new(x0 + side, y0 + side),
        },
        x_points: vec![x0, x0 + side, x0 + side, x0, x0],
        y_points: vec![y0, y0, y0 + side, y0 + side, y0],
    }
}

#[test]
fn unit_square_even_odd() {
    let unit = square(1, 0, 0, DEGREE);
    assert!(unit.is_inside(&Position::new(DEGREE / 2, DEGREE / 2)));
    assert!(!unit.is_inside(&Position::new(2 * DEGREE, DEGREE / 2)));
    assert!(unit.is_inside_no_bound_check(&Position::new(DEGREE / 2, DEGREE / 2)));
    assert!(!unit.is_inside_no_bound_check(&Position::new(2 * DEGREE, DEGREE / 2)));
    let shifted = square(2, 10 * DEGREE, 10 * DEGREE, DEGREE);
    assert!(!shifted.is_inside(&Position::new(DEGREE / 2, DEGREE / 2)));
    assert!(!shifted.is_inside_no_bound_check(&Position::new(DEGREE / 2, DEGREE / 2)));
}

#[test]
fn inside_the_box_but_outside_the_polygon() {
    // a triangle in the lower left half of its box
    let triangle = Suburb {
        id: 3,
        boundary: Boundary {
            corner_min: Position::new(0, 0),
            corner_max: Position::new(DEGREE, DEGREE),
        },
        x_points: vec![0, DEGREE, 0, 0],
        y_points: vec![0, 0, DEGREE, 0],
    };
    assert!(triangle.is_inside(&Position::new(DEGREE / 4, DEGREE / 4)));
    assert!(!triangle.is_inside(&Position::new(3 * DEGREE / 4, 3 * DEGREE / 4)));
    assert!(triangle.boundary.contains(&Position::new(3 * DEGREE / 4, 3 * DEGREE / 4)));
}

#[test]
fn a_concave_polygon_counts_crossings() {
    // a "U": the notch between the arms is outside
    let u = Suburb {
        id: 4,
        boundary: Boundary { corner_min: Position::new(0, 0), corner_max: Position::new(30, 30) },
        x_points: vec![0, 30, 30, 20, 20, 10, 10, 0, 0],
        y_points: vec![0, 0, 30, 30, 10, 10, 30, 30, 0],
    };
    assert!(u.is_inside(&Position::new(5, 20)));
    assert!(u.is_inside(&Position::new(25, 20)));
    assert!(!u.is_inside(&Position::new(15, 20)));
    assert!(u.is_inside(&Position::new(15, 5)));
}

#[test]
fn an_outline_without_points_holds_nothing() {
    let empty = Suburb {
        id: 5,
        boundary: Boundary { corner_min: Position::new(0, 0), corner_max: Position::new(9, 9) },
        x_points: vec![],
        y_points: vec![],
    };
    assert!(!empty.is_inside(&Position::new(1, 1)));
    assert!(!empty.is_inside_no_bound_check(&Position::new(1, 1)));
}

#[test]
fn the_smaller_of_two_suburbs_is_named() {
    // areas 4 and 1 square degrees, both around (0.5, 0.5)
    let big = square(7, -DEGREE / 2, -DEGREE / 2, 2 * DEGREE);
    let small = square(9, 0, 0, DEGREE);
    let light = TrafficLight { id: 42, position: Position::new(DEGREE / 2, DEGREE / 2), flag: 0 };
    assert_eq!(big.boundary.area(), 4 * (DEGREE as i128) * (DEGREE as i128));
    assert_eq!(small.boundary.area(), (DEGREE as i128) * (DEGREE as i128));
    assert_eq!(suburb_of_light(&vec![big, small], &light), (42, 9));
    let big = square(7, -DEGREE / 2, -DEGREE / 2, 2 * DEGREE);
    let small = square(9, 0, 0, DEGREE);
    assert_eq!(compute(&vec![small, big], &vec![light]), vec![(42, 9)]);
}

#[test]
fn a_light_in_no_suburb_gets_zero_and_ties_go_to_the_first() {
    let a = square(11, 0, 0, DEGREE);
    let b = square(12, 0, 0, DEGREE);
    let inside = TrafficLight { id: 1, position: Position::new(5, 5), flag: 0 };
    let outside = TrafficLight { id: 2, position: Position::new(-5, 5), flag: 0 };
    assert_eq!(compute(&vec![a, b], &vec![inside, outside]), vec![(1, 11), (2, 0)]);
}

#[test]
fn suburbs_and_lights_in_a_box() {
    let suburbs = vec![
        square(1, 0, 0, 10),
        square(2, 20, 20, 10),
        square(3, 5, 5, 10),
        square(4, 9, 9, 1),
    ];
    let view = Boundary { corner_min: Position::new(8, 8), corner_max: Position::new(12, 12) };
    assert_eq!(get_suburbs_in_bounds(&suburbs, &view, 10), vec![1, 3, 4]);
    // the list ends once it holds more than the limit
    assert_eq!(get_suburbs_in_bounds(&suburbs, &view, 1), vec![1, 3]);
    assert_eq!(get_suburbs_in_bounds(&suburbs, &view, 0), vec![1]);
    let lights = vec![
        TrafficLight { id: 0, position: Position::new(9, 9), flag: 0 },
        TrafficLight { id: 1, position: Position::new(30, 30), flag: 0 },
        TrafficLight { id: 2, position: Position::new(12, 8), flag: 0 },
    ];
    assert_eq!(get_traffic_lights_in_bounds(&lights, &view, 10), vec![0, 2]);
    assert_eq!(get_traffic_lights_in_bounds(&lights, &view, 0), vec![0]);
    let tree = create_tree(&lights);
    assert_eq!(get_nearest_traffic_light(&lights, &tree, &Position::new(28, 29)), Some(1));
    assert_eq!(get_nearest_traffic_light(&lights, &tree, &Position::new(11, 9)), Some(2));
    // outside the index the first light is named
    assert_eq!(get_nearest_traffic_light(&lights, &tree, &Position::new(100, 100)), Some(0));
    assert_eq!(get_nearest_traffic_light(&vec![], &tree, &Position::new(9, 9)), None);
    assert_eq!(new_slice(7u16, 3), vec![7, 7, 7]);
    assert_eq!(new_pos_slice(2), vec![0, 0]);
    assert_eq!(new_usize_slice(1), vec![0usize]);
    assert_eq!(new_u8_slice(0), Vec::<u8>::new());
}

#[test]
fn convex_outlines_in_both_directions() {
    // a pentagon, counter-clockwise
    let xs = vec![0, 40, 60, 30, -10, 0];
    let ys = vec![0, 0, 30, 60, 30, 0];
    let bounds = Boundary { corner_min: Position::new(-10, 0), corner_max: Position::new(60, 60) };
    let ccw = Suburb { id: 1, boundary: bounds, x_points: xs.clone(), y_points: ys.clone() };
    let cw = Suburb {
        id: 2,
        boundary: bounds,
        x_points: xs.iter().rev().copied().collect(),
        y_points: ys.iter().rev().copied().collect(),
    };
    let inside = [(1, 1), (30, 30), (30, 59), (59, 30), (-9, 30), (20, 1), (39, 1)];
    let outside = [(-5, 5), (55, 5), (50, 50), (5, 50), (30, 61), (30, -1), (-10, 0), (61, 30)];
    for (x, y) in inside {
        assert!(ccw.is_inside(&Position::new(x, y)), "({x}, {y}) counter-clockwise");
        assert!(cw.is_inside(&Position::new(x, y)), "({x}, {y}) clockwise");
    }
    for (x, y) in outside {
        assert!(!ccw.is_inside(&Position::new(x, y)), "({x}, {y}) counter-clockwise");
        assert!(!cw.is_inside(&Position::new(x, y)), "({x}, {y}) clockwise");
        assert!(!ccw.is_inside_no_bound_check(&Position::new(x, y)));
        assert!(!cw.is_inside_no_bound_check(&Position::new(x, y)));
    }
}

#[test]
fn convex_outlines_with_points_on_a_side() {
    // a square with a point in the middle of every side
    let xs = vec![0, 20, 40, 40, 40, 20, 0, 0, 0];
    let ys = vec![0, 0, 0, 20, 40, 40, 40, 20, 0];
    let bounds = Boundary { corner_min: Position::new(0, 0), corner_max: Position::new(40, 40) };
    let ccw = Suburb { id: 1, boundary: bounds, x_points: xs.clone(), y_points: ys.clone() };
    let cw = Suburb {
        id: 2,
        boundary: bounds,
        x_points: xs.iter().rev().copied().collect(),
        y_points: ys.iter().rev().copied().collect(),
    };
    for (x, y) in [(1, 1), (20, 20), (39, 20), (20, 39), (1, 20), (20, 1), (39, 39)] {
        assert!(ccw.is_inside(&Position::new(x, y)), "({x}, {y}) counter-clockwise");
        assert!(cw.is_inside(&Position::new(x, y)), "({x}, {y}) clockwise");
    }
    for (x, y) in [(-1, 20), (41, 20), (20, -1), (20, 41), (-5, 0), (45, 40), (41, 0)] {
        assert!(!ccw.is_inside_no_bound_check(&Position::new(x, y)), "({x}, {y})");
        assert!(!cw.is_inside_no_bound_check(&Position::new(x, y)), "({x}, {y})");
    }
}
