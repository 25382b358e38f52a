use roadnet::geometry::{Boundary, Position};
use roadnet::node::Located;
use roadnet::quad_tree::{QuadTree, MAX_CAPACITY, MAX_DEPTH};

const DEGREE: i32 = 10_000_000;

fn unit_tree() -> QuadTree<Located> {
    QuadTree::new(
        Boundary { corner_min: Position::new(0, 0), corner_max: Position::new(DEGREE, DEGREE) },
        0,
    )
}

fn item(x: i32, y: i32, index: u32) -> Located {
    Located { position: Position::new(x, y), index }
}

fn leaves(tree: &QuadTree<Located>) -> usize {
    if tree.has_children {
        leaves(tree.top_left.as_ref().unwrap())
            + leaves(tree.top_right.as_ref().unwrap())
            + leaves(tree.bottom_left.as_ref().unwrap())
            + leaves(tree.bottom_right.as_ref().unwrap())
    } else {
        1
    }
}

fn deepest(tree: &QuadTree<Located>) -> i8 {
    if tree.has_children {
        [&tree.top_left, &tree.top_right, &tree.bottom_left, &tree.bottom_right]
            .iter()
            .map(|c| deepest(c.as_ref().unwrap()))
            .max()
            .unwrap()
    } else {
        tree.depth
    }
}

fn count(tree: &QuadTree<Located>) -> usize {
    if tree.has_children {
        [&tree.top_left, &tree.top_right, &tree.bottom_left, &tree.bottom_right]
            .iter()
            .map(|c| count(c.as_ref().unwrap()))
            .sum()
    } else {
        tree.data.len()
    }
}

#[test]
fn a_new_tree_is_an_empty_leaf() {
    let tree = unit_tree();
    assert!(!tree.has_children);
    assert!(tree.data.is_empty());
    assert_eq!(tree.depth, 0);
    assert_eq!(tree.find_data(&Position::new(5, 5)).map(|b| b.len()), Some(0));
}

#[test]
fn points_outside_are_refused() {
    let mut tree = unit_tree();
    assert!(!tree.add_data(item(-1, 0, 0)));
    assert!(!tree.add_data(item(0, DEGREE + 1, 1)));
    assert!(tree.add_data(item(DEGREE, DEGREE, 2)));
    assert!(tree.add_data(item(0, 0, 3)));
    assert_eq!(count(&tree), 2);
    assert!(tree.find_data(&Position::new(-5, 3)).is_none());
}

#[test]
fn a_full_leaf_splits_once() {
    let mut tree = unit_tree();
    for i in 0..1024u32 {
        let x = (i % 32) as i32 * (DEGREE / 32) + 1000;
        let y = (i / 32) as i32 * (DEGREE / 32) + 1000;
        assert!(tree.add_data(item(x, y, i)));
    }
    assert!(!tree.has_children);
    assert_eq!(tree.data.len(), MAX_CAPACITY);
    assert!(tree.add_data(item(DEGREE / 2 + 7, DEGREE / 2 + 7, 1024)));
    assert!(tree.has_children);
    assert!(tree.data.is_empty());
    assert_eq!(leaves(&tree), 4);
    assert_eq!(deepest(&tree), 1);
    assert_eq!(count(&tree), 1025);
}

#[test]
fn equal_points_saturate_at_the_greatest_depth() {
    let mut tree = unit_tree();
    let n = 1025u32 * 1025;
    for i in 0..n {
        assert!(tree.add_data(item(DEGREE / 3, DEGREE / 7, i)));
    }
    assert_eq!(count(&tree), n as usize);
    assert_eq!(deepest(&tree), MAX_DEPTH);
    let bucket = tree.find_data(&Position::new(DEGREE / 3, DEGREE / 7)).unwrap();
    assert_eq!(bucket.len(), n as usize);
    assert_eq!(bucket[0].index, 0);
}

#[test]
fn every_item_is_found_in_the_leaf_of_its_position() {
    let mut tree = unit_tree();
    let mut all = Vec::new();
    let mut seed = 12345u64;
    for i in 0..5000u32 {
        seed = seed.wrapping_mul(6364136223846793005).wrapping_add(1442695040888963407);
        let x = ((seed >> 33) % (DEGREE as u64 + 1)) as i32;
        seed = seed.wrapping_mul(6364136223846793005).wrapping_add(1442695040888963407);
        let y = ((seed >> 33) % (DEGREE as u64 + 1)) as i32;
        all.push(item(x, y, i));
        assert!(tree.add_data(item(x, y, i)));
    }
    assert!(tree.has_children);
    for it in &all {
        let bucket = tree.find_data(&it.position).unwrap();
        assert!(bucket.contains(it));
        assert!(bucket.len() <= MAX_CAPACITY);
    }
}

#[test]
fn a_point_on_a_shared_edge_goes_to_the_quadrant_listed_first() {
    let mut tree = unit_tree();
    tree.sub_divide();
    let half = DEGREE / 2;
    // the center lies in all four quadrants: top left wins
    assert!(tree.add_data(item(half, half, 0)));
    assert_eq!(tree.top_left.as_ref().unwrap().data.len(), 1);
    // on the edge between top left and top right: top left
    assert!(tree.add_data(item(half, DEGREE, 1)));
    assert_eq!(tree.top_left.as_ref().unwrap().data.len(), 2);
    // on the edge between top right and bottom right: top right
    assert!(tree.add_data(item(DEGREE, half, 2)));
    assert_eq!(tree.top_right.as_ref().unwrap().data.len(), 1);
    // on the edge between bottom left and bottom right: bottom left
    assert!(tree.add_data(item(half, 0, 3)));
    assert_eq!(tree.bottom_left.as_ref().unwrap().data.len(), 1);
    // on the edge between top left and bottom left: top left
    assert!(tree.add_data(item(0, half, 4)));
    assert_eq!(tree.top_left.as_ref().unwrap().data.len(), 3);
    // strictly inside bottom right
    assert!(tree.add_data(item(half + 1, half - 1, 5)));
    assert_eq!(tree.bottom_right.as_ref().unwrap().data.len(), 1);
    let found = tree.find_data(&Position::new(half, half)).unwrap();
    assert_eq!(found.iter().map(|l| l.index).collect::<Vec<_>>(), vec![0, 1, 4]);
}

#[test]
fn quadrants_are_cut_around_the_center() {
    let mut tree: QuadTree<Located> = QuadTree::new(
        Boundary { corner_min: Position::new(-10, 0), corner_max: Position::new(11, 7) },
        3,
    );
    tree.sub_divide();
    // center = max - (max - min) / 2 = (11 - 10, 7 - 3) = (1, 4)
    let tl = tree.top_left.as_ref().unwrap();
    assert_eq!(tl.boundary.corner_min, Position::new(-10, 4));
    assert_eq!(tl.boundary.corner_max, Position::new(1, 7));
    let tr = tree.top_right.as_ref().unwrap();
    assert_eq!(tr.boundary.corner_min, Position::new(1, 4));
    assert_eq!(tr.boundary.corner_max, Position::new(11, 7));
    let bl = tree.bottom_left.as_ref().unwrap();
    assert_eq!(bl.boundary.corner_min, Position::new(-10, 0));
    assert_eq!(bl.boundary.corner_max, Position::new(1, 4));
    let br = tree.bottom_right.as_ref().unwrap();
    assert_eq!(br.boundary.corner_min, Position::new(1, 0));
    assert_eq!(br.boundary.corner_max, Position::new(11, 4));
    assert_eq!(tl.depth, 4);
}

#[test]
fn an_empty_box_takes_nothing() {
    let mut tree: QuadTree<Located> = QuadTree::new(
        Boundary { corner_min: Position::new(5, 5), corner_max: Position::new(-5, -5) },
        0,
    );
    assert!(!tree.add_data(item(0, 0, 0)));
    assert!(!tree.contains(&Position::new(5, 5)));
    assert!(tree.find_data(&Position::new(0, 0)).is_none());
}
