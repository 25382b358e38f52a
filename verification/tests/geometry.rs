use roadnet::geometry::{distance, integer_sqrt, Boundary, Position};

fn unit_box() -> Boundary {
    Boundary { corner_min: Position::new(0, 0), corner_max: Position::new(10_000_000, 10_000_000) }
}

#[test]
fn boundary_contains_its_edges() {
    let b = unit_box();
    assert!(b.contains(&Position::new(0, 0)));
    assert!(b.contains(&Position::new(10_000_000, 10_000_000)));
    assert!(b.contains(&Position::new(0, 10_000_000)));
    assert!(b.contains(&Position::new(5_000_000, 0)));
    assert!(!b.contains(&Position::new(-1, 0)));
    assert!(!b.contains(&Position::new(10_000_001, 5)));
}

#[test]
fn boxes_overlap_when_they_share_a_point() {
    let b = unit_box();
    let touching = Boundary {
        corner_min: Position::new(10_000_000, 10_000_000),
        corner_max: Position::new(20_000_000, 20_000_000),
    };
    let apart = Boundary {
        corner_min: Position::new(10_000_001, 0),
        corner_max: Position::new(20_000_000, 5),
    };
    let within = Boundary { corner_min: Position::new(1, 1), corner_max: Position::new(2, 2) };
    assert!(b.does_overlap(&touching));
    assert!(touching.does_overlap(&b));
    assert!(!b.does_overlap(&apart));
    assert!(!apart.does_overlap(&b));
    assert!(b.does_overlap(&within));
    assert!(within.does_overlap(&b));
    assert!(b.does_overlap(&b));
}

#[test]
fn area_is_width_times_height() {
    assert_eq!(unit_box().area(), 100_000_000_000_000);
    let turned = Boundary { corner_min: Position::new(3, 0), corner_max: Position::new(0, 2) };
    assert_eq!(turned.area(), -6);
    let widest = Boundary {
        corner_min: Position::new(i32::MIN, i32::MIN),
        corner_max: Position::new(i32::MAX, i32::MAX),
    };
    assert_eq!(widest.area(), 4_294_967_295i128 * 4_294_967_295);
}

#[test]
fn square_roots_are_rounded_down() {
    assert_eq!(integer_sqrt(0), 0);
    assert_eq!(integer_sqrt(1), 1);
    assert_eq!(integer_sqrt(3), 1);
    assert_eq!(integer_sqrt(4), 2);
    assert_eq!(integer_sqrt(99), 9);
    assert_eq!(integer_sqrt(100), 10);
    assert_eq!(integer_sqrt(u128::MAX), u64::MAX);
    assert_eq!(integer_sqrt((1u128 << 64) - 1), (1u64 << 32) - 1);
    // three units along x and four along y at equal scales would be five;
    // here the scales differ
    let d = distance(&Position::new(0, 0), &Position::new(1000, 0));
    assert_eq!(d, 852_952_000);
    let d = distance(&Position::new(0, 0), &Position::new(0, -1000));
    assert_eq!(d, 1_109_480_000);
    let d = distance(&Position::new(5, 5), &Position::new(6, 6));
    assert_eq!(d, 1_399_454);
}
