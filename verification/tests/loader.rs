use roadnet::fixed::{coordinate_from_bits, metres_from_bits, scale_f64_bits};
use roadnet::loader::{
    load_from_bytes, place_records, read_f64, read_i32, read_string, read_u32, skip_f64, skip_i32,
    skip_string, split_records, ByteConvertable, LoadError, Loader,
};
use roadnet::node::{Connection, Node, NodeType};
use roadnet::geometry::Position;
use roadnet::suburb::Suburb;
use roadnet::traffic_light::TrafficLight;

fn light_record(id: i32, flag: i32, x: f64, y: f64) -> Vec<u8> {
    let mut b = Vec::new();
    b.extend_from_slice(&id.to_be_bytes());
    b.extend_from_slice(&flag.to_be_bytes());
    b.extend_from_slice(&x.to_be_bytes());
    b.extend_from_slice(&y.to_be_bytes());
    b
}

fn node_record(id: i32, x: f64, y: f64, speed: i32, edges: &[(i32, f64)]) -> Vec<u8> {
    let mut b = Vec::new();
    b.extend_from_slice(&id.to_be_bytes());
    b.extend_from_slice(&x.to_be_bytes());
    b.extend_from_slice(&y.to_be_bytes());
    b.extend_from_slice(&speed.to_be_bytes());
    b.extend_from_slice(&(edges.len() as i32).to_be_bytes());
    for (to, km) in edges {
        b.extend_from_slice(&to.to_be_bytes());
        b.extend_from_slice(&km.to_be_bytes());
    }
    b
}

fn old_node_record(id: i32, x: f64, y: f64, edges: &[(i32, f64)]) -> Vec<u8> {
    let mut b = Vec::new();
    b.extend_from_slice(&id.to_be_bytes());
    b.extend_from_slice(&x.to_be_bytes());
    b.extend_from_slice(&y.to_be_bytes());
    b.extend_from_slice(&50.0f64.to_be_bytes());
    b.extend_from_slice(&7i32.to_be_bytes());
    b.extend_from_slice(&(edges.len() as i32).to_be_bytes());
    for (to, km) in edges {
        b.extend_from_slice(&to.to_be_bytes());
        b.extend_from_slice(&km.to_be_bytes());
    }
    b
}

fn suburb_record(id: i32, name: &str, bounds: [f64; 4], points: &[(f64, f64)]) -> Vec<u8> {
    let mut b = Vec::new();
    b.extend_from_slice(&id.to_be_bytes());
    b.extend_from_slice(&(name.len() as i32).to_be_bytes());
    b.extend_from_slice(&(points.len() as i32).to_be_bytes());
    for v in bounds {
        b.extend_from_slice(&v.to_be_bytes());
    }
    b.extend_from_slice(name.as_bytes());
    for (x, y) in points {
        b.extend_from_slice(&x.to_be_bytes());
        b.extend_from_slice(&y.to_be_bytes());
    }
    b
}

fn payload(records: &[Vec<u8>]) -> Vec<u8> {
    let mut b = Vec::new();
    b.extend_from_slice(&(records.len() as i32).to_be_bytes());
    for r in records {
        b.extend_from_slice(&(r.len() as i32).to_be_bytes());
        b.extend_from_slice(r);
    }
    b
}

#[test]
fn numbers_are_read_big_endian() {
    let bytes = [0x00, 0x00, 0x01, 0x02, 0xFF, 0xFF, 0xFF, 0xFE, 0x80, 0, 0, 0];
    let mut index = 0usize;
    assert_eq!(read_i32(&bytes, &mut index), 258);
    assert_eq!(index, 4);
    assert_eq!(read_i32(&bytes, &mut index), -2);
    assert_eq!(read_i32(&bytes, &mut index), i32::MIN);
    assert_eq!(index, 12);
    let mut index = 4usize;
    assert_eq!(read_u32(&bytes, &mut index), 0xFFFF_FFFE);
    let mut index = 2usize;
    assert_eq!(read_f64(&bytes, &mut index), 0x0102_FFFF_FFFE_8000);
    assert_eq!(index, 10);
    let one = 1.5f64.to_be_bytes();
    let mut index = 0usize;
    assert_eq!(read_f64(&one, &mut index), 1.5f64.to_bits());
}

#[test]
fn skipping_moves_the_index() {
    let mut index = 3usize;
    skip_f64(&mut index);
    assert_eq!(index, 11);
    skip_i32(&mut index);
    assert_eq!(index, 15);
    skip_string(&mut index, 10);
    assert_eq!(index, 25);
}

#[test]
fn text_is_decoded_with_replacement() {
    let bytes = b"xxBrisbane\xFFyy";
    let mut index = 2usize;
    assert_eq!(read_string(bytes, &mut index, 8), "Brisbane");
    assert_eq!(index, 10);
    assert_eq!(read_string(bytes, &mut index, 2), "\u{FFFD}y");
    assert_eq!(index, 12);
}

#[test]
fn doubles_are_scaled_exactly() {
    assert_eq!(scale_f64_bits(1.0f64.to_bits(), 10_000_000), Some(10_000_000));
    assert_eq!(scale_f64_bits(0.5f64.to_bits(), 10_000_000), Some(5_000_000));
    assert_eq!(scale_f64_bits((-27.4698f64).to_bits(), 10_000_000), Some(-274_698_000));
    assert_eq!(scale_f64_bits(153.0251f64.to_bits(), 10_000_000), Some(1_530_251_000));
    assert_eq!(scale_f64_bits(0.0f64.to_bits(), 1000), Some(0));
    assert_eq!(scale_f64_bits((-0.0f64).to_bits(), 1000), Some(0));
    assert_eq!(scale_f64_bits(0.0004f64.to_bits(), 1000), Some(0));
    assert_eq!(scale_f64_bits(0.0005f64.to_bits(), 1000), Some(1));
    assert_eq!(scale_f64_bits((-0.9999f64).to_bits(), 1), Some(-1));
    assert_eq!(scale_f64_bits((-0.4999f64).to_bits(), 1), Some(0));
    assert_eq!(scale_f64_bits(0.5f64.to_bits(), 1), Some(1));
    assert_eq!(scale_f64_bits((-0.5f64).to_bits(), 1), Some(-1));
    assert_eq!(scale_f64_bits(1.5f64.to_bits(), 1), Some(2));
    assert_eq!(scale_f64_bits(1.4999f64.to_bits(), 1), Some(1));
    assert_eq!(scale_f64_bits(2.5f64.to_bits(), 1000), Some(2500));
    assert_eq!(scale_f64_bits(f64::MIN_POSITIVE.to_bits(), 4_000_000_000), Some(0));
    assert_eq!(scale_f64_bits(5e-324f64.to_bits(), 4_000_000_000), Some(0));
    assert_eq!(scale_f64_bits(4503599627370496.0f64.to_bits(), 3), Some(13510798882111488));
    assert_eq!(scale_f64_bits(9.0e15f64.to_bits(), 1000), Some(9_000_000_000_000_000_000));
    assert_eq!(scale_f64_bits(1.0e16f64.to_bits(), 1000), None);
    assert_eq!(scale_f64_bits(1.0e300f64.to_bits(), 1), None);
    assert_eq!(scale_f64_bits(f64::INFINITY.to_bits(), 1), None);
    assert_eq!(scale_f64_bits(f64::NEG_INFINITY.to_bits(), 1), None);
    assert_eq!(scale_f64_bits(f64::NAN.to_bits(), 1), None);
    for v in [0.1f64, 1.25, 89.999999, 179.1234567, 3.3e-5, 12345.678] {
        let exact = (v * 1000.0).round() as i64;
        let got = scale_f64_bits(v.to_bits(), 1000).unwrap();
        assert_eq!(got, exact);
        assert_eq!(scale_f64_bits((-v).to_bits(), 1000), Some(-got));
    }
}

#[test]
fn coordinates_and_lengths_have_ranges() {
    assert_eq!(coordinate_from_bits(214.7483647f64.to_bits()), Some(2_147_483_647));
    assert_eq!(coordinate_from_bits(214.7483648f64.to_bits()), None);
    assert_eq!(coordinate_from_bits((-214.7483648f64).to_bits()), Some(-2_147_483_648));
    assert_eq!(coordinate_from_bits(215.0f64.to_bits()), None);
    assert_eq!(coordinate_from_bits((-215.0f64).to_bits()), None);
    assert_eq!(coordinate_from_bits((-90.0f64).to_bits()), Some(-900_000_000));
    assert_eq!(metres_from_bits(1.0f64.to_bits()), Some(1000));
    assert_eq!(metres_from_bits(3.0f64.to_bits()), Some(3000));
    assert_eq!(metres_from_bits((-1.0f64).to_bits()), None);
    assert_eq!(metres_from_bits((-0.0001f64).to_bits()), Some(0));
    assert_eq!(metres_from_bits((-0.0005f64).to_bits()), None);
    assert_eq!(metres_from_bits(4_294_967.295f64.to_bits()), Some(u32::MAX));
    assert_eq!(metres_from_bits(4_294_968.0f64.to_bits()), None);
    assert_eq!(metres_from_bits(f64::NAN.to_bits()), None);
}

#[test]
fn a_traffic_light_record() {
    let light = TrafficLight::from_bytes(&light_record(7, -1, 153.5, -27.25)).unwrap();
    assert_eq!(
        light,
        TrafficLight {
            id: 7,
            flag: 0xFFFF_FFFF,
            position: Position::new(1_535_000_000, -272_500_000)
        }
    );
    assert!(TrafficLight::from_bytes(&light_record(7, 1, 153.5, -27.25)[..23]).is_none());
    assert!(TrafficLight::from_bytes(&light_record(7, 1, f64::NAN, -27.25)).is_none());
    assert!(TrafficLight::from_bytes(&light_record(7, 1, 1.0, 1e9)).is_none());
}

#[test]
fn a_node_record() {
    let bytes = node_record(3, 1.0, -2.0, 80, &[(1, 1.5), (2, 0.25)]);
    let node = Node::from_bytes(&bytes).unwrap();
    assert_eq!(node.index, 3);
    assert_eq!(node.position, Position::new(10_000_000, -20_000_000));
    assert_eq!(node.flag, u32::MAX);
    assert_eq!(node.node_type, NodeType::Normal);
    assert_eq!(
        node.connections,
        vec![
            Connection { index: 1, cost: 1500, speed: 80 },
            Connection { index: 2, cost: 250, speed: 80 }
        ]
    );
    assert_eq!(node.get_connections().len(), 2);
    assert!(Node::from_bytes(&bytes[..bytes.len() - 1]).is_none());
    assert!(Node::from_bytes(&bytes[..27]).is_none());
    assert!(Node::from_bytes(&node_record(3, 1.0, -2.0, -1, &[])).is_none());
    assert!(Node::from_bytes(&node_record(3, 1.0, -2.0, 65_536, &[])).is_none());
    assert!(Node::from_bytes(&node_record(3, 1.0, -2.0, 65_535, &[])).is_some());
    assert!(Node::from_bytes(&node_record(3, 1.0, -2.0, 60, &[(1, -1.0)])).is_none());
    assert!(Node::from_bytes(&node_record(3, 1.0, f64::INFINITY, 60, &[])).is_none());
    let mut negative_count = node_record(3, 1.0, -2.0, 60, &[]);
    negative_count[24..28].copy_from_slice(&(-1i32).to_be_bytes());
    assert!(Node::from_bytes(&negative_count).is_none());
}

#[test]
fn a_node_record_of_the_older_layout() {
    let bytes = old_node_record(4, 0.5, 0.25, &[(9, 2.0)]);
    let node = Node::from_old_bytes(&bytes, 60).unwrap();
    assert_eq!(node.index, 4);
    assert_eq!(node.position, Position::new(5_000_000, 2_500_000));
    assert_eq!(node.connections, vec![Connection { index: 9, cost: 2000, speed: 60 }]);
    assert!(Node::from_old_bytes(&bytes[..35], 60).is_none());
    assert!(Node::from_old_bytes(&bytes[..bytes.len() - 3], 60).is_none());
}

#[test]
fn a_suburb_record() {
    let bytes = suburb_record(
        5,
        "Toowong",
        [0.0, 0.0, 1.0, 2.0],
        &[(0.0, 0.0), (1.0, 0.0), (1.0, 2.0), (0.0, 0.0)],
    );
    let suburb = Suburb::from_bytes(&bytes).unwrap();
    assert_eq!(suburb.id, 5);
    assert_eq!(suburb.boundary.corner_min, Position::new(0, 0));
    assert_eq!(suburb.boundary.corner_max, Position::new(10_000_000, 20_000_000));
    assert_eq!(suburb.x_points, vec![0, 10_000_000, 10_000_000, 0]);
    assert_eq!(suburb.y_points, vec![0, 0, 20_000_000, 0]);
    assert!(suburb.is_inside(&Position::new(9_000_000, 10_000_000)));
    assert!(!suburb.is_inside(&Position::new(1_000_000, 10_000_000)));
    assert!(Suburb::from_bytes(&bytes[..bytes.len() - 1]).is_none());
    assert!(Suburb::from_bytes(&bytes[..43]).is_none());
    let mut long_name = bytes.clone();
    long_name[4..8].copy_from_slice(&1000i32.to_be_bytes());
    assert!(Suburb::from_bytes(&long_name).is_none());
    let mut negative_name = bytes.clone();
    negative_name[4..8].copy_from_slice(&(-1i32).to_be_bytes());
    assert!(Suburb::from_bytes(&negative_name).is_none());
}

#[test]
fn records_are_found_by_their_sizes() {
    let bytes = payload(&[vec![1, 2, 3], vec![], vec![9]]);
    assert_eq!(split_records(&bytes), Ok(vec![(8, 11), (15, 15), (19, 20)]));
    assert_eq!(split_records(&[0, 0, 0, 0]), Ok(vec![]));
    assert_eq!(split_records(&[0, 0, 0, 0, 77]), Ok(vec![]));
    assert_eq!(split_records(&[0, 0, 0]), Err(LoadError::Truncated));
    assert_eq!(split_records(&[0xFF, 0xFF, 0xFF, 0xFF]), Err(LoadError::NegativeLength));
    assert_eq!(split_records(&bytes[..bytes.len() - 1]), Err(LoadError::Truncated));
    assert_eq!(split_records(&bytes[..6]), Err(LoadError::Truncated));
    let mut negative = bytes.clone();
    negative[4..8].copy_from_slice(&(-3i32).to_be_bytes());
    assert_eq!(split_records(&negative), Err(LoadError::NegativeLength));
}

#[test]
fn a_collection_is_loaded_into_its_slots() {
    let bytes = payload(&[
        light_record(1, 5, 1.0, 1.0),
        light_record(0, 6, 2.0, 2.0),
        light_record(2, 7, 3.0, 3.0),
    ]);
    let list = load_from_bytes::<TrafficLight>(&bytes).unwrap();
    assert_eq!(list.len(), 3);
    assert!(list.is_full());
    assert_eq!(list.get(0).flag, 6);
    assert_eq!(list.get(1).flag, 5);
    assert_eq!(list.get(2).position, Position::new(30_000_000, 30_000_000));
    let same = Loader::<TrafficLight>::load_from_bytes(&bytes).unwrap();
    assert_eq!(same.into_vec(), list.into_vec());
    assert_eq!(Loader::<TrafficLight>::new("cache/traffic.dat").file_location(), "cache/traffic.dat");
}

#[test]
fn every_fault_of_a_payload_has_its_error() {
    let good = [light_record(1, 5, 1.0, 1.0), light_record(0, 6, 2.0, 2.0)];
    let bytes = payload(&good);
    assert_eq!(
        load_from_bytes::<TrafficLight>(&bytes[..bytes.len() - 1]).err(),
        Some(LoadError::Truncated)
    );
    assert_eq!(load_from_bytes::<TrafficLight>(&[]).err(), Some(LoadError::Truncated));
    assert_eq!(
        load_from_bytes::<TrafficLight>(&(-1i32).to_be_bytes()).err(),
        Some(LoadError::NegativeLength)
    );
    assert_eq!(
        load_from_bytes::<TrafficLight>(&payload(&[light_record(0, 5, 1.0, 1.0), vec![1, 2]])).err(),
        Some(LoadError::BadRecord)
    );
    assert_eq!(
        load_from_bytes::<TrafficLight>(&payload(&[light_record(2, 5, 1.0, 1.0), good[1].clone()]))
            .err(),
        Some(LoadError::IndexOutOfRange)
    );
    assert_eq!(
        load_from_bytes::<TrafficLight>(&payload(&[good[0].clone(), light_record(1, 9, 0.0, 0.0)]))
            .err(),
        Some(LoadError::MissingRecord)
    );
    assert!(load_from_bytes::<TrafficLight>(&payload(&[])).unwrap().is_full());
    assert_eq!(load_from_bytes::<Node>(&payload(&[vec![0; 27]])).err(), Some(LoadError::BadRecord));
    let nodes = load_from_bytes::<Node>(&payload(&[node_record(0, 0.0, 0.0, 60, &[(0, 1.0)])]));
    assert_eq!(nodes.unwrap().get(0).connections.len(), 1);
}

#[test]
fn records_are_placed_in_the_slots_they_name() {
    let light = |id: u32, flag: u32| TrafficLight { id, flag, position: Position::new(0, 0) };
    let list = place_records(vec![Some(light(1, 5)), Some(light(0, 6)), Some(light(2, 7))]).unwrap();
    assert_eq!(list.into_vec(), vec![light(0, 6), light(1, 5), light(2, 7)]);
    assert!(place_records::<TrafficLight>(vec![]).unwrap().is_full());
    // of two records that name one slot the later stays, and a slot goes empty
    assert_eq!(
        place_records(vec![Some(light(0, 1)), Some(light(0, 2))]).err(),
        Some(LoadError::MissingRecord)
    );
    assert_eq!(
        place_records(vec![Some(light(0, 1)), Some(light(0, 2)), Some(light(1, 3)), Some(light(2, 4))])
            .err(),
        Some(LoadError::MissingRecord)
    );
    // the first record that cannot be placed decides
    assert_eq!(
        place_records(vec![Some(light(0, 1)), None, Some(light(9, 2))]).err(),
        Some(LoadError::BadRecord)
    );
    assert_eq!(
        place_records(vec![Some(light(3, 1)), None, Some(light(0, 2))]).err(),
        Some(LoadError::IndexOutOfRange)
    );
}
