use wave_collapse::direction::Direction;
use wave_collapse::error::WfcError;
use wave_collapse::prototype::Prototype;
use wave_collapse::rotation::Rotation;

fn socket_entries(n: bool, e: bool, s: bool, w: bool) -> Vec<(Direction, bool)> {
    vec![
        (Direction::North, n),
        (Direction::East, e),
        (Direction::South, s),
        (Direction::West, w),
    ]
}

#[test]
fn all_closed_tile_yields_one_prototype() {
    let protos = Prototype::new(0, &socket_entries(false, false, false, false)).unwrap();
    assert_eq!(protos.len(), 1);
    assert_eq!(protos[0].rotation, Rotation::Identity);
    assert_eq!(protos[0].tile, 0);
}

#[test]
fn one_open_edge_yields_four_distinct_prototypes() {
    let protos = Prototype::new(7, &socket_entries(true, false, false, false)).unwrap();
    assert_eq!(protos.len(), 4);
    for i in 0..4 {
        assert_eq!(protos[i].tile, 7);
        for j in 0..4 {
            if i != j {
                assert_ne!(protos[i].sockets, protos[j].sockets);
            }
        }
    }
    assert!(protos[0].sockets.get(Direction::North));
    assert!(protos[1].sockets.get(Direction::East));
    assert!(protos[2].sockets.get(Direction::South));
    assert!(protos[3].sockets.get(Direction::West));
}

#[test]
fn two_opposite_open_edges_yield_two_prototypes() {
    let protos = Prototype::new(0, &socket_entries(false, true, false, true)).unwrap();
    assert_eq!(protos.len(), 2);
    assert!(protos[0].sockets.get(Direction::East));
    assert!(protos[0].sockets.get(Direction::West));
    assert!(protos[1].sockets.get(Direction::North));
    assert!(protos[1].sockets.get(Direction::South));
}

#[test]
fn generation_rejects_incomplete_sockets() {
    let entries = vec![(Direction::North, true), (Direction::South, false)];
    assert_eq!(
        Prototype::new(0, &entries),
        Err(WfcError::ConfigurationError)
    );
}

#[test]
fn matches_compares_facing_edges() {
    let one_way = Prototype::new(0, &socket_entries(true, false, false, false)).unwrap();
    let no_way = Prototype::new(1, &socket_entries(false, false, false, false)).unwrap();
    let north_open = &one_way[0];
    let south_open = &one_way[2];
    let closed = &no_way[0];
    // an edge that is open connects only to an open edge facing back
    assert!(north_open.matches(south_open, Direction::North));
    assert!(!north_open.matches(closed, Direction::North));
    // both closed edges agree
    assert!(north_open.matches(closed, Direction::East));
    assert!(closed.matches(closed, Direction::North));
}

#[test]
fn matches_is_symmetric() {
    let one_way = Prototype::new(0, &socket_entries(true, false, false, false)).unwrap();
    let three_way = Prototype::new(1, &socket_entries(true, true, false, true)).unwrap();
    let dirs = [
        Direction::North,
        Direction::East,
        Direction::South,
        Direction::West,
    ];
    for a in one_way.iter().chain(three_way.iter()) {
        for b in one_way.iter().chain(three_way.iter()) {
            for d in dirs {
                assert_eq!(a.matches(b, d), b.matches(a, d.opposite()));
            }
        }
    }
}

#[test]
fn rotating_a_prototype_tracks_rotation_and_sockets() {
    let protos = Prototype::new(3, &socket_entries(true, false, false, false)).unwrap();
    let p = &protos[0];
    let q = p.rotate(Rotation::Clockwise90);
    assert_eq!(q.tile, 3);
    assert_eq!(q.rotation, Rotation::Clockwise90);
    assert!(q.sockets.get(Direction::East));
    assert!(!q.sockets.get(Direction::North));
}
