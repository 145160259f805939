use wave_collapse::direction::Direction;
use wave_collapse::error::WfcError;
use wave_collapse::rotation::Rotation;
use wave_collapse::sockets::Sockets;

const DIRECTIONS: [Direction; 4] = [
    Direction::North,
    Direction::East,
    Direction::South,
    Direction::West,
];

const ROTATIONS: [Rotation; 4] = [
    Rotation::Identity,
    Rotation::Clockwise90,
    Rotation::Clockwise180,
    Rotation::Counterclockwise90,
];

#[test]
fn opposite_is_half_turn() {
    assert_eq!(Direction::North.opposite(), Direction::South);
    assert_eq!(Direction::East.opposite(), Direction::West);
    assert_eq!(Direction::South.opposite(), Direction::North);
    assert_eq!(Direction::West.opposite(), Direction::East);
}

#[test]
fn clockwise_and_counterclockwise_cycle() {
    assert_eq!(Direction::North.clockwise(), Direction::East);
    assert_eq!(Direction::East.clockwise(), Direction::South);
    assert_eq!(Direction::South.clockwise(), Direction::West);
    assert_eq!(Direction::West.clockwise(), Direction::North);
    for d in DIRECTIONS {
        assert_eq!(d.clockwise().counterclockwise(), d);
        assert_eq!(d.counterclockwise().clockwise(), d);
        assert_eq!(d.clockwise().clockwise(), d.opposite());
    }
}

#[test]
fn direction_rotation_is_group_action() {
    for d in DIRECTIONS {
        assert_eq!(d.rotate(Rotation::Identity), d);
        for r1 in ROTATIONS {
            for r2 in ROTATIONS {
                assert_eq!(d.rotate(r1).rotate(r2), d.rotate(r1.rotate(r2)));
            }
        }
    }
}

#[test]
fn rotation_composition_laws() {
    for r in ROTATIONS {
        assert_eq!(r.rotate(Rotation::Identity), r);
        assert_eq!(Rotation::Identity.rotate(r), r);
        for r2 in ROTATIONS {
            for r3 in ROTATIONS {
                assert_eq!(r.rotate(r2).rotate(r3), r.rotate(r2.rotate(r3)));
            }
        }
    }
    assert_eq!(
        Rotation::Clockwise90.rotate(Rotation::Counterclockwise90),
        Rotation::Identity
    );
    assert_eq!(
        Rotation::Counterclockwise90.rotate(Rotation::Clockwise90),
        Rotation::Identity
    );
    assert_eq!(
        Rotation::Clockwise180.rotate(Rotation::Clockwise180),
        Rotation::Identity
    );
}

#[test]
fn sockets_from_complete_entries() {
    let entries = vec![
        (Direction::North, true),
        (Direction::East, false),
        (Direction::South, true),
        (Direction::West, false),
    ];
    let s = Sockets::from_entries(&entries).unwrap();
    assert!(s.get(Direction::North));
    assert!(!s.get(Direction::East));
    assert!(s.get(Direction::South));
    assert!(!s.get(Direction::West));
}

#[test]
fn sockets_last_entry_wins() {
    let entries = vec![
        (Direction::North, true),
        (Direction::East, false),
        (Direction::South, true),
        (Direction::West, false),
        (Direction::North, false),
    ];
    let s = Sockets::from_entries(&entries).unwrap();
    assert!(!s.get(Direction::North));
}

#[test]
fn sockets_missing_direction_is_rejected() {
    let entries = vec![
        (Direction::North, true),
        (Direction::East, false),
        (Direction::South, true),
    ];
    assert_eq!(
        Sockets::from_entries(&entries),
        Err(WfcError::ConfigurationError)
    );
    let repeated = vec![
        (Direction::North, true),
        (Direction::North, false),
        (Direction::East, false),
        (Direction::South, true),
    ];
    assert_eq!(
        Sockets::from_entries(&repeated),
        Err(WfcError::ConfigurationError)
    );
    let empty: Vec<(Direction, bool)> = Vec::new();
    assert_eq!(
        Sockets::from_entries(&empty),
        Err(WfcError::ConfigurationError)
    );
}

#[test]
fn sockets_rotation_moves_flags() {
    let entries = vec![
        (Direction::North, true),
        (Direction::East, false),
        (Direction::South, false),
        (Direction::West, false),
    ];
    let s = Sockets::from_entries(&entries).unwrap();
    let r = s.rotate(Rotation::Clockwise90);
    assert!(r.get(Direction::East));
    assert!(!r.get(Direction::North));
    assert!(!r.get(Direction::South));
    assert!(!r.get(Direction::West));
    for d in DIRECTIONS {
        for rot in ROTATIONS {
            assert_eq!(s.rotate(rot).get(d.rotate(rot)), s.get(d));
        }
    }
}
