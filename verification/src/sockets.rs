//! Per-edge open/closed socket profiles of a tile.

use vstd::prelude::*;

use crate::direction::Direction;
use crate::error::WfcError;
use crate::rotation::Rotation;

verus! {

/// The adjacency contract of a tile: for each of the four directions,
/// whether the edge facing that way is open (connects to a matching open
/// edge) or closed. A value of this type always carries a flag for every
/// direction; an incomplete listing is rejected by [`Sockets::from_entries`].
#[derive(Debug, PartialEq, Eq, Structural, Copy, Clone)]
pub struct Sockets {
    pub north: bool,
    pub east: bool,
    pub south: bool,
    pub west: bool,
}

/// Whether some entry of `entries` carries a flag for direction `d`.
pub open spec fn has_direction(entries: Seq<(Direction, bool)>, d: Direction) -> bool {
    exists|i: int| 0 <= i < entries.len() && entries[i].0 == d
}

/// Whether `entries` carries a flag for every one of the four directions.
pub open spec fn entries_complete(entries: Seq<(Direction, bool)>) -> bool {
    &&& has_direction(entries, Direction::North)
    &&& has_direction(entries, Direction::East)
    &&& has_direction(entries, Direction::South)
    &&& has_direction(entries, Direction::West)
}

/// The flag that the last entry for direction `d` carries, or `false` when
/// no entry mentions `d` (callers only rely on it when one does).
pub open spec fn last_flag(entries: Seq<(Direction, bool)>, d: Direction) -> bool
    decreases entries.len(),
{
    if entries.len() == 0 {
        false
    } else if entries.last().0 == d {
        entries.last().1
    } else {
        last_flag(entries.drop_last(), d)
    }
}

/// The complete profile a listing denotes: for each direction, the flag of
/// its last entry. Meaningful only for complete listings.
pub open spec fn sockets_of(entries: Seq<(Direction, bool)>) -> Sockets {
    Sockets {
        north: last_flag(entries, Direction::North),
        east: last_flag(entries, Direction::East),
        south: last_flag(entries, Direction::South),
        west: last_flag(entries, Direction::West),
    }
}

impl Sockets {
    /// The flag of the edge facing direction `d`.
    pub open spec fn spec_get(self, d: Direction) -> bool {
        match d {
            Direction::North => self.north,
            Direction::East => self.east,
            Direction::South => self.south,
            Direction::West => self.west,
        }
    }

    /// The flag of the edge facing direction `d`.
    pub fn get(&self, d: Direction) -> (r: bool)
        ensures
            r == self.spec_get(d),
    {
        match d {
            Direction::North => self.north,
            Direction::East => self.east,
            Direction::South => self.south,
            Direction::West => self.west,
        }
    }

    /// The profile of the tile after it is turned by `rotation`: each flag
    /// moves to the edge its direction is carried to, the flag values
    /// themselves are unchanged.
    pub open spec fn spec_rotate(self, rotation: Rotation) -> Sockets {
        match rotation {
            Rotation::Identity => self,
            Rotation::Clockwise90 => Sockets {
                north: self.west,
                east: self.north,
                south: self.east,
                west: self.south,
            },
            Rotation::Clockwise180 => Sockets {
                north: self.south,
                east: self.west,
                south: self.north,
                west: self.east,
            },
            Rotation::Counterclockwise90 => Sockets {
                north: self.east,
                east: self.south,
                south: self.west,
                west: self.north,
            },
        }
    }

    /// Turn the profile by `rotation`.
    pub fn rotate(&self, rotation: Rotation) -> (r: Sockets)
        ensures
            r == self.spec_rotate(rotation),
    {
        match rotation {
            Rotation::Identity => *self,
            Rotation::Clockwise90 => Sockets {
                north: self.west,
                east: self.north,
                south: self.east,
                west: self.south,
            },
            Rotation::Clockwise180 => Sockets {
                north: self.south,
                east: self.west,
                south: self.north,
                west: self.east,
            },
            Rotation::Counterclockwise90 => Sockets {
                north: self.east,
                east: self.south,
                south: self.west,
                west: self.north,
            },
        }
    }

    /// Build a complete profile from a listing of per-direction flags.
    ///
    /// Succeeds exactly when every direction is mentioned at least once;
    /// when a direction is listed more than once its last flag wins.
    pub fn from_entries(entries: &Vec<(Direction, bool)>) -> (r: Result<Sockets, WfcError>)
        ensures
            r is Ok <==> entries_complete(entries@),
            r is Err ==> r == Result::<Sockets, WfcError>::Err(WfcError::ConfigurationError),
            r matches Ok(s) ==> s == sockets_of(entries@),
    {
        let mut north: Option<bool> = None;
        let mut east: Option<bool> = None;
        let mut south: Option<bool> = None;
        let mut west: Option<bool> = None;
        let mut i: usize = 0;
        while i < entries.len()
            invariant
                0 <= i <= entries.len(),
                north is Some <==> has_direction(entries@.subrange(0, i as int), Direction::North),
                east is Some <==> has_direction(entries@.subrange(0, i as int), Direction::East),
                south is Some <==> has_direction(entries@.subrange(0, i as int), Direction::South),
                west is Some <==> has_direction(entries@.subrange(0, i as int), Direction::West),
                north matches Some(b) ==> b == last_flag(
                    entries@.subrange(0, i as int),
                    Direction::North,
                ),
                east matches Some(b) ==> b == last_flag(
                    entries@.subrange(0, i as int),
                    Direction::East,
                ),
                south matches Some(b) ==> b == last_flag(
                    entries@.subrange(0, i as int),
                    Direction::South,
                ),
                west matches Some(b) ==> b == last_flag(
                    entries@.subrange(0, i as int),
                    Direction::West,
                ),
            decreases entries.len() - i,
        {
            let (d, flag) = entries[i];
            proof {
                assert(entries@.subrange(0, i + 1).drop_last() =~= entries@.subrange(0, i as int));
                assert(entries@.subrange(0, i + 1).last() == entries@[i as int]);
            }
            match d {
                Direction::North => north = Some(flag),
                Direction::East => east = Some(flag),
                Direction::South => south = Some(flag),
                Direction::West => west = Some(flag),
            }
            i = i + 1;
        }
        proof {
            assert(entries@.subrange(0, entries@.len() as int) =~= entries@);
        }
        match (north, east, south, west) {
            (Some(n), Some(e), Some(s), Some(w)) => Ok(Sockets {
                north: n,
                east: e,
                south: s,
                west: w,
            }),
            _ => Err(WfcError::ConfigurationError),
        }
    }
}

/// Rotating a profile carries the flag of each direction `d` to the edge
/// facing `d.rotate(rotation)`.
pub proof fn lemma_sockets_rotate(s: Sockets, rotation: Rotation, d: Direction)
    ensures
        s.spec_rotate(rotation).spec_get(d.spec_rotate(rotation)) == s.spec_get(d),
{
}

/// Turning a profile twice is turning it once by the composed rotation.
pub proof fn lemma_sockets_rotate_compose(s: Sockets, r1: Rotation, r2: Rotation)
    ensures
        s.spec_rotate(r1).spec_rotate(r2) == s.spec_rotate(r1.spec_rotate(r2)),
{
}

} // verus!
