//! The four compass directions and their rotation algebra.

use vstd::prelude::*;

use crate::rotation::Rotation;

verus! {

/// One of the four edges of a tile, or equivalently the direction from a
/// grid cell to one of its four neighbors.
#[derive(Debug, PartialEq, Eq, Structural, Copy, Clone, Hash)]
pub enum Direction {
    North,
    East,
    South,
    West,
}

impl Direction {
    /// The direction pointing the opposite way.
    pub fn opposite(self) -> (r: Self)
        ensures
            r == self.spec_opposite(),
    {
        match self {
            Direction::North => Direction::South,
            Direction::East => Direction::West,
            Direction::South => Direction::North,
            Direction::West => Direction::East,
        }
    }

    /// The direction a quarter turn clockwise from this one.
    pub fn clockwise(self) -> (r: Self)
        ensures
            r == self.spec_clockwise(),
    {
        match self {
            Direction::North => Direction::East,
            Direction::East => Direction::South,
            Direction::South => Direction::West,
            Direction::West => Direction::North,
        }
    }

    /// The direction a quarter turn counterclockwise from this one.
    pub fn counterclockwise(self) -> (r: Self)
        ensures
            r == self.spec_counterclockwise(),
    {
        match self {
            Direction::North => Direction::West,
            Direction::East => Direction::North,
            Direction::South => Direction::East,
            Direction::West => Direction::South,
        }
    }

    /// The direction this one is carried to by the given rotation.
    pub fn rotate(self, rotation: Rotation) -> (r: Self)
        ensures
            r == self.spec_rotate(rotation),
    {
        match rotation {
            Rotation::Identity => self,
            Rotation::Clockwise90 => self.clockwise(),
            Rotation::Clockwise180 => self.opposite(),
            Rotation::Counterclockwise90 => self.counterclockwise(),
        }
    }

    pub open spec fn spec_opposite(self) -> Self {
        match self {
            Direction::North => Direction::South,
            Direction::East => Direction::West,
            Direction::South => Direction::North,
            Direction::West => Direction::East,
        }
    }

    pub open spec fn spec_clockwise(self) -> Self {
        match self {
            Direction::North => Direction::East,
            Direction::East => Direction::South,
            Direction::South => Direction::West,
            Direction::West => Direction::North,
        }
    }

    pub open spec fn spec_counterclockwise(self) -> Self {
        match self {
            Direction::North => Direction::West,
            Direction::East => Direction::North,
            Direction::South => Direction::East,
            Direction::West => Direction::South,
        }
    }

    pub open spec fn spec_rotate(self, rotation: Rotation) -> Self {
        match rotation {
            Rotation::Identity => self,
            Rotation::Clockwise90 => self.spec_clockwise(),
            Rotation::Clockwise180 => self.spec_opposite(),
            Rotation::Counterclockwise90 => self.spec_counterclockwise(),
        }
    }
}

/// Rotating a direction by `r1` and then by `r2` is the same as rotating it
/// once by the composition of `r1` and `r2`, and the identity rotation
/// leaves every direction in place: directions carry an action of the
/// cyclic rotation group.
pub proof fn lemma_direction_rotation_action(d: Direction, r1: Rotation, r2: Rotation)
    ensures
        d.spec_rotate(r1).spec_rotate(r2) == d.spec_rotate(r1.spec_rotate(r2)),
        d.spec_rotate(Rotation::Identity) == d,
{
}

/// A quarter turn clockwise and a quarter turn counterclockwise undo each
/// other on every direction, and a half turn undoes itself.
pub proof fn lemma_direction_rotation_inverses(d: Direction)
    ensures
        d.spec_rotate(Rotation::Clockwise90).spec_rotate(Rotation::Counterclockwise90) == d,
        d.spec_rotate(Rotation::Counterclockwise90).spec_rotate(Rotation::Clockwise90) == d,
        d.spec_rotate(Rotation::Clockwise180).spec_rotate(Rotation::Clockwise180) == d,
{
}

} // verus!
