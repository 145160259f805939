//! Quarter-turn rotations and their composition.

use vstd::prelude::*;

verus! {

/// A rotation by a multiple of a quarter turn: the cyclic group of order
/// four, with `Identity` as the neutral element.
#[derive(Debug, PartialEq, Eq, Structural, Copy, Clone, Hash)]
pub enum Rotation {
    Identity,
    Clockwise90,
    Clockwise180,
    Counterclockwise90,
}

impl Rotation {
    /// The rotation equivalent to applying `self` first and then `rotation`.
    pub fn rotate(self, rotation: Self) -> (r: Self)
        ensures
            r == self.spec_rotate(rotation),
    {
        match rotation {
            Rotation::Identity => self,
            Rotation::Clockwise90 => match self {
                Rotation::Identity => Rotation::Clockwise90,
                Rotation::Clockwise90 => Rotation::Clockwise180,
                Rotation::Clockwise180 => Rotation::Counterclockwise90,
                Rotation::Counterclockwise90 => Rotation::Identity,
            },
            Rotation::Clockwise180 => match self {
                Rotation::Identity => Rotation::Clockwise180,
                Rotation::Clockwise90 => Rotation::Counterclockwise90,
                Rotation::Clockwise180 => Rotation::Identity,
                Rotation::Counterclockwise90 => Rotation::Clockwise90,
            },
            Rotation::Counterclockwise90 => match self {
                Rotation::Identity => Rotation::Counterclockwise90,
                Rotation::Clockwise90 => Rotation::Identity,
                Rotation::Clockwise180 => Rotation::Clockwise90,
                Rotation::Counterclockwise90 => Rotation::Clockwise180,
            },
        }
    }

    pub open spec fn spec_rotate(self, rotation: Self) -> Self {
        match rotation {
            Rotation::Identity => self,
            Rotation::Clockwise90 => match self {
                Rotation::Identity => Rotation::Clockwise90,
                Rotation::Clockwise90 => Rotation::Clockwise180,
                Rotation::Clockwise180 => Rotation::Counterclockwise90,
                Rotation::Counterclockwise90 => Rotation::Identity,
            },
            Rotation::Clockwise180 => match self {
                Rotation::Identity => Rotation::Clockwise180,
                Rotation::Clockwise90 => Rotation::Counterclockwise90,
                Rotation::Clockwise180 => Rotation::Identity,
                Rotation::Counterclockwise90 => Rotation::Clockwise90,
            },
            Rotation::Counterclockwise90 => match self {
                Rotation::Identity => Rotation::Counterclockwise90,
                Rotation::Clockwise90 => Rotation::Identity,
                Rotation::Clockwise180 => Rotation::Clockwise90,
                Rotation::Counterclockwise90 => Rotation::Clockwise180,
            },
        }
    }
}

/// Composition of rotations is associative, has `Identity` as a two-sided
/// identity, and every rotation has an inverse: the quarter turns are
/// mutually inverse and the half turn is its own inverse.
pub proof fn lemma_rotation_group(a: Rotation, b: Rotation, c: Rotation)
    ensures
        a.spec_rotate(b).spec_rotate(c) == a.spec_rotate(b.spec_rotate(c)),
        a.spec_rotate(Rotation::Identity) == a,
        Rotation::Identity.spec_rotate(a) == a,
        Rotation::Clockwise90.spec_rotate(Rotation::Counterclockwise90) == Rotation::Identity,
        Rotation::Counterclockwise90.spec_rotate(Rotation::Clockwise90) == Rotation::Identity,
        Rotation::Clockwise180.spec_rotate(Rotation::Clockwise180) == Rotation::Identity,
{
}

} // verus!
