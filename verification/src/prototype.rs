//! Oriented tile variants and their generation from a base tile.

use vstd::prelude::*;

use crate::direction::Direction;
use crate::error::WfcError;
use crate::rotation::Rotation;
use crate::sockets::{entries_complete, sockets_of, Sockets};

verus! {

/// One oriented variant of a base tile: the index of the tile it was made
/// from, the rotation that reaches this orientation, and the socket profile
/// turned accordingly. The raster of the variant is not held here; a
/// renderer recovers it by turning the base tile's raster by `rotation`.
#[derive(Debug, PartialEq, Eq, Structural, Copy, Clone)]
pub struct Prototype {
    pub tile: usize,
    pub rotation: Rotation,
    pub sockets: Sockets,
}

/// Whether a tile of profile `a` may stand next to a tile of profile `b`,
/// with `b` lying in direction `d` from `a`: the edge `a` shows toward `d`
/// and the edge `b` shows back must both be open or both closed.
pub open spec fn spec_matches(a: Prototype, b: Prototype, d: Direction) -> bool {
    a.sockets.spec_get(d) == b.sockets.spec_get(d.spec_opposite())
}

impl Prototype {
    /// The identity-orientation variant of base tile `tile`.
    pub open spec fn base(tile: usize, sockets: Sockets) -> Prototype {
        Prototype { tile, rotation: Rotation::Identity, sockets }
    }

    /// This variant turned further by `rotation`.
    pub open spec fn spec_rotate(self, rotation: Rotation) -> Prototype {
        Prototype {
            tile: self.tile,
            rotation: self.rotation.spec_rotate(rotation),
            sockets: self.sockets.spec_rotate(rotation),
        }
    }

    /// This variant turned further by `rotation`.
    pub fn rotate(&self, rotation: Rotation) -> (r: Prototype)
        ensures
            r == self.spec_rotate(rotation),
    {
        Prototype {
            tile: self.tile,
            rotation: self.rotation.rotate(rotation),
            sockets: self.sockets.rotate(rotation),
        }
    }

    /// Whether a tile of this profile may stand next to one of profile
    /// `other` lying in direction `direction` from it.
    pub fn matches(&self, other: &Prototype, direction: Direction) -> (r: bool)
        ensures
            r == spec_matches(*self, *other, direction),
    {
        self.sockets.get(direction) == other.sockets.get(direction.opposite())
    }

    /// The variants generated from the identity-orientation prototype `p0`:
    /// `p0` itself and its three further rotations, in the fixed order
    /// identity, quarter clockwise, half, quarter counterclockwise, keeping
    /// a rotation only when no earlier one has the same socket profile.
    pub open spec fn generated(p0: Prototype) -> Seq<Prototype> {
        let p90 = p0.spec_rotate(Rotation::Clockwise90);
        let p180 = p0.spec_rotate(Rotation::Clockwise180);
        let p270 = p0.spec_rotate(Rotation::Counterclockwise90);
        seq![p0] + (if p90.sockets != p0.sockets {
            seq![p90]
        } else {
            Seq::<Prototype>::empty()
        }) + (if p180.sockets != p0.sockets && p180.sockets != p90.sockets {
            seq![p180]
        } else {
            Seq::<Prototype>::empty()
        }) + (if p270.sockets != p0.sockets && p270.sockets != p90.sockets && p270.sockets
            != p180.sockets {
            seq![p270]
        } else {
            Seq::<Prototype>::empty()
        })
    }

    /// Expand base tile `tile` with the complete profile `sockets` into its
    /// distinct oriented variants.
    pub fn expand(tile: usize, sockets: Sockets) -> (r: Vec<Prototype>)
        ensures
            r@ == Prototype::generated(Prototype::base(tile, sockets)),
            1 <= r@.len() <= 4,
    {
        let p0 = Prototype { tile, rotation: Rotation::Identity, sockets };
        let p90 = p0.rotate(Rotation::Clockwise90);
        let p180 = p0.rotate(Rotation::Clockwise180);
        let p270 = p0.rotate(Rotation::Counterclockwise90);
        let mut out: Vec<Prototype> = Vec::new();
        out.push(p0);
        if p90.sockets != p0.sockets {
            out.push(p90);
        }
        if p180.sockets != p0.sockets && p180.sockets != p90.sockets {
            out.push(p180);
        }
        if p270.sockets != p0.sockets && p270.sockets != p90.sockets && p270.sockets
            != p180.sockets {
            out.push(p270);
        }
        proof {
            assert(out@ =~= Prototype::generated(p0));
        }
        out
    }

    /// Expand base tile `tile`, whose edges are described by the raw
    /// listing `entries`, into its distinct oriented variants.
    ///
    /// Fails with [`WfcError::ConfigurationError`] exactly when some
    /// direction is missing from the listing.
    pub fn new(tile: usize, entries: &Vec<(Direction, bool)>) -> (r: Result<
        Vec<Prototype>,
        WfcError,
    >)
        ensures
            r is Ok <==> entries_complete(entries@),
            r is Err ==> r == Result::<Vec<Prototype>, WfcError>::Err(
                WfcError::ConfigurationError,
            ),
            r matches Ok(v) ==> v@ == Prototype::generated(
                Prototype::base(tile, sockets_of(entries@)),
            ),
    {
        match Sockets::from_entries(entries) {
            Ok(sockets) => Ok(Prototype::expand(tile, sockets)),
            Err(e) => Err(e),
        }
    }
}

/// Edge matching is symmetric: `a` accepts `b` in direction `d` exactly
/// when `b` accepts `a` in the opposite direction.
pub proof fn lemma_matches_symmetric(a: Prototype, b: Prototype, d: Direction)
    ensures
        spec_matches(a, b, d) == spec_matches(b, a, d.spec_opposite()),
{
}

/// For every prototype in the list, the list also holds one whose socket
/// profile is the half-turn of its own. Such a list gives every candidate a
/// partner that matches it in every direction, which keeps a freshly seeded
/// grid arc-consistent.
pub open spec fn closed_under_half_turn(protos: Seq<Prototype>) -> bool {
    forall|i: int|
        0 <= i < protos.len() ==> exists|j: int|
            0 <= j < protos.len() && (#[trigger] protos[i]).sockets.spec_rotate(
                Rotation::Clockwise180,
            ) == protos[j].sockets
}

/// Generation keeps, for every surviving variant, a variant whose sockets
/// are the half-turn of its own: the four rotations of a tile are closed
/// under the half turn, and deduplication only ever drops a variant whose
/// exact socket profile survives elsewhere.
pub proof fn lemma_generated_closed(p0: Prototype)
    ensures
        closed_under_half_turn(Prototype::generated(p0)),
{
    let gen = Prototype::generated(p0);
    let p90 = p0.spec_rotate(Rotation::Clockwise90);
    let p180 = p0.spec_rotate(Rotation::Clockwise180);
    let p270 = p0.spec_rotate(Rotation::Counterclockwise90);
    let s0 = p0.sockets;
    let s90 = p90.sockets;
    let s180 = p180.sockets;
    let s270 = p270.sockets;
    crate::sockets::lemma_sockets_rotate_compose(s0, Rotation::Identity, Rotation::Clockwise180);
    crate::sockets::lemma_sockets_rotate_compose(s0, Rotation::Clockwise90, Rotation::Clockwise180);
    crate::sockets::lemma_sockets_rotate_compose(
        s0,
        Rotation::Clockwise180,
        Rotation::Clockwise180,
    );
    crate::sockets::lemma_sockets_rotate_compose(
        s0,
        Rotation::Counterclockwise90,
        Rotation::Clockwise180,
    );
    assert(s0.spec_rotate(Rotation::Clockwise180) == s180);
    assert(s90.spec_rotate(Rotation::Clockwise180) == s270);
    assert(s180.spec_rotate(Rotation::Clockwise180) == s0);
    assert(s270.spec_rotate(Rotation::Clockwise180) == s90);
    assert(gen[0] == p0);
    let has0 = exists|j: int| 0 <= j < gen.len() && gen[j].sockets == s0;
    assert(has0) by {
        assert(gen[0].sockets == s0);
    }
    let has90 = exists|j: int| 0 <= j < gen.len() && gen[j].sockets == s90;
    assert(has90) by {
        if s90 == s0 {
            assert(gen[0].sockets == s90);
        } else {
            assert(gen[1] == p90);
        }
    }
    let has180 = exists|j: int| 0 <= j < gen.len() && gen[j].sockets == s180;
    assert(has180) by {
        if s180 == s0 {
            assert(gen[0].sockets == s180);
        } else if s180 == s90 {
            assert(s90 != s0);
            assert(gen[1] == p90);
            assert(gen[1].sockets == s180);
        } else {
            if s90 != s0 {
                assert(gen[2] == p180);
            } else {
                assert(gen[1] == p180);
            }
        }
    }
    let has270 = exists|j: int| 0 <= j < gen.len() && gen[j].sockets == s270;
    assert(has270) by {
        if s270 == s0 {
            assert(gen[0].sockets == s270);
        } else if s270 == s90 {
            assert(has90);
            let j = choose|j: int| 0 <= j < gen.len() && gen[j].sockets == s90;
            assert(gen[j].sockets == s270);
        } else if s270 == s180 {
            assert(has180);
            let j = choose|j: int| 0 <= j < gen.len() && gen[j].sockets == s180;
            assert(gen[j].sockets == s270);
        } else {
            let keep90: int = if s90 != s0 {
                1int
            } else {
                0int
            };
            let keep180: int = if s180 != s0 && s180 != s90 {
                1int
            } else {
                0int
            };
            assert(gen[1 + keep90 + keep180] == p270);
        }
    }
    assert forall|i: int| 0 <= i < gen.len() implies exists|j: int|
        0 <= j < gen.len() && (#[trigger] gen[i]).sockets.spec_rotate(Rotation::Clockwise180)
            == gen[j].sockets by {
        assert(gen[i] == p0 || gen[i] == p90 || gen[i] == p180 || gen[i] == p270);
        if gen[i].sockets == s0 {
            assert(has180);
        } else if gen[i].sockets == s90 {
            assert(has270);
        } else if gen[i].sockets == s180 {
            assert(has0);
        } else {
            assert(has90);
        }
    }
}

} // verus!
