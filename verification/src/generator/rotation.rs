use vstd::prelude::*;

verus! {

/// A rotation around an axis, counter-clockwise when seen from the positive
/// end of that axis, in quarter turns.
#[derive(Clone, Copy, Debug, PartialEq, Eq, Structural, Hash)]
pub enum NodeRotation {
    Rot0,
    Rot90,
    Rot180,
    Rot270,
}

/// All the rotations, in the order in which models are expanded.
pub const ALL_NODE_ROTATIONS: [NodeRotation; 4] = [
    NodeRotation::Rot0,
    NodeRotation::Rot90,
    NodeRotation::Rot180,
    NodeRotation::Rot270,
];

impl NodeRotation {
    /// Number of quarter turns of this rotation.
    pub open spec fn quarter_turns(self) -> int {
        match self {
            NodeRotation::Rot0 => 0,
            NodeRotation::Rot90 => 1,
            NodeRotation::Rot180 => 2,
            NodeRotation::Rot270 => 3,
        }
    }

    /// The rotation made of `turns` quarter turns, counted modulo four.
    pub open spec fn from_quarter_turns(turns: int) -> NodeRotation {
        let t = turns % 4;
        if t == 0 {
            NodeRotation::Rot0
        } else if t == 1 {
            NodeRotation::Rot90
        } else if t == 2 {
            NodeRotation::Rot180
        } else {
            NodeRotation::Rot270
        }
    }

    /// This rotation followed by `rotation`.
    pub open spec fn rotated_by(self, rotation: NodeRotation) -> NodeRotation {
        Self::from_quarter_turns(self.quarter_turns() + rotation.quarter_turns())
    }

    /// Value of the rotation in degrees.
    pub fn value(&self) -> (degrees: u32)
        ensures
            degrees == 90 * self.quarter_turns(),
    {
        match *self {
            NodeRotation::Rot0 => 0,
            NodeRotation::Rot90 => 90,
            NodeRotation::Rot180 => 180,
            NodeRotation::Rot270 => 270,
        }
    }

    /// Position of the rotation in [`ALL_NODE_ROTATIONS`].
    pub fn index(&self) -> (i: u8)
        ensures
            i == self.quarter_turns(),
    {
        match *self {
            NodeRotation::Rot0 => 0,
            NodeRotation::Rot90 => 1,
            NodeRotation::Rot180 => 2,
            NodeRotation::Rot270 => 3,
        }
    }

    /// The rotation of `turns` quarter turns; whole turns are dropped.
    pub fn from_index(turns: u8) -> (r: NodeRotation)
        ensures
            r == Self::from_quarter_turns(turns as int),
    {
        let t: u8 = turns % 4;
        if t == 0 {
            NodeRotation::Rot0
        } else if t == 1 {
            NodeRotation::Rot90
        } else if t == 2 {
            NodeRotation::Rot180
        } else {
            NodeRotation::Rot270
        }
    }

    /// This rotation followed by `rotation`.
    #[inline]
    pub fn rotated(&self, rotation: NodeRotation) -> (r: NodeRotation)
        ensures
            r == self.rotated_by(rotation),
    {
        Self::from_index(self.index() + rotation.index())
    }

    /// Replaces this rotation by itself followed by `rotation`.
    #[inline]
    pub fn rotate(&mut self, rotation: NodeRotation)
        ensures
            *final(self) == old(self).rotated_by(rotation),
    {
        *self = self.rotated(rotation);
    }

    /// This rotation followed by a quarter turn.
    #[inline]
    pub fn next(&self) -> (r: NodeRotation)
        ensures
            r == self.rotated_by(NodeRotation::Rot90),
    {
        self.rotated(NodeRotation::Rot90)
    }
}

/// Rotations compose as quarter turns add, modulo four: rotating by `a` and
/// then by `b` is rotating once by `a` followed by `b`, and the order of the
/// two does not matter.
pub proof fn lemma_rotations_compose(r: NodeRotation, a: NodeRotation, b: NodeRotation)
    ensures
        r.rotated_by(a).rotated_by(b) == r.rotated_by(a.rotated_by(b)),
        r.rotated_by(a).rotated_by(b) == r.rotated_by(b).rotated_by(a),
        r.rotated_by(NodeRotation::Rot0) == r,
        r.rotated_by(a).quarter_turns() == (r.quarter_turns() + a.quarter_turns()) % 4,
{
}

/// Four quarter turns bring every rotation back to itself.
pub proof fn lemma_four_quarter_turns(r: NodeRotation)
    ensures
        r.rotated_by(NodeRotation::Rot90).rotated_by(NodeRotation::Rot90).rotated_by(
            NodeRotation::Rot90,
        ).rotated_by(NodeRotation::Rot90) == r,
{
}

} // verus!
