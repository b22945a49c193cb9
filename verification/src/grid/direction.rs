use vstd::prelude::*;

verus! {

/// A cardinal direction of a cartesian grid.
#[derive(Clone, Copy, Debug, PartialEq, Eq, Structural, Hash)]
pub enum Direction {
    XForward,
    YForward,
    XBackward,
    YBackward,
    ZForward,
    ZBackward,
}

/// The kind of grid: which directions its cells have neighbours in.
#[derive(Clone, Copy, Debug, PartialEq, Eq, Structural, Hash)]
pub enum CoordinateSystem {
    /// Four directions, in the plane of x and y.
    Cartesian2D,
    /// Six directions.
    Cartesian3D,
}

/// The axis around which the models of a two-dimensional grid rotate.
pub const CARTESIAN_2D_ROTATION_AXIS: Direction = Direction::ZForward;

impl Direction {
    /// Position of the direction among the faces of a model.
    pub open spec fn spec_index(self) -> int {
        match self {
            Direction::XForward => 0,
            Direction::YForward => 1,
            Direction::XBackward => 2,
            Direction::YBackward => 3,
            Direction::ZForward => 4,
            Direction::ZBackward => 5,
        }
    }

    /// The direction at position `i`; positions past the last give `ZBackward`.
    pub open spec fn spec_from_index(i: int) -> Direction {
        if i == 0 {
            Direction::XForward
        } else if i == 1 {
            Direction::YForward
        } else if i == 2 {
            Direction::XBackward
        } else if i == 3 {
            Direction::YBackward
        } else if i == 4 {
            Direction::ZForward
        } else {
            Direction::ZBackward
        }
    }

    /// The direction that points the other way along the same axis.
    pub open spec fn spec_opposite(self) -> Direction {
        match self {
            Direction::XForward => Direction::XBackward,
            Direction::YForward => Direction::YBackward,
            Direction::XBackward => Direction::XForward,
            Direction::YBackward => Direction::YForward,
            Direction::ZForward => Direction::ZBackward,
            Direction::ZBackward => Direction::ZForward,
        }
    }

    /// The four directions perpendicular to this one, in the order in which
    /// a rotation around this axis, counter-clockwise seen from its positive
    /// end, walks through them.
    pub open spec fn spec_rotation_basis(self) -> Seq<Direction> {
        match self {
            Direction::XForward => seq![
                Direction::YForward,
                Direction::ZForward,
                Direction::YBackward,
                Direction::ZBackward,
            ],
            Direction::XBackward => seq![
                Direction::ZForward,
                Direction::YForward,
                Direction::ZBackward,
                Direction::YBackward,
            ],
            Direction::YForward => seq![
                Direction::ZForward,
                Direction::XForward,
                Direction::ZBackward,
                Direction::XBackward,
            ],
            Direction::YBackward => seq![
                Direction::XForward,
                Direction::ZForward,
                Direction::XBackward,
                Direction::ZBackward,
            ],
            Direction::ZForward => seq![
                Direction::XForward,
                Direction::YForward,
                Direction::XBackward,
                Direction::YBackward,
            ],
            Direction::ZBackward => seq![
                Direction::YForward,
                Direction::XForward,
                Direction::YBackward,
                Direction::XBackward,
            ],
        }
    }

    /// Position of the direction among the faces of a model.
    pub fn index(&self) -> (i: usize)
        ensures
            i == self.spec_index(),
            i < 6,
    {
        match *self {
            Direction::XForward => 0,
            Direction::YForward => 1,
            Direction::XBackward => 2,
            Direction::YBackward => 3,
            Direction::ZForward => 4,
            Direction::ZBackward => 5,
        }
    }

    /// The direction at position `i`.
    pub fn from_index(i: usize) -> (d: Direction)
        requires
            i < 6,
        ensures
            d == Self::spec_from_index(i as int),
            d.spec_index() == i,
    {
        if i == 0 {
            Direction::XForward
        } else if i == 1 {
            Direction::YForward
        } else if i == 2 {
            Direction::XBackward
        } else if i == 3 {
            Direction::YBackward
        } else if i == 4 {
            Direction::ZForward
        } else {
            Direction::ZBackward
        }
    }

    /// The direction that points the other way along the same axis.
    pub fn opposite(&self) -> (d: Direction)
        ensures
            d == self.spec_opposite(),
    {
        match *self {
            Direction::XForward => Direction::XBackward,
            Direction::YForward => Direction::YBackward,
            Direction::XBackward => Direction::XForward,
            Direction::YBackward => Direction::YForward,
            Direction::ZForward => Direction::ZBackward,
            Direction::ZBackward => Direction::ZForward,
        }
    }

    /// The four directions perpendicular to this one, in rotation order.
    pub fn rotation_basis(&self) -> (basis: [Direction; 4])
        ensures
            basis@ == self.spec_rotation_basis(),
    {
        let basis = match *self {
            Direction::XForward => [
                Direction::YForward,
                Direction::ZForward,
                Direction::YBackward,
                Direction::ZBackward,
            ],
            Direction::XBackward => [
                Direction::ZForward,
                Direction::YForward,
                Direction::ZBackward,
                Direction::YBackward,
            ],
            Direction::YForward => [
                Direction::ZForward,
                Direction::XForward,
                Direction::ZBackward,
                Direction::XBackward,
            ],
            Direction::YBackward => [
                Direction::XForward,
                Direction::ZForward,
                Direction::XBackward,
                Direction::ZBackward,
            ],
            Direction::ZForward => [
                Direction::XForward,
                Direction::YForward,
                Direction::XBackward,
                Direction::YBackward,
            ],
            Direction::ZBackward => [
                Direction::YForward,
                Direction::XForward,
                Direction::YBackward,
                Direction::XBackward,
            ],
        };
        assert(basis@ =~= self.spec_rotation_basis());
        basis
    }
}

impl CoordinateSystem {
    /// Number of directions of the system: its first directions, by position.
    pub open spec fn spec_directions_count(self) -> int {
        match self {
            CoordinateSystem::Cartesian2D => 4,
            CoordinateSystem::Cartesian3D => 6,
        }
    }

    /// Number of directions of the system.
    pub fn directions_count(&self) -> (n: usize)
        ensures
            n == self.spec_directions_count(),
            n == 4 || n == 6,
    {
        match *self {
            CoordinateSystem::Cartesian2D => 4,
            CoordinateSystem::Cartesian3D => 6,
        }
    }

    /// Whether `direction` is one of the system's directions.
    pub open spec fn has(self, direction: Direction) -> bool {
        direction.spec_index() < self.spec_directions_count()
    }
}

/// A set of directions known at compile time, used to tell models for
/// two-dimensional grids from models for three-dimensional ones.
pub trait DirectionSet {
    /// The coordinate system that the type stands for.
    spec fn system() -> CoordinateSystem;

    /// The coordinate system that the type stands for.
    fn coordinate_system() -> (s: CoordinateSystem)
        ensures
            s == Self::system(),
    ;
}

/// Marker of the two-dimensional cartesian grids.
#[derive(Clone, Copy, Debug)]
pub struct Cartesian2D;

/// Marker of the three-dimensional cartesian grids.
#[derive(Clone, Copy, Debug)]
pub struct Cartesian3D;

impl DirectionSet for Cartesian2D {
    open spec fn system() -> CoordinateSystem {
        CoordinateSystem::Cartesian2D
    }

    fn coordinate_system() -> (s: CoordinateSystem) {
        CoordinateSystem::Cartesian2D
    }
}

impl DirectionSet for Cartesian3D {
    open spec fn system() -> CoordinateSystem {
        CoordinateSystem::Cartesian3D
    }

    fn coordinate_system() -> (s: CoordinateSystem) {
        CoordinateSystem::Cartesian3D
    }
}

/// Taking the opposite twice gives the direction back, the opposite of a
/// direction of a system is in that system, and the two ends of an axis are
/// never among the directions perpendicular to it.
pub proof fn lemma_opposite_involution(d: Direction)
    ensures
        d.spec_opposite().spec_opposite() == d,
        d.spec_opposite() != d,
        forall|s: CoordinateSystem| s.has(d) <==> s.has(d.spec_opposite()),
        forall|i: int|
            0 <= i < 4 ==> #[trigger] d.spec_rotation_basis()[i] != d && d.spec_rotation_basis()[i]
                != d.spec_opposite(),
        Direction::spec_from_index(d.spec_index()) == d,
{
}

} // verus!
