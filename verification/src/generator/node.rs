use crate::generator::rotation::NodeRotation;
use crate::generator::socket::rotate_all;
use crate::generator::socket::rotated_sockets;
use crate::generator::socket::socket_ids;
use crate::generator::socket::Socket;
use crate::generator::socket::SocketId;
use crate::grid::direction::Cartesian2D;
use crate::grid::direction::Cartesian3D;
use crate::grid::direction::CoordinateSystem;
use crate::grid::direction::Direction;
use crate::grid::direction::DirectionSet;
use crate::grid::direction::CARTESIAN_2D_ROTATION_AXIS;
use std::marker::PhantomData;
use vstd::prelude::*;

verus! {

/// Index of a model.
pub type ModelIndex = usize;

/// The weight of a model that was given none. Weights are whole numbers;
/// this one stands for the weight one, so that a model can weigh less.
pub const WEIGHT_UNIT: u32 = 1024;

/// The lists that `lists` holds, in the same order.
pub open spec fn lists_view<A>(lists: Seq<Vec<A>>) -> Seq<Seq<A>> {
    Seq::new(lists.len(), |i: int| lists[i]@)
}

/// The identifiers of the sockets of each face.
pub open spec fn faces_ids(faces: Seq<Seq<Socket>>) -> Seq<Seq<u64>> {
    Seq::new(faces.len(), |f: int| socket_ids(faces[f]))
}

/// Position of the face `face` among the four directions perpendicular to `axis`.
pub open spec fn basis_position(axis: Direction, face: int) -> int {
    let basis = axis.spec_rotation_basis();
    if basis[0].spec_index() == face {
        0
    } else if basis[1].spec_index() == face {
        1
    } else if basis[2].spec_index() == face {
        2
    } else {
        3
    }
}

/// The sockets that face `face` shows once the model is rotated by
/// `rotation` around `axis`. The two faces on the axis keep their sockets,
/// each rotated by `rotation`. A face perpendicular to the axis takes the
/// sockets of the face that stands as many places before it in the axis'
/// rotation basis as the rotation has quarter turns.
pub open spec fn rotated_face(
    faces: Seq<Seq<Socket>>,
    rotation: NodeRotation,
    axis: Direction,
    face: int,
) -> Seq<Socket> {
    if face == axis.spec_index() || face == axis.spec_opposite().spec_index() {
        rotated_sockets(faces[face], rotation)
    } else {
        let from = (basis_position(axis, face) - rotation.quarter_turns()) % 4;
        faces[axis.spec_rotation_basis()[from].spec_index()]
    }
}

/// The faces of a model rotated by `rotation` around `axis`.
pub open spec fn rotated_faces(
    faces: Seq<Seq<Socket>>,
    rotation: NodeRotation,
    axis: Direction,
) -> Seq<Seq<Socket>> {
    Seq::new(faces.len(), |f: int| rotated_face(faces, rotation, axis, f))
}

/// Whether a model with `face_count` faces can be rotated around `axis`:
/// one with four faces only around the axis that leaves its plane.
pub open spec fn axis_fits(face_count: int, axis: Direction) -> bool {
    face_count == 6 || (face_count == 4 && (axis == Direction::ZForward || axis
        == Direction::ZBackward))
}

/// Rotating the faces of a model twice around one axis is rotating them
/// once by both rotations together, and rotating by nothing changes nothing:
/// in particular four quarter turns give every face its sockets back.
pub proof fn lemma_rotated_faces_compose(
    faces: Seq<Seq<Socket>>,
    a: NodeRotation,
    b: NodeRotation,
    axis: Direction,
)
    requires
        axis_fits(faces.len() as int, axis),
    ensures
        rotated_faces(rotated_faces(faces, a, axis), b, axis) == rotated_faces(
            faces,
            a.rotated_by(b),
            axis,
        ),
        rotated_faces(faces, NodeRotation::Rot0, axis) == faces,
        rotated_faces(
            rotated_faces(
                rotated_faces(
                    rotated_faces(faces, NodeRotation::Rot90, axis),
                    NodeRotation::Rot90,
                    axis,
                ),
                NodeRotation::Rot90,
                axis,
            ),
            NodeRotation::Rot90,
            axis,
        ) == faces,
{
    lemma_rotated_faces_add(faces, a, b, axis);
    lemma_rotated_faces_none(faces, axis);
    let quarter = NodeRotation::Rot90;
    let once = rotated_faces(faces, quarter, axis);
    lemma_rotated_faces_add(faces, quarter, quarter, axis);
    lemma_rotated_faces_add(faces, NodeRotation::Rot180, quarter, axis);
    lemma_rotated_faces_add(faces, NodeRotation::Rot270, quarter, axis);
}

proof fn lemma_rotated_faces_none(faces: Seq<Seq<Socket>>, axis: Direction)
    requires
        axis_fits(faces.len() as int, axis),
    ensures
        rotated_faces(faces, NodeRotation::Rot0, axis) == faces,
{
    let r = rotated_faces(faces, NodeRotation::Rot0, axis);
    assert forall|f: int| 0 <= f < faces.len() implies r[f] == faces[f] by {
        if f == axis.spec_index() || f == axis.spec_opposite().spec_index() {
            let s = faces[f];
            assert forall|i: int| 0 <= i < s.len() implies rotated_sockets(
                s,
                NodeRotation::Rot0,
            )[i] == s[i] by {
                crate::generator::socket::lemma_socket_rotations_compose(
                    s[i],
                    NodeRotation::Rot0,
                    NodeRotation::Rot0,
                );
            }
            assert(rotated_sockets(s, NodeRotation::Rot0) =~= s);
        }
    }
    assert(r =~= faces);
}

/// The face whose sockets a face perpendicular to the axis takes under a
/// rotation is perpendicular to the axis too, and stands in the rotation
/// basis where the rotation says.
proof fn lemma_perpendicular(axis: Direction, face: int, turns: int)
    requires
        0 <= face < 6,
        face != axis.spec_index(),
        face != axis.spec_opposite().spec_index(),
        0 <= turns < 4,
    ensures
        ({
            let from = (basis_position(axis, face) - turns) % 4;
            let taken = axis.spec_rotation_basis()[from].spec_index();
            &&& 0 <= from < 4
            &&& 0 <= taken < 6
            &&& taken != axis.spec_index()
            &&& taken != axis.spec_opposite().spec_index()
            &&& (axis == Direction::ZForward || axis == Direction::ZBackward) ==> taken < 4
            &&& basis_position(axis, taken) == from
        }),
{
    let basis = axis.spec_rotation_basis();
    let position = basis_position(axis, face);
    assert(0 <= position < 4);
    let from = (position - turns) % 4;
    assert(0 <= from < 4);
    assert(basis.len() == 4);
    match axis {
        Direction::XForward => {
            assert(basis[0] == Direction::YForward && basis[1] == Direction::ZForward && basis[2]
                == Direction::YBackward && basis[3] == Direction::ZBackward);
        },
        Direction::XBackward => {
            assert(basis[0] == Direction::ZForward && basis[1] == Direction::YForward && basis[2]
                == Direction::ZBackward && basis[3] == Direction::YBackward);
        },
        Direction::YForward => {
            assert(basis[0] == Direction::ZForward && basis[1] == Direction::XForward && basis[2]
                == Direction::ZBackward && basis[3] == Direction::XBackward);
        },
        Direction::YBackward => {
            assert(basis[0] == Direction::XForward && basis[1] == Direction::ZForward && basis[2]
                == Direction::XBackward && basis[3] == Direction::ZBackward);
        },
        Direction::ZForward => {
            assert(basis[0] == Direction::XForward && basis[1] == Direction::YForward && basis[2]
                == Direction::XBackward && basis[3] == Direction::YBackward);
        },
        Direction::ZBackward => {
            assert(basis[0] == Direction::YForward && basis[1] == Direction::XForward && basis[2]
                == Direction::YBackward && basis[3] == Direction::XBackward);
        },
    }
}

proof fn lemma_rotated_faces_add(
    faces: Seq<Seq<Socket>>,
    a: NodeRotation,
    b: NodeRotation,
    axis: Direction,
)
    requires
        axis_fits(faces.len() as int, axis),
    ensures
        rotated_faces(rotated_faces(faces, a, axis), b, axis) == rotated_faces(
            faces,
            a.rotated_by(b),
            axis,
        ),
{
    let once = rotated_faces(faces, a, axis);
    let twice = rotated_faces(once, b, axis);
    let both = rotated_faces(faces, a.rotated_by(b), axis);
    assert forall|f: int| 0 <= f < faces.len() implies twice[f] == both[f] by {
        if f == axis.spec_index() || f == axis.spec_opposite().spec_index() {
            lemma_axis_face_add(faces[f], a, b);
        } else {
            lemma_perpendicular_add(faces, a, b, axis, f);
        }
    }
    assert(twice =~= both);
}

proof fn lemma_axis_face_add(s: Seq<Socket>, a: NodeRotation, b: NodeRotation)
    ensures
        rotated_sockets(rotated_sockets(s, a), b) == rotated_sockets(s, a.rotated_by(b)),
{
    assert forall|i: int| 0 <= i < s.len() implies rotated_sockets(rotated_sockets(s, a), b)[i]
        == rotated_sockets(s, a.rotated_by(b))[i] by {
        crate::generator::socket::lemma_socket_rotations_compose(s[i], a, b);
    }
    assert(rotated_sockets(rotated_sockets(s, a), b) =~= rotated_sockets(s, a.rotated_by(b)));
}

proof fn lemma_perpendicular_add(
    faces: Seq<Seq<Socket>>,
    a: NodeRotation,
    b: NodeRotation,
    axis: Direction,
    f: int,
)
    requires
        axis_fits(faces.len() as int, axis),
        0 <= f < faces.len(),
        f != axis.spec_index(),
        f != axis.spec_opposite().spec_index(),
    ensures
        rotated_face(rotated_faces(faces, a, axis), b, axis, f) == rotated_face(
            faces,
            a.rotated_by(b),
            axis,
            f,
        ),
{
    let basis = axis.spec_rotation_basis();
    let i = basis_position(axis, f);
    let mid = (i - b.quarter_turns()) % 4;
    let g = basis[mid].spec_index();
    let end = (mid - a.quarter_turns()) % 4;
    lemma_perpendicular(axis, f, b.quarter_turns());
    lemma_perpendicular(axis, g, a.quarter_turns());
    assert(0 <= g < faces.len());
    let once = rotated_faces(faces, a, axis);
    assert(once[g] == rotated_face(faces, a, axis, g));
    assert(rotated_face(once, b, axis, f) == once[g]);
    assert(once[g] == faces[basis[end].spec_index()]);
    assert(end == (i - a.rotated_by(b).quarter_turns()) % 4);
}

/// The sockets of a model for a grid of two dimensions.
#[allow(inconsistent_fields)]
pub enum SocketsCartesian2D {
    /// One socket, the same on every face.
    Mono(Socket),
    /// One socket on each face.
    Simple { x_pos: Socket, x_neg: Socket, y_pos: Socket, y_neg: Socket },
    /// Several sockets on each face.
    Multiple { x_pos: Vec<Socket>, x_neg: Vec<Socket>, y_pos: Vec<Socket>, y_neg: Vec<Socket> },
}

/// The sockets of a model for a grid of three dimensions.
#[allow(inconsistent_fields)]
pub enum SocketsCartesian3D {
    /// One socket, the same on every face.
    Mono(Socket),
    /// One socket on each face.
    Simple {
        x_pos: Socket,
        x_neg: Socket,
        z_pos: Socket,
        z_neg: Socket,
        y_pos: Socket,
        y_neg: Socket,
    },
    /// Several sockets on each face.
    Multiple {
        x_pos: Vec<Socket>,
        x_neg: Vec<Socket>,
        z_pos: Vec<Socket>,
        z_neg: Vec<Socket>,
        y_pos: Vec<Socket>,
        y_neg: Vec<Socket>,
    },
}

fn single(socket: Socket) -> (list: Vec<Socket>)
    ensures
        list@ == seq![socket],
{
    let mut list: Vec<Socket> = Vec::new();
    list.push(socket);
    assert(list@ =~= seq![socket]);
    list
}

impl SocketsCartesian2D {
    /// The sockets by face, in the order of the directions.
    pub open spec fn faces(self) -> Seq<Seq<Socket>> {
        match self {
            SocketsCartesian2D::Mono(socket) => seq![
                seq![socket],
                seq![socket],
                seq![socket],
                seq![socket],
            ],
            SocketsCartesian2D::Simple { x_pos, x_neg, y_pos, y_neg } => seq![
                seq![x_pos],
                seq![y_pos],
                seq![x_neg],
                seq![y_neg],
            ],
            SocketsCartesian2D::Multiple { x_pos, x_neg, y_pos, y_neg } => seq![
                x_pos@,
                y_pos@,
                x_neg@,
                y_neg@,
            ],
        }
    }

    /// The sockets by face, in the order of the directions.
    pub fn into(self) -> (faces: Vec<Vec<Socket>>)
        ensures
            lists_view(faces@) == self.faces(),
    {
        let mut faces: Vec<Vec<Socket>> = Vec::new();
        match self {
            SocketsCartesian2D::Mono(socket) => {
                faces.push(single(socket));
                faces.push(single(socket));
                faces.push(single(socket));
                faces.push(single(socket));
            },
            SocketsCartesian2D::Simple { x_pos, x_neg, y_pos, y_neg } => {
                faces.push(single(x_pos));
                faces.push(single(y_pos));
                faces.push(single(x_neg));
                faces.push(single(y_neg));
            },
            SocketsCartesian2D::Multiple { x_pos, x_neg, y_pos, y_neg } => {
                faces.push(x_pos);
                faces.push(y_pos);
                faces.push(x_neg);
                faces.push(y_neg);
            },
        }
        assert(lists_view(faces@) =~= self.faces());
        faces
    }

    /// A model with these sockets, the weight [`WEIGHT_UNIT`], no name and
    /// no rotation but the one that leaves it as it is.
    pub fn new_model(self) -> (model: NodeModel<Cartesian2D>)
        ensures
            model.faces() == self.faces(),
            model.spec_weight() == WEIGHT_UNIT,
            model.spec_name() == None::<&'static str>,
            forall|r: NodeRotation| model.allows(r) <==> r == NodeRotation::Rot0,
    {
        NodeModel::new_cartesian_2d(self)
    }
}

impl SocketsCartesian3D {
    /// The sockets by face, in the order of the directions.
    pub open spec fn faces(self) -> Seq<Seq<Socket>> {
        match self {
            SocketsCartesian3D::Mono(socket) => seq![
                seq![socket],
                seq![socket],
                seq![socket],
                seq![socket],
                seq![socket],
                seq![socket],
            ],
            SocketsCartesian3D::Simple { x_pos, x_neg, z_pos, z_neg, y_pos, y_neg } => seq![
                seq![x_pos],
                seq![y_pos],
                seq![x_neg],
                seq![y_neg],
                seq![z_pos],
                seq![z_neg],
            ],
            SocketsCartesian3D::Multiple { x_pos, x_neg, z_pos, z_neg, y_pos, y_neg } => seq![
                x_pos@,
                y_pos@,
                x_neg@,
                y_neg@,
                z_pos@,
                z_neg@,
            ],
        }
    }

    /// The sockets by face, in the order of the directions.
    pub fn into(self) -> (faces: Vec<Vec<Socket>>)
        ensures
            lists_view(faces@) == self.faces(),
    {
        let mut faces: Vec<Vec<Socket>> = Vec::new();
        match self {
            SocketsCartesian3D::Mono(socket) => {
                faces.push(single(socket));
                faces.push(single(socket));
                faces.push(single(socket));
                faces.push(single(socket));
                faces.push(single(socket));
                faces.push(single(socket));
            },
            SocketsCartesian3D::Simple { x_pos, x_neg, z_pos, z_neg, y_pos, y_neg } => {
                faces.push(single(x_pos));
                faces.push(single(y_pos));
                faces.push(single(x_neg));
                faces.push(single(y_neg));
                faces.push(single(z_pos));
                faces.push(single(z_neg));
            },
            SocketsCartesian3D::Multiple { x_pos, x_neg, z_pos, z_neg, y_pos, y_neg } => {
                faces.push(x_pos);
                faces.push(y_pos);
                faces.push(x_neg);
                faces.push(y_neg);
                faces.push(z_pos);
                faces.push(z_neg);
            },
        }
        assert(lists_view(faces@) =~= self.faces());
        faces
    }

    /// A model with these sockets, the weight [`WEIGHT_UNIT`], no name and
    /// no rotation but the one that leaves it as it is.
    pub fn new_model(self) -> (model: NodeModel<Cartesian3D>)
        ensures
            model.faces() == self.faces(),
            model.spec_weight() == WEIGHT_UNIT,
            model.spec_name() == None::<&'static str>,
            forall|r: NodeRotation| model.allows(r) <==> r == NodeRotation::Rot0,
    {
        NodeModel::new_cartesian_3d(self)
    }
}

/// The rotations that a model may take.
#[derive(Clone, Copy, Debug)]
struct RotationSet {
    rot0: bool,
    rot90: bool,
    rot180: bool,
    rot270: bool,
}

impl RotationSet {
    spec fn has(self, rotation: NodeRotation) -> bool {
        match rotation {
            NodeRotation::Rot0 => self.rot0,
            NodeRotation::Rot90 => self.rot90,
            NodeRotation::Rot180 => self.rot180,
            NodeRotation::Rot270 => self.rot270,
        }
    }

    fn only_rot0() -> (set: Self)
        ensures
            forall|r: NodeRotation| set.has(r) <==> r == NodeRotation::Rot0,
    {
        RotationSet { rot0: true, rot90: false, rot180: false, rot270: false }
    }

    fn contains(&self, rotation: NodeRotation) -> (found: bool)
        ensures
            found == self.has(rotation),
    {
        match rotation {
            NodeRotation::Rot0 => self.rot0,
            NodeRotation::Rot90 => self.rot90,
            NodeRotation::Rot180 => self.rot180,
            NodeRotation::Rot270 => self.rot270,
        }
    }

    fn insert(&mut self, rotation: NodeRotation)
        ensures
            forall|r: NodeRotation| final(self).has(r) <==> (old(self).has(r) || r == rotation),
    {
        match rotation {
            NodeRotation::Rot0 => {
                self.rot0 = true;
            },
            NodeRotation::Rot90 => {
                self.rot90 = true;
            },
            NodeRotation::Rot180 => {
                self.rot180 = true;
            },
            NodeRotation::Rot270 => {
                self.rot270 = true;
            },
        }
    }
}

/// A model that the generator may put into a cell of the grid.
pub struct NodeModel<T: DirectionSet> {
    /// The sockets of each face, by direction.
    sockets: Vec<Vec<Socket>>,
    /// How often the model is chosen, next to the others.
    weight: u32,
    /// The rotations in which the model may be put down.
    allowed_rotations: RotationSet,
    /// A name for the model, for its author's use.
    name: Option<&'static str>,
    typestate: PhantomData<T>,
}

impl<T: DirectionSet> NodeModel<T> {
    #[verifier::type_invariant]
    spec fn one_face_per_direction(self) -> bool {
        self.sockets@.len() == T::system().spec_directions_count()
    }

    /// The sockets of each face, by direction.
    pub closed spec fn faces(self) -> Seq<Seq<Socket>> {
        lists_view(self.sockets@)
    }

    /// The model's weight.
    pub closed spec fn spec_weight(self) -> u32 {
        self.weight
    }

    /// Whether the model may be put down rotated by `rotation`.
    pub closed spec fn allows(self, rotation: NodeRotation) -> bool {
        self.allowed_rotations.has(rotation)
    }

    /// The model's name, if it was given one.
    pub closed spec fn spec_name(self) -> Option<&'static str> {
        self.name
    }

    /// Lets the model be rotated by `rotation`, and left as it is, and in no
    /// other way.
    pub fn with_rotation(self, rotation: NodeRotation) -> (model: Self)
        ensures
            forall|r: NodeRotation|
                model.allows(r) <==> (r == NodeRotation::Rot0 || r == rotation),
            model.faces() == self.faces(),
            model.spec_weight() == self.spec_weight(),
            model.spec_name() == self.spec_name(),
    {
        proof {
            use_type_invariant(&self);
        }
        let mut model = self;
        let mut set = RotationSet::only_rot0();
        set.insert(rotation);
        model.allowed_rotations = set;
        model
    }

    /// Lets the model be rotated by each of `rotations`, and left as it is,
    /// and in no other way.
    pub fn with_rotations(self, rotations: Vec<NodeRotation>) -> (model: Self)
        ensures
            forall|r: NodeRotation|
                model.allows(r) <==> (r == NodeRotation::Rot0 || rotations@.contains(r)),
            model.faces() == self.faces(),
            model.spec_weight() == self.spec_weight(),
            model.spec_name() == self.spec_name(),
    {
        proof {
            use_type_invariant(&self);
        }
        let mut model = self;
        let mut set = RotationSet::only_rot0();
        let mut i: usize = 0;
        while i < rotations.len()
            invariant
                i <= rotations.len(),
                forall|r: NodeRotation|
                    set.has(r) <==> (r == NodeRotation::Rot0 || rotations@.take(i as int).contains(
                        r,
                    )),
            decreases rotations.len() - i,
        {
            let ghost before_set = set;
            set.insert(rotations[i]);
            proof {
                let before = rotations@.take(i as int);
                let added = rotations@[i as int];
                assert(rotations@.take(i + 1) =~= before.push(added));
                assert forall|r: NodeRotation|
                    set.has(r) <==> (r == NodeRotation::Rot0 || rotations@.take(i + 1).contains(
                        r,
                    )) by {
                    vstd::seq_lib::lemma_seq_contains_after_push(before, added, r);
                    assert(set.has(r) <==> (before_set.has(r) || r == added));
                }
            }
            i += 1;
        }
        assert(rotations@.take(rotations.len() as int) =~= rotations@);
        model.allowed_rotations = set;
        model
    }

    /// Lets the model be rotated in every way.
    pub fn with_all_rotations(self) -> (model: Self)
        ensures
            forall|r: NodeRotation| model.allows(r),
            model.faces() == self.faces(),
            model.spec_weight() == self.spec_weight(),
            model.spec_name() == self.spec_name(),
    {
        proof {
            use_type_invariant(&self);
        }
        let mut model = self;
        model.allowed_rotations = RotationSet {
            rot0: true,
            rot90: true,
            rot180: true,
            rot270: true,
        };
        model
    }

    /// Lets the model only be put down as it is.
    pub fn with_no_rotations(self) -> (model: Self)
        ensures
            forall|r: NodeRotation| model.allows(r) <==> r == NodeRotation::Rot0,
            model.faces() == self.faces(),
            model.spec_weight() == self.spec_weight(),
            model.spec_name() == self.spec_name(),
    {
        proof {
            use_type_invariant(&self);
        }
        let mut model = self;
        model.allowed_rotations = RotationSet::only_rot0();
        model
    }

    /// Gives the model the weight `weight`, which all its rotations share.
    pub fn with_weight(self, weight: u32) -> (model: Self)
        ensures
            model.spec_weight() == weight,
            model.faces() == self.faces(),
            model.spec_name() == self.spec_name(),
            forall|r: NodeRotation| model.allows(r) <==> self.allows(r),
    {
        proof {
            use_type_invariant(&self);
        }
        let mut model = self;
        model.weight = weight;
        model
    }

    /// Gives the model the name `name`.
    pub fn with_name(self, name: &'static str) -> (model: Self)
        ensures
            model.spec_name() == Some(name),
            model.faces() == self.faces(),
            model.spec_weight() == self.spec_weight(),
            forall|r: NodeRotation| model.allows(r) <==> self.allows(r),
    {
        proof {
            use_type_invariant(&self);
        }
        let mut model = self;
        model.name = Some(name);
        model
    }

    fn rotated_sockets(&self, rotation: NodeRotation, rot_axis: Direction) -> (rotated: Vec<
        Vec<Socket>,
    >)
        requires
            axis_fits(T::system().spec_directions_count(), rot_axis),
        ensures
            lists_view(rotated@) == rotated_faces(self.faces(), rotation, rot_axis),
            rotated@.len() == T::system().spec_directions_count(),
    {
        proof {
            use_type_invariant(self);
        }
        let basis = rot_axis.rotation_basis();
        let axis_face = rot_axis.index();
        let opposite_face = rot_axis.opposite().index();
        let turns = rotation.index() as usize;
        let mut rotated: Vec<Vec<Socket>> = Vec::new();
        let mut face: usize = 0;
        while face < self.sockets.len()
            invariant
                face <= self.sockets.len(),
                self.sockets@.len() == T::system().spec_directions_count(),
                axis_fits(T::system().spec_directions_count(), rot_axis),
                basis@ == rot_axis.spec_rotation_basis(),
                axis_face == rot_axis.spec_index(),
                opposite_face == rot_axis.spec_opposite().spec_index(),
                turns == rotation.quarter_turns(),
                rotated@.len() == face,
                forall|f: int|
                    0 <= f < face ==> (#[trigger] rotated@[f])@ == rotated_face(
                        self.faces(),
                        rotation,
                        rot_axis,
                        f,
                    ),
            decreases self.sockets.len() - face,
        {
            if face == axis_face || face == opposite_face {
                rotated.push(rotate_all(&self.sockets[face], rotation));
            } else {
                let mut position: usize = 3;
                if basis[0].index() == face {
                    position = 0;
                } else if basis[1].index() == face {
                    position = 1;
                } else if basis[2].index() == face {
                    position = 2;
                }
                let from = basis[(position + 4 - turns) % 4].index();
                assert(position == basis_position(rot_axis, face as int));
                assert((position + 4 - turns) % 4 == (position - turns) % 4);
                rotated.push(copy_sockets(&self.sockets[from]));
            }
            face += 1;
        }
        assert(lists_view(rotated@) =~= rotated_faces(self.faces(), rotation, rot_axis));
        rotated
    }
}

fn copy_sockets(list: &Vec<Socket>) -> (copy: Vec<Socket>)
    ensures
        copy@ == list@,
{
    let mut copy: Vec<Socket> = Vec::new();
    let mut i: usize = 0;
    while i < list.len()
        invariant
            i <= list.len(),
            copy@ == list@.take(i as int),
        decreases list.len() - i,
    {
        copy.push(list[i]);
        assert(copy@ =~= list@.take(i + 1));
        i += 1;
    }
    assert(list@.take(list.len() as int) =~= list@);
    copy
}

impl NodeModel<Cartesian2D> {
    /// A model with the sockets `sockets`, the weight [`WEIGHT_UNIT`], no
    /// name and no rotation but the one that leaves it as it is.
    pub fn new_cartesian_2d(sockets: SocketsCartesian2D) -> (model: NodeModel<Cartesian2D>)
        ensures
            model.faces() == sockets.faces(),
            model.spec_weight() == WEIGHT_UNIT,
            model.spec_name() == None::<&'static str>,
            forall|r: NodeRotation| model.allows(r) <==> r == NodeRotation::Rot0,
    {
        let faces = sockets.into();
        assert(faces@.len() == lists_view(faces@).len());
        Self {
            sockets: faces,
            allowed_rotations: RotationSet::only_rot0(),
            weight: WEIGHT_UNIT,
            name: None,
            typestate: PhantomData,
        }
    }

    /// The same model with its sockets rotated by `rotation` around the
    /// axis that leaves the plane of the grid.
    pub fn rotated(&self, rotation: NodeRotation) -> (model: Self)
        ensures
            model.faces() == rotated_faces(self.faces(), rotation, CARTESIAN_2D_ROTATION_AXIS),
            model.spec_weight() == self.spec_weight(),
            model.spec_name() == self.spec_name(),
            forall|r: NodeRotation| model.allows(r) <==> self.allows(r),
    {
        Self {
            sockets: self.rotated_sockets(rotation, CARTESIAN_2D_ROTATION_AXIS),
            weight: self.weight,
            allowed_rotations: self.allowed_rotations,
            name: self.name,
            typestate: PhantomData,
        }
    }
}

impl NodeModel<Cartesian3D> {
    /// A model with the sockets `sockets`, the weight [`WEIGHT_UNIT`], no
    /// name and no rotation but the one that leaves it as it is.
    pub fn new_cartesian_3d(sockets: SocketsCartesian3D) -> (model: NodeModel<Cartesian3D>)
        ensures
            model.faces() == sockets.faces(),
            model.spec_weight() == WEIGHT_UNIT,
            model.spec_name() == None::<&'static str>,
            forall|r: NodeRotation| model.allows(r) <==> r == NodeRotation::Rot0,
    {
        let faces = sockets.into();
        assert(faces@.len() == lists_view(faces@).len());
        Self {
            sockets: faces,
            allowed_rotations: RotationSet::only_rot0(),
            weight: WEIGHT_UNIT,
            name: None,
            typestate: PhantomData,
        }
    }

    /// The same model with its sockets rotated by `rotation` around `axis`.
    pub fn rotated(&self, rotation: NodeRotation, axis: Direction) -> (model: Self)
        ensures
            model.faces() == rotated_faces(self.faces(), rotation, axis),
            model.spec_weight() == self.spec_weight(),
            model.spec_name() == self.spec_name(),
            forall|r: NodeRotation| model.allows(r) <==> self.allows(r),
    {
        Self {
            sockets: self.rotated_sockets(rotation, axis),
            weight: self.weight,
            allowed_rotations: self.allowed_rotations,
            name: self.name,
            typestate: PhantomData,
        }
    }
}

/// What a variant is: a model in one of its rotations.
pub struct Variant {
    /// The identifiers of the sockets of each face, by direction.
    pub faces: Seq<Seq<u64>>,
    /// The weight of the model.
    pub weight: u32,
    /// Index of the model among the models given to the rules.
    pub original_index: usize,
    /// The rotation of the model.
    pub rotation: NodeRotation,
}

/// A model in one of its rotations, as the rules hold it.
#[derive(Debug)]
pub struct ExpandedNodeModel {
    /// The identifiers of the sockets of each face, by direction.
    sockets: Vec<Vec<SocketId>>,
    /// The weight of the model.
    weight: u32,
    /// Index of the model that this is a rotation of.
    original_index: ModelIndex,
    /// The rotation of the model.
    rotation: NodeRotation,
}

impl View for ExpandedNodeModel {
    type V = Variant;

    closed spec fn view(&self) -> Variant {
        Variant {
            faces: lists_view(self.sockets@),
            weight: self.weight,
            original_index: self.original_index,
            rotation: self.rotation,
        }
    }
}

impl ExpandedNodeModel {
    /// The identifiers of the sockets of each face, by direction.
    pub fn sockets(&self) -> (sockets: &Vec<Vec<SocketId>>)
        ensures
            lists_view(sockets@) == self@.faces,
    {
        &self.sockets
    }

    /// The weight of the model.
    pub fn weight(&self) -> (weight: u32)
        ensures
            weight == self@.weight,
    {
        self.weight
    }

    /// Index of the model that this is a rotation of.
    pub fn original_index(&self) -> (index: ModelIndex)
        ensures
            index == self@.original_index,
    {
        self.original_index
    }

    /// The rotation of the model.
    pub fn rotation(&self) -> (rotation: NodeRotation)
        ensures
            rotation == self@.rotation,
    {
        self.rotation
    }

    /// The model and rotation that this variant stands for.
    pub fn to_instance(&self) -> (instance: ModelInstance)
        ensures
            instance.model_index == self@.original_index,
            instance.rotation == self@.rotation,
    {
        ModelInstance { model_index: self.original_index, rotation: self.rotation }
    }
}

/// A model in one of its rotations.
#[derive(Clone, Copy, Debug, PartialEq, Eq, Structural)]
pub struct ModelInstance {
    /// Index of the model among the models given to the rules.
    pub model_index: ModelIndex,
    /// The rotation of the model.
    pub rotation: NodeRotation,
}

/// What the generator put into one cell of the grid.
#[derive(Clone, Copy, Debug, PartialEq, Eq, Structural)]
pub struct GridNode {
    /// Index of the cell in the grid.
    pub node_index: usize,
    /// The model in the cell, and its rotation.
    pub model_instance: ModelInstance,
}

/// Whether every variant has `faces` faces.
pub open spec fn faces_complete(variants: Seq<Variant>, faces: int) -> bool {
    forall|v: int| 0 <= v < variants.len() ==> (#[trigger] variants[v]).faces.len() == faces
}

/// The variants that `variants` holds, in the same order.
pub open spec fn variants_view(variants: Seq<ExpandedNodeModel>) -> Seq<Variant> {
    Seq::new(variants.len(), |i: int| variants[i]@)
}

/// The model `model`, which is the one at `index`, rotated by `rotation`
/// around `axis`.
pub open spec fn variant_of<T: DirectionSet>(
    model: NodeModel<T>,
    index: int,
    rotation: NodeRotation,
    axis: Direction,
) -> Variant {
    Variant {
        faces: faces_ids(rotated_faces(model.faces(), rotation, axis)),
        weight: model.spec_weight(),
        original_index: index as usize,
        rotation,
    }
}

/// The variants that the first `steps` pairs of a model and a rotation
/// give: pair `k` is the model `k / 4` and the rotation of `k % 4` quarter
/// turns, and it gives a variant where the model allows the rotation. So the
/// variants come model by model, and for each model by rotation.
pub open spec fn expansion<T: DirectionSet>(
    models: Seq<NodeModel<T>>,
    axis: Direction,
    steps: nat,
) -> Seq<Variant>
    decreases steps,
{
    if steps == 0 {
        Seq::empty()
    } else {
        let k = steps - 1;
        let before = expansion(models, axis, k as nat);
        let rotation = NodeRotation::from_quarter_turns(k % 4);
        if models[k / 4].allows(rotation) {
            before.push(variant_of(models[k / 4], k / 4, rotation, axis))
        } else {
            before
        }
    }
}

fn ids_of(faces: &Vec<Vec<Socket>>) -> (ids: Vec<Vec<SocketId>>)
    ensures
        lists_view(ids@) == faces_ids(lists_view(faces@)),
{
    let mut ids: Vec<Vec<SocketId>> = Vec::new();
    let mut f: usize = 0;
    while f < faces.len()
        invariant
            f <= faces.len(),
            ids@.len() == f,
            forall|g: int| 0 <= g < f ==> (#[trigger] ids@[g])@ == socket_ids(faces@[g]@),
        decreases faces.len() - f,
    {
        let mut list: Vec<SocketId> = Vec::new();
        let mut i: usize = 0;
        while i < faces[f].len()
            invariant
                f < faces.len(),
                i <= faces@[f as int].len(),
                list@ == socket_ids(faces@[f as int]@).take(i as int),
            decreases faces@[f as int].len() - i,
        {
            list.push(faces[f][i].id());
            assert(list@ =~= socket_ids(faces@[f as int]@).take(i + 1));
            i += 1;
        }
        assert(list@ =~= socket_ids(faces@[f as int]@));
        ids.push(list);
        f += 1;
    }
    assert(lists_view(ids@) =~= faces_ids(lists_view(faces@)));
    ids
}

/// Expands the models into their variants: for each model in turn, one for
/// each rotation that the model allows, from none to three quarter turns.
pub fn expand_models<T: DirectionSet>(models: Vec<NodeModel<T>>, rotation_axis: Direction) -> (
    expanded_models: Vec<ExpandedNodeModel>
)
    requires
        axis_fits(T::system().spec_directions_count(), rotation_axis),
    ensures
        variants_view(expanded_models@) == expansion(
            models@,
            rotation_axis,
            (4 * models@.len()) as nat,
        ),
        faces_complete(variants_view(expanded_models@), T::system().spec_directions_count()),
{
    let mut expanded_models: Vec<ExpandedNodeModel> = Vec::new();
    let mut index: usize = 0;
    while index < models.len()
        invariant
            index <= models.len(),
            axis_fits(T::system().spec_directions_count(), rotation_axis),
            faces_complete(variants_view(expanded_models@), T::system().spec_directions_count()),
            variants_view(expanded_models@) == expansion(
                models@,
                rotation_axis,
                (4 * index) as nat,
            ),
        decreases models.len() - index,
    {
        let mut turns: u8 = 0;
        while turns < 4
            invariant
                index < models.len(),
                turns <= 4,
                axis_fits(T::system().spec_directions_count(), rotation_axis),
                faces_complete(
                    variants_view(expanded_models@),
                    T::system().spec_directions_count(),
                ),
                variants_view(expanded_models@) == expansion(
                    models@,
                    rotation_axis,
                    (4 * index + turns) as nat,
                ),
            decreases 4 - turns,
        {
            let rotation = NodeRotation::from_index(turns);
            let ghost before = variants_view(expanded_models@);
            if models[index].allowed_rotations.contains(rotation) {
                let rotated_sockets = models[index].rotated_sockets(rotation, rotation_axis);
                let ids = ids_of(&rotated_sockets);
                assert(ids@.len() == lists_view(ids@).len());
                assert(rotated_sockets@.len() == lists_view(rotated_sockets@).len());
                let expanded = ExpandedNodeModel {
                    sockets: ids,
                    weight: models[index].weight,
                    original_index: index,
                    rotation,
                };
                assert(expanded@ == variant_of(
                    models@[index as int],
                    index as int,
                    rotation,
                    rotation_axis,
                ));
                expanded_models.push(expanded);
                assert(variants_view(expanded_models@) =~= before.push(expanded@));
            }
            assert((4 * index + turns) / 4 == index && (4 * index + turns) % 4 == turns);
            turns += 1;
        }
        index += 1;
    }
    expanded_models
}

} // verus!
