use ghx_proc_gen::generator::node::expand_models;
use ghx_proc_gen::generator::node::GridNode;
use ghx_proc_gen::generator::node::ModelInstance;
use ghx_proc_gen::generator::node::NodeModel;
use ghx_proc_gen::generator::node::SocketsCartesian2D;
use ghx_proc_gen::generator::node::SocketsCartesian3D;
use ghx_proc_gen::generator::node::WEIGHT_UNIT;
use ghx_proc_gen::generator::rotation::NodeRotation;
use ghx_proc_gen::generator::rotation::ALL_NODE_ROTATIONS;
use ghx_proc_gen::generator::socket::Socket;
use ghx_proc_gen::generator::socket::SocketCollection;
use ghx_proc_gen::grid::direction::Cartesian2D;
use ghx_proc_gen::grid::direction::Cartesian3D;
use ghx_proc_gen::grid::direction::Direction;
use ghx_proc_gen::grid::direction::CARTESIAN_2D_ROTATION_AXIS;

fn four_sockets() -> (SocketCollection, Vec<Socket>) {
    let mut sockets = SocketCollection::new();
    let mut made = Vec::new();
    for _ in 0..4 {
        made.push(sockets.create());
    }
    (sockets, made)
}

#[test]
fn rotation_values_are_degrees() {
    assert_eq!(NodeRotation::Rot0.value(), 0);
    assert_eq!(NodeRotation::Rot90.value(), 90);
    assert_eq!(NodeRotation::Rot180.value(), 180);
    assert_eq!(NodeRotation::Rot270.value(), 270);
}

#[test]
fn rotation_indices_follow_the_list() {
    for (i, rotation) in ALL_NODE_ROTATIONS.iter().enumerate() {
        assert_eq!(rotation.index() as usize, i);
        assert_eq!(NodeRotation::from_index(i as u8), *rotation);
    }
    assert_eq!(NodeRotation::from_index(7), NodeRotation::Rot270);
}

#[test]
fn rotations_add_modulo_four() {
    assert_eq!(NodeRotation::Rot90.rotated(NodeRotation::Rot90), NodeRotation::Rot180);
    assert_eq!(NodeRotation::Rot270.rotated(NodeRotation::Rot180), NodeRotation::Rot90);
    assert_eq!(NodeRotation::Rot180.rotated(NodeRotation::Rot0), NodeRotation::Rot180);
    assert_eq!(NodeRotation::Rot270.next(), NodeRotation::Rot0);
    let mut rotation = NodeRotation::Rot180;
    rotation.rotate(NodeRotation::Rot270);
    assert_eq!(rotation, NodeRotation::Rot90);
}

#[test]
fn four_quarter_turns_are_the_identity() {
    for start in ALL_NODE_ROTATIONS.iter() {
        let mut rotation = *start;
        for _ in 0..4 {
            rotation = rotation.rotated(NodeRotation::Rot90);
        }
        assert_eq!(rotation, *start);
        for a in ALL_NODE_ROTATIONS.iter() {
            for b in ALL_NODE_ROTATIONS.iter() {
                assert_eq!(start.rotated(*a).rotated(*b), start.rotated(a.rotated(*b)));
            }
        }
    }
}

#[test]
fn socket_ids_hold_index_and_rotation() {
    let (_, made) = four_sockets();
    assert_eq!(made[0].id(), 0);
    assert_eq!(made[3].id(), 3);
    assert_eq!(made[3].rotated(NodeRotation::Rot90).id(), 3 + (1u64 << 32));
    assert_eq!(made[2].rotated(NodeRotation::Rot270).id(), 2 + (3u64 << 32));
    let mut socket = made[1];
    socket.rotate(NodeRotation::Rot180);
    assert_eq!(socket.id(), 1 + (2u64 << 32));
    assert_ne!(socket, made[1]);
}

#[test]
fn four_quarter_turns_give_a_socket_back() {
    let (_, made) = four_sockets();
    let mut socket = made[2];
    for _ in 0..4 {
        socket = socket.rotated(NodeRotation::Rot90);
    }
    assert_eq!(socket, made[2]);
    assert_eq!(socket.id(), made[2].id());
}

#[test]
fn sockets_of_two_dimensions_go_by_direction() {
    let (_, s) = four_sockets();
    let mono = SocketsCartesian2D::Mono(s[0]).into();
    assert_eq!(mono, vec![vec![s[0]], vec![s[0]], vec![s[0]], vec![s[0]]]);
    let simple = SocketsCartesian2D::Simple { x_pos: s[0], x_neg: s[1], y_pos: s[2], y_neg: s[3] }
        .into();
    assert_eq!(simple, vec![vec![s[0]], vec![s[2]], vec![s[1]], vec![s[3]]]);
    let multiple = SocketsCartesian2D::Multiple {
        x_pos: vec![s[0], s[1]],
        x_neg: vec![],
        y_pos: vec![s[2]],
        y_neg: vec![s[3], s[0]],
    }
    .into();
    assert_eq!(multiple, vec![vec![s[0], s[1]], vec![s[2]], vec![], vec![s[3], s[0]]]);
}

#[test]
fn sockets_of_three_dimensions_go_by_direction() {
    let mut sockets = SocketCollection::new();
    let s: Vec<Socket> = (0..6).map(|_| sockets.create()).collect();
    let mono = SocketsCartesian3D::Mono(s[5]).into();
    assert_eq!(mono.len(), 6);
    assert!(mono.iter().all(|face| face == &vec![s[5]]));
    let simple = SocketsCartesian3D::Simple {
        x_pos: s[0],
        x_neg: s[1],
        z_pos: s[2],
        z_neg: s[3],
        y_pos: s[4],
        y_neg: s[5],
    }
    .into();
    assert_eq!(
        simple,
        vec![vec![s[0]], vec![s[4]], vec![s[1]], vec![s[5]], vec![s[2]], vec![s[3]]]
    );
    let multiple = SocketsCartesian3D::Multiple {
        x_pos: vec![s[0]],
        x_neg: vec![s[1]],
        z_pos: vec![s[2], s[3]],
        z_neg: vec![],
        y_pos: vec![s[4]],
        y_neg: vec![s[5]],
    }
    .into();
    assert_eq!(
        multiple,
        vec![vec![s[0]], vec![s[4]], vec![s[1]], vec![s[5]], vec![s[2], s[3]], vec![]]
    );
}

fn ids_of_variant(model: NodeModel<Cartesian2D>) -> Vec<Vec<u64>> {
    let expanded = expand_models(vec![model], CARTESIAN_2D_ROTATION_AXIS);
    assert_eq!(expanded.len(), 1);
    expanded[0].sockets().clone()
}

#[test]
fn a_quarter_turn_shifts_the_faces_of_the_plane() {
    let (_, s) = four_sockets();
    // east, north, west, south
    let model = SocketsCartesian2D::Simple { x_pos: s[0], y_pos: s[1], x_neg: s[2], y_neg: s[3] }
        .new_model();
    let turned = model.rotated(NodeRotation::Rot90);
    // each face takes the sockets of the face one place before it
    assert_eq!(
        ids_of_variant(turned),
        vec![vec![s[3].id()], vec![s[0].id()], vec![s[1].id()], vec![s[2].id()]]
    );
    let half = model.rotated(NodeRotation::Rot180);
    assert_eq!(
        ids_of_variant(half),
        vec![vec![s[2].id()], vec![s[3].id()], vec![s[0].id()], vec![s[1].id()]]
    );
}

#[test]
fn four_quarter_turns_give_a_model_its_faces_back() {
    let (_, s) = four_sockets();
    let model = SocketsCartesian2D::Simple { x_pos: s[0], y_pos: s[1], x_neg: s[2], y_neg: s[3] }
        .new_model();
    let mut turned = model.rotated(NodeRotation::Rot0);
    for _ in 0..4 {
        turned = turned.rotated(NodeRotation::Rot90);
    }
    assert_eq!(ids_of_variant(turned), ids_of_variant(model));
}

#[test]
fn rotations_of_the_faces_compose() {
    let mut sockets = SocketCollection::new();
    let s: Vec<Socket> = (0..6).map(|_| sockets.create()).collect();
    let axes = [
        Direction::XForward,
        Direction::XBackward,
        Direction::YForward,
        Direction::YBackward,
        Direction::ZForward,
        Direction::ZBackward,
    ];
    for axis in axes.iter() {
        for a in ALL_NODE_ROTATIONS.iter() {
            for b in ALL_NODE_ROTATIONS.iter() {
                let model = SocketsCartesian3D::Simple {
                    x_pos: s[0],
                    x_neg: s[1],
                    z_pos: s[2],
                    z_neg: s[3],
                    y_pos: s[4],
                    y_neg: s[5],
                }
                .new_model();
                let twice = model.rotated(*a, *axis).rotated(*b, *axis);
                let once = model.rotated(a.rotated(*b), *axis);
                let left = expand_models(vec![twice], *axis);
                let right = expand_models(vec![once], *axis);
                assert_eq!(left[0].sockets(), right[0].sockets());
            }
        }
    }
}

#[test]
fn the_faces_on_the_axis_keep_their_place_and_turn_their_sockets() {
    let mut sockets = SocketCollection::new();
    let s: Vec<Socket> = (0..6).map(|_| sockets.create()).collect();
    let model: NodeModel<Cartesian3D> = SocketsCartesian3D::Simple {
        x_pos: s[0],
        x_neg: s[1],
        z_pos: s[2],
        z_neg: s[3],
        y_pos: s[4],
        y_neg: s[5],
    }
    .new_model();
    let turned = model.rotated(NodeRotation::Rot90, Direction::YForward);
    let expanded = expand_models(vec![turned], Direction::YForward);
    let faces = expanded[0].sockets();
    // the top and the bottom stay, with their sockets turned
    assert_eq!(faces[1], vec![s[4].rotated(NodeRotation::Rot90).id()]);
    assert_eq!(faces[3], vec![s[5].rotated(NodeRotation::Rot90).id()]);
    // around y the basis is z+, x+, z-, x-: each takes from the one before
    assert_eq!(faces[Direction::ZForward.index()], vec![s[1].id()]);
    assert_eq!(faces[Direction::XForward.index()], vec![s[2].id()]);
    assert_eq!(faces[Direction::ZBackward.index()], vec![s[0].id()]);
    assert_eq!(faces[Direction::XBackward.index()], vec![s[3].id()]);
}

#[test]
fn models_expand_by_model_and_then_by_rotation() {
    let (_, s) = four_sockets();
    let models = vec![
        SocketsCartesian2D::Mono(s[0]).new_model().with_weight(7),
        SocketsCartesian2D::Mono(s[1]).new_model().with_all_rotations(),
        SocketsCartesian2D::Mono(s[2]).new_model().with_rotation(NodeRotation::Rot180),
        SocketsCartesian2D::Mono(s[3])
            .new_model()
            .with_rotations(vec![NodeRotation::Rot270, NodeRotation::Rot90])
            .with_name("last"),
    ];
    let expanded = expand_models(models, CARTESIAN_2D_ROTATION_AXIS);
    let found: Vec<(usize, NodeRotation)> =
        expanded.iter().map(|e| (e.original_index(), e.rotation())).collect();
    assert_eq!(
        found,
        vec![
            (0, NodeRotation::Rot0),
            (1, NodeRotation::Rot0),
            (1, NodeRotation::Rot90),
            (1, NodeRotation::Rot180),
            (1, NodeRotation::Rot270),
            (2, NodeRotation::Rot0),
            (2, NodeRotation::Rot180),
            (3, NodeRotation::Rot0),
            (3, NodeRotation::Rot90),
            (3, NodeRotation::Rot270),
        ]
    );
    assert_eq!(expanded[0].weight(), 7);
    assert_eq!(expanded[1].weight(), WEIGHT_UNIT);
    assert_eq!(
        expanded[6].to_instance(),
        ModelInstance { model_index: 2, rotation: NodeRotation::Rot180 }
    );
}

#[test]
fn no_rotations_leaves_only_the_model_itself() {
    let (_, s) = four_sockets();
    let models = vec![SocketsCartesian2D::Mono(s[0])
        .new_model()
        .with_all_rotations()
        .with_no_rotations()];
    let expanded = expand_models(models, CARTESIAN_2D_ROTATION_AXIS);
    assert_eq!(expanded.len(), 1);
    assert_eq!(expanded[0].rotation(), NodeRotation::Rot0);
}

#[test]
fn no_models_expand_to_nothing() {
    let models: Vec<NodeModel<Cartesian2D>> = Vec::new();
    assert!(expand_models(models, CARTESIAN_2D_ROTATION_AXIS).is_empty());
}

#[test]
fn grid_nodes_compare_by_their_fields() {
    let instance = ModelInstance { model_index: 4, rotation: NodeRotation::Rot90 };
    let node = GridNode { node_index: 9, model_instance: instance };
    assert_eq!(node, GridNode { node_index: 9, model_instance: instance });
    assert_ne!(node, GridNode { node_index: 8, model_instance: instance });
}
