use ghx_proc_gen::generator::rotation::NodeRotation;
use ghx_proc_gen::generator::socket::Socket;
use ghx_proc_gen::generator::socket::SocketCollection;

fn compatibles(sockets: &SocketCollection, socket: Socket) -> Vec<u64> {
    match sockets.get_compatibles(socket.id()) {
        Some(list) => list.clone(),
        None => Vec::new(),
    }
}

#[test]
fn a_new_collection_is_empty() {
    let mut sockets = SocketCollection::new();
    assert!(sockets.is_empty());
    let first = sockets.create();
    assert!(!sockets.is_empty());
    assert_eq!(first.id(), 0);
    assert_eq!(sockets.create().id(), 1);
    assert!(sockets.get_compatibles(first.id()).is_none());
}

#[test]
fn a_connection_goes_both_ways() {
    let mut sockets = SocketCollection::new();
    let a = sockets.create();
    let b = sockets.create();
    let c = sockets.create();
    sockets.add_connection(a, vec![b, c]);
    assert_eq!(compatibles(&sockets, a), vec![b.id(), c.id()]);
    assert_eq!(compatibles(&sockets, b), vec![a.id()]);
    assert_eq!(compatibles(&sockets, c), vec![a.id()]);
}

#[test]
fn a_connection_is_recorded_once_and_in_order() {
    let mut sockets = SocketCollection::new();
    let a = sockets.create();
    let b = sockets.create();
    let c = sockets.create();
    sockets.add_connection(a, vec![c]).add_connection(a, vec![b, c]).add_connection(b, vec![a]);
    assert_eq!(compatibles(&sockets, a), vec![c.id(), b.id()]);
    assert_eq!(compatibles(&sockets, b), vec![a.id()]);
    assert_eq!(compatibles(&sockets, c), vec![a.id()]);
}

#[test]
fn a_socket_may_accept_itself() {
    let mut sockets = SocketCollection::new();
    let a = sockets.create();
    sockets.add_connection(a, vec![a]);
    assert_eq!(compatibles(&sockets, a), vec![a.id()]);
}

#[test]
fn connections_are_added_group_by_group() {
    let mut sockets = SocketCollection::new();
    let a = sockets.create();
    let b = sockets.create();
    let c = sockets.create();
    sockets.add_connections(vec![(a, vec![b]), (c, vec![a, c]), (b, vec![])]);
    assert_eq!(compatibles(&sockets, a), vec![b.id(), c.id()]);
    assert_eq!(compatibles(&sockets, b), vec![a.id()]);
    assert_eq!(compatibles(&sockets, c), vec![a.id(), c.id()]);
}

#[test]
fn compatibility_is_symmetric() {
    let mut sockets = SocketCollection::new();
    let made: Vec<Socket> = (0..5).map(|_| sockets.create()).collect();
    sockets
        .add_connection(made[0], vec![made[1], made[2]])
        .add_rotated_connection(made[3], vec![made[4], made[0]])
        .add_constrained_rotated_connection(made[2], vec![NodeRotation::Rot90], vec![made[4]]);
    let mut all = Vec::new();
    for socket in made.iter() {
        for turns in 0..4u8 {
            all.push(socket.rotated(NodeRotation::from_index(turns)));
        }
    }
    for a in all.iter() {
        for b in all.iter() {
            let forth = compatibles(&sockets, *a).contains(&b.id());
            let back = compatibles(&sockets, *b).contains(&a.id());
            assert_eq!(forth, back);
        }
    }
}

#[test]
fn a_rotated_connection_joins_every_rotation_to_every_rotation() {
    let mut sockets = SocketCollection::new();
    let a = sockets.create();
    let b = sockets.create();
    sockets.add_rotated_connection(a, vec![b]);
    for from in 0..4u8 {
        let list = compatibles(&sockets, a.rotated(NodeRotation::from_index(from)));
        // the rotations of the other socket come in the order 0, 90, 180, 270
        let expected: Vec<u64> =
            (0..4u8).map(|to| b.rotated(NodeRotation::from_index(to)).id()).collect();
        assert_eq!(list, expected);
    }
    for to in 0..4u8 {
        let list = compatibles(&sockets, b.rotated(NodeRotation::from_index(to)));
        let expected: Vec<u64> =
            (0..4u8).map(|from| a.rotated(NodeRotation::from_index(from)).id()).collect();
        assert_eq!(list, expected);
    }
}

#[test]
fn a_constrained_connection_keeps_the_difference_of_rotations() {
    let mut sockets = SocketCollection::new();
    let a = sockets.create();
    let b = sockets.create();
    sockets.add_constrained_rotated_connection(
        a,
        vec![NodeRotation::Rot180, NodeRotation::Rot270],
        vec![b],
    );
    for turns in 0..4u8 {
        let to = b.rotated(NodeRotation::from_index(turns));
        let list = compatibles(&sockets, to);
        let expected = vec![
            a.rotated(NodeRotation::from_index(turns + 2)).id(),
            a.rotated(NodeRotation::from_index(turns + 3)).id(),
        ];
        assert_eq!(list, expected);
    }
    // a at no rotation goes with b turned by 180 (difference 180) and by 90 (difference 270)
    assert_eq!(
        compatibles(&sockets, a),
        vec![b.rotated(NodeRotation::Rot90).id(), b.rotated(NodeRotation::Rot180).id()]
    );
}
