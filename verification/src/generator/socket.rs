use crate::generator::rotation::NodeRotation;
use std::collections::HashMap;
use std::collections::HashSet;
use vstd::prelude::*;

verus! {

/// Identifier of a connection type: the socket's index, and its rotation
/// above the thirty-second bit.
pub type SocketId = u64;

/// A connection type that a model shows on one of its faces.
#[derive(Clone, Copy, Debug, PartialEq, Eq, Structural)]
pub struct Socket {
    socket_index: u32,
    rot: NodeRotation,
}

impl Socket {
    /// The index that the collection gave to the socket.
    pub closed spec fn spec_index(self) -> u32 {
        self.socket_index
    }

    /// The rotation that the socket carries.
    pub closed spec fn rotation(self) -> NodeRotation {
        self.rot
    }

    /// The socket's identifier.
    pub open spec fn spec_id(self) -> u64 {
        (self.spec_index() + self.rotation().quarter_turns() * 0x1_0000_0000) as u64
    }

    /// The same socket, rotated further by `rotation`.
    pub closed spec fn rotated_by(self, rotation: NodeRotation) -> Socket {
        Socket { socket_index: self.socket_index, rot: self.rot.rotated_by(rotation) }
    }

    pub(crate) fn new(socket_index: u32) -> (s: Socket)
        ensures
            s.spec_index() == socket_index,
            s.rotation() == NodeRotation::Rot0,
    {
        Socket { socket_index, rot: NodeRotation::Rot0 }
    }

    /// The socket's identifier.
    pub fn id(&self) -> (id: SocketId)
        ensures
            id == self.spec_id(),
    {
        self.socket_index as u64 + (self.rot.index() as u64) * 0x1_0000_0000
    }

    /// The same socket, rotated further by `rotation`.
    pub fn rotated(&self, rotation: NodeRotation) -> (s: Socket)
        ensures
            s == self.rotated_by(rotation),
    {
        Socket { socket_index: self.socket_index, rot: self.rot.rotated(rotation) }
    }

    /// Rotates the socket further by `rotation`.
    pub fn rotate(&mut self, rotation: NodeRotation)
        ensures
            *final(self) == old(self).rotated_by(rotation),
    {
        self.rot.rotate(rotation);
    }
}

/// A rotated socket keeps its index and adds the rotation to its own; two
/// sockets with the same index and rotation are the same socket, and so are
/// two sockets with the same identifier.
pub proof fn lemma_socket_rotated(s: Socket, t: Socket, rotation: NodeRotation)
    ensures
        s.rotated_by(rotation).spec_index() == s.spec_index(),
        s.rotated_by(rotation).rotation() == s.rotation().rotated_by(rotation),
        (s.spec_index() == t.spec_index() && s.rotation() == t.rotation()) <==> s == t,
        s.spec_id() == t.spec_id() <==> s == t,
{
}

/// Rotations of a socket compose as rotations do: in particular four
/// quarter turns give the socket back.
pub proof fn lemma_socket_rotations_compose(s: Socket, a: NodeRotation, b: NodeRotation)
    ensures
        s.rotated_by(a).rotated_by(b) == s.rotated_by(a.rotated_by(b)),
        s.rotated_by(NodeRotation::Rot0) == s,
        s.rotated_by(NodeRotation::Rot90).rotated_by(NodeRotation::Rot90).rotated_by(
            NodeRotation::Rot90,
        ).rotated_by(NodeRotation::Rot90) == s,
{
}

/// The identifiers of `sockets`, in the same order.
pub open spec fn socket_ids(sockets: Seq<Socket>) -> Seq<u64> {
    Seq::new(sockets.len(), |i: int| sockets[i].spec_id())
}

/// `sockets`, each rotated by `rotation`.
pub open spec fn rotated_sockets(sockets: Seq<Socket>, rotation: NodeRotation) -> Seq<Socket> {
    Seq::new(sockets.len(), |i: int| sockets[i].rotated_by(rotation))
}

/// Whether `b` is in the compatibility list of `a`.
pub open spec fn compatible(m: Map<u64, Seq<u64>>, a: u64, b: u64) -> bool {
    m.contains_key(a) && m[a].contains(b)
}

/// Whether compatibility goes both ways.
pub open spec fn symmetric(m: Map<u64, Seq<u64>>) -> bool {
    forall|a: u64, b: u64| #[trigger] compatible(m, a, b) ==> compatible(m, b, a)
}

/// Whether no list names a socket twice.
pub open spec fn duplicate_free(m: Map<u64, Seq<u64>>) -> bool {
    forall|a: u64| #[trigger] m.contains_key(a) ==> m[a].no_duplicates()
}

/// `m` with `b` at the end of the list of `a`, unless it is in that list already.
pub open spec fn push_unique(m: Map<u64, Seq<u64>>, a: u64, b: u64) -> Map<u64, Seq<u64>> {
    if compatible(m, a, b) {
        m
    } else if m.contains_key(a) {
        m.insert(a, m[a].push(b))
    } else {
        m.insert(a, seq![b])
    }
}

/// `m` with `a` and `b` made compatible with each other.
pub open spec fn connect(m: Map<u64, Seq<u64>>, a: u64, b: u64) -> Map<u64, Seq<u64>> {
    push_unique(push_unique(m, a, b), b, a)
}

/// `m` with `a` connected to each of `to`, from the first to the last.
pub open spec fn connect_list(m: Map<u64, Seq<u64>>, a: u64, to: Seq<u64>) -> Map<u64, Seq<u64>>
    decreases to.len(),
{
    if to.len() == 0 {
        m
    } else {
        connect(connect_list(m, a, to.drop_last()), a, to.last())
    }
}

/// `m` after the first `count` of `connections`: each connects a socket to a list.
pub open spec fn connect_groups(
    m: Map<u64, Seq<u64>>,
    connections: Seq<(Socket, Vec<Socket>)>,
    count: nat,
) -> Map<u64, Seq<u64>>
    decreases count,
{
    if count == 0 {
        m
    } else {
        connect_list(
            connect_groups(m, connections, (count - 1) as nat),
            connections[count - 1].0.spec_id(),
            socket_ids(connections[count - 1].1@),
        )
    }
}

/// `m` after the first `steps` of the sixteen steps that connect every
/// rotation of `from` to every rotation of `to`: step `k` connects `from`
/// rotated by `k % 4` quarter turns to `to` rotated by `k / 4`.
pub open spec fn connect_rotated(
    m: Map<u64, Seq<u64>>,
    from: Socket,
    to: Seq<Socket>,
    steps: nat,
) -> Map<u64, Seq<u64>>
    decreases steps,
{
    if steps == 0 {
        m
    } else {
        let k = steps - 1;
        connect_list(
            connect_rotated(m, from, to, k as nat),
            from.rotated_by(NodeRotation::from_quarter_turns(k % 4)).spec_id(),
            socket_ids(rotated_sockets(to, NodeRotation::from_quarter_turns(k / 4))),
        )
    }
}

/// `m` after `from`, rotated by `turn` and by each of the first `count` of
/// `deltas` in turn, was connected to `to`.
pub open spec fn connect_deltas(
    m: Map<u64, Seq<u64>>,
    from: Socket,
    deltas: Seq<NodeRotation>,
    turn: NodeRotation,
    to: Seq<u64>,
    count: nat,
) -> Map<u64, Seq<u64>>
    decreases count,
{
    if count == 0 {
        m
    } else {
        connect_list(
            connect_deltas(m, from, deltas, turn, to, (count - 1) as nat),
            from.rotated_by(deltas[count - 1].rotated_by(turn)).spec_id(),
            to,
        )
    }
}

/// `m` after the first `turns` rotations of `to`: to `to` rotated by `t`
/// quarter turns is connected `from` rotated by each of `deltas` and `t`.
pub open spec fn connect_constrained(
    m: Map<u64, Seq<u64>>,
    from: Socket,
    deltas: Seq<NodeRotation>,
    to: Seq<Socket>,
    turns: nat,
) -> Map<u64, Seq<u64>>
    decreases turns,
{
    if turns == 0 {
        m
    } else {
        let turn = NodeRotation::from_quarter_turns(turns - 1);
        connect_deltas(
            connect_constrained(m, from, deltas, to, (turns - 1) as nat),
            from,
            deltas,
            turn,
            socket_ids(rotated_sockets(to, turn)),
            deltas.len(),
        )
    }
}

/// One number for an ordered pair of identifiers.
pub open spec fn pair_key(a: u64, b: u64) -> u128 {
    (a * 0x1_0000_0000_0000_0000 + b) as u128
}

/// After `push_unique`, the compatible pairs are the old ones and `(a, b)`.
pub proof fn lemma_push_unique(m: Map<u64, Seq<u64>>, a: u64, b: u64)
    ensures
        forall|x: u64, y: u64|
            #[trigger] compatible(push_unique(m, a, b), x, y) <==> (compatible(m, x, y) || (x == a
                && y == b)),
        duplicate_free(m) ==> duplicate_free(push_unique(m, a, b)),
        forall|x: u64| m.contains_key(x) ==> #[trigger] push_unique(m, a, b).contains_key(x),
{
    let r = push_unique(m, a, b);
    broadcast use vstd::seq_lib::lemma_seq_contains_after_push;

    if !compatible(m, a, b) && !m.contains_key(a) {
        assert(seq![b].contains(b)) by {
            assert(seq![b][0] == b);
        }
        assert(forall|y: u64| seq![b].contains(y) ==> y == b);
    }
    assert forall|x: u64, y: u64|
        #[trigger] compatible(r, x, y) <==> (compatible(m, x, y) || (x == a && y == b)) by {}
    if duplicate_free(m) {
        assert forall|x: u64| #[trigger] r.contains_key(x) implies r[x].no_duplicates() by {
            if x == a && !compatible(m, a, b) {
                if m.contains_key(a) {
                    let s = m[a];
                    assert(s.no_duplicates());
                    assert forall|i: int, j: int|
                        0 <= i < s.push(b).len() && 0 <= j < s.push(b).len() && i != j implies s.push(
                        b,
                    )[i] != s.push(b)[j] by {
                        if i < s.len() && j < s.len() {
                        } else if i < s.len() {
                            assert(s.contains(s[i]));
                        } else {
                            assert(s.contains(s[j]));
                        }
                    }
                }
            } else {
                assert(m.contains_key(x));
            }
        }
    }
}

/// Connecting two sockets keeps the relation symmetric and the lists free of
/// duplicates, and adds the two pairs and no other.
pub proof fn lemma_connect(m: Map<u64, Seq<u64>>, a: u64, b: u64)
    ensures
        forall|x: u64, y: u64|
            #[trigger] compatible(connect(m, a, b), x, y) <==> (compatible(m, x, y) || (x == a && y
                == b) || (x == b && y == a)),
        duplicate_free(m) ==> duplicate_free(connect(m, a, b)),
        symmetric(m) ==> symmetric(connect(m, a, b)),
        forall|x: u64| m.contains_key(x) ==> #[trigger] connect(m, a, b).contains_key(x),
{
    lemma_push_unique(m, a, b);
    lemma_push_unique(push_unique(m, a, b), b, a);
}

/// The author's registry of sockets: it hands out sockets and records which
/// of them may face each other.
pub struct SocketCollection {
    incremental_socket_index: u32,
    /// The pairs that `compatibles` holds, to find duplicates.
    uniques: HashSet<u128>,
    /// For each socket the sockets that it accepts, in the order in which
    /// they were declared.
    compatibles: HashMap<SocketId, Vec<SocketId>>,
}

impl View for SocketCollection {
    type V = Map<u64, Seq<u64>>;

    /// The compatibility lists, by identifier.
    closed spec fn view(&self) -> Map<u64, Seq<u64>> {
        self.compatibles@.map_values(|l: Vec<u64>| l@)
    }
}

impl SocketCollection {
    /// Number of sockets created so far.
    pub closed spec fn count(self) -> nat {
        self.incremental_socket_index as nat
    }

    /// The set of pairs agrees with the lists.
    pub closed spec fn pairs_recorded(self) -> bool {
        forall|a: u64, b: u64|
            self.uniques@.contains(#[trigger] pair_key(a, b)) <==> compatible(self@, a, b)
    }

    /// The collection's invariant: no list holds a socket twice, and
    /// compatibility goes both ways.
    pub open spec fn wf(self) -> bool {
        &&& self.pairs_recorded()
        &&& duplicate_free(self@)
        &&& symmetric(self@)
    }

    /// An empty collection.
    pub fn new() -> (c: Self)
        ensures
            c.wf(),
            c@ == Map::<u64, Seq<u64>>::empty(),
            c.count() == 0,
    {
        let c = Self {
            incremental_socket_index: 0,
            uniques: HashSet::new(),
            compatibles: HashMap::new(),
        };
        assert(c@ =~= Map::<u64, Seq<u64>>::empty());
        c
    }

    /// Creates a new socket, unlike any that the collection created before.
    pub fn create(&mut self) -> (socket: Socket)
        requires
            old(self).count() < u32::MAX,
        ensures
            socket.spec_index() == old(self).count(),
            socket.rotation() == NodeRotation::Rot0,
            final(self).count() == old(self).count() + 1,
            final(self)@ == old(self)@,
            old(self).wf() ==> final(self).wf(),
    {
        let socket = Socket::new(self.incremental_socket_index);
        self.incremental_socket_index += 1;
        socket
    }

    /// Makes `from` compatible with each socket of `to`, and each of them
    /// with `from`.
    pub fn add_connection(&mut self, from: Socket, to: Vec<Socket>) -> (collection: &mut Self)
        requires
            old(self).wf(),
        ensures
            collection@ == connect_list(old(self)@, from.spec_id(), socket_ids(to@)),
            collection.count() == old(self).count(),
            collection.wf(),
            *final(self) == *final(collection),
    {
        self.register_connections(&from, &to);
        self
    }

    /// Makes the first socket of each pair compatible with each socket of
    /// the pair's list, one pair after the other.
    pub fn add_connections(&mut self, connections: Vec<(Socket, Vec<Socket>)>) -> (collection:
        &mut Self)
        requires
            old(self).wf(),
        ensures
            collection@ == connect_groups(old(self)@, connections@, connections@.len()),
            collection.count() == old(self).count(),
            collection.wf(),
            *final(self) == *final(collection),
    {
        let mut i: usize = 0;
        while i < connections.len()
            invariant
                i <= connections.len(),
                self.wf(),
                self.count() == old(self).count(),
                self@ == connect_groups(old(self)@, connections@, i as nat),
            decreases connections.len() - i,
        {
            self.register_connections(&connections[i].0, &connections[i].1);
            i += 1;
        }
        self
    }

    /// Makes every rotation of `from` compatible with every rotation of each
    /// socket of `to`.
    pub fn add_rotated_connection(&mut self, from: Socket, to: Vec<Socket>) -> (collection:
        &mut Self)
        requires
            old(self).wf(),
        ensures
            collection@ == connect_rotated(old(self)@, from, to@, 16),
            collection.count() == old(self).count(),
            collection.wf(),
            *final(self) == *final(collection),
    {
        let mut t: u8 = 0;
        while t < 4
            invariant
                t <= 4,
                self.wf(),
                self.count() == old(self).count(),
                self@ == connect_rotated(old(self)@, from, to@, (4 * t) as nat),
            decreases 4 - t,
        {
            let to_rotated_sockets = rotate_all(&to, NodeRotation::from_index(t));
            let mut f: u8 = 0;
            while f < 4
                invariant
                    t < 4,
                    f <= 4,
                    self.wf(),
                    self.count() == old(self).count(),
                    to_rotated_sockets@ == rotated_sockets(
                        to@,
                        NodeRotation::from_quarter_turns(t as int),
                    ),
                    self@ == connect_rotated(old(self)@, from, to@, (4 * t + f) as nat),
                decreases 4 - f,
            {
                let rotated_socket = from.rotated(NodeRotation::from_index(f));
                self.register_connections(&rotated_socket, &to_rotated_sockets);
                f += 1;
            }
            t += 1;
        }
        self
    }

    /// Makes `from` compatible with `to` under a constraint on their
    /// rotations: when `to` is rotated by some quarter turns, `from` is
    /// rotated by each of `delta_rotations` and as many quarter turns.
    pub fn add_constrained_rotated_connection(
        &mut self,
        from: Socket,
        delta_rotations: Vec<NodeRotation>,
        to: Vec<Socket>,
    ) -> (collection: &mut Self)
        requires
            old(self).wf(),
        ensures
            collection@ == connect_constrained(old(self)@, from, delta_rotations@, to@, 4),
            collection.count() == old(self).count(),
            collection.wf(),
            *final(self) == *final(collection),
    {
        let mut t: u8 = 0;
        while t < 4
            invariant
                t <= 4,
                self.wf(),
                self.count() == old(self).count(),
                self@ == connect_constrained(old(self)@, from, delta_rotations@, to@, t as nat),
            decreases 4 - t,
        {
            let turn = NodeRotation::from_index(t);
            let to_rotated_sockets = rotate_all(&to, turn);
            let ghost before = self@;
            let mut k: usize = 0;
            while k < delta_rotations.len()
                invariant
                    k <= delta_rotations.len(),
                    self.wf(),
                    self.count() == old(self).count(),
                    to_rotated_sockets@ == rotated_sockets(to@, turn),
                    self@ == connect_deltas(
                        before,
                        from,
                        delta_rotations@,
                        turn,
                        socket_ids(to_rotated_sockets@),
                        k as nat,
                    ),
                decreases delta_rotations.len() - k,
            {
                let from_rotated_socket = from.rotated(delta_rotations[k].rotated(turn));
                self.register_connections(&from_rotated_socket, &to_rotated_sockets);
                k += 1;
            }
            t += 1;
        }
        self
    }

    fn register_connections(&mut self, from: &Socket, to: &Vec<Socket>)
        requires
            old(self).wf(),
        ensures
            final(self).wf(),
            final(self).count() == old(self).count(),
            final(self)@ == connect_list(old(self)@, from.spec_id(), socket_ids(to@)),
    {
        let mut i: usize = 0;
        while i < to.len()
            invariant
                i <= to.len(),
                self.wf(),
                self.count() == old(self).count(),
                self@ == connect_list(old(self)@, from.spec_id(), socket_ids(to@).take(i as int)),
            decreases to.len() - i,
        {
            self.register_connection(from, &to[i]);
            proof {
                let ids = socket_ids(to@);
                assert(ids.take(i + 1).drop_last() =~= ids.take(i as int));
                assert(ids.take(i + 1).last() == to@[i as int].spec_id());
            }
            i += 1;
        }
        assert(socket_ids(to@).take(to.len() as int) =~= socket_ids(to@));
    }

    fn register_connection_half(&mut self, from: &Socket, to: &Socket)
        requires
            old(self).pairs_recorded(),
        ensures
            final(self).pairs_recorded(),
            final(self).count() == old(self).count(),
            final(self)@ == push_unique(old(self)@, from.spec_id(), to.spec_id()),
    {
        let a = from.id();
        let b = to.id();
        let key: u128 = (a as u128) * 0x1_0000_0000_0000_0000u128 + (b as u128);
        assert(key == pair_key(a, b));
        let ghost before = self@;
        if self.uniques.insert(key) {
            let mut list = match self.compatibles.remove(&a) {
                Some(l) => l,
                None => Vec::new(),
            };
            list.push(b);
            self.compatibles.insert(a, list);
            proof {
                assert(!compatible(before, a, b));
                assert(self@ =~= push_unique(before, a, b));
                lemma_push_unique(before, a, b);
                assert forall|x: u64, y: u64|
                    self.uniques@.contains(#[trigger] pair_key(x, y)) <==> compatible(
                        self@,
                        x,
                        y,
                    ) by {
                    if pair_key(x, y) == pair_key(a, b) {
                        assert(x == a && y == b);
                    }
                }
            }
        } else {
            proof {
                assert(compatible(before, a, b));
                assert(self.uniques@ =~= old(self).uniques@);
            }
        }
    }

    fn register_connection(&mut self, from: &Socket, to: &Socket)
        requires
            old(self).wf(),
        ensures
            final(self).wf(),
            final(self).count() == old(self).count(),
            final(self)@ == connect(old(self)@, from.spec_id(), to.spec_id()),
    {
        self.register_connection_half(from, to);
        self.register_connection_half(to, from);
        proof {
            lemma_connect(old(self)@, from.spec_id(), to.spec_id());
        }
    }

    /// The sockets that `socket` accepts, in the order of declaration;
    /// nothing for a socket that no connection names.
    pub fn get_compatibles(&self, socket: SocketId) -> (list: Option<&Vec<SocketId>>)
        ensures
            match list {
                Some(l) => self@.contains_key(socket) && l@ == self@[socket],
                None => !self@.contains_key(socket),
            },
    {
        self.compatibles.get(&socket)
    }

    /// Whether no socket was created yet.
    pub fn is_empty(&self) -> (empty: bool)
        ensures
            empty == (self.count() == 0),
    {
        self.incremental_socket_index == 0
    }
}

/// `to`, each socket rotated by `rotation`.
pub(crate) fn rotate_all(to: &Vec<Socket>, rotation: NodeRotation) -> (rotated: Vec<Socket>)
    ensures
        rotated@ == rotated_sockets(to@, rotation),
{
    let mut rotated: Vec<Socket> = Vec::new();
    let mut i: usize = 0;
    while i < to.len()
        invariant
            i <= to.len(),
            rotated@ == rotated_sockets(to@, rotation).take(i as int),
        decreases to.len() - i,
    {
        rotated.push(to[i].rotated(rotation));
        assert(rotated@ =~= rotated_sockets(to@, rotation).take(i + 1));
        i += 1;
    }
    assert(rotated@ =~= rotated_sockets(to@, rotation));
    rotated
}

} // verus!
