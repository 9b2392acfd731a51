//! A river of a cave system, as a directed graph of rooms joined by halls.
use vstd::prelude::*;

use petgraph::Directed;
use petgraph::Graph;
use petgraph::Incoming;
use petgraph::Outgoing;
use petgraph::graph::NodeIndex;
use petgraph::visit::EdgeRef;

pub mod generator;

verus! {

#[verifier::external_type_specification]
#[verifier::external_body]
#[verifier::reject_recursive_types(N)]
#[verifier::reject_recursive_types(E)]
#[verifier::reject_recursive_types(Ty)]
#[verifier::reject_recursive_types(Ix)]
pub struct ExGraph<N, E, Ty, Ix>(Graph<N, E, Ty, Ix>);

#[verifier::external_type_specification]
#[verifier::external_body]
#[verifier::reject_recursive_types(Ix)]
pub struct ExNodeIndex<Ix>(NodeIndex<Ix>);

#[verifier::external_type_specification]
#[verifier::external_body]
pub struct ExDirected(Directed);

/// A room of a branch.
#[derive(Debug, Clone, Copy, PartialEq, Eq, Structural)]
pub struct Room {
    pub has_flow: bool,
    /// Flavor number. The flow into a room minus the flow absorbed is the flow out of the room.
    pub flow_seen: u8,
    pub flow_absorbed: u8,
}

impl Room {
    pub fn new(has_flow: bool) -> (r: Self)
        ensures
            r == (Room { has_flow, flow_seen: 0, flow_absorbed: 0 }),
    {
        Self { has_flow, flow_seen: 0, flow_absorbed: 0 }
    }
}

/// A hall from one room to another; the river follows the halls that have flow.
#[derive(Debug, Clone, Copy, PartialEq, Eq, Structural)]
pub struct Hall {
    pub has_flow: bool,
    /// An arbitrary number.
    pub flow_seen: u8,
}

impl Hall {
    pub fn new(has_flow: bool) -> (r: Self)
        ensures
            r == (Hall { has_flow, flow_seen: 0 }),
    {
        Self { has_flow, flow_seen: 0 }
    }
}

/// The rooms of a graph, in the order they were added; a room's number is its place here.
pub uninterp spec fn graph_rooms(g: Graph<Room, Hall, Directed, u8>) -> Seq<Room>;

/// The halls of a graph, in the order they were added: the numbers of the rooms they lead
/// from and to, and the hall.
pub uninterp spec fn graph_halls(g: Graph<Room, Hall, Directed, u8>) -> Seq<(nat, nat, Hall)>;

/// The number of the room that an index names.
pub uninterp spec fn node_number(n: NodeIndex<u8>) -> nat;

/// `Graph::default`: a graph without rooms or halls.
#[verifier::external_body]
fn empty_graph() -> (r: Graph<Room, Hall, Directed, u8>)
    ensures
        graph_rooms(r) == Seq::<Room>::empty(),
        graph_halls(r) == Seq::<(nat, nat, Hall)>::empty(),
{
    Graph::default()
}

/// `Graph::add_node`: adds a room at the end; its index numbers it by its place. The graph
/// panics when it would hold 255 rooms, which `u8` indices cannot name apart from the end
/// marker.
#[verifier::external_body]
fn add_room(g: &mut Graph<Room, Hall, Directed, u8>, room: Room) -> (r: NodeIndex<u8>)
    requires
        graph_rooms(*old(g)).len() < 255,
    ensures
        graph_rooms(*final(g)) == graph_rooms(*old(g)).push(room),
        graph_halls(*final(g)) == graph_halls(*old(g)),
        node_number(r) == graph_rooms(*old(g)).len(),
{
    g.add_node(room)
}

/// `Graph::add_edge`: adds a hall at the end, between two rooms that exist. The graph panics
/// on rooms it does not hold, and when it would hold 255 halls.
#[verifier::external_body]
fn add_hall(g: &mut Graph<Room, Hall, Directed, u8>, a: NodeIndex<u8>, b: NodeIndex<u8>, hall: Hall)
    requires
        node_number(a) < graph_rooms(*old(g)).len(),
        node_number(b) < graph_rooms(*old(g)).len(),
        graph_halls(*old(g)).len() < 255,
    ensures
        graph_rooms(*final(g)) == graph_rooms(*old(g)),
        graph_halls(*final(g)) == graph_halls(*old(g)).push((node_number(a), node_number(b), hall)),
{
    let _ = g.add_edge(a, b, hall);
}

/// `Graph::neighbors_directed(..).count()`: how many halls lead out of (or, with `outgoing`
/// false, into) a room that exists.
#[verifier::external_body]
fn neighbor_count(g: &Graph<Room, Hall, Directed, u8>, n: NodeIndex<u8>, outgoing: bool) -> (r: usize)
    requires
        node_number(n) < graph_rooms(*g).len(),
    ensures
        r == if outgoing {
            out_count(graph_halls(*g), node_number(n))
        } else {
            in_count(graph_halls(*g), node_number(n))
        },
{
    if outgoing {
        g.neighbors_directed(n, Outgoing).count()
    } else {
        g.neighbors_directed(n, Incoming).count()
    }
}

/// `Graph::edges_directed(.., Outgoing)`: the halls out of a room that exists, each as the
/// room it leads to and the hall, the most recently added first.
#[verifier::external_body]
fn outgoing_halls(g: &Graph<Room, Hall, Directed, u8>, n: NodeIndex<u8>) -> (r: Vec<(NodeIndex<u8>, Hall)>)
    requires
        node_number(n) < graph_rooms(*g).len(),
    ensures
        r.len() == out_halls(graph_halls(*g), node_number(n)).len(),
        forall|k: int|
            0 <= k < r.len() ==> node_number((#[trigger] r@[k]).0) == out_halls(graph_halls(*g), node_number(n))[k].0
                && r@[k].1 == out_halls(graph_halls(*g), node_number(n))[k].1,
{
    g.edges_directed(n, Outgoing).map(|e| (e.target(), *e.weight())).collect()
}

/// `NodeIndex == NodeIndex`: the same room.
#[verifier::external_body]
fn same_room(a: NodeIndex<u8>, b: NodeIndex<u8>) -> (r: bool)
    ensures
        r == (node_number(a) == node_number(b)),
{
    a == b
}

/// How many halls lead out of room `n`.
pub open spec fn out_count(halls: Seq<(nat, nat, Hall)>, n: nat) -> nat
    decreases halls.len(),
{
    if halls.len() == 0 {
        0
    } else {
        out_count(halls.drop_last(), n) + if halls.last().0 == n {
            1nat
        } else {
            0nat
        }
    }
}

/// How many halls lead into room `n`.
pub open spec fn in_count(halls: Seq<(nat, nat, Hall)>, n: nat) -> nat
    decreases halls.len(),
{
    if halls.len() == 0 {
        0
    } else {
        in_count(halls.drop_last(), n) + if halls.last().1 == n {
            1nat
        } else {
            0nat
        }
    }
}

/// How many halls lead out of room `n` with flow (or, with `flowing` false, without).
pub open spec fn flow_count(halls: Seq<(nat, nat, Hall)>, n: nat, flowing: bool) -> nat
    decreases halls.len(),
{
    if halls.len() == 0 {
        0
    } else {
        flow_count(halls.drop_last(), n, flowing) + if halls.last().0 == n && halls.last().2.has_flow == flowing {
            1nat
        } else {
            0nat
        }
    }
}

/// The halls out of room `n`, each as the room it leads to and the hall, the most recently
/// added first.
pub open spec fn out_halls(halls: Seq<(nat, nat, Hall)>, n: nat) -> Seq<(nat, Hall)>
    decreases halls.len(),
{
    if halls.len() == 0 {
        Seq::empty()
    } else {
        let rest = out_halls(halls.drop_last(), n);
        if halls.last().0 == n {
            seq![(halls.last().1, halls.last().2)] + rest
        } else {
            rest
        }
    }
}

/// Where the river goes from room `n`: along its most recently added hall with flow.
pub open spec fn flows_to(halls: Seq<(nat, nat, Hall)>, n: nat) -> Option<nat>
    decreases halls.len(),
{
    if halls.len() == 0 {
        None
    } else if halls.last().0 == n && halls.last().2.has_flow {
        Some(halls.last().1)
    } else {
        flows_to(halls.drop_last(), n)
    }
}

/// Whether the river from `n` reaches a room without flow out within `fuel` steps.
pub open spec fn river_ends(halls: Seq<(nat, nat, Hall)>, n: nat, fuel: nat) -> bool
    decreases fuel,
{
    match flows_to(halls, n) {
        None => true,
        Some(m) => fuel > 0 && river_ends(halls, m, (fuel - 1) as nat),
    }
}

/// The rooms of the river from `n`, for at most `fuel` steps.
pub open spec fn river_from(halls: Seq<(nat, nat, Hall)>, n: nat, fuel: nat) -> Seq<nat>
    decreases fuel,
{
    match flows_to(halls, n) {
        Some(m) => if fuel > 0 {
            seq![n] + river_from(halls, m, (fuel - 1) as nat)
        } else {
            seq![n]
        },
        None => seq![n],
    }
}

/// The room that the first hall with flow in `s` leads to.
pub open spec fn first_flowing(s: Seq<(nat, Hall)>) -> Option<nat>
    decreases s.len(),
{
    if s.len() == 0 {
        None
    } else if s[0].1.has_flow {
        Some(s[0].0)
    } else {
        first_flowing(s.drop_first())
    }
}

/// The river leaves a room along the first hall with flow that `edges_directed` lists.
proof fn lemma_flows_to_first(halls: Seq<(nat, nat, Hall)>, n: nat)
    ensures
        flows_to(halls, n) == first_flowing(out_halls(halls, n)),
    decreases halls.len(),
{
    if halls.len() > 0 {
        let pre = halls.drop_last();
        lemma_flows_to_first(pre, n);
        if halls.last().0 == n {
            let x = (halls.last().1, halls.last().2);
            assert((seq![x] + out_halls(pre, n)).drop_first() =~= out_halls(pre, n));
        }
    }
}

/// A branch: one of many rivers leading to the reservoir.
///
/// The branch can fork and join with itself. Any join must be with the fork right before.
/// One way to imagine this is a line of several polygons, with one edge between adjacent
/// polygons. Stray edges are also allowed.
#[derive(Debug)]
pub struct Branch {
    /// A graph with at least one room.
    pub graph: Graph<Room, Hall, Directed, u8>,
    /// Where the river starts: a room that no hall leads into.
    pub source: InDegreeZero,
    /// Where the river ends.
    pub sink: NodeIndex<u8>,
}

/// The setting of the game: an underground body of water where a few streams collect.
///
/// Between one and six branches lead to a central reservoir; `main` is always there.
#[allow(dead_code)]
pub struct CaveSystem {
    main: Branch,
    others: [Option<Branch>; 5],
}

/// A room that no hall leads into.
#[derive(Debug)]
pub struct InDegreeZero(pub NodeIndex<u8>);

impl Branch {
    pub open spec fn rooms(&self) -> Seq<Room> {
        graph_rooms(self.graph)
    }

    pub open spec fn halls(&self) -> Seq<(nat, nat, Hall)> {
        graph_halls(self.graph)
    }

    pub open spec fn source_room(&self) -> nat {
        node_number(self.source.0)
    }

    pub open spec fn sink_room(&self) -> nat {
        node_number(self.sink)
    }

    /// The shape every branch keeps: the rooms and halls fit their indices, the source and
    /// the sink are rooms, no hall leads into the source or out of the sink, and no room has
    /// two halls out with flow.
    pub open spec fn wf(&self) -> bool {
        let rooms = self.rooms();
        let halls = self.halls();
        &&& 1 <= rooms.len() <= 255
        &&& halls.len() <= 255
        &&& self.source_room() < rooms.len()
        &&& self.sink_room() < rooms.len()
        &&& forall|k: int| 0 <= k < halls.len() ==> (#[trigger] halls[k]).0 < rooms.len() && halls[k].1 < rooms.len()
        &&& in_count(halls, self.source_room()) == 0
        &&& out_count(halls, self.sink_room()) == 0
        &&& forall|n: nat| n < rooms.len() ==> #[trigger] flow_count(halls, n, true) <= 1
    }

    /// What the tests of a generated branch check on top: a room with a hall out without
    /// flow has one with flow too.
    pub open spec fn valid(&self) -> bool {
        &&& self.wf()
        &&& forall|n: nat| n < self.rooms().len() && #[trigger] flow_count(self.halls(), n, false) > 0 ==> flow_count(
            self.halls(),
            n,
            true,
        ) > 0
    }

    /// A branch of one room, both source and sink.
    #[must_use]
    pub fn new() -> (r: Self)
        ensures
            r.valid(),
            r.rooms() == seq![Room { has_flow: true, flow_seen: 0, flow_absorbed: 0 }],
            r.halls() == Seq::<(nat, nat, Hall)>::empty(),
            r.source_room() == 0,
            r.sink_room() == 0,
    {
        let mut graph = empty_graph();
        let sink = add_room(&mut graph, Room { has_flow: true, flow_seen: 0, flow_absorbed: 0 });
        let source = InDegreeZero(sink);
        let r = Self { graph, source, sink };
        proof {
            assert(r.rooms() =~= seq![Room { has_flow: true, flow_seen: 0, flow_absorbed: 0 }]);
        }
        r
    }
}


/// Adding a hall changes the counts of the room it leads from and to, and nothing else.
proof fn lemma_counts_push(h: Seq<(nat, nat, Hall)>, e: (nat, nat, Hall), n: nat)
    ensures
        out_count(h.push(e), n) == out_count(h, n) + if e.0 == n { 1nat } else { 0nat },
        in_count(h.push(e), n) == in_count(h, n) + if e.1 == n { 1nat } else { 0nat },
        flow_count(h.push(e), n, true) == flow_count(h, n, true) + if e.0 == n && e.2.has_flow { 1nat } else { 0nat },
        flow_count(h.push(e), n, false) == flow_count(h, n, false) + if e.0 == n && !e.2.has_flow { 1nat } else { 0nat },
{
    assert(h.push(e).drop_last() =~= h);
}

/// The halls out of a room with or without flow are among its halls out.
proof fn lemma_flow_le_out(h: Seq<(nat, nat, Hall)>, n: nat, b: bool)
    ensures
        flow_count(h, n, b) <= out_count(h, n),
    decreases h.len(),
{
    if h.len() > 0 {
        lemma_flow_le_out(h.drop_last(), n, b);
    }
}

/// A room that no hall leads from has no halls out.
proof fn lemma_no_halls_from(h: Seq<(nat, nat, Hall)>, n: nat)
    requires
        forall|k: int| 0 <= k < h.len() ==> (#[trigger] h[k]).0 != n,
    ensures
        out_count(h, n) == 0,
        flow_count(h, n, true) == 0,
        flow_count(h, n, false) == 0,
    decreases h.len(),
{
    if h.len() > 0 {
        let pre = h.drop_last();
        assert forall|k: int| 0 <= k < pre.len() implies (#[trigger] pre[k]).0 != n by {
            assert(pre[k] == h[k]);
        }
        lemma_no_halls_from(pre, n);
        assert(h.last() == h[h.len() - 1]);
    }
}

/// A room that no hall leads to has no halls in.
proof fn lemma_no_halls_to(h: Seq<(nat, nat, Hall)>, n: nat)
    requires
        forall|k: int| 0 <= k < h.len() ==> (#[trigger] h[k]).1 != n,
    ensures
        in_count(h, n) == 0,
    decreases h.len(),
{
    if h.len() > 0 {
        let pre = h.drop_last();
        assert forall|k: int| 0 <= k < pre.len() implies (#[trigger] pre[k]).1 != n by {
            assert(pre[k] == h[k]);
        }
        lemma_no_halls_to(pre, n);
        assert(h.last() == h[h.len() - 1]);
    }
}

/// Adds a room, then a hall from it to `to`; the new room's index.
fn add_room_leading_to(graph: &mut Graph<Room, Hall, Directed, u8>, room: Room, to: NodeIndex<u8>, hall: Hall) -> (r: NodeIndex<u8>)
    requires
        graph_rooms(*old(graph)).len() < 255,
        graph_halls(*old(graph)).len() < 255,
        node_number(to) < graph_rooms(*old(graph)).len(),
    ensures
        graph_rooms(*final(graph)) == graph_rooms(*old(graph)).push(room),
        graph_halls(*final(graph)) == graph_halls(*old(graph)).push((node_number(r), node_number(to), hall)),
        node_number(r) == graph_rooms(*old(graph)).len(),
{
    let r = add_room(graph, room);
    add_hall(graph, r, to, hall);
    r
}

impl Branch {
    /// Adds a new source with flow, leading into the old one.
    pub fn extend_source(&mut self)
        requires
            old(self).wf(),
            old(self).rooms().len() < 255,
            old(self).halls().len() < 255,
        ensures
            final(self).wf(),
            old(self).valid() ==> final(self).valid(),
            final(self).rooms() == old(self).rooms().push(Room { has_flow: true, flow_seen: 0, flow_absorbed: 0 }),
            final(self).halls() == old(self).halls().push(
                (old(self).rooms().len(), old(self).source_room(), Hall { has_flow: true, flow_seen: 0 }),
            ),
            final(self).source_room() == old(self).rooms().len(),
            final(self).sink_room() == old(self).sink_room(),
    {
        let ghost h0 = self.halls();
        let ghost n0 = self.rooms().len();
        let existing_child = self.source.0;
        let new_parent = add_room_leading_to(
            &mut self.graph,
            Room { has_flow: true, flow_seen: 0, flow_absorbed: 0 },
            existing_child,
            Hall { has_flow: true, flow_seen: 0 },
        );
        self.source = InDegreeZero(new_parent);
        proof {
            let e = (n0, node_number(existing_child), Hall { has_flow: true, flow_seen: 0 });
            let h = self.halls();
            assert(h == h0.push(e));
            assert forall|k: int| 0 <= k < h.len() implies (#[trigger] h[k]).0 < self.rooms().len() && h[k].1
                < self.rooms().len() by {
                if k < h0.len() {
                    assert(h[k] == h0[k]);
                }
            }
            lemma_no_halls_to(h0, n0);
            lemma_no_halls_from(h0, n0);
            lemma_counts_push(h0, e, n0);
            lemma_counts_push(h0, e, self.sink_room());
            assert forall|n: nat| n < self.rooms().len() implies #[trigger] flow_count(h, n, true) <= 1 by {
                lemma_counts_push(h0, e, n);
            }
            assert forall|n: nat| n < self.rooms().len() && #[trigger] flow_count(h, n, false) > 0 implies !old(self).valid()
                || flow_count(h, n, true) > 0 by {
                lemma_counts_push(h0, e, n);
            }
        }
    }
}


/// Whether the halls of `h` stay between the first `len` rooms.
pub open spec fn halls_within(h: Seq<(nat, nat, Hall)>, len: nat) -> bool {
    forall|k: int| 0 <= k < h.len() ==> (#[trigger] h[k]).0 < len && h[k].1 < len
}

/// Adds `count` rooms like `room` in a line, each leading into the one before, the first
/// into `start`; the last room of the line, or `start` where none is added.
fn add_chain(graph: &mut Graph<Room, Hall, Directed, u8>, start: NodeIndex<u8>, count: u8, room: Room) -> (last: NodeIndex<u8>)
    requires
        node_number(start) < graph_rooms(*old(graph)).len(),
        graph_rooms(*old(graph)).len() + count <= 255,
        graph_halls(*old(graph)).len() + count <= 255,
        halls_within(graph_halls(*old(graph)), graph_rooms(*old(graph)).len()),
    ensures
        graph_rooms(*final(graph)) == graph_rooms(*old(graph)) + Seq::new(count as nat, |i: int| room),
        graph_halls(*final(graph)).len() == graph_halls(*old(graph)).len() + count,
        forall|k: int|
            0 <= k < graph_halls(*old(graph)).len() ==> #[trigger] graph_halls(*final(graph))[k] == graph_halls(
                *old(graph),
            )[k],
        forall|j: int|
            0 <= j < count ==> #[trigger] graph_halls(*final(graph))[graph_halls(*old(graph)).len() + j] == (
                (graph_rooms(*old(graph)).len() + j) as nat,
                if j == 0 {
                    node_number(start)
                } else {
                    (graph_rooms(*old(graph)).len() + j - 1) as nat
                },
                Hall { has_flow: true, flow_seen: 0 },
            ),
        node_number(last) == if count == 0 {
            node_number(start)
        } else {
            (graph_rooms(*old(graph)).len() + count - 1) as nat
        },
        halls_within(graph_halls(*final(graph)), graph_rooms(*final(graph)).len()),
        forall|n: nat, b: bool|
            n < graph_rooms(*old(graph)).len() ==> #[trigger] flow_count(graph_halls(*final(graph)), n, b) == flow_count(
                graph_halls(*old(graph)),
                n,
                b,
            ),
        forall|n: nat|
            n < graph_rooms(*old(graph)).len() ==> #[trigger] out_count(graph_halls(*final(graph)), n) == out_count(
                graph_halls(*old(graph)),
                n,
            ),
        forall|n: nat|
            graph_rooms(*old(graph)).len() <= n < graph_rooms(*final(graph)).len() ==> #[trigger] flow_count(
                graph_halls(*final(graph)),
                n,
                true,
            ) == 1 && flow_count(graph_halls(*final(graph)), n, false) == 0,
{
    let ghost r0 = graph_rooms(*graph);
    let ghost h0 = graph_halls(*graph);
    let mut last = start;
    let mut i: u8 = 0;
    proof {
        assert(graph_rooms(*graph) =~= r0 + Seq::new(0, |k: int| room));
    }
    while i < count
        invariant
            i <= count,
            r0.len() + count <= 255,
            h0.len() + count <= 255,
            node_number(start) < r0.len(),
            graph_rooms(*graph) == r0 + Seq::new(i as nat, |k: int| room),
            graph_halls(*graph).len() == h0.len() + i,
            forall|k: int| 0 <= k < h0.len() ==> #[trigger] graph_halls(*graph)[k] == h0[k],
            forall|j: int|
                0 <= j < i ==> #[trigger] graph_halls(*graph)[h0.len() + j] == (
                    (r0.len() + j) as nat,
                    if j == 0 {
                        node_number(start)
                    } else {
                        (r0.len() + j - 1) as nat
                    },
                    Hall { has_flow: true, flow_seen: 0 },
                ),
            node_number(last) == if i == 0 {
                node_number(start)
            } else {
                (r0.len() + i - 1) as nat
            },
            halls_within(graph_halls(*graph), graph_rooms(*graph).len()),
            forall|n: nat, b: bool| n < r0.len() ==> #[trigger] flow_count(graph_halls(*graph), n, b) == flow_count(h0, n, b),
            forall|n: nat| n < r0.len() ==> #[trigger] out_count(graph_halls(*graph), n) == out_count(h0, n),
            forall|n: nat|
                r0.len() <= n < graph_rooms(*graph).len() ==> #[trigger] flow_count(graph_halls(*graph), n, true) == 1
                    && flow_count(graph_halls(*graph), n, false) == 0,
        decreases count - i,
    {
        let ghost hb = graph_halls(*graph);
        let ghost len = graph_rooms(*graph).len();
        let next = add_room_leading_to(graph, room, last, Hall { has_flow: true, flow_seen: 0 });
        proof {
            let e = (len, node_number(last), Hall { has_flow: true, flow_seen: 0 });
            let h = graph_halls(*graph);
            assert(h == hb.push(e));
            assert(graph_rooms(*graph) =~= r0 + Seq::new((i + 1) as nat, |k: int| room));
            assert forall|k: int| 0 <= k < h.len() implies (#[trigger] h[k]).0 < graph_rooms(*graph).len() && h[k].1
                < graph_rooms(*graph).len() by {
                if k < hb.len() {
                    assert(h[k] == hb[k]);
                }
            }
            assert forall|k: int| 0 <= k < h0.len() implies #[trigger] h[k] == h0[k] by {
                assert(h[k] == hb[k]);
            }
            assert forall|j: int| 0 <= j < i + 1 implies #[trigger] h[h0.len() + j] == (
                (r0.len() + j) as nat,
                if j == 0 {
                    node_number(start)
                } else {
                    (r0.len() + j - 1) as nat
                },
                Hall { has_flow: true, flow_seen: 0 },
            ) by {
                if j < i {
                    assert(h[h0.len() + j] == hb[h0.len() + j]);
                }
            }
            assert forall|k: int| 0 <= k < hb.len() implies (#[trigger] hb[k]).0 != len by {}
            lemma_no_halls_from(hb, len);
            assert forall|n: nat, b: bool| n < r0.len() implies #[trigger] flow_count(h, n, b) == flow_count(h0, n, b) by {
                lemma_counts_push(hb, e, n);
            }
            assert forall|n: nat| n < r0.len() implies #[trigger] out_count(h, n) == out_count(h0, n) by {
                lemma_counts_push(hb, e, n);
            }
            assert forall|n: nat| r0.len() <= n < graph_rooms(*graph).len() implies #[trigger] flow_count(h, n, true) == 1
                && flow_count(h, n, false) == 0 by {
                lemma_counts_push(hb, e, n);
            }
        }
        last = next;
        i += 1;
    }
    last
}

impl Branch {
    /// Adds a join and a fork before the source: from a new fork, a line of `wet_edges`
    /// halls with flow and a line of `dry_edges` halls (through rooms without flow) both
    /// lead into the old source, and a new source with flow leads into the fork.
    pub fn extend_join_and_fork(&mut self, wet_edges: u8, dry_edges: u8)
        requires
            old(self).wf(),
            wet_edges >= 1,
            dry_edges >= 1,
            old(self).rooms().len() + wet_edges + dry_edges <= 255,
            old(self).halls().len() + wet_edges + dry_edges + 1 <= 255,
        ensures
            final(self).wf(),
            old(self).valid() ==> final(self).valid(),
            ({
                let len = old(self).rooms().len();
                let edges = old(self).halls().len();
                let s = old(self).source_room();
                let w = wet_edges as int;
                let d = dry_edges as int;
                let fork = len + (w - 1) + (d - 1);
                let wet = Room { has_flow: true, flow_seen: 0, flow_absorbed: 0 };
                let dry = Room { has_flow: false, flow_seen: 0, flow_absorbed: 0 };
                &&& final(self).rooms().len() == fork + 2
                &&& forall|i: int| 0 <= i < len ==> #[trigger] final(self).rooms()[i] == old(self).rooms()[i]
                &&& forall|i: int| len <= i < len + w - 1 ==> #[trigger] final(self).rooms()[i] == wet
                &&& forall|i: int| len + w - 1 <= i < fork ==> #[trigger] final(self).rooms()[i] == dry
                &&& final(self).rooms()[fork] == wet
                &&& final(self).rooms()[fork + 1] == wet
                &&& final(self).halls().len() == edges + w + d + 1
                &&& forall|k: int| 0 <= k < edges ==> #[trigger] final(self).halls()[k] == old(self).halls()[k]
                &&& forall|j: int|
                    0 <= j < w - 1 ==> #[trigger] final(self).halls()[edges + j] == (
                        (len + j) as nat,
                        if j == 0 { s } else { (len + j - 1) as nat },
                        Hall { has_flow: true, flow_seen: 0 },
                    )
                &&& forall|j: int|
                    0 <= j < d - 1 ==> #[trigger] final(self).halls()[edges + w - 1 + j] == (
                        (len + w - 1 + j) as nat,
                        if j == 0 { s } else { (len + w - 2 + j) as nat },
                        Hall { has_flow: true, flow_seen: 0 },
                    )
                &&& final(self).halls()[edges + w + d - 2] == (
                    fork as nat,
                    if w == 1 { s } else { (len + w - 2) as nat },
                    Hall { has_flow: true, flow_seen: 0 },
                )
                &&& final(self).halls()[edges + w + d - 1] == (
                    fork as nat,
                    if d == 1 { s } else { (fork - 1) as nat },
                    Hall { has_flow: false, flow_seen: 0 },
                )
                &&& final(self).halls()[edges + w + d] == ((fork + 1) as nat, fork as nat, Hall { has_flow: true, flow_seen: 0 })
                &&& final(self).source_room() == fork + 1
                &&& final(self).sink_room() == old(self).sink_room()
            }),
    {
        let ghost r0 = self.rooms();
        let ghost h0 = self.halls();
        let ghost len = r0.len();
        let ghost edges = h0.len();
        let ghost s = self.source_room();
        let shared_join = self.source.0;
        proof {
            assert(halls_within(h0, len));
        }
        let wet = Room { has_flow: true, flow_seen: 0, flow_absorbed: 0 };
        let dry = Room { has_flow: false, flow_seen: 0, flow_absorbed: 0 };
        let wet_destination = add_chain(&mut self.graph, shared_join, wet_edges - 1, wet);
        let ghost r1 = graph_rooms(self.graph);
        let ghost h1 = graph_halls(self.graph);
        let dry_destination = add_chain(&mut self.graph, shared_join, dry_edges - 1, dry);
        let ghost r2 = graph_rooms(self.graph);
        let ghost h2 = graph_halls(self.graph);
        let shared_fork = add_room_leading_to(&mut self.graph, wet, wet_destination, Hall::new(true));
        let ghost h3 = graph_halls(self.graph);
        add_hall(&mut self.graph, shared_fork, dry_destination, Hall::new(false));
        let ghost h4 = graph_halls(self.graph);
        let spacer = add_room_leading_to(&mut self.graph, wet, shared_fork, Hall::new(true));
        self.source = InDegreeZero(spacer);
        proof {
            let w = wet_edges as int;
            let d = dry_edges as int;
            let fork = len + (w - 1) + (d - 1);
            let h = self.halls();
            let rooms = self.rooms();
            let e3 = (fork as nat, node_number(wet_destination), Hall { has_flow: true, flow_seen: 0 });
            let e4 = (fork as nat, node_number(dry_destination), Hall { has_flow: false, flow_seen: 0 });
            let e5 = ((fork + 1) as nat, fork as nat, Hall { has_flow: true, flow_seen: 0 });
            assert(h3 == h2.push(e3));
            assert(h4 == h3.push(e4));
            assert(h == h4.push(e5));
            assert(r1.len() == len + w - 1);
            assert(r2.len() == fork);
            // The rooms.
            assert forall|i: int| 0 <= i < len implies #[trigger] rooms[i] == r0[i] by {
                assert(rooms[i] == r2[i] && r2[i] == r1[i]);
            }
            assert forall|i: int| len <= i < len + w - 1 implies #[trigger] rooms[i] == wet by {
                assert(rooms[i] == r2[i] && r2[i] == r1[i]);
            }
            assert forall|i: int| len + w - 1 <= i < fork implies #[trigger] rooms[i] == dry by {
                assert(rooms[i] == r2[i]);
            }
            // The halls.
            assert forall|k: int| 0 <= k < edges implies #[trigger] h[k] == h0[k] by {
                assert(h[k] == h4[k] && h4[k] == h3[k] && h3[k] == h2[k] && h2[k] == h1[k]);
            }
            assert forall|j: int| 0 <= j < w - 1 implies #[trigger] h[edges + j] == (
                (len + j) as nat,
                if j == 0 { s } else { (len + j - 1) as nat },
                Hall { has_flow: true, flow_seen: 0 },
            ) by {
                assert(h[edges + j] == h4[edges + j] && h4[edges + j] == h3[edges + j] && h3[edges + j] == h2[edges + j]);
                assert(h2[edges + j] == h1[edges + j]);
            }
            assert forall|j: int| 0 <= j < d - 1 implies #[trigger] h[edges + w - 1 + j] == (
                (len + w - 1 + j) as nat,
                if j == 0 { s } else { (len + w - 2 + j) as nat },
                Hall { has_flow: true, flow_seen: 0 },
            ) by {
                assert(h[edges + w - 1 + j] == h4[edges + w - 1 + j] && h4[edges + w - 1 + j] == h3[edges + w - 1 + j]);
                assert(h3[edges + w - 1 + j] == h2[h1.len() + j]);
            }
            assert(h[edges + w + d - 2] == e3);
            assert(h[edges + w + d - 1] == e4);
            assert(h[edges + w + d] == e5);
            // The shape.
            assert(halls_within(h, rooms.len())) by {
                assert forall|k: int| 0 <= k < h.len() implies (#[trigger] h[k]).0 < rooms.len() && h[k].1 < rooms.len() by {
                    if k < h2.len() {
                        assert(h[k] == h2[k]);
                    } else if k < h3.len() {
                        assert(h[k] == h3[k]);
                    } else if k < h4.len() {
                        assert(h[k] == h4[k]);
                    }
                }
            }
            assert forall|k: int| 0 <= k < h2.len() implies (#[trigger] h2[k]).0 != fork && h2[k].0 != fork + 1 by {}
            lemma_no_halls_from(h2, fork as nat);
            lemma_no_halls_from(h2, (fork + 1) as nat);
            assert forall|k: int| 0 <= k < h.len() implies (#[trigger] h[k]).1 != fork + 1 by {
                if k < h2.len() {
                    assert(h[k] == h2[k]);
                } else if k < h3.len() {
                    assert(h[k] == h3[k]);
                } else if k < h4.len() {
                    assert(h[k] == h4[k]);
                }
            }
            lemma_no_halls_to(h, (fork + 1) as nat);
            assert forall|n: nat, b: bool| n < fork implies #[trigger] flow_count(h, n, b) == flow_count(h2, n, b) by {
                lemma_counts_push(h2, e3, n);
                lemma_counts_push(h3, e4, n);
                lemma_counts_push(h4, e5, n);
            }
            assert forall|n: nat| n < fork implies #[trigger] out_count(h, n) == out_count(h2, n) by {
                lemma_counts_push(h2, e3, n);
                lemma_counts_push(h3, e4, n);
                lemma_counts_push(h4, e5, n);
            }
            lemma_counts_push(h2, e3, fork as nat);
            lemma_counts_push(h3, e4, fork as nat);
            lemma_counts_push(h4, e5, fork as nat);
            lemma_counts_push(h2, e3, (fork + 1) as nat);
            lemma_counts_push(h3, e4, (fork + 1) as nat);
            lemma_counts_push(h4, e5, (fork + 1) as nat);
            assert(out_count(h, self.sink_room()) == 0) by {
                assert(out_count(h2, self.sink_room()) == out_count(h1, self.sink_room()));
            }
            assert forall|n: nat| n < rooms.len() implies #[trigger] flow_count(h, n, true) <= 1 by {
                if n < len {
                    assert(flow_count(h2, n, true) == flow_count(h1, n, true));
                } else if n < len + w - 1 {
                    assert(flow_count(h2, n, true) == flow_count(h1, n, true));
                }
            }
            if old(self).valid() {
                assert forall|n: nat| n < rooms.len() && #[trigger] flow_count(h, n, false) > 0 implies flow_count(h, n, true)
                    > 0 by {
                    if n < len {
                        assert(flow_count(h2, n, false) == flow_count(h1, n, false));
                        assert(flow_count(h2, n, true) == flow_count(h1, n, true));
                    } else if n < len + w - 1 {
                        assert(flow_count(h2, n, false) == flow_count(h1, n, false));
                    }
                }
            }
        }
    }
}


impl Branch {
    /// Adds a room after `parent`, unless two halls already lead out of it: past the sink,
    /// a new sink with flow; elsewhere, a dead end without flow.
    pub fn add_new_child(&mut self, parent: NodeIndex<u8>) -> (r: Option<NodeIndex<u8>>)
        requires
            old(self).wf(),
            node_number(parent) < old(self).rooms().len(),
            old(self).rooms().len() < 255,
            old(self).halls().len() < 255,
        ensures
            final(self).wf(),
            out_count(old(self).halls(), node_number(parent)) >= 2 ==> r is None && final(self).rooms() == old(self).rooms()
                && final(self).halls() == old(self).halls() && final(self).source_room() == old(self).source_room()
                && final(self).sink_room() == old(self).sink_room(),
            out_count(old(self).halls(), node_number(parent)) < 2 ==> {
                let flows = node_number(parent) == old(self).sink_room();
                let n = old(self).rooms().len();
                &&& r matches Some(c) && node_number(c) == n
                &&& final(self).rooms() == old(self).rooms().push(Room { has_flow: flows, flow_seen: 0, flow_absorbed: 0 })
                &&& final(self).halls() == old(self).halls().push(
                    (node_number(parent), n, Hall { has_flow: flows, flow_seen: 0 }),
                )
                &&& final(self).source_room() == old(self).source_room()
                &&& final(self).sink_room() == if flows { n } else { old(self).sink_room() }
            },
    {
        if neighbor_count(&self.graph, parent, true) >= 2 {
            return None;
        }
        let ghost h0 = self.halls();
        let ghost n0 = self.rooms().len();
        let flows = same_room(self.sink, parent);
        let child = add_room(&mut self.graph, Room { has_flow: flows, flow_seen: 0, flow_absorbed: 0 });
        add_hall(&mut self.graph, parent, child, Hall::new(flows));
        if flows {
            self.sink = child;
        }
        proof {
            let e = (node_number(parent), n0, Hall { has_flow: flows, flow_seen: 0 });
            let h = self.halls();
            assert(h == h0.push(e));
            assert forall|k: int| 0 <= k < h.len() implies (#[trigger] h[k]).0 < self.rooms().len() && h[k].1
                < self.rooms().len() by {
                if k < h0.len() {
                    assert(h[k] == h0[k]);
                }
            }
            assert forall|k: int| 0 <= k < h0.len() implies (#[trigger] h0[k]).0 != n0 by {}
            lemma_no_halls_from(h0, n0);
            lemma_counts_push(h0, e, self.source_room());
            lemma_counts_push(h0, e, self.sink_room());
            lemma_counts_push(h0, e, node_number(parent));
            lemma_flow_le_out(h0, old(self).sink_room(), true);
            assert forall|n: nat| n < self.rooms().len() implies #[trigger] flow_count(h, n, true) <= 1 by {
                lemma_counts_push(h0, e, n);
            }
        }
        Some(child)
    }

    /// Adds a room before `child`, unless two halls already lead into it: before the source,
    /// a new source with flow; elsewhere, a room without flow (its hall has flow).
    pub fn add_new_parent(&mut self, child: NodeIndex<u8>) -> (r: Option<NodeIndex<u8>>)
        requires
            old(self).wf(),
            node_number(child) < old(self).rooms().len(),
            old(self).rooms().len() < 255,
            old(self).halls().len() < 255,
        ensures
            final(self).wf(),
            in_count(old(self).halls(), node_number(child)) >= 2 ==> r is None && final(self).rooms() == old(self).rooms()
                && final(self).halls() == old(self).halls() && final(self).source_room() == old(self).source_room()
                && final(self).sink_room() == old(self).sink_room(),
            in_count(old(self).halls(), node_number(child)) < 2 ==> {
                let at_source = node_number(child) == old(self).source_room();
                let n = old(self).rooms().len();
                &&& r matches Some(p) && node_number(p) == n
                &&& final(self).rooms() == old(self).rooms().push(
                    Room { has_flow: at_source, flow_seen: 0, flow_absorbed: 0 },
                )
                &&& final(self).halls() == old(self).halls().push((n, node_number(child), Hall { has_flow: true, flow_seen: 0 }))
                &&& final(self).source_room() == if at_source { n } else { old(self).source_room() }
                &&& final(self).sink_room() == old(self).sink_room()
            },
    {
        if neighbor_count(&self.graph, child, false) >= 2 {
            return None;
        }
        let ghost h0 = self.halls();
        let ghost n0 = self.rooms().len();
        let at_source = same_room(child, self.source.0);
        let parent = add_room_leading_to(
            &mut self.graph,
            Room { has_flow: at_source, flow_seen: 0, flow_absorbed: 0 },
            child,
            Hall::new(true),
        );
        if at_source {
            self.source.0 = parent;
        }
        proof {
            let e = (n0, node_number(child), Hall { has_flow: true, flow_seen: 0 });
            let h = self.halls();
            assert(h == h0.push(e));
            assert forall|k: int| 0 <= k < h.len() implies (#[trigger] h[k]).0 < self.rooms().len() && h[k].1
                < self.rooms().len() by {
                if k < h0.len() {
                    assert(h[k] == h0[k]);
                }
            }
            assert forall|k: int| 0 <= k < h0.len() implies (#[trigger] h0[k]).0 != n0 && h0[k].1 != n0 by {}
            lemma_no_halls_from(h0, n0);
            lemma_no_halls_to(h0, n0);
            lemma_counts_push(h0, e, self.source_room());
            lemma_counts_push(h0, e, self.sink_room());
            assert forall|n: nat| n < self.rooms().len() implies #[trigger] flow_count(h, n, true) <= 1 by {
                lemma_counts_push(h0, e, n);
            }
        }
        Some(parent)
    }

    /// The rooms of the river, from the source along the halls with flow (the most recently
    /// added one where a room has several), to the first room without one.
    #[must_use]
    pub fn get_river_nodes(&self) -> (r: Vec<NodeIndex<u8>>)
        requires
            self.wf(),
            exists|fuel: nat| river_ends(self.halls(), self.source_room(), fuel),
        ensures
            ({
                let fuel = choose|fuel: nat| river_ends(self.halls(), self.source_room(), fuel);
                &&& r.len() == river_from(self.halls(), self.source_room(), fuel).len()
                &&& forall|k: int|
                    0 <= k < r.len() ==> node_number(#[trigger] r@[k]) == river_from(self.halls(), self.source_room(), fuel)[k]
            }),
    {
        let ghost halls = self.halls();
        let ghost fuel = choose|fuel: nat| river_ends(self.halls(), self.source_room(), fuel);
        let ghost whole = river_from(halls, self.source_room(), fuel);
        let mut out: Vec<NodeIndex<u8>> = Vec::new();
        let mut current = self.source.0;
        let ghost mut left: nat = fuel;
        loop
            invariant
                self.wf(),
                halls == self.halls(),
                node_number(current) < self.rooms().len(),
                river_ends(halls, node_number(current), left),
                fuel == choose|fuel: nat| river_ends(self.halls(), self.source_room(), fuel),
                whole == river_from(halls, self.source_room(), fuel),
                out.len() + river_from(halls, node_number(current), left).len() == whole.len(),
                forall|k: int| 0 <= k < out.len() ==> node_number(#[trigger] out@[k]) == whole[k],
                forall|k: int|
                    0 <= k < river_from(halls, node_number(current), left).len() ==> whole[out.len() + k]
                        == #[trigger] river_from(halls, node_number(current), left)[k],
            decreases left,
        {
            let ghost rest = river_from(halls, node_number(current), left);
            out.push(current);
            let next = first_flowing_room(&self.graph, current);
            proof {
                lemma_flows_to_first(halls, node_number(current));
                assert(rest[0] == node_number(current));
                assert(node_number(out@[out.len() - 1]) == whole[out.len() - 1]);
            }
            match next {
                Some(m) => {
                    proof {
                        let k = choose|k: int| 0 <= k < halls.len() && (#[trigger] halls[k]).0 == node_number(current)
                            && halls[k].1 == node_number(m);
                        assert(halls[k].1 < self.rooms().len());
                        let tail = river_from(halls, node_number(m), (left - 1) as nat);
                        assert(rest == seq![node_number(current)] + tail);
                        assert forall|k: int| 0 <= k < tail.len() implies whole[out.len() + k] == #[trigger] tail[k] by {
                            assert(rest[k + 1] == tail[k]);
                        }
                        left = (left - 1) as nat;
                    }
                    current = m;
                },
                None => {
                    proof {
                        assert(flows_to(halls, node_number(current)) is None);
                        assert(rest == seq![node_number(current)]);
                        assert(out.len() == whole.len());
                    }
                    return out;
                },
            }
        }
    }
}

/// The room that the first hall with flow out of `n`, as `edges_directed` lists them,
/// leads to.
fn first_flowing_room(graph: &Graph<Room, Hall, Directed, u8>, n: NodeIndex<u8>) -> (r: Option<NodeIndex<u8>>)
    requires
        node_number(n) < graph_rooms(*graph).len(),
    ensures
        match r {
            Some(m) => first_flowing(out_halls(graph_halls(*graph), node_number(n))) == Some(node_number(m))
                && has_hall(graph_halls(*graph), node_number(n), node_number(m)),
            None => first_flowing(out_halls(graph_halls(*graph), node_number(n))) is None,
        },
{
    let outs = outgoing_halls(graph, n);
    let ghost o = out_halls(graph_halls(*graph), node_number(n));
    proof {
        lemma_out_halls_from(graph_halls(*graph), node_number(n));
        assert(o.subrange(0, o.len() as int) =~= o);
    }
    let mut k: usize = 0;
    while k < outs.len()
        invariant
            k <= outs.len(),
            outs.len() == o.len(),
            o == out_halls(graph_halls(*graph), node_number(n)),
            forall|j: int| 0 <= j < outs.len() ==> node_number((#[trigger] outs@[j]).0) == o[j].0 && outs@[j].1 == o[j].1,
            forall|j: int| 0 <= j < o.len() ==> has_hall(graph_halls(*graph), node_number(n), (#[trigger] o[j]).0),
            first_flowing(o) == first_flowing(o.subrange(k as int, o.len() as int)),
        decreases outs.len() - k,
    {
        let (target, hall) = outs[k];
        proof {
            let rest = o.subrange(k as int, o.len() as int);
            assert(rest[0] == o[k as int]);
            assert(rest.drop_first() =~= o.subrange(k + 1, o.len() as int));
            assert(outs@[k as int] == (target, hall));
        }
        if hall.has_flow {
            proof {
                assert(o[k as int].0 == node_number(target));
            }
            return Some(target);
        }
        k += 1;
    }
    proof {
        assert(o.subrange(k as int, o.len() as int).len() == 0);
    }
    None
}

/// Some hall leads from room `a` to room `b`.
pub open spec fn has_hall(halls: Seq<(nat, nat, Hall)>, a: nat, b: nat) -> bool {
    exists|w: int| 0 <= w < halls.len() && (#[trigger] halls[w]).0 == a && halls[w].1 == b
}

/// Every hall listed out of `n` is a hall of the graph from `n`.
proof fn lemma_out_halls_from(halls: Seq<(nat, nat, Hall)>, n: nat)
    ensures
        forall|j: int| 0 <= j < out_halls(halls, n).len() ==> has_hall(halls, n, (#[trigger] out_halls(halls, n)[j]).0),
    decreases halls.len(),
{
    if halls.len() > 0 {
        let pre = halls.drop_last();
        lemma_out_halls_from(pre, n);
        let o = out_halls(halls, n);
        let op = out_halls(pre, n);
        assert forall|j: int| 0 <= j < o.len() implies has_hall(halls, n, (#[trigger] o[j]).0) by {
            if halls.last().0 == n && j == 0 {
                let w = halls.len() - 1;
                assert(halls[w] == halls.last());
            } else {
                let i = if halls.last().0 == n { j - 1 } else { j };
                assert(o[j] == op[i]);
                assert(has_hall(pre, n, op[i].0));
                let w = choose|w: int| 0 <= w < pre.len() && (#[trigger] pre[w]).0 == n && pre[w].1 == op[i].0;
                assert(halls[w] == pre[w]);
            }
        }
    }
}

impl Default for Branch {
    fn default() -> (r: Self)
        ensures
            r.valid(),
            r.rooms() == seq![Room { has_flow: true, flow_seen: 0, flow_absorbed: 0 }],
            r.halls() == Seq::<(nat, nat, Hall)>::empty(),
    {
        Self::new()
    }
}

} // verus!
