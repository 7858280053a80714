//! The mathematical model of the server: its state as maps, and one spec
//! transition per operation. The contracts of [`crate::server::Server`]
//! state that each executable operation takes the view of the server along
//! exactly these transitions.

use vstd::prelude::*;

use crate::messages::{
    ClientErrorV, ClientId, ClientReplyV, FqMessageV, OutgoingV, ServerId, ServerMessageV,
};
use crate::MAILBOX_SIZE;

verus! {

/// View of the server: one map per table.
pub ghost struct ServerV {
    /// This server's own identifier.
    pub id: ServerId,
    /// Every federation link ever learnt from an announcement, in the order
    /// first seen, each held once with its endpoints ordered by identifier.
    pub edges: Seq<(ServerId, ServerId)>,
    /// Local roster: locally registered client to screen name.
    pub names: Map<ClientId, Seq<char>>,
    /// Last accepted sequence number of each local client.
    pub seqs: Map<ClientId, u128>,
    /// Mailbox of each local client, oldest entry first.
    pub boxes: Map<ClientId, Seq<(ClientId, Seq<char>)>>,
    /// Remote roster: remote client to screen name and home server.
    pub remotes: Map<ClientId, (Seq<char>, ServerId)>,
    /// Hold queue: messages awaiting a destination not yet known, oldest
    /// first.
    pub holds: Map<ClientId, Seq<(ClientId, Seq<char>)>>,
    /// Best known path to each known server, starting at this server.
    pub routes: Map<ServerId, Seq<ServerId>>,
}

/// A stored path: it leads from this server (inclusive) to its key.
pub open spec fn route_shape(selfid: ServerId, dest: ServerId, p: Seq<ServerId>) -> bool {
    &&& p.len() >= 2
    &&& p[0] == selfid
    &&& p[p.len() - 1] == dest
}

impl ServerV {
    /// The state of a freshly created server.
    pub open spec fn init(id: ServerId) -> ServerV {
        ServerV {
            id,
            edges: Seq::empty(),
            names: Map::empty(),
            seqs: Map::empty(),
            boxes: Map::empty(),
            remotes: Map::empty(),
            holds: Map::empty(),
            routes: Map::empty(),
        }
    }

    /// Invariant of every reachable server state: the three per-local-client
    /// maps share their domain, no mailbox exceeds its bound, every stored
    /// route leads from this server to its key, and every remote client's
    /// home server has a stored route.
    pub open spec fn inv(self) -> bool {
        &&& self.seqs.dom() == self.names.dom()
        &&& self.boxes.dom() == self.names.dom()
        &&& forall|c: ClientId|
            self.boxes.contains_key(c) ==> #[trigger] self.boxes[c].len() <= MAILBOX_SIZE as int
        &&& forall|d: ServerId|
            self.routes.contains_key(d) ==> route_shape(self.id, d, #[trigger] self.routes[d])
        &&& forall|c: ClientId|
            self.remotes.contains_key(c) ==> self.routes.contains_key(
                (#[trigger] self.remotes[c]).1,
            )
    }

    /// Registration of an admitted client under a fresh identifier: roster
    /// entry, sequence tracker at zero, empty mailbox.
    pub open spec fn register(self, c: ClientId, name: Seq<char>) -> ServerV {
        ServerV {
            names: self.names.insert(c, name),
            seqs: self.seqs.insert(c, 0),
            boxes: self.boxes.insert(c, Seq::empty()),
            ..self
        }
    }

    /// Whether a sequenced message from `src` with this sequence number is
    /// accepted: the sender is local and the number strictly increases.
    pub open spec fn seq_accepts(self, src: ClientId, seqid: u128) -> bool {
        self.names.contains_key(src) && self.seqs[src] < seqid
    }

    /// Acceptance of a sequenced message: the tracker moves to the accepted
    /// number.
    pub open spec fn seq_step(self, src: ClientId, seqid: u128) -> ServerV {
        ServerV { seqs: self.seqs.insert(src, seqid), ..self }
    }

    /// The union of both rosters, a local entry prevailing over a remote one
    /// under the same identifier.
    pub open spec fn users(self) -> Map<ClientId, Seq<char>> {
        self.remotes.map_values(|p: (Seq<char>, ServerId)| p.0).union_prefer_right(self.names)
    }

    /// The peer to which anything bound for `dest` leaves this server: the
    /// first hop after this server on the stored path.
    pub open spec fn nexthop(self, dest: ServerId) -> ServerId {
        self.routes[dest][1]
    }

    /// Dispatch of one destination of a client message. Local: delivered to
    /// the mailbox, unless it is full. Known remote: transferred towards its
    /// home server. Unknown: held until an announcement names it, and
    /// reported as delayed.
    pub open spec fn dispatch_one(self, src: ClientId, d: ClientId, content: Seq<char>) -> (
        ServerV,
        ClientReplyV,
    ) {
        if self.names.contains_key(d) {
            if self.boxes[d].len() < MAILBOX_SIZE as int {
                (
                    ServerV {
                        boxes: self.boxes.insert(d, self.boxes[d].push((src, content))),
                        ..self
                    },
                    ClientReplyV::Delivered,
                )
            } else {
                (self, ClientReplyV::Error(ClientErrorV::BoxFull(d)))
            }
        } else if self.remotes.contains_key(d) {
            let h = self.remotes[d].1;
            (
                self,
                ClientReplyV::Transfer(
                    self.nexthop(h),
                    ServerMessageV::Message(
                        FqMessageV { src, srcsrv: self.id, dsts: seq![(d, h)], content },
                    ),
                ),
            )
        } else {
            let q = if self.holds.contains_key(d) {
                self.holds[d]
            } else {
                Seq::empty()
            };
            (
                ServerV { holds: self.holds.insert(d, q.push((src, content))), ..self },
                ClientReplyV::Delayed,
            )
        }
    }

    /// Dispatch of a whole destination list, left to right; the reply list
    /// aligns with the destinations.
    pub open spec fn dispatch(self, src: ClientId, dests: Seq<ClientId>, content: Seq<char>) -> (
        ServerV,
        Seq<ClientReplyV>,
    )
        decreases dests.len(),
    {
        if dests.len() == 0 {
            (self, Seq::empty())
        } else {
            let (v1, rs) = self.dispatch(src, dests.drop_last(), content);
            let (v2, r) = v1.dispatch_one(src, dests.last(), content);
            (v2, rs.push(r))
        }
    }

    /// One step of the announce roster update: record the announced client
    /// with the announcer as home, then drain anything held for it, one
    /// outgoing message per held entry, in hold order.
    pub open spec fn announce_client(self, home: ServerId, cid: ClientId, name: Seq<char>) -> (
        ServerV,
        Seq<OutgoingV>,
    ) {
        let v = ServerV { remotes: self.remotes.insert(cid, (name, home)), ..self };
        if v.holds.contains_key(cid) {
            let outs = v.holds[cid].map_values(
                |e: (ClientId, Seq<char>)| OutgoingV {
                    nexthop: v.nexthop(home),
                    message: FqMessageV {
                        src: e.0,
                        srcsrv: v.id,
                        dsts: seq![(cid, home)],
                        content: e.1,
                    },
                },
            );
            (ServerV { holds: v.holds.insert(cid, Seq::empty()), ..v }, outs)
        } else {
            (v, Seq::empty())
        }
    }

    /// The announce roster update over the whole announced client list, in
    /// list order.
    pub open spec fn announce_clients(
        self,
        home: ServerId,
        clients: Seq<(ClientId, Seq<char>)>,
    ) -> (ServerV, Seq<OutgoingV>)
        decreases clients.len(),
    {
        if clients.len() == 0 {
            (self, Seq::empty())
        } else {
            let (v1, outs) = self.announce_clients(home, clients.drop_last());
            let (v2, drained) = v1.announce_client(home, clients.last().0, clients.last().1);
            (v2, outs + drained)
        }
    }

    /// A non-empty announcement: the route's links join the known topology
    /// and best paths are recomputed; then the roster is updated and held
    /// messages drain. The announced clients live at the far end of the
    /// route; where that end is this server itself, or stays unreachable —
    /// both only under a malformed announcement — the client list is
    /// ignored, since no home route could serve those clients.
    pub open spec fn announce(self, route: Seq<ServerId>, clients: Seq<(ClientId, Seq<char>)>) -> (
        ServerV,
        Seq<OutgoingV>,
    ) {
        let es2 = add_edges(self.edges, route_edges(self.id, route));
        let rt2 = if es2.len() == self.edges.len() {
            self.routes
        } else {
            relax_n(self.routes, self.id, es2, es2.len() as int + route.len() as int + 1)
        };
        let v1 = ServerV { edges: es2, routes: rt2, ..self };
        let home = route[0];
        if home == self.id || !rt2.contains_key(home) {
            (v1, Seq::empty())
        } else {
            v1.announce_clients(home, clients)
        }
    }

    /// Handling of one destination pair of an in-transit message. Local:
    /// delivered unless the mailbox is full, in which case it is dropped
    /// here. Otherwise forwarded towards the carried home server if a route
    /// is stored, and dropped if none is: an in-transit message never enters
    /// the hold queue.
    pub open spec fn forward_one(
        self,
        src: ClientId,
        srcsrv: ServerId,
        content: Seq<char>,
        dst: (ClientId, ServerId),
    ) -> (ServerV, Seq<OutgoingV>) {
        let (cid, home) = dst;
        if self.names.contains_key(cid) {
            if self.boxes[cid].len() < MAILBOX_SIZE as int {
                (
                    ServerV {
                        boxes: self.boxes.insert(cid, self.boxes[cid].push((src, content))),
                        ..self
                    },
                    Seq::empty(),
                )
            } else {
                (self, Seq::empty())
            }
        } else if self.routes.contains_key(home) {
            (
                self,
                seq![
                    OutgoingV {
                        nexthop: self.nexthop(home),
                        message: FqMessageV { src, srcsrv, dsts: seq![(cid, home)], content },
                    }
                ],
            )
        } else {
            (self, Seq::empty())
        }
    }

    /// Handling of an in-transit message over its whole destination list, in
    /// list order.
    pub open spec fn forward(
        self,
        src: ClientId,
        srcsrv: ServerId,
        content: Seq<char>,
        dsts: Seq<(ClientId, ServerId)>,
    ) -> (ServerV, Seq<OutgoingV>)
        decreases dsts.len(),
    {
        if dsts.len() == 0 {
            (self, Seq::empty())
        } else {
            let (v1, outs) = self.forward(src, srcsrv, content, dsts.drop_last());
            let (v2, more) = v1.forward_one(src, srcsrv, content, dsts.last());
            (v2, outs + more)
        }
    }
}

/// An undirected federation link, endpoints ordered by identifier.
pub open spec fn norm_edge(a: ServerId, b: ServerId) -> (ServerId, ServerId) {
    if a.id <= b.id {
        (a, b)
    } else {
        (b, a)
    }
}

/// The links an announced route reveals: one per consecutive pair, and one
/// joining its near end to this server.
pub open spec fn route_edges(selfid: ServerId, route: Seq<ServerId>) -> Seq<(ServerId, ServerId)>
    decreases route.len(),
{
    if route.len() == 0 {
        Seq::empty()
    } else if route.len() == 1 {
        seq![norm_edge(route[0], selfid)]
    } else {
        seq![norm_edge(route[0], route[1])] + route_edges(selfid, route.drop_first())
    }
}

/// The known links joined with newly revealed ones, in order, each kept
/// once.
pub open spec fn add_edges(
    es: Seq<(ServerId, ServerId)>,
    new: Seq<(ServerId, ServerId)>,
) -> Seq<(ServerId, ServerId)>
    decreases new.len(),
{
    if new.len() == 0 {
        es
    } else {
        let prev = add_edges(es, new.drop_last());
        if prev.contains(new.last()) {
            prev
        } else {
            prev.push(new.last())
        }
    }
}

/// Whether the table reaches `a`: this server always reaches itself.
pub open spec fn knows(m: Map<ServerId, Seq<ServerId>>, selfid: ServerId, a: ServerId) -> bool {
    a == selfid || m.contains_key(a)
}

/// The path the table knows to `a`, this server's own seat included.
pub open spec fn path_to(m: Map<ServerId, Seq<ServerId>>, selfid: ServerId, a: ServerId) -> Seq<
    ServerId,
> {
    if a == selfid {
        seq![selfid]
    } else {
        m[a]
    }
}

/// One directed relaxation of a link: where the source end is reachable and
/// one more hop first reaches, or strictly shortens the path to, the target
/// end, the target's path becomes the source's path extended by that hop.
/// No path to this server itself is ever stored.
pub open spec fn relax_dir(
    m: Map<ServerId, Seq<ServerId>>,
    selfid: ServerId,
    a: ServerId,
    b: ServerId,
) -> Map<ServerId, Seq<ServerId>> {
    if b == selfid || !knows(m, selfid, a) {
        m
    } else {
        let base = path_to(m, selfid, a);
        if !m.contains_key(b) || m[b].len() > base.len() + 1 {
            m.insert(b, base.push(b))
        } else {
            m
        }
    }
}

/// Relaxation of one link, once in each direction.
pub open spec fn relax_edge(
    m: Map<ServerId, Seq<ServerId>>,
    selfid: ServerId,
    e: (ServerId, ServerId),
) -> Map<ServerId, Seq<ServerId>> {
    relax_dir(relax_dir(m, selfid, e.0, e.1), selfid, e.1, e.0)
}

/// One relaxation pass over every known link, in order.
pub open spec fn relax_pass(
    m: Map<ServerId, Seq<ServerId>>,
    selfid: ServerId,
    es: Seq<(ServerId, ServerId)>,
) -> Map<ServerId, Seq<ServerId>>
    decreases es.len(),
{
    if es.len() == 0 {
        m
    } else {
        relax_edge(relax_pass(m, selfid, es.drop_last()), selfid, es.last())
    }
}

/// `k` relaxation passes: enough of them find every shortest path the known
/// links admit.
pub open spec fn relax_n(
    m: Map<ServerId, Seq<ServerId>>,
    selfid: ServerId,
    es: Seq<(ServerId, ServerId)>,
    k: int,
) -> Map<ServerId, Seq<ServerId>>
    decreases k,
{
    if k <= 0 {
        m
    } else {
        relax_pass(relax_n(m, selfid, es, k - 1), selfid, es)
    }
}

/// Shape of the revealed links: one per route position, each joining that
/// position to the next, the last joining the route's near end to this
/// server.
pub proof fn lemma_route_edges_index(selfid: ServerId, r: Seq<ServerId>)
    ensures
        route_edges(selfid, r).len() == r.len(),
        forall|i: int|
            0 <= i < r.len() ==> #[trigger] route_edges(selfid, r)[i] == (if i + 1 < r.len() {
                norm_edge(r[i], r[i + 1])
            } else {
                norm_edge(r[r.len() - 1], selfid)
            }),
    decreases r.len(),
{
    if r.len() > 1 {
        lemma_route_edges_index(selfid, r.drop_first());
        assert forall|i: int|
            0 <= i < r.len() implies #[trigger] route_edges(selfid, r)[i] == (if i + 1 < r.len() {
            norm_edge(r[i], r[i + 1])
        } else {
            norm_edge(r[r.len() - 1], selfid)
        }) by {
            if i > 0 {
                assert(route_edges(selfid, r)[i] == route_edges(selfid, r.drop_first())[i - 1]);
                assert(r.drop_first()[i - 1] == r[i]);
                if i + 1 < r.len() {
                    assert(r.drop_first()[i] == r[i + 1]);
                }
            }
        }
    }
}

/// Passes compose: `k1 + k2` passes are `k2` passes after `k1`.
pub proof fn lemma_relax_n_add(
    m: Map<ServerId, Seq<ServerId>>,
    selfid: ServerId,
    es: Seq<(ServerId, ServerId)>,
    k1: int,
    k2: int,
)
    requires
        k1 >= 0,
        k2 >= 0,
    ensures
        relax_n(m, selfid, es, k1 + k2) == relax_n(relax_n(m, selfid, es, k1), selfid, es, k2),
    decreases k2,
{
    if k2 > 0 {
        lemma_relax_n_add(m, selfid, es, k1, k2 - 1);
    }
}

/// The announce roster fold touches only the remote roster and the hold
/// queue: identity, links, rosters of local clients, mailboxes, trackers
/// and routes stay as they are.
pub proof fn lemma_announce_clients_frame(
    v: ServerV,
    home: ServerId,
    clients: Seq<(ClientId, Seq<char>)>,
)
    ensures
        ({
            let v2 = v.announce_clients(home, clients).0;
            &&& v2.id == v.id
            &&& v2.edges == v.edges
            &&& v2.names == v.names
            &&& v2.seqs == v.seqs
            &&& v2.boxes == v.boxes
            &&& v2.routes == v.routes
        }),
    decreases clients.len(),
{
    if clients.len() > 0 {
        lemma_announce_clients_frame(v, home, clients.drop_last());
    }
}

} // verus!
