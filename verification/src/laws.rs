//! Laws of the server model: properties that hold of every execution,
//! stated over the spec transitions of [`crate::state`] and proved once and
//! for all.

use vstd::prelude::*;

use crate::state::{
    add_edges, knows, norm_edge, path_to, relax_dir, relax_n, relax_pass, route_edges, ServerV,
};
use crate::messages::{ClientId, ServerId};
use crate::MAILBOX_SIZE;

verus! {

/// In every reachable state, no mailbox holds more than [`MAILBOX_SIZE`]
/// entries.
pub proof fn lemma_mailbox_bounded(v: ServerV, c: ClientId)
    requires
        v.inv(),
        v.boxes.contains_key(c),
    ensures
        v.boxes[c].len() <= MAILBOX_SIZE as int,
{
}

/// Accepted sequence numbers strictly increase: of two envelopes from one
/// sender accepted one after the other, the second carries the larger
/// number.
pub proof fn lemma_seqids_strictly_increase(v: ServerV, src: ClientId, id1: u128, id2: u128)
    requires
        v.seq_accepts(src, id1),
        v.seq_step(src, id1).seq_accepts(src, id2),
    ensures
        id1 < id2,
{
}

/// Identifiers of successively registered clients are distinct:
/// registration only ever returns an identifier absent from the local
/// roster, and every earlier one is present.
pub proof fn lemma_registered_ids_distinct(
    v: ServerV,
    c1: ClientId,
    n1: Seq<char>,
    c2: ClientId,
)
    requires
        !v.register(c1, n1).names.contains_key(c2),
    ensures
        c1 != c2,
{
}

/// Dispatch replies align with destinations: one reply per destination, in
/// order.
pub proof fn lemma_reply_per_destination(
    v: ServerV,
    src: ClientId,
    dests: Seq<ClientId>,
    content: Seq<char>,
)
    ensures
        v.dispatch(src, dests, content).1.len() == dests.len(),
    decreases dests.len(),
{
    if dests.len() > 0 {
        lemma_reply_per_destination(v, src, dests.drop_last(), content);
    }
}

/// One route table is no worse than another: everything the first reaches,
/// the second reaches by a path no longer.
pub open spec fn no_worse(
    m1: Map<ServerId, Seq<ServerId>>,
    m2: Map<ServerId, Seq<ServerId>>,
) -> bool {
    forall|d: ServerId|
        #[trigger] m1.contains_key(d) ==> m2.contains_key(d) && m2[d].len() <= m1[d].len()
}

/// One directed relaxation never loses a destination and never lengthens a
/// stored path.
proof fn lemma_relax_dir_no_worse(
    m: Map<ServerId, Seq<ServerId>>,
    selfid: ServerId,
    a: ServerId,
    b: ServerId,
)
    ensures
        no_worse(m, relax_dir(m, selfid, a, b)),
{
}

/// One relaxation pass never loses a destination and never lengthens a
/// stored path.
proof fn lemma_relax_pass_no_worse(
    m: Map<ServerId, Seq<ServerId>>,
    selfid: ServerId,
    es: Seq<(ServerId, ServerId)>,
)
    ensures
        no_worse(m, relax_pass(m, selfid, es)),
    decreases es.len(),
{
    if es.len() > 0 {
        let prev = relax_pass(m, selfid, es.drop_last());
        lemma_relax_pass_no_worse(m, selfid, es.drop_last());
        lemma_relax_dir_no_worse(prev, selfid, es.last().0, es.last().1);
        lemma_relax_dir_no_worse(
            relax_dir(prev, selfid, es.last().0, es.last().1),
            selfid,
            es.last().1,
            es.last().0,
        );
    }
}

/// Any number of relaxation passes never loses a destination and never
/// lengthens a stored path.
pub proof fn lemma_relax_n_no_worse(
    m: Map<ServerId, Seq<ServerId>>,
    selfid: ServerId,
    es: Seq<(ServerId, ServerId)>,
    k: int,
)
    ensures
        no_worse(m, relax_n(m, selfid, es, k)),
    decreases k,
{
    if k > 0 {
        lemma_relax_n_no_worse(m, selfid, es, k - 1);
        lemma_relax_pass_no_worse(relax_n(m, selfid, es, k - 1), selfid, es);
    }
}

/// A pass over a list holding a link whose one end the table reaches leaves
/// the other end reached, by a path at most one hop longer than that end's.
proof fn lemma_relax_pass_covers(
    m: Map<ServerId, Seq<ServerId>>,
    selfid: ServerId,
    es: Seq<(ServerId, ServerId)>,
    x: ServerId,
    y: ServerId,
)
    requires
        es.contains(norm_edge(x, y)),
        knows(m, selfid, x),
        y != selfid,
    ensures
        relax_pass(m, selfid, es).contains_key(y),
        relax_pass(m, selfid, es)[y].len() <= path_to(m, selfid, x).len() + 1,
    decreases es.len(),
{
    let e = norm_edge(x, y);
    let prev = relax_pass(m, selfid, es.drop_last());
    let bound = path_to(m, selfid, x).len() + 1;
    if es.last() == e {
        lemma_relax_pass_no_worse(m, selfid, es.drop_last());
        assert(knows(prev, selfid, x));
        assert(path_to(prev, selfid, x).len() <= path_to(m, selfid, x).len());
        let m1 = relax_dir(prev, selfid, e.0, e.1);
        let m2 = relax_dir(m1, selfid, e.1, e.0);
        if e == (x, y) {
            assert(m1.contains_key(y) && m1[y].len() <= bound);
            lemma_relax_dir_no_worse(m1, selfid, e.1, e.0);
        } else {
            assert(e == (y, x));
            lemma_relax_dir_no_worse(prev, selfid, e.0, e.1);
            assert(knows(m1, selfid, x));
            assert(path_to(m1, selfid, x).len() <= path_to(m, selfid, x).len());
            assert(m2.contains_key(y) && m2[y].len() <= bound);
        }
    } else {
        let i = choose|i: int| 0 <= i < es.len() && es[i] == e;
        assert(es.drop_last()[i] == e);
        assert(es.drop_last().contains(e));
        lemma_relax_pass_covers(m, selfid, es.drop_last(), x, y);
        lemma_relax_dir_no_worse(prev, selfid, es.last().0, es.last().1);
        lemma_relax_dir_no_worse(
            relax_dir(prev, selfid, es.last().0, es.last().1),
            selfid,
            es.last().1,
            es.last().0,
        );
    }
}

/// A chain of known links from this server: each consecutive pair is a
/// recorded link.
pub open spec fn is_link_path(
    es: Seq<(ServerId, ServerId)>,
    selfid: ServerId,
    p: Seq<ServerId>,
) -> bool {
    &&& p.len() >= 1
    &&& p[0] == selfid
    &&& forall|i: int| 0 <= i < p.len() - 1 ==> es.contains(#[trigger] norm_edge(p[i], p[i + 1]))
}

/// Enough relaxation passes beat any chain of known links: what the chain
/// reaches, the table then reaches by a path no longer than the chain.
pub proof fn lemma_relax_beats_path(
    m: Map<ServerId, Seq<ServerId>>,
    selfid: ServerId,
    es: Seq<(ServerId, ServerId)>,
    k: int,
    p: Seq<ServerId>,
)
    requires
        is_link_path(es, selfid, p),
        p.len() >= 2,
        p.last() != selfid,
        p.len() <= k + 1,
    ensures
        relax_n(m, selfid, es, k).contains_key(p.last()),
        relax_n(m, selfid, es, k)[p.last()].len() <= p.len(),
    decreases p.len(),
{
    let dest = p.last();
    let u = p[p.len() - 2];
    let mprev = relax_n(m, selfid, es, k - 1);
    let i0 = p.len() - 2;
    assert(es.contains(norm_edge(p[i0], p[i0 + 1])));
    assert(es.contains(norm_edge(u, dest)));
    if u != selfid && p.len() > 2 {
        assert(is_link_path(es, selfid, p.drop_last())) by {
            assert forall|i: int|
                0 <= i < p.drop_last().len() - 1 implies es.contains(
                #[trigger] norm_edge(p.drop_last()[i], p.drop_last()[i + 1]),
            ) by {
                assert(p.drop_last()[i] == p[i]);
                assert(p.drop_last()[i + 1] == p[i + 1]);
            }
        }
        lemma_relax_beats_path(m, selfid, es, k - 1, p.drop_last());
        assert(path_to(mprev, selfid, u).len() <= p.len() - 1);
    } else {
        assert(u == selfid) by {
            if p.len() == 2 {
                assert(p[0] == selfid);
            }
        }
    }
    assert(knows(mprev, selfid, u));
    assert(path_to(mprev, selfid, u).len() <= p.len() - 1);
    lemma_relax_pass_covers(mprev, selfid, es, u, dest);
    assert(relax_n(m, selfid, es, k) == relax_pass(mprev, selfid, es));
}

/// Joining links keeps every link already known and records every offered
/// one.
pub proof fn lemma_add_edges_contains(
    es: Seq<(ServerId, ServerId)>,
    new: Seq<(ServerId, ServerId)>,
)
    ensures
        forall|x: (ServerId, ServerId)|
            es.contains(x) ==> #[trigger] add_edges(es, new).contains(x),
        forall|i: int| 0 <= i < new.len() ==> add_edges(es, new).contains(#[trigger] new[i]),
    decreases new.len(),
{
    if new.len() > 0 {
        lemma_add_edges_contains(es, new.drop_last());
        let prev = add_edges(es, new.drop_last());
        let r = add_edges(es, new);
        assert forall|x: (ServerId, ServerId)| prev.contains(x) implies r.contains(x) by {
            let i = choose|i: int| 0 <= i < prev.len() && prev[i] == x;
            assert(r[i] == x);
        }
        assert forall|i: int| 0 <= i < new.len() implies r.contains(#[trigger] new[i]) by {
            if i < new.len() - 1 {
                assert(new.drop_last()[i] == new[i]);
                assert(prev.contains(new[i]));
            } else {
                if prev.contains(new.last()) {
                } else {
                    assert(r.last() == new.last());
                }
            }
        }
    }
}

/// Joining links already known changes nothing.
proof fn lemma_add_edges_known(es: Seq<(ServerId, ServerId)>, new: Seq<(ServerId, ServerId)>)
    requires
        forall|i: int| 0 <= i < new.len() ==> es.contains(#[trigger] new[i]),
    ensures
        add_edges(es, new) == es,
    decreases new.len(),
{
    if new.len() > 0 {
        assert forall|i: int| 0 <= i < new.drop_last().len() implies es.contains(
            #[trigger] new.drop_last()[i],
        ) by {
            assert(new.drop_last()[i] == new[i]);
        }
        lemma_add_edges_known(es, new.drop_last());
        assert(es.contains(new.last()));
    }
}

/// An announcement never worsens the route table: every destination routed
/// before it is still routed afterwards, by a path no longer than before.
pub proof fn lemma_announce_no_worse_routes(
    v: ServerV,
    route: Seq<ServerId>,
    clients: Seq<(ClientId, Seq<char>)>,
)
    requires
        route.len() >= 1,
    ensures
        no_worse(v.routes, v.announce(route, clients).0.routes),
{
    let es2 = add_edges(v.edges, route_edges(v.id, route));
    let rt2 = if es2.len() == v.edges.len() {
        v.routes
    } else {
        relax_n(v.routes, v.id, es2, es2.len() as int + route.len() as int + 1)
    };
    lemma_relax_n_no_worse(v.routes, v.id, es2, es2.len() as int + route.len() as int + 1);
    let v1 = ServerV { edges: es2, routes: rt2, ..v };
    if !(route[0] == v.id || !rt2.contains_key(route[0])) {
        crate::state::lemma_announce_clients_frame(v1, route[0], clients);
    }
}

/// No announcement that reveals a new link ever offers a strictly shorter
/// path than what is stored once it is handled: the path it offers to each
/// of its hops — through every hop between that one and this server — is at
/// least as long as the stored path. An announcement revealing no new link
/// leaves the table untouched, and its offers were matched when its links
/// first arrived, which with [`lemma_announce_no_worse_routes`] carries the
/// bound to every later state.
pub proof fn lemma_announce_offer_bound(
    v: ServerV,
    route: Seq<ServerId>,
    clients: Seq<(ClientId, Seq<char>)>,
    j: int,
)
    requires
        0 <= j < route.len(),
        route.reverse()[j] != v.id,
        add_edges(v.edges, route_edges(v.id, route)).len() != v.edges.len(),
    ensures
        v.announce(route, clients).0.routes.contains_key(route.reverse()[j]),
        v.announce(route, clients).0.routes[route.reverse()[j]].len() <= j + 2,
{
    let rev = route.reverse();
    let n = route.len() as int;
    let es2 = add_edges(v.edges, route_edges(v.id, route));
    let k = es2.len() as int + n + 1;
    let rt2 = relax_n(v.routes, v.id, es2, k);
    let p = seq![v.id] + rev.take(j + 1);
    lemma_route_edges_between(v.id, route);
    lemma_add_edges_contains(v.edges, route_edges(v.id, route));
    assert(is_link_path(es2, v.id, p)) by {
        assert forall|i: int| 0 <= i < p.len() - 1 implies es2.contains(
            #[trigger] norm_edge(p[i], p[i + 1]),
        ) by {
            if i == 0 {
                assert(p[0] == v.id && p[1] == rev[0]);
                assert(rev[0] == route[n - 1]);
                assert(route_edges(v.id, route)[n - 1] == norm_edge(route[n - 1], v.id));
                assert(norm_edge(v.id, rev[0]) == norm_edge(route[n - 1], v.id));
            } else {
                assert(p[i] == rev[i - 1] && p[i + 1] == rev[i]);
                assert(rev[i - 1] == route[n - i] && rev[i] == route[n - 1 - i]);
                assert(route_edges(v.id, route)[n - 1 - i] == norm_edge(
                    route[n - 1 - i],
                    route[n - i],
                ));
                assert(norm_edge(rev[i - 1], rev[i]) == norm_edge(route[n - 1 - i], route[n - i]));
            }
        }
    }
    assert(p.last() == rev[j]);
    assert(p.len() == j + 2);
    lemma_relax_beats_path(v.routes, v.id, es2, k, p);
    let v1 = ServerV { edges: es2, routes: rt2, ..v };
    if !(route[0] == v.id || !rt2.contains_key(route[0])) {
        crate::state::lemma_announce_clients_frame(v1, route[0], clients);
    }
}

/// The links of a route, position by position, as
/// [`crate::state::lemma_route_edges_index`] gives them.
proof fn lemma_route_edges_between(selfid: ServerId, route: Seq<ServerId>)
    ensures
        route_edges(selfid, route).len() == route.len(),
        forall|i: int|
            0 <= i < route.len() ==> #[trigger] route_edges(selfid, route)[i] == (if i + 1
                < route.len() {
                norm_edge(route[i], route[i + 1])
            } else {
                norm_edge(route[route.len() - 1], selfid)
            }),
{
    crate::state::lemma_route_edges_index(selfid, route);
}

/// Re-applying the very same announcement changes neither the recorded
/// links nor any stored path: an offer no shorter than the incumbent keeps
/// the incumbent.
pub proof fn lemma_announce_idempotent_routes(
    v: ServerV,
    route: Seq<ServerId>,
    clients: Seq<(ClientId, Seq<char>)>,
)
    requires
        route.len() >= 1,
    ensures
        ({
            let v2 = v.announce(route, clients).0;
            let v3 = v2.announce(route, clients).0;
            v3.routes == v2.routes && v3.edges == v2.edges
        }),
{
    let re = route_edges(v.id, route);
    let es2 = add_edges(v.edges, re);
    let v2 = v.announce(route, clients).0;
    assert(v2.edges == es2 && v2.id == v.id) by {
        let rt2 = if es2.len() == v.edges.len() {
            v.routes
        } else {
            relax_n(v.routes, v.id, es2, es2.len() as int + route.len() as int + 1)
        };
        let v1 = ServerV { edges: es2, routes: rt2, ..v };
        if !(route[0] == v.id || !rt2.contains_key(route[0])) {
            crate::state::lemma_announce_clients_frame(v1, route[0], clients);
        }
    }
    lemma_add_edges_contains(v.edges, re);
    assert forall|i: int| 0 <= i < re.len() implies es2.contains(#[trigger] re[i]) by {}
    lemma_add_edges_known(es2, re);
    let rt3 = v2.routes;
    let v1b = ServerV { edges: es2, routes: rt3, ..v2 };
    if !(route[0] == v2.id || !rt3.contains_key(route[0])) {
        crate::state::lemma_announce_clients_frame(v1b, route[0], clients);
    }
}

/// Every client an announcement with a routable far end names is recorded
/// with that far end — the announcer — as its home server.
pub proof fn lemma_announce_home(
    v: ServerV,
    route: Seq<ServerId>,
    clients: Seq<(ClientId, Seq<char>)>,
    c: ClientId,
)
    requires
        route.len() >= 1,
        route[0] != v.id,
        ({
            let es2 = add_edges(v.edges, route_edges(v.id, route));
            let rt2 = if es2.len() == v.edges.len() {
                v.routes
            } else {
                relax_n(v.routes, v.id, es2, es2.len() as int + route.len() as int + 1)
            };
            rt2.contains_key(route[0])
        }),
        exists|i: int| 0 <= i < clients.len() && clients[i].0 == c,
    ensures
        v.announce(route, clients).0.remotes.contains_key(c),
        v.announce(route, clients).0.remotes[c].1 == route[0],
{
    let es2 = add_edges(v.edges, route_edges(v.id, route));
    let rt2 = if es2.len() == v.edges.len() {
        v.routes
    } else {
        relax_n(v.routes, v.id, es2, es2.len() as int + route.len() as int + 1)
    };
    let v1 = ServerV { edges: es2, routes: rt2, ..v };
    lemma_announce_clients_home(v1, route[0], clients, c);
}

/// Helper for [`lemma_announce_home`]: the roster fold records every named
/// client with the given home server.
proof fn lemma_announce_clients_home(
    v: ServerV,
    home: ServerId,
    clients: Seq<(ClientId, Seq<char>)>,
    c: ClientId,
)
    requires
        exists|i: int| 0 <= i < clients.len() && clients[i].0 == c,
    ensures
        v.announce_clients(home, clients).0.remotes.contains_key(c),
        v.announce_clients(home, clients).0.remotes[c].1 == home,
    decreases clients.len(),
{
    let i = choose|i: int| 0 <= i < clients.len() && clients[i].0 == c;
    if clients.last().0 != c {
        assert(clients.drop_last()[i] == clients[i]);
        lemma_announce_clients_home(v, home, clients.drop_last(), c);
    }
}

} // verus!
