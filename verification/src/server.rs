//! The server core: rosters, mailboxes, hold queues and the route table,
//! with one executable operation per protocol operation. Every operation's
//! contract ties the server's view to the spec transitions of
//! [`crate::state`].

use vstd::prelude::*;

use crate::assoc::{
    kv_distinct, kv_map, lemma_kv_dom, lemma_kv_get, lemma_kv_push, lemma_kv_push_distinct,
    lemma_kv_update,
};
use crate::checker::{spam_decision, spec_spam_decision};
use crate::messages::{
    ClientError, ClientId, ClientMessage, ClientPollReply, ClientPollReplyV, ClientReply,
    FullyQualifiedMessage, Outgoing, OutgoingV, Sequence, ServerId, ServerMessage,
    ServerMessageV, ServerReply, ServerReplyV,
};
use crate::state::{
    add_edges, lemma_announce_clients_frame, lemma_relax_n_add, lemma_route_edges_index,
    norm_edge, path_to, relax_dir, relax_n, relax_pass, route_edges, route_shape, ServerV,
};
use crate::MAILBOX_SIZE;

verus! {

/// A locally registered client: screen name, sequence tracker and mailbox.
struct LocalClient {
    id: ClientId,
    name: String,
    last_seq: u128,
    mailbox: Vec<(ClientId, String)>,
}

/// A remote client learnt from an announcement: screen name and home server.
struct RemoteClient {
    id: ClientId,
    name: String,
    home: ServerId,
}

/// The server: one table per concern, keyed by pairwise-distinct
/// identifiers.
pub struct Server {
    id: ServerId,
    edges: Vec<(ServerId, ServerId)>,
    locals: Vec<LocalClient>,
    remotes: Vec<RemoteClient>,
    holds: Vec<(ClientId, Vec<(ClientId, String)>)>,
    routes: Vec<(ServerId, Vec<ServerId>)>,
}

/// Local roster entries as key/value pairs.
spec fn names_proj(s: Seq<LocalClient>) -> Seq<(ClientId, Seq<char>)> {
    s.map_values(|lc: LocalClient| (lc.id, lc.name@))
}

/// Sequence tracker entries as key/value pairs.
spec fn seqs_proj(s: Seq<LocalClient>) -> Seq<(ClientId, u128)> {
    s.map_values(|lc: LocalClient| (lc.id, lc.last_seq))
}

/// Mailbox entries as key/value pairs.
spec fn boxes_proj(s: Seq<LocalClient>) -> Seq<(ClientId, Seq<(ClientId, Seq<char>)>)> {
    s.map_values(|lc: LocalClient| (lc.id, lc.mailbox.deep_view()))
}

/// Remote roster entries as key/value pairs.
spec fn remotes_proj(s: Seq<RemoteClient>) -> Seq<(ClientId, (Seq<char>, ServerId))> {
    s.map_values(|rc: RemoteClient| (rc.id, (rc.name@, rc.home)))
}

/// Hold queue entries as key/value pairs.
spec fn holds_proj(s: Seq<(ClientId, Vec<(ClientId, String)>)>) -> Seq<
    (ClientId, Seq<(ClientId, Seq<char>)>),
> {
    s.map_values(|h: (ClientId, Vec<(ClientId, String)>)| (h.0, h.1.deep_view()))
}

/// Route table entries as key/value pairs.
spec fn routes_proj(s: Seq<(ServerId, Vec<ServerId>)>) -> Seq<(ServerId, Seq<ServerId>)> {
    s.map_values(|r: (ServerId, Vec<ServerId>)| (r.0, r.1@))
}

/// Some local roster row carries exactly these identifier bits.
spec fn id_used(s: Seq<LocalClient>, m: u128) -> bool {
    exists|j: int| 0 <= j < s.len() && (#[trigger] s[j]).id.id == m
}

/// No two local roster rows share a client identifier.
spec fn locals_distinct(s: Seq<LocalClient>) -> bool {
    forall|i: int, j: int| 0 <= i < j < s.len() ==> s[i].id != s[j].id
}

/// No two remote roster rows share a client identifier.
spec fn remotes_distinct(s: Seq<RemoteClient>) -> bool {
    forall|i: int, j: int| 0 <= i < j < s.len() ==> s[i].id != s[j].id
}

/// Overwriting one local roster row, key kept, updates the three local maps
/// at that key and keeps the keys distinct.
proof fn lemma_locals_update(s: Seq<LocalClient>, i: int, lc2: LocalClient)
    requires
        locals_distinct(s),
        0 <= i < s.len(),
        lc2.id == s[i].id,
    ensures
        locals_distinct(s.update(i, lc2)),
        kv_map(names_proj(s.update(i, lc2))) == kv_map(names_proj(s)).insert(lc2.id, lc2.name@),
        kv_map(seqs_proj(s.update(i, lc2))) == kv_map(seqs_proj(s)).insert(lc2.id, lc2.last_seq),
        kv_map(boxes_proj(s.update(i, lc2))) == kv_map(boxes_proj(s)).insert(
            lc2.id,
            lc2.mailbox.deep_view(),
        ),
{
    let t = s.update(i, lc2);
    assert(kv_distinct(names_proj(s)));
    assert(kv_distinct(seqs_proj(s)));
    assert(kv_distinct(boxes_proj(s)));
    assert(names_proj(t) =~= names_proj(s).update(i, (s[i].id, lc2.name@)));
    assert(seqs_proj(t) =~= seqs_proj(s).update(i, (s[i].id, lc2.last_seq)));
    assert(boxes_proj(t) =~= boxes_proj(s).update(i, (s[i].id, lc2.mailbox.deep_view())));
    lemma_kv_update(names_proj(s), i, lc2.name@);
    lemma_kv_update(seqs_proj(s), i, lc2.last_seq);
    lemma_kv_update(boxes_proj(s), i, lc2.mailbox.deep_view());
}

/// Some route table row carries this destination.
spec fn home_routed(routes: Seq<(ServerId, Vec<ServerId>)>, h: ServerId) -> bool {
    exists|j: int| 0 <= j < routes.len() && (#[trigger] routes[j]).0 == h
}

/// A destination stays routed when rows are only rewritten in place or
/// appended.
proof fn lemma_home_routed_extend(
    r1: Seq<(ServerId, Vec<ServerId>)>,
    r2: Seq<(ServerId, Vec<ServerId>)>,
    h: ServerId,
)
    requires
        home_routed(r1, h),
        r1.len() <= r2.len(),
        forall|j: int| 0 <= j < r1.len() ==> (#[trigger] r2[j]).0 == r1[j].0,
    ensures
        home_routed(r2, h),
{
    let j = choose|j: int| 0 <= j < r1.len() && (#[trigger] r1[j]).0 == h;
    assert(r2[j].0 == h);
}

/// Well-formedness does not depend on the recorded links: two servers equal
/// in every other field are equally well-formed.
proof fn lemma_wf_same_tables(s1: Server, s2: Server)
    requires
        s1.wf(),
        s2.id == s1.id,
        s2.locals == s1.locals,
        s2.remotes == s1.remotes,
        s2.holds == s1.holds,
        s2.routes == s1.routes,
    ensures
        s2.wf(),
{
    assert forall|x: int|
        0 <= x < s2.remotes@.len() implies home_routed(
        s2.routes@,
        (#[trigger] s2.remotes@[x]).home,
    ) by {
        assert(s1.remotes@[x] == s2.remotes@[x]);
        assert(home_routed(s1.routes@, s1.remotes@[x].home));
    }
}

impl View for Server {
    type V = ServerV;

    closed spec fn view(&self) -> ServerV {
        ServerV {
            id: self.id,
            edges: self.edges@,
            names: kv_map(names_proj(self.locals@)),
            seqs: kv_map(seqs_proj(self.locals@)),
            boxes: kv_map(boxes_proj(self.locals@)),
            remotes: kv_map(remotes_proj(self.remotes@)),
            holds: kv_map(holds_proj(self.holds@)),
            routes: kv_map(routes_proj(self.routes@)),
        }
    }
}

impl Server {
    /// Well-formedness of the representation: distinct keys in every table,
    /// every mailbox within its bound, every stored route leading from this
    /// server to its key, and every remote client's home server routed.
    pub closed spec fn wf(self) -> bool {
        &&& locals_distinct(self.locals@)
        &&& remotes_distinct(self.remotes@)
        &&& kv_distinct(self.holds@)
        &&& kv_distinct(self.routes@)
        &&& forall|i: int|
            0 <= i < self.locals@.len() ==> (#[trigger] self.locals@[i]).mailbox@.len()
                <= MAILBOX_SIZE as int
        &&& forall|i: int|
            0 <= i < self.routes@.len() ==> route_shape(
                self.id,
                (#[trigger] self.routes@[i]).0,
                self.routes@[i].1@,
            )
        &&& forall|i: int|
            0 <= i < self.remotes@.len() ==> home_routed(
                self.routes@,
                (#[trigger] self.remotes@[i]).home,
            )
    }

    /// A well-formed server's view satisfies the model invariant; in
    /// particular no mailbox ever exceeds [`MAILBOX_SIZE`].
    pub proof fn lemma_wf_inv(self)
        requires
            self.wf(),
        ensures
            self@.inv(),
    {
        let v = self@;
        assert forall|c: ClientId| v.names.contains_key(c) implies v.seqs.contains_key(c)
            && v.boxes.contains_key(c) by {
            lemma_kv_dom(names_proj(self.locals@), c);
            lemma_kv_dom(seqs_proj(self.locals@), c);
            lemma_kv_dom(boxes_proj(self.locals@), c);
            let i = choose|i: int|
                0 <= i < names_proj(self.locals@).len() && names_proj(self.locals@)[i].0 == c;
            assert(seqs_proj(self.locals@)[i].0 == c);
            assert(boxes_proj(self.locals@)[i].0 == c);
        }
        assert forall|c: ClientId| v.seqs.contains_key(c) implies v.names.contains_key(c) by {
            lemma_kv_dom(names_proj(self.locals@), c);
            lemma_kv_dom(seqs_proj(self.locals@), c);
            let i = choose|i: int|
                0 <= i < seqs_proj(self.locals@).len() && seqs_proj(self.locals@)[i].0 == c;
            assert(names_proj(self.locals@)[i].0 == c);
        }
        assert forall|c: ClientId| v.boxes.contains_key(c) implies v.names.contains_key(c) by {
            lemma_kv_dom(names_proj(self.locals@), c);
            lemma_kv_dom(boxes_proj(self.locals@), c);
            let i = choose|i: int|
                0 <= i < boxes_proj(self.locals@).len() && boxes_proj(self.locals@)[i].0 == c;
            assert(names_proj(self.locals@)[i].0 == c);
        }
        assert(v.seqs.dom() =~= v.names.dom());
        assert(v.boxes.dom() =~= v.names.dom());
        assert forall|c: ClientId| v.boxes.contains_key(c) implies #[trigger] v.boxes[c].len()
            <= MAILBOX_SIZE as int by {
            lemma_kv_dom(boxes_proj(self.locals@), c);
            let i = choose|i: int|
                0 <= i < boxes_proj(self.locals@).len() && boxes_proj(self.locals@)[i].0 == c;
            assert(kv_distinct(boxes_proj(self.locals@)));
            lemma_kv_get(boxes_proj(self.locals@), i);
        }
        assert forall|d: ServerId| v.routes.contains_key(d) implies route_shape(
            v.id,
            d,
            #[trigger] v.routes[d],
        ) by {
            lemma_kv_dom(routes_proj(self.routes@), d);
            let i = choose|i: int|
                0 <= i < routes_proj(self.routes@).len() && routes_proj(self.routes@)[i].0 == d;
            assert(kv_distinct(routes_proj(self.routes@)));
            lemma_kv_get(routes_proj(self.routes@), i);
        }
        assert forall|c: ClientId| v.remotes.contains_key(c) implies v.routes.contains_key(
            (#[trigger] v.remotes[c]).1,
        ) by {
            lemma_kv_dom(remotes_proj(self.remotes@), c);
            let i = choose|i: int|
                0 <= i < remotes_proj(self.remotes@).len() && remotes_proj(self.remotes@)[i].0
                    == c;
            assert(kv_distinct(remotes_proj(self.remotes@)));
            lemma_kv_get(remotes_proj(self.remotes@), i);
            let h = self.remotes@[i].home;
            assert(home_routed(self.routes@, h));
            let j = choose|j: int|
                0 <= j < self.routes@.len() && (#[trigger] self.routes@[j]).0 == h;
            lemma_kv_get(routes_proj(self.routes@), j);
        }
    }

    /// Index of the local roster row of `c`, if any.
    fn find_local(&self, c: ClientId) -> (r: Option<usize>)
        ensures
            match r {
                Some(i) => 0 <= i < self.locals@.len() && self.locals@[i as int].id == c,
                None => forall|j: int| 0 <= j < self.locals@.len() ==> self.locals@[j].id != c,
            },
    {
        let n = self.locals.len();
        let mut i: usize = 0;
        while i < n
            invariant
                n == self.locals@.len(),
                0 <= i <= n,
                forall|j: int| 0 <= j < i ==> self.locals@[j].id != c,
            decreases n - i,
        {
            if self.locals[i].id == c {
                return Some(i);
            }
            i = i + 1;
        }
        None
    }

    /// Index of the remote roster row of `c`, if any.
    fn find_remote(&self, c: ClientId) -> (r: Option<usize>)
        ensures
            match r {
                Some(i) => 0 <= i < self.remotes@.len() && self.remotes@[i as int].id == c,
                None => forall|j: int| 0 <= j < self.remotes@.len() ==> self.remotes@[j].id != c,
            },
    {
        let n = self.remotes.len();
        let mut i: usize = 0;
        while i < n
            invariant
                n == self.remotes@.len(),
                0 <= i <= n,
                forall|j: int| 0 <= j < i ==> self.remotes@[j].id != c,
            decreases n - i,
        {
            if self.remotes[i].id == c {
                return Some(i);
            }
            i = i + 1;
        }
        None
    }

    /// Index of the hold queue of `c`, if any.
    fn find_hold(&self, c: ClientId) -> (r: Option<usize>)
        ensures
            match r {
                Some(i) => 0 <= i < self.holds@.len() && self.holds@[i as int].0 == c,
                None => forall|j: int| 0 <= j < self.holds@.len() ==> self.holds@[j].0 != c,
            },
    {
        let n = self.holds.len();
        let mut i: usize = 0;
        while i < n
            invariant
                n == self.holds@.len(),
                0 <= i <= n,
                forall|j: int| 0 <= j < i ==> self.holds@[j].0 != c,
            decreases n - i,
        {
            if self.holds[i].0 == c {
                return Some(i);
            }
            i = i + 1;
        }
        None
    }

    /// Index of the stored route to `d`, if any.
    fn find_route(&self, d: ServerId) -> (r: Option<usize>)
        ensures
            match r {
                Some(i) => 0 <= i < self.routes@.len() && self.routes@[i as int].0 == d,
                None => forall|j: int| 0 <= j < self.routes@.len() ==> self.routes@[j].0 != d,
            },
    {
        let n = self.routes.len();
        let mut i: usize = 0;
        while i < n
            invariant
                n == self.routes@.len(),
                0 <= i <= n,
                forall|j: int| 0 <= j < i ==> self.routes@[j].0 != d,
            decreases n - i,
        {
            if self.routes[i].0 == d {
                return Some(i);
            }
            i = i + 1;
        }
        None
    }

    /// A fresh server with the given identity and every table empty.
    pub fn new(id: ServerId) -> (r: Server)
        ensures
            r.wf(),
            r@ == ServerV::init(id),
    {
        let r = Server {
            id,
            edges: Vec::new(),
            locals: Vec::new(),
            remotes: Vec::new(),
            holds: Vec::new(),
            routes: Vec::new(),
        };
        proof {
            assert(names_proj(r.locals@) =~= Seq::<(ClientId, Seq<char>)>::empty());
            assert(seqs_proj(r.locals@) =~= Seq::<(ClientId, u128)>::empty());
            assert(boxes_proj(r.locals@) =~= Seq::<
                (ClientId, Seq<(ClientId, Seq<char>)>),
            >::empty());
            assert(remotes_proj(r.remotes@) =~= Seq::<(ClientId, (Seq<char>, ServerId))>::empty());
            assert(holds_proj(r.holds@) =~= Seq::<(ClientId, Seq<(ClientId, Seq<char>)>)>::empty());
            assert(routes_proj(r.routes@) =~= Seq::<(ServerId, Seq<ServerId>)>::empty());
            assert(r@ =~= ServerV::init(id));
        }
        r
    }

    /// A client identifier not yet in the local roster: a randomly drawn one
    /// and, against the vanishing chance of a collision, a scan of more
    /// candidate values than the roster has rows.
    fn unused_id(&self) -> (r: ClientId)
        ensures
            forall|j: int| 0 <= j < self.locals@.len() ==> self.locals@[j].id != r,
    {
        let drawn = ClientId::fresh();
        if self.find_local(drawn).is_none() {
            return drawn;
        }
        let n = self.locals.len();
        let mut k: u128 = 0;
        let mut cid = drawn;
        let mut found = false;
        while k <= n as u128 && !found
            invariant
                n == self.locals@.len(),
                0 <= k <= n as u128 + 1,
                found ==> forall|j: int| 0 <= j < self.locals@.len() ==> self.locals@[j].id != cid,
                !found ==> forall|m: u128| 0 <= m < k ==> #[trigger] id_used(self.locals@, m),
            decreases n as int + 1 - k,
        {
            let cand = ClientId::new(k);
            if self.find_local(cand).is_none() {
                cid = cand;
                found = true;
                k = k + 1;
            } else {
                proof {
                    let i = choose|i: int|
                        0 <= i < self.locals@.len() && self.locals@[i].id == cand;
                    assert(self.locals@[i].id.id == k);
                    assert(id_used(self.locals@, k));
                }
                k = k + 1;
            }
        }
        proof {
            if !found {
                broadcast use vstd::seq_lib::seq_to_set_is_finite;

                let ids = self.locals@.map_values(|lc: LocalClient| lc.id.id as int);
                let cands = vstd::set_lib::set_int_range(0, n as int + 1);
                vstd::set_lib::lemma_int_range(0, n as int + 1);
                assert forall|x: int| cands.contains(x) implies ids.to_set().contains(x) by {
                    let m = x as u128;
                    assert(id_used(self.locals@, m));
                    let j = choose|j: int|
                        0 <= j < self.locals@.len() && (#[trigger] self.locals@[j]).id.id == m;
                    assert(ids[j] == x);
                }
                ids.lemma_cardinality_of_set();
                vstd::set_lib::lemma_len_subset(cands, ids.to_set());
                assert(false);
            }
        }
        cid
    }

    /// Registers a local client once the parallel spam check has admitted
    /// it: exactly when both predicates answered false. The fresh identifier
    /// is drawn at random and is never one already registered here.
    pub fn register_local_client(
        &mut self,
        ip_verdict: Option<bool>,
        user_verdict: Option<bool>,
        name: String,
    ) -> (r: Option<ClientId>)
        requires
            old(self).wf(),
        ensures
            final(self).wf(),
            match r {
                Some(c) => {
                    &&& spec_spam_decision(ip_verdict, user_verdict) == Some(false)
                    &&& !old(self)@.names.contains_key(c)
                    &&& final(self)@ == old(self)@.register(c, name@)
                },
                None => {
                    &&& spec_spam_decision(ip_verdict, user_verdict) != Some(false)
                    &&& final(self)@ == old(self)@
                },
            },
    {
        let decision = spam_decision(ip_verdict, user_verdict);
        if !(decision == Some(false)) {
            return None;
        }
        let cid = self.unused_id();
        proof {
            lemma_kv_dom(names_proj(self.locals@), cid);
        }
        let ghost pre = self.locals@;
        self.locals.push(LocalClient { id: cid, name, last_seq: 0, mailbox: Vec::new() });
        proof {
            let lc = self.locals@.last();
            assert(names_proj(self.locals@) =~= names_proj(pre).push((cid, lc.name@)));
            assert(seqs_proj(self.locals@) =~= seqs_proj(pre).push((cid, 0u128)));
            assert(lc.mailbox.deep_view() =~= Seq::<(ClientId, Seq<char>)>::empty());
            assert(boxes_proj(self.locals@) =~= boxes_proj(pre).push(
                (cid, Seq::<(ClientId, Seq<char>)>::empty()),
            ));
            lemma_kv_push(names_proj(pre), (cid, lc.name@));
            lemma_kv_push(seqs_proj(pre), (cid, 0u128));
            lemma_kv_push(boxes_proj(pre), (cid, Seq::<(ClientId, Seq<char>)>::empty()));
            assert(self@ =~= old(self)@.register(cid, lc.name@));
            assert forall|i: int, j: int| 0 <= i < j < self.locals@.len() implies self.locals@[i].id
                != self.locals@[j].id by {
                if j < pre.len() {
                    assert(locals_distinct(pre));
                } else {
                    assert(pre[i].id != cid);
                }
            }
        }
        Some(cid)
    }

    /// Checks and advances the sequence tracker of the sender: the envelope
    /// is accepted exactly when the sender is local and its sequence number
    /// strictly exceeds the last accepted one; gaps are allowed.
    pub fn handle_sequenced_message<A>(&mut self, msg: Sequence<A>) -> (r: Result<
        A,
        ClientError,
    >)
        requires
            old(self).wf(),
        ensures
            final(self).wf(),
            ({
                let v = old(self)@;
                if v.seq_accepts(msg.src, msg.seqid) {
                    &&& r == Ok::<A, ClientError>(msg.content)
                    &&& final(self)@ == v.seq_step(msg.src, msg.seqid)
                } else {
                    &&& final(self)@ == v
                    &&& r == Err::<A, ClientError>(
                        if !v.names.contains_key(msg.src) {
                            ClientError::UnknownClient
                        } else {
                            ClientError::SequenceError
                        },
                    )
                }
            }),
    {
        let src = msg.src;
        match self.find_local(src) {
            None => {
                proof {
                    lemma_kv_dom(names_proj(self.locals@), src);
                }
                Err(ClientError::UnknownClient)
            },
            Some(i) => {
                let last = self.locals[i].last_seq;
                proof {
                    lemma_kv_dom(names_proj(self.locals@), src);
                    assert(names_proj(self.locals@)[i as int].0 == src);
                    assert(kv_distinct(seqs_proj(self.locals@)));
                    lemma_kv_get(seqs_proj(self.locals@), i as int);
                }
                if msg.seqid <= last {
                    Err(ClientError::SequenceError)
                } else {
                    let ghost pre = self.locals@;
                    let lc = &mut self.locals[i];
                    lc.last_seq = msg.seqid;
                    proof {
                        let lc2 = self.locals@[i as int];
                        lemma_locals_update(pre, i as int, lc2);
                        assert(kv_distinct(names_proj(pre)));
                        lemma_kv_get(names_proj(pre), i as int);
                        assert(kv_map(names_proj(pre)).insert(lc2.id, lc2.name@) =~= kv_map(
                            names_proj(pre),
                        ));
                        assert(kv_distinct(boxes_proj(pre)));
                        lemma_kv_get(boxes_proj(pre), i as int);
                        assert(kv_map(boxes_proj(pre)).insert(lc2.id, lc2.mailbox.deep_view())
                            =~= kv_map(boxes_proj(pre)));
                        assert(self@ =~= old(self)@.seq_step(src, msg.seqid));
                    }
                    Ok(msg.content)
                }
            },
        }
    }

    /// Dispatches one destination of a client message, as
    /// [`ServerV::dispatch_one`] says: delivery into a local mailbox with
    /// room, a box-full error on one without, a transfer towards a known
    /// remote's home server, or a hold entry and a delayed report for an
    /// unknown destination.
    fn process_dest(&mut self, src: ClientId, d: ClientId, content: &String) -> (r: ClientReply)
        requires
            old(self).wf(),
        ensures
            final(self).wf(),
            (final(self)@, r.deep_view()) == old(self)@.dispatch_one(src, d, content@),
    {
        match self.find_local(d) {
            Some(i) => {
                proof {
                    assert(names_proj(self.locals@)[i as int].0 == d);
                    assert(self@.names.contains_key(d)) by {
                        lemma_kv_dom(names_proj(self.locals@), d);
                    }
                    assert(kv_distinct(boxes_proj(self.locals@)));
                    lemma_kv_get(boxes_proj(self.locals@), i as int);
                }
                if self.locals[i].mailbox.len() < MAILBOX_SIZE {
                    let ghost pre = self.locals@;
                    let lc = &mut self.locals[i];
                    lc.mailbox.push((src, content.clone()));
                    proof {
                        let lc2 = self.locals@[i as int];
                        assert(lc2.mailbox.deep_view() =~= pre[i as int].mailbox.deep_view().push(
                            (src, content@),
                        ));
                        lemma_locals_update(pre, i as int, lc2);
                        assert(kv_distinct(names_proj(pre)));
                        lemma_kv_get(names_proj(pre), i as int);
                        assert(kv_map(names_proj(pre)).insert(lc2.id, lc2.name@) =~= kv_map(
                            names_proj(pre),
                        ));
                        assert(kv_distinct(seqs_proj(pre)));
                        lemma_kv_get(seqs_proj(pre), i as int);
                        assert(kv_map(seqs_proj(pre)).insert(lc2.id, lc2.last_seq) =~= kv_map(
                            seqs_proj(pre),
                        ));
                        assert(self@ =~= old(self)@.dispatch_one(src, d, content@).0);
                    }
                    ClientReply::Delivered
                } else {
                    ClientReply::Error(ClientError::BoxFull(d))
                }
            },
            None => {
                proof {
                    lemma_kv_dom(names_proj(self.locals@), d);
                }
                match self.find_remote(d) {
                    Some(ri) => {
                        proof {
                            assert(remotes_proj(self.remotes@)[ri as int].0 == d);
                            assert(self@.remotes.contains_key(d)) by {
                                lemma_kv_dom(remotes_proj(self.remotes@), d);
                            }
                            assert(kv_distinct(remotes_proj(self.remotes@)));
                            lemma_kv_get(remotes_proj(self.remotes@), ri as int);
                        }
                        let h = self.remotes[ri].home;
                        match self.find_route(h) {
                            Some(rt) => {
                                proof {
                                    assert(kv_distinct(routes_proj(self.routes@)));
                                    lemma_kv_get(routes_proj(self.routes@), rt as int);
                                }
                                let nexthop = self.routes[rt].1[1];
                                let mut dsts: Vec<(ClientId, ServerId)> = Vec::new();
                                dsts.push((d, h));
                                let fq = FullyQualifiedMessage {
                                    src,
                                    srcsrv: self.id,
                                    dsts,
                                    content: content.clone(),
                                };
                                let reply = ClientReply::Transfer(nexthop, ServerMessage::Message(fq));
                                proof {
                                    assert(reply.deep_view() == old(self)@.dispatch_one(
                                        src,
                                        d,
                                        content@,
                                    ).1) by {
                                        assert(seq![(d, h)] =~= Seq::<
                                            (ClientId, ServerId),
                                        >::empty().push((d, h)));
                                    }
                                }
                                reply
                            },
                            None => {
                                proof {
                                    assert(exists|j: int|
                                        0 <= j < self.routes@.len() && (#[trigger] self.routes@[j]).0
                                            == self.remotes@[ri as int].home);
                                    assert(false);
                                }
                                ClientReply::Delayed
                            },
                        }
                    },
                    None => {
                        proof {
                            lemma_kv_dom(remotes_proj(self.remotes@), d);
                            lemma_kv_dom(holds_proj(self.holds@), d);
                        }
                        match self.find_hold(d) {
                            Some(hi) => {
                                proof {
                                    assert(holds_proj(self.holds@)[hi as int].0 == d);
                                    assert(kv_distinct(holds_proj(self.holds@)));
                                    lemma_kv_get(holds_proj(self.holds@), hi as int);
                                }
                                let ghost pre = self.holds@;
                                let e = &mut self.holds[hi];
                                e.1.push((src, content.clone()));
                                proof {
                                    let e2 = self.holds@[hi as int];
                                    assert(e2.1.deep_view() =~= pre[hi as int].1.deep_view().push(
                                        (src, content@),
                                    ));
                                    assert(holds_proj(self.holds@) =~= holds_proj(pre).update(
                                        hi as int,
                                        (d, e2.1.deep_view()),
                                    ));
                                    assert(kv_distinct(holds_proj(pre)));
                                    lemma_kv_update(holds_proj(pre), hi as int, e2.1.deep_view());
                                    assert(self@ =~= old(self)@.dispatch_one(src, d, content@).0);
                                }
                                ClientReply::Delayed
                            },
                            None => {
                                let mut q: Vec<(ClientId, String)> = Vec::new();
                                q.push((src, content.clone()));
                                let ghost pre = self.holds@;
                                self.holds.push((d, q));
                                proof {
                                    let e2 = self.holds@.last();
                                    assert(e2.1.deep_view() =~= Seq::<
                                        (ClientId, Seq<char>),
                                    >::empty().push((src, content@)));
                                    assert(holds_proj(self.holds@) =~= holds_proj(pre).push(
                                        (d, e2.1.deep_view()),
                                    ));
                                    lemma_kv_push(holds_proj(pre), (d, e2.1.deep_view()));
                                    assert forall|a: int, b: int|
                                        0 <= a < b < self.holds@.len() implies self.holds@[a].0
                                        != self.holds@[b].0 by {
                                        if b < pre.len() {
                                            assert(kv_distinct(pre));
                                        } else {
                                            assert(pre[a].0 != d);
                                        }
                                    }
                                    assert(self@ =~= old(self)@.dispatch_one(src, d, content@).0);
                                }
                                ClientReply::Delayed
                            },
                        }
                    },
                }
            },
        }
    }

    /// Handles a client message: fans the content out to each destination
    /// in order, and returns one reply per destination, aligned with the
    /// destination list.
    pub fn handle_client_message(&mut self, src: ClientId, msg: ClientMessage) -> (r: Vec<
        ClientReply,
    >)
        requires
            old(self).wf(),
        ensures
            final(self).wf(),
            r@.len() == msg.dests().len(),
            (final(self)@, r.deep_view()) == old(self)@.dispatch(src, msg.dests(), msg.text()),
    {
        match msg {
            ClientMessage::Text { dest, content } => {
                let mut r: Vec<ClientReply> = Vec::new();
                let reply = self.process_dest(src, dest, &content);
                r.push(reply);
                proof {
                    assert(seq![dest].drop_last() =~= Seq::<ClientId>::empty());
                    assert(old(self)@.dispatch(src, Seq::<ClientId>::empty(), content@)
                        == (old(self)@, Seq::<crate::messages::ClientReplyV>::empty()));
                    assert(seq![dest].last() == dest);
                    assert(r.deep_view() =~= Seq::<
                        crate::messages::ClientReplyV,
                    >::empty().push(reply.deep_view()));
                }
                r
            },
            ClientMessage::MText { dest, content } => {
                let mut r: Vec<ClientReply> = Vec::new();
                let n = dest.len();
                let mut i: usize = 0;
                while i < n
                    invariant
                        self.wf(),
                        n == dest@.len(),
                        0 <= i <= n,
                        r@.len() == i,
                        (self@, r.deep_view()) == old(self)@.dispatch(
                            src,
                            dest.deep_view().take(i as int),
                            content@,
                        ),
                    decreases n - i,
                {
                    let ghost prer = r.deep_view();
                    let d = dest[i];
                    let reply = self.process_dest(src, d, &content);
                    r.push(reply);
                    proof {
                        let full = dest.deep_view();
                        assert(full.take(i as int + 1).drop_last() =~= full.take(i as int));
                        assert(full.take(i as int + 1).last() == full[i as int]);
                        assert(r.deep_view() =~= prer.push(reply.deep_view()));
                    }
                    i = i + 1;
                }
                proof {
                    assert(dest.deep_view().take(n as int) =~= dest.deep_view());
                }
                r
            },
        }
    }

    /// Pops and returns the oldest mailbox entry of a local client; reports
    /// nothing for an empty mailbox and for a client not registered here.
    pub fn client_poll(&mut self, client: ClientId) -> (r: ClientPollReply)
        requires
            old(self).wf(),
        ensures
            final(self).wf(),
            ({
                let v = old(self)@;
                if v.names.contains_key(client) && v.boxes[client].len() > 0 {
                    &&& r.deep_view() == (ClientPollReplyV::Message {
                        src: v.boxes[client][0].0,
                        content: v.boxes[client][0].1,
                    })
                    &&& final(self)@ == (ServerV {
                        boxes: v.boxes.insert(client, v.boxes[client].drop_first()),
                        ..v
                    })
                } else {
                    &&& r.deep_view() == ClientPollReplyV::Nothing
                    &&& final(self)@ == v
                }
            }),
    {
        match self.find_local(client) {
            None => {
                proof {
                    lemma_kv_dom(names_proj(self.locals@), client);
                }
                ClientPollReply::Nothing
            },
            Some(i) => {
                proof {
                    lemma_kv_dom(names_proj(self.locals@), client);
                    assert(names_proj(self.locals@)[i as int].0 == client);
                    assert(kv_distinct(boxes_proj(self.locals@)));
                    lemma_kv_get(boxes_proj(self.locals@), i as int);
                }
                if self.locals[i].mailbox.len() == 0 {
                    ClientPollReply::Nothing
                } else {
                    let ghost pre = self.locals@;
                    let lc = &mut self.locals[i];
                    let env = lc.mailbox.remove(0);
                    proof {
                        let lc2 = self.locals@[i as int];
                        assert(lc2.mailbox.deep_view() =~= pre[i as int].mailbox.deep_view()
                            .drop_first());
                        lemma_locals_update(pre, i as int, lc2);
                        assert(kv_distinct(names_proj(pre)));
                        lemma_kv_get(names_proj(pre), i as int);
                        assert(kv_map(names_proj(pre)).insert(lc2.id, lc2.name@) =~= kv_map(
                            names_proj(pre),
                        ));
                        assert(kv_distinct(seqs_proj(pre)));
                        lemma_kv_get(seqs_proj(pre), i as int);
                        assert(kv_map(seqs_proj(pre)).insert(lc2.id, lc2.last_seq) =~= kv_map(
                            seqs_proj(pre),
                        ));
                        assert(self@ =~= (ServerV {
                            boxes: old(self)@.boxes.insert(
                                client,
                                old(self)@.boxes[client].drop_first(),
                            ),
                            ..old(self)@
                        }));
                        assert((env.0, env.1@) == old(self)@.boxes[client][0]);
                    }
                    ClientPollReply::Message { src: env.0, content: env.1 }
                }
            },
        }
    }

    /// Records the links a non-empty announced route reveals and, where any
    /// is new, recomputes best paths by relaxation: a stored path is
    /// replaced only by a strictly shorter one, so ties keep the incumbent.
    fn apply_routes(&mut self, route: &Vec<ServerId>)
        requires
            old(self).wf(),
            route@.len() >= 1,
        ensures
            final(self).wf(),
            final(self)@ == (ServerV {
                edges: add_edges(old(self)@.edges, route_edges(old(self)@.id, route@)),
                routes: ({
                    let es2 = add_edges(old(self)@.edges, route_edges(old(self)@.id, route@));
                    if es2.len() == old(self)@.edges.len() {
                        old(self)@.routes
                    } else {
                        relax_n(
                            old(self)@.routes,
                            old(self)@.id,
                            es2,
                            es2.len() as int + route@.len() as int + 1,
                        )
                    }
                }),
                ..old(self)@
            }),
    {
        let added = self.add_route_edges(route);
        if added {
            let ghost m0 = self@.routes;
            let np = self.edges.len();
            self.relax_rounds(np);
            self.relax_rounds(route.len());
            self.relax_rounds(1);
            proof {
                lemma_relax_n_add(m0, self.id, self.edges@, np as int, route@.len() as int);
                lemma_relax_n_add(m0, self.id, self.edges@, np as int + route@.len() as int, 1);
            }
        }
        proof {
            assert(self@ =~= (ServerV {
                edges: add_edges(old(self)@.edges, route_edges(old(self)@.id, route@)),
                routes: ({
                    let es2 = add_edges(old(self)@.edges, route_edges(old(self)@.id, route@));
                    if es2.len() == old(self)@.edges.len() {
                        old(self)@.routes
                    } else {
                        relax_n(
                            old(self)@.routes,
                            old(self)@.id,
                            es2,
                            es2.len() as int + route@.len() as int + 1,
                        )
                    }
                }),
                ..old(self)@
            }));
        }
    }

    /// Whether a link is already recorded.
    fn edge_known(&self, e: (ServerId, ServerId)) -> (r: bool)
        ensures
            r == self.edges@.contains(e),
    {
        let n = self.edges.len();
        let mut i: usize = 0;
        while i < n
            invariant
                n == self.edges@.len(),
                0 <= i <= n,
                forall|j: int| 0 <= j < i ==> self.edges@[j] != e,
            decreases n - i,
        {
            let cur = self.edges[i];
            if cur.0 == e.0 && cur.1 == e.1 {
                return true;
            }
            i = i + 1;
        }
        false
    }

    /// Records each link of the announced route that is not yet known;
    /// reports whether any was new.
    fn add_route_edges(&mut self, route: &Vec<ServerId>) -> (added: bool)
        requires
            old(self).wf(),
            route@.len() >= 1,
        ensures
            final(self).wf(),
            final(self).id == old(self).id,
            final(self).locals == old(self).locals,
            final(self).remotes == old(self).remotes,
            final(self).holds == old(self).holds,
            final(self).routes == old(self).routes,
            final(self).edges@ == add_edges(old(self).edges@, route_edges(old(self).id, route@)),
            added == (final(self).edges@.len() != old(self).edges@.len()),
    {
        proof {
            lemma_route_edges_index(old(self).id, route@);
        }
        let ghost re = route_edges(old(self).id, route@);
        let n = route.len();
        let mut added = false;
        let mut i: usize = 0;
        while i < n
            invariant
                old(self).wf(),
                self.wf(),
                n == route@.len(),
                1 <= n,
                0 <= i <= n,
                self.id == old(self).id,
                self.locals == old(self).locals,
                self.remotes == old(self).remotes,
                self.holds == old(self).holds,
                self.routes == old(self).routes,
                re == route_edges(old(self).id, route@),
                re.len() == n,
                self.edges@ == add_edges(old(self).edges@, re.take(i as int)),
                self.edges@.len() >= old(self).edges@.len(),
                added == (self.edges@.len() != old(self).edges@.len()),
            decreases n - i,
        {
            let ghost pre_self = *self;
            let e = if i + 1 < n {
                norm_pair(route[i], route[i + 1])
            } else {
                norm_pair(route[n - 1], self.id)
            };
            proof {
                lemma_route_edges_index(old(self).id, route@);
                assert(re.take(i as int + 1).drop_last() =~= re.take(i as int));
                assert(re.take(i as int + 1).last() == re[i as int]);
                assert(e == re[i as int]);
            }
            if !self.edge_known(e) {
                self.edges.push(e);
                added = true;
            }
            proof {
                lemma_wf_same_tables(pre_self, *self);
            }
            i = i + 1;
        }
        proof {
            assert(re.take(n as int) =~= re);
        }
        added
    }

    /// One directed relaxation of a link, as [`crate::state::relax_dir`]
    /// says.
    fn relax_dir_exec(&mut self, a: ServerId, b: ServerId)
        requires
            old(self).wf(),
        ensures
            final(self).wf(),
            final(self).id == old(self).id,
            final(self).locals == old(self).locals,
            final(self).remotes == old(self).remotes,
            final(self).holds == old(self).holds,
            final(self).edges == old(self).edges,
            final(self)@.routes == relax_dir(old(self)@.routes, old(self).id, a, b),
    {
        if b == self.id {
            return ;
        }
        let ghost m = self@.routes;
        let ghost prevec = self.routes@;
        let source: Option<usize> = if a == self.id {
            None
        } else {
            match self.find_route(a) {
                Some(i) => Some(i),
                None => {
                    proof {
                        lemma_kv_dom(routes_proj(self.routes@), a);
                    }
                    return ;
                },
            }
        };
        proof {
            if source is Some {
                lemma_kv_dom(routes_proj(self.routes@), a);
            }
        }
        let base_len: usize = match source {
            Some(ai) => {
                proof {
                    assert(routes_proj(self.routes@)[ai as int].0 == a);
                    assert(kv_distinct(routes_proj(self.routes@)));
                    lemma_kv_get(routes_proj(self.routes@), ai as int);
                }
                self.routes[ai].1.len()
            },
            None => 1,
        };
        proof {
            assert(base_len == path_to(m, self.id, a).len());
            assert(path_to(m, self.id, a)[0] == self.id) by {
                if let Some(ai) = source {
                    assert(route_shape(
                        self.id,
                        (#[trigger] self.routes@[ai as int]).0,
                        self.routes@[ai as int].1@,
                    ));
                }
            }
        }
        match self.find_route(b) {
            Some(bi) => {
                proof {
                    assert(routes_proj(self.routes@)[bi as int].0 == b);
                    assert(kv_distinct(routes_proj(self.routes@)));
                    lemma_kv_get(routes_proj(self.routes@), bi as int);
                    lemma_kv_dom(routes_proj(self.routes@), b);
                }
                if self.routes[bi].1.len() - 1 > base_len {
                    let np = self.build_extended(source, a, b);
                    let e = &mut self.routes[bi];
                    e.1 = np;
                    proof {
                        assert(routes_proj(self.routes@) =~= routes_proj(prevec).update(
                            bi as int,
                            (b, path_to(m, self.id, a).push(b)),
                        ));
                        assert(kv_distinct(routes_proj(prevec)));
                        lemma_kv_update(
                            routes_proj(prevec),
                            bi as int,
                            path_to(m, self.id, a).push(b),
                        );
                        assert forall|x: int, y: int|
                            0 <= x < y < self.routes@.len() implies self.routes@[x].0
                            != self.routes@[y].0 by {
                            assert(kv_distinct(prevec));
                            assert(self.routes@[x].0 == prevec[x].0);
                            assert(self.routes@[y].0 == prevec[y].0);
                        }
                        assert forall|x: int|
                            0 <= x < self.routes@.len() implies route_shape(
                            self.id,
                            (#[trigger] self.routes@[x]).0,
                            self.routes@[x].1@,
                        ) by {
                            if x != bi as int {
                                assert(self.routes@[x] == prevec[x]);
                                assert(route_shape(
                                    self.id,
                                    (#[trigger] prevec[x]).0,
                                    prevec[x].1@,
                                ));
                            }
                        }
                        assert forall|ri: int|
                            0 <= ri < self.remotes@.len() implies home_routed(
                            self.routes@,
                            (#[trigger] self.remotes@[ri]).home,
                        ) by {
                            assert(home_routed(prevec, self.remotes@[ri].home));
                            lemma_home_routed_extend(
                                prevec,
                                self.routes@,
                                self.remotes@[ri].home,
                            );
                        }
                    }
                }
            },
            None => {
                proof {
                    lemma_kv_dom(routes_proj(self.routes@), b);
                }
                let np = self.build_extended(source, a, b);
                self.routes.push((b, np));
                proof {
                    assert(routes_proj(self.routes@) =~= routes_proj(prevec).push(
                        (b, path_to(m, self.id, a).push(b)),
                    ));
                    lemma_kv_push(routes_proj(prevec), (b, path_to(m, self.id, a).push(b)));
                    assert forall|x: int, y: int|
                        0 <= x < y < self.routes@.len() implies self.routes@[x].0
                        != self.routes@[y].0 by {
                        if y < prevec.len() {
                            assert(kv_distinct(prevec));
                        } else {
                            assert(prevec[x].0 != b);
                        }
                    }
                    assert forall|x: int|
                        0 <= x < self.routes@.len() implies route_shape(
                        self.id,
                        (#[trigger] self.routes@[x]).0,
                        self.routes@[x].1@,
                    ) by {
                        if x < prevec.len() {
                            assert(self.routes@[x] == prevec[x]);
                            assert(route_shape(self.id, (#[trigger] prevec[x]).0, prevec[x].1@));
                        }
                    }
                    assert forall|ri: int|
                        0 <= ri < self.remotes@.len() implies home_routed(
                        self.routes@,
                        (#[trigger] self.remotes@[ri]).home,
                    ) by {
                        assert(home_routed(prevec, self.remotes@[ri].home));
                        lemma_home_routed_extend(prevec, self.routes@, self.remotes@[ri].home);
                    }
                }
            },
        }
    }

    /// The path to `a` extended by the hop to `b`: the base for a
    /// relaxation step.
    fn build_extended(&self, source: Option<usize>, a: ServerId, b: ServerId) -> (r: Vec<
        ServerId,
    >)
        requires
            self.wf(),
            match source {
                Some(ai) => 0 <= ai < self.routes@.len() && self.routes@[ai as int].0 == a && a
                    != self.id,
                None => a == self.id,
            },
        ensures
            r@ == path_to(self@.routes, self.id, a).push(b),
    {
        proof {
            if let Some(ai) = source {
                assert(routes_proj(self.routes@)[ai as int].0 == a);
                assert(kv_distinct(routes_proj(self.routes@)));
                lemma_kv_get(routes_proj(self.routes@), ai as int);
            }
        }
        let mut r = match source {
            Some(ai) => clone_path(&self.routes[ai].1),
            None => {
                let mut v: Vec<ServerId> = Vec::new();
                v.push(self.id);
                proof {
                    assert(v@ =~= seq![self.id]);
                }
                v
            },
        };
        r.push(b);
        proof {
            assert(r@ =~= path_to(self@.routes, self.id, a).push(b));
        }
        r
    }

    /// One relaxation pass over every known link, in order.
    fn relax_pass_exec(&mut self)
        requires
            old(self).wf(),
        ensures
            final(self).wf(),
            final(self).id == old(self).id,
            final(self).locals == old(self).locals,
            final(self).remotes == old(self).remotes,
            final(self).holds == old(self).holds,
            final(self).edges == old(self).edges,
            final(self)@.routes == relax_pass(old(self)@.routes, old(self).id, old(self).edges@),
    {
        let ghost m0 = self@.routes;
        let n = self.edges.len();
        let mut t: usize = 0;
        while t < n
            invariant
                self.wf(),
                n == self.edges@.len(),
                0 <= t <= n,
                self.id == old(self).id,
                self.locals == old(self).locals,
                self.remotes == old(self).remotes,
                self.holds == old(self).holds,
                self.edges == old(self).edges,
                m0 == old(self)@.routes,
                self@.routes == relax_pass(m0, old(self).id, self.edges@.take(t as int)),
            decreases n - t,
        {
            let e = self.edges[t];
            self.relax_dir_exec(e.0, e.1);
            self.relax_dir_exec(e.1, e.0);
            proof {
                assert(self.edges@.take(t as int + 1).drop_last() =~= self.edges@.take(t as int));
                assert(self.edges@.take(t as int + 1).last() == e);
            }
            t = t + 1;
        }
        proof {
            assert(self.edges@.take(n as int) =~= self.edges@);
        }
    }

    /// The given number of relaxation passes.
    fn relax_rounds(&mut self, rounds: usize)
        requires
            old(self).wf(),
        ensures
            final(self).wf(),
            final(self).id == old(self).id,
            final(self).locals == old(self).locals,
            final(self).remotes == old(self).remotes,
            final(self).holds == old(self).holds,
            final(self).edges == old(self).edges,
            final(self)@.routes == relax_n(
                old(self)@.routes,
                old(self).id,
                old(self).edges@,
                rounds as int,
            ),
    {
        let ghost m0 = self@.routes;
        let mut p: usize = 0;
        while p < rounds
            invariant
                self.wf(),
                0 <= p <= rounds,
                self.id == old(self).id,
                self.locals == old(self).locals,
                self.remotes == old(self).remotes,
                self.holds == old(self).holds,
                self.edges == old(self).edges,
                m0 == old(self)@.routes,
                self@.routes == relax_n(m0, old(self).id, self.edges@, p as int),
            decreases rounds - p,
        {
            self.relax_pass_exec();
            p = p + 1;
        }
    }

    /// Handles one destination pair of an in-transit message, as
    /// [`ServerV::forward_one`] says: local delivery subject to the mailbox
    /// bound (an overflowing delivery is dropped here), otherwise one
    /// outgoing message towards the carried home server where a route is
    /// stored, otherwise dropped.
    fn forward_dest(
        &mut self,
        src: ClientId,
        srcsrv: ServerId,
        content: &String,
        cid: ClientId,
        home: ServerId,
    ) -> (r: Option<Outgoing>)
        requires
            old(self).wf(),
        ensures
            final(self).wf(),
            ({
                let (v2, more) = old(self)@.forward_one(src, srcsrv, content@, (cid, home));
                &&& final(self)@ == v2
                &&& (match r {
                    Some(o) => more == seq![o.deep_view()],
                    None => more == Seq::<OutgoingV>::empty(),
                })
            }),
    {
        match self.find_local(cid) {
            Some(i) => {
                proof {
                    assert(names_proj(self.locals@)[i as int].0 == cid);
                    assert(self@.names.contains_key(cid)) by {
                        lemma_kv_dom(names_proj(self.locals@), cid);
                    }
                    assert(kv_distinct(boxes_proj(self.locals@)));
                    lemma_kv_get(boxes_proj(self.locals@), i as int);
                }
                if self.locals[i].mailbox.len() < MAILBOX_SIZE {
                    let ghost pre = self.locals@;
                    let lc = &mut self.locals[i];
                    lc.mailbox.push((src, content.clone()));
                    proof {
                        let lc2 = self.locals@[i as int];
                        assert(lc2.mailbox.deep_view() =~= pre[i as int].mailbox.deep_view().push(
                            (src, content@),
                        ));
                        lemma_locals_update(pre, i as int, lc2);
                        assert(kv_distinct(names_proj(pre)));
                        lemma_kv_get(names_proj(pre), i as int);
                        assert(kv_map(names_proj(pre)).insert(lc2.id, lc2.name@) =~= kv_map(
                            names_proj(pre),
                        ));
                        assert(kv_distinct(seqs_proj(pre)));
                        lemma_kv_get(seqs_proj(pre), i as int);
                        assert(kv_map(seqs_proj(pre)).insert(lc2.id, lc2.last_seq) =~= kv_map(
                            seqs_proj(pre),
                        ));
                        assert(self@ =~= old(self)@.forward_one(src, srcsrv, content@, (cid, home)).0);
                    }
                }
                None
            },
            None => {
                proof {
                    lemma_kv_dom(names_proj(self.locals@), cid);
                    lemma_kv_dom(routes_proj(self.routes@), home);
                }
                match self.find_route(home) {
                    Some(rt) => {
                        proof {
                            assert(routes_proj(self.routes@)[rt as int].0 == home);
                            assert(kv_distinct(routes_proj(self.routes@)));
                            lemma_kv_get(routes_proj(self.routes@), rt as int);
                        }
                        let nexthop = self.routes[rt].1[1];
                        let mut dsts: Vec<(ClientId, ServerId)> = Vec::new();
                        dsts.push((cid, home));
                        let o = Outgoing {
                            nexthop,
                            message: FullyQualifiedMessage {
                                src,
                                srcsrv,
                                dsts,
                                content: content.clone(),
                            },
                        };
                        proof {
                            assert(o.message.dsts@ =~= seq![(cid, home)]);
                        }
                        Some(o)
                    },
                    None => None,
                }
            },
        }
    }

    /// Handles a peer server message: an announcement updates routes and
    /// the remote roster and drains newly deliverable held messages; an
    /// in-transit message is delivered locally or forwarded. An
    /// announcement with an empty route changes nothing and is reported as
    /// such.
    pub fn handle_server_message(&mut self, msg: ServerMessage) -> (r: ServerReply)
        requires
            old(self).wf(),
        ensures
            final(self).wf(),
            ({
                let m = msg.deep_view();
                match m {
                    ServerMessageV::Announce { route, clients } => {
                        if route.len() == 0 {
                            final(self)@ == old(self)@ && r.deep_view() == ServerReplyV::EmptyRoute
                        } else {
                            let (v2, outs) = old(self)@.announce(route, clients);
                            final(self)@ == v2 && r.deep_view() == ServerReplyV::Outgoing(outs)
                        }
                    },
                    ServerMessageV::Message(fq) => {
                        let (v2, outs) = old(self)@.forward(fq.src, fq.srcsrv, fq.content, fq.dsts);
                        final(self)@ == v2 && r.deep_view() == ServerReplyV::Outgoing(outs)
                    },
                }
            }),
    {
        match msg {
            ServerMessage::Announce { route, clients } => {
                if route.len() == 0 {
                    return ServerReply::EmptyRoute;
                }
                self.apply_routes(&route);
                let ghost v1 = self@;
                let home = route[0];
                if home == self.id {
                    let none_out: Vec<Outgoing> = Vec::new();
                    proof {
                        assert(none_out.deep_view() =~= Seq::<OutgoingV>::empty());
                    }
                    return ServerReply::Outgoing(none_out);
                }
                proof {
                    lemma_kv_dom(routes_proj(self.routes@), home);
                }
                let hi = match self.find_route(home) {
                    Some(h) => h,
                    None => {
                        let none_out: Vec<Outgoing> = Vec::new();
                        proof {
                            assert(!v1.routes.contains_key(home));
                            assert(none_out.deep_view() =~= Seq::<OutgoingV>::empty());
                        }
                        return ServerReply::Outgoing(none_out);
                    },
                };
                proof {
                    assert(routes_proj(self.routes@)[hi as int].0 == home);
                    assert(kv_distinct(routes_proj(self.routes@)));
                    lemma_kv_get(routes_proj(self.routes@), hi as int);
                }
                let nexthop = self.routes[hi].1[1];
                let ghost rvec = self.routes@;
                proof {
                    assert(nexthop == v1.nexthop(home));
                }
                let mut outs: Vec<Outgoing> = Vec::new();
                let nc = clients.len();
                let mut i: usize = 0;
                while i < nc
                    invariant
                        self.wf(),
                        nc == clients@.len(),
                        0 <= i <= nc,
                        self.routes@ == rvec,
                        0 <= hi < rvec.len() && rvec[hi as int].0 == home,
                        nexthop == rvec[hi as int].1@[1],
                        v1.routes == kv_map(routes_proj(rvec)),
                        (self@, outs.deep_view()) == v1.announce_clients(
                            home,
                            clients.deep_view().take(i as int),
                        ),
                    decreases nc - i,
                {
                    let ghost u0 = self@;
                    let ghost preouts = outs.deep_view();
                    let cid = clients[i].0;
                    let name = clients[i].1.clone();
                    proof {
                        lemma_announce_clients_frame(
                            v1,
                            home,
                            clients.deep_view().take(i as int),
                        );
                        assert(u0.routes == v1.routes);
                        assert(kv_distinct(routes_proj(rvec)));
                        assert(routes_proj(rvec)[hi as int].0 == home);
                        lemma_kv_get(routes_proj(rvec), hi as int);
                        assert(u0.nexthop(home) == nexthop);
                    }
                    let ghost prerem = self.remotes@;
                    match self.find_remote(cid) {
                        Some(ri) => {
                            let e = &mut self.remotes[ri];
                            e.name = name;
                            e.home = home;
                            proof {
                                let e2 = self.remotes@[ri as int];
                                assert(remotes_proj(self.remotes@) =~= remotes_proj(
                                    prerem,
                                ).update(ri as int, (cid, (e2.name@, home))));
                                assert(kv_distinct(remotes_proj(prerem)));
                                lemma_kv_update(
                                    remotes_proj(prerem),
                                    ri as int,
                                    (e2.name@, home),
                                );
                                assert forall|a: int, b: int|
                                    0 <= a < b < self.remotes@.len() implies self.remotes@[a].id
                                    != self.remotes@[b].id by {
                                    assert(remotes_distinct(prerem));
                                    assert(self.remotes@[a].id == prerem[a].id);
                                    assert(self.remotes@[b].id == prerem[b].id);
                                }
                            }
                        },
                        None => {
                            self.remotes.push(RemoteClient { id: cid, name, home });
                            proof {
                                assert(remotes_proj(self.remotes@) =~= remotes_proj(prerem).push(
                                    (cid, (self.remotes@.last().name@, home)),
                                ));
                                lemma_kv_push(
                                    remotes_proj(prerem),
                                    (cid, (self.remotes@.last().name@, home)),
                                );
                                assert forall|a: int, b: int|
                                    0 <= a < b < self.remotes@.len() implies self.remotes@[a].id
                                    != self.remotes@[b].id by {
                                    if b < prerem.len() {
                                        assert(remotes_distinct(prerem));
                                    } else {
                                        lemma_kv_dom(remotes_proj(prerem), cid);
                                        assert(remotes_proj(prerem)[a].0 == prerem[a].id);
                                    }
                                }
                            }
                        },
                    }
                    let ghost u1 = self@;
                    proof {
                        assert(u1 =~= (ServerV {
                            remotes: u0.remotes.insert(cid, (name@, home)),
                            ..u0
                        }));
                        lemma_kv_dom(holds_proj(self.holds@), cid);
                    }
                    match self.find_hold(cid) {
                        Some(qi) => {
                            proof {
                                assert(holds_proj(self.holds@)[qi as int].0 == cid);
                                assert(kv_distinct(holds_proj(self.holds@)));
                                lemma_kv_get(holds_proj(self.holds@), qi as int);
                            }
                            let ghost pend = self.holds@[qi as int].1.deep_view();
                            let ghost selfsnap = *self;
                            let plen = self.holds[qi].1.len();
                            let mut t: usize = 0;
                            while t < plen
                                invariant
                                    0 <= t <= plen,
                                    qi < self.holds@.len(),
                                    plen == self.holds@[qi as int].1@.len(),
                                    pend == self.holds@[qi as int].1.deep_view(),
                                    *self == selfsnap,
                                    u1 == self@,
                                    outs.deep_view().len() == preouts.len() + t,
                                    forall|x: int|
                                        0 <= x < preouts.len() ==> outs.deep_view()[x]
                                            == preouts[x],
                                    forall|x: int|
                                        0 <= x < t ==> outs.deep_view()[preouts.len() + x]
                                            == (OutgoingV {
                                            nexthop,
                                            message: crate::messages::FqMessageV {
                                                src: pend[x].0,
                                                srcsrv: u1.id,
                                                dsts: seq![(cid, home)],
                                                content: pend[x].1,
                                            },
                                        }),
                                decreases plen - t,
                            {
                                let ghost preo2 = outs.deep_view();
                                let src2 = self.holds[qi].1[t].0;
                                let cont = self.holds[qi].1[t].1.clone();
                                let mut dsts: Vec<(ClientId, ServerId)> = Vec::new();
                                dsts.push((cid, home));
                                proof {
                                    assert(dsts@ =~= seq![(cid, home)]);
                                }
                                outs.push(
                                    Outgoing {
                                        nexthop,
                                        message: FullyQualifiedMessage {
                                            src: src2,
                                            srcsrv: self.id,
                                            dsts,
                                            content: cont,
                                        },
                                    },
                                );
                                proof {
                                    assert(outs.deep_view() =~= preo2.push(
                                        outs@.last().deep_view(),
                                    ));
                                    assert((pend[t as int].0, pend[t as int].1) == (
                                        src2,
                                        cont@,
                                    ));
                                }
                                t = t + 1;
                            }
                            let ghost preholds = self.holds@;
                            let e = &mut self.holds[qi];
                            e.1 = Vec::new();
                            proof {
                                let e2 = self.holds@[qi as int];
                                assert(e2.1.deep_view() =~= Seq::<
                                    (ClientId, Seq<char>),
                                >::empty());
                                assert(holds_proj(self.holds@) =~= holds_proj(preholds).update(
                                    qi as int,
                                    (cid, Seq::<(ClientId, Seq<char>)>::empty()),
                                ));
                                assert(kv_distinct(holds_proj(preholds)));
                                lemma_kv_update(
                                    holds_proj(preholds),
                                    qi as int,
                                    Seq::<(ClientId, Seq<char>)>::empty(),
                                );
                                assert forall|a: int, b: int|
                                    0 <= a < b < self.holds@.len() implies self.holds@[a].0
                                    != self.holds@[b].0 by {
                                    assert(kv_distinct(preholds));
                                    assert(self.holds@[a].0 == preholds[a].0);
                                    assert(self.holds@[b].0 == preholds[b].0);
                                }
                                let (u2, dr) = u0.announce_client(home, cid, name@);
                                assert((ServerV {
                                    remotes: u0.remotes.insert(cid, (name@, home)),
                                    ..u0
                                }) == u1);
                                assert(kv_distinct(holds_proj(preholds)));
                                assert(holds_proj(preholds)[qi as int].0 == cid);
                                lemma_kv_get(holds_proj(preholds), qi as int);
                                assert(u1.holds.contains_key(cid)) by {
                                    lemma_kv_dom(holds_proj(preholds), cid);
                                }
                                assert(u1.holds[cid] == pend);
                                assert(dr.len() == pend.len());
                                assert(outs.deep_view() =~= preouts + dr);
                                assert(self@ =~= u2);
                            }
                        },
                        None => {
                            proof {
                                let (u2, dr) = u0.announce_client(home, cid, name@);
                                assert((ServerV {
                                    remotes: u0.remotes.insert(cid, (name@, home)),
                                    ..u0
                                }) == u1);
                                assert(!u1.holds.contains_key(cid));
                                assert(self@ =~= u2);
                                assert(outs.deep_view() =~= preouts + dr);
                            }
                        },
                    }
                    proof {
                        let full = clients.deep_view();
                        assert(full.take(i as int + 1).drop_last() =~= full.take(i as int));
                        assert(full.take(i as int + 1).last() == full[i as int]);
                        assert(full[i as int] == (cid, name@));
                    }
                    i = i + 1;
                }
                proof {
                    assert(clients.deep_view().take(nc as int) =~= clients.deep_view());
                }
                ServerReply::Outgoing(outs)
            },
            ServerMessage::Message(fq) => {
                let mut outs: Vec<Outgoing> = Vec::new();
                let n = fq.dsts.len();
                let mut i: usize = 0;
                while i < n
                    invariant
                        self.wf(),
                        n == fq.dsts@.len(),
                        0 <= i <= n,
                        ({
                            let (v2, os) = old(self)@.forward(
                                fq.src,
                                fq.srcsrv,
                                fq.content@,
                                fq.dsts@.take(i as int),
                            );
                            self@ == v2 && outs.deep_view() == os
                        }),
                    decreases n - i,
                {
                    let ghost preouts = outs.deep_view();
                    let (cid, home) = fq.dsts[i];
                    let got = self.forward_dest(fq.src, fq.srcsrv, &fq.content, cid, home);
                    proof {
                        let full = fq.dsts@;
                        assert(full.take(i as int + 1).drop_last() =~= full.take(i as int));
                        assert(full.take(i as int + 1).last() == full[i as int]);
                    }
                    match got {
                        Some(o) => {
                            outs.push(o);
                            proof {
                                assert(outs.deep_view() =~= preouts.push(
                                    outs@.last().deep_view(),
                                ));
                                let (v2, os) = old(self)@.forward(
                                    fq.src,
                                    fq.srcsrv,
                                    fq.content@,
                                    fq.dsts@.take(i as int + 1),
                                );
                                assert(outs.deep_view() =~= os);
                            }
                        },
                        None => {
                            proof {
                                let (v2, os) = old(self)@.forward(
                                    fq.src,
                                    fq.srcsrv,
                                    fq.content@,
                                    fq.dsts@.take(i as int + 1),
                                );
                                assert(outs.deep_view() =~= os);
                            }
                        },
                    }
                    i = i + 1;
                }
                proof {
                    assert(fq.dsts@.take(n as int) =~= fq.dsts@);
                }
                ServerReply::Outgoing(outs)
            },
        }
    }

    /// The stored best path to a server, from this server inclusive to the
    /// destination inclusive; absent when the destination is unknown.
    pub fn route_to(&self, destination: ServerId) -> (r: Option<Vec<ServerId>>)
        requires
            self.wf(),
        ensures
            match r {
                Some(p) => self@.routes.contains_key(destination) && p@
                    == self@.routes[destination],
                None => !self@.routes.contains_key(destination),
            },
    {
        proof {
            lemma_kv_dom(routes_proj(self.routes@), destination);
        }
        match self.find_route(destination) {
            None => None,
            Some(i) => {
                proof {
                    assert(kv_distinct(routes_proj(self.routes@)));
                    lemma_kv_get(routes_proj(self.routes@), i as int);
                }
                Some(clone_path(&self.routes[i].1))
            },
        }
    }

    /// Every known user: the local roster joined with the remote roster, a
    /// local entry prevailing over a remote one under the same identifier.
    pub fn list_users(&self) -> (r: Vec<(ClientId, String)>)
        requires
            self.wf(),
        ensures
            kv_distinct(r.deep_view()),
            kv_map(r.deep_view()) == self@.users(),
    {
        let mut out: Vec<(ClientId, String)> = Vec::new();
        let nl = self.locals.len();
        let mut k: usize = 0;
        while k < nl
            invariant
                self.wf(),
                nl == self.locals@.len(),
                0 <= k <= nl,
                kv_distinct(out.deep_view()),
                forall|c: ClientId| #[trigger]
                    kv_map(out.deep_view()).contains_key(c) <==> exists|j: int|
                        0 <= j < k && (#[trigger] self.locals@[j]).id == c,
                forall|c: ClientId|
                    kv_map(out.deep_view()).contains_key(c) ==> #[trigger] kv_map(
                        out.deep_view(),
                    )[c] == self@.names[c],
            decreases nl - k,
        {
            let ghost preout = out.deep_view();
            let cid = self.locals[k].id;
            let name = self.locals[k].name.clone();
            out.push((cid, name));
            proof {
                assert(out.deep_view() =~= preout.push((cid, self.locals@[k as int].name@)));
                assert forall|j: int| 0 <= j < preout.len() implies preout[j].0 != cid by {
                    assert(kv_map(preout).contains_key(preout[j].0)) by {
                        lemma_kv_dom(preout, preout[j].0);
                    }
                }
                lemma_kv_push_distinct(preout, (cid, self.locals@[k as int].name@));
                lemma_kv_push(preout, (cid, self.locals@[k as int].name@));
                assert(kv_distinct(names_proj(self.locals@)));
                lemma_kv_get(names_proj(self.locals@), k as int);
            }
            k = k + 1;
        }
        proof {
            assert forall|c: ClientId| #[trigger]
                kv_map(out.deep_view()).contains_key(c) <==> self@.names.contains_key(c) by {
                lemma_kv_dom(names_proj(self.locals@), c);
                if kv_map(out.deep_view()).contains_key(c) {
                    let j = choose|j: int| 0 <= j < nl && (#[trigger] self.locals@[j]).id == c;
                    assert(names_proj(self.locals@)[j].0 == c);
                } else if self@.names.contains_key(c) {
                    let j = choose|j: int|
                        0 <= j < names_proj(self.locals@).len() && names_proj(self.locals@)[j].0
                            == c;
                    assert(self.locals@[j].id == c);
                }
            }
        }
        let nr = self.remotes.len();
        let mut i: usize = 0;
        while i < nr
            invariant
                self.wf(),
                nr == self.remotes@.len(),
                0 <= i <= nr,
                kv_distinct(out.deep_view()),
                forall|c: ClientId| #[trigger]
                    kv_map(out.deep_view()).contains_key(c) <==> self@.names.contains_key(c)
                        || exists|j: int| 0 <= j < i && (#[trigger] self.remotes@[j]).id == c,
                forall|c: ClientId|
                    kv_map(out.deep_view()).contains_key(c) && self@.names.contains_key(c)
                        ==> #[trigger] kv_map(out.deep_view())[c] == self@.names[c],
                forall|c: ClientId|
                    kv_map(out.deep_view()).contains_key(c) && !self@.names.contains_key(c)
                        ==> #[trigger] kv_map(out.deep_view())[c] == self@.remotes[c].0,
            decreases nr - i,
        {
            let cid = self.remotes[i].id;
            proof {
                lemma_kv_dom(names_proj(self.locals@), cid);
            }
            match self.find_local(cid) {
                Some(w) => {
                    proof {
                        assert(names_proj(self.locals@)[w as int].0 == cid);
                        assert(self@.names.contains_key(cid));
                    }
                },
                None => {
                    let ghost preout = out.deep_view();
                    let name = self.remotes[i].name.clone();
                    out.push((cid, name));
                    proof {
                        assert(out.deep_view() =~= preout.push(
                            (cid, self.remotes@[i as int].name@),
                        ));
                        assert forall|j: int| 0 <= j < preout.len() implies preout[j].0 != cid by {
                            assert(kv_map(preout).contains_key(preout[j].0)) by {
                                lemma_kv_dom(preout, preout[j].0);
                            }
                            if preout[j].0 == cid {
                                let jj = choose|jj: int|
                                    0 <= jj < i && (#[trigger] self.remotes@[jj]).id == cid;
                                assert(self.remotes@[jj].id == self.remotes@[i as int].id);
                            }
                        }
                        lemma_kv_push_distinct(preout, (cid, self.remotes@[i as int].name@));
                        lemma_kv_push(preout, (cid, self.remotes@[i as int].name@));
                        assert(kv_distinct(remotes_proj(self.remotes@)));
                        lemma_kv_get(remotes_proj(self.remotes@), i as int);
                    }
                },
            }
            i = i + 1;
        }
        proof {
            assert forall|c: ClientId| #[trigger]
                self@.remotes.contains_key(c) implies exists|j: int|
                0 <= j < self.remotes@.len() && (#[trigger] self.remotes@[j]).id == c by {
                lemma_kv_dom(remotes_proj(self.remotes@), c);
                let j = choose|j: int|
                    0 <= j < remotes_proj(self.remotes@).len() && remotes_proj(self.remotes@)[j].0
                        == c;
                assert(self.remotes@[j].id == c);
            }
            assert forall|j: int|
                0 <= j < self.remotes@.len() implies #[trigger] self@.remotes.contains_key(
                self.remotes@[j].id,
            ) by {
                lemma_kv_dom(remotes_proj(self.remotes@), self.remotes@[j].id);
                assert(remotes_proj(self.remotes@)[j].0 == self.remotes@[j].id);
            }
            assert(kv_map(out.deep_view()) =~= self@.users());
        }
        out
    }
}

/// The link between two servers, endpoints ordered by identifier.
fn norm_pair(a: ServerId, b: ServerId) -> (r: (ServerId, ServerId))
    ensures
        r == norm_edge(a, b),
{
    if a.id <= b.id {
        (a, b)
    } else {
        (b, a)
    }
}

/// An element-wise copy of a stored path.
fn clone_path(p: &Vec<ServerId>) -> (r: Vec<ServerId>)
    ensures
        r@ == p@,
{
    let mut r: Vec<ServerId> = Vec::new();
    let n = p.len();
    let mut i: usize = 0;
    while i < n
        invariant
            n == p@.len(),
            0 <= i <= n,
            r@ == p@.take(i as int),
        decreases n - i,
    {
        r.push(p[i]);
        proof {
            assert(r@ =~= p@.take(i as int + 1));
        }
        i = i + 1;
    }
    proof {
        assert(p@.take(n as int) =~= p@);
    }
    r
}

} // verus!
