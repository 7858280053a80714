//! Identifier and message value types exchanged between clients and servers,
//! together with their mathematical views.

use vstd::prelude::*;

verus! {

/// Opaque 128-bit identifier for a client.
#[derive(Clone, Copy, Debug, PartialEq, Eq, Hash, PartialOrd, Ord, Structural)]
pub struct ClientId {
    pub id: u128,
}

/// Opaque 128-bit identifier for a server.
#[derive(Clone, Copy, Debug, PartialEq, Eq, Hash, PartialOrd, Ord, Structural)]
pub struct ServerId {
    pub id: u128,
}

/// Relies on `uuid::Uuid::new_v4` and `uuid::Uuid::as_u128`: a freshly drawn
/// random version-4 UUID, returned as its 128-bit value. The draw is random,
/// so nothing is promised of the result.
#[verifier::external_body]
fn random_id_bits() -> u128 {
    uuid::Uuid::new_v4().as_u128()
}

impl ClientId {
    /// Builds the identifier holding exactly the given 128 bits.
    pub fn new(id: u128) -> (r: ClientId)
        ensures
            r.id == id,
    {
        ClientId { id }
    }

    /// A randomly drawn, collision-resistant identifier.
    pub fn fresh() -> ClientId {
        ClientId { id: random_id_bits() }
    }
}

impl Default for ClientId {
    /// A randomly drawn identifier, as for a newly seen client.
    fn default() -> ClientId {
        ClientId::fresh()
    }
}

impl ServerId {
    /// Builds the identifier holding exactly the given 128 bits.
    pub fn new(id: u128) -> (r: ServerId)
        ensures
            r.id == id,
    {
        ServerId { id }
    }

    /// A randomly drawn, collision-resistant identifier.
    pub fn fresh() -> ServerId {
        ServerId { id: random_id_bits() }
    }
}

impl Default for ServerId {
    /// A randomly drawn identifier, as for a newly configured server.
    fn default() -> ServerId {
        ServerId::fresh()
    }
}

impl From<u128> for ServerId {
    /// The identifier holding exactly the given 128 bits.
    fn from(id: u128) -> (r: ServerId)
        ensures
            r.id == id,
    {
        ServerId { id }
    }
}

impl vstd::std_specs::convert::FromSpecImpl<u128> for ServerId {
    open spec fn obeys_from_spec() -> bool {
        true
    }

    open spec fn from_spec(id: u128) -> ServerId {
        ServerId { id }
    }
}

impl View for ClientId {
    type V = ClientId;

    open spec fn view(&self) -> ClientId {
        *self
    }
}

impl DeepView for ClientId {
    type V = ClientId;

    open spec fn deep_view(&self) -> ClientId {
        *self
    }
}

impl View for ServerId {
    type V = ServerId;

    open spec fn view(&self) -> ServerId {
        *self
    }
}

impl DeepView for ServerId {
    type V = ServerId;

    open spec fn deep_view(&self) -> ServerId {
        *self
    }
}

/// An envelope carrying a client-chosen, per-client strictly increasing
/// sequence number.
pub struct Sequence<A> {
    pub seqid: u128,
    pub src: ClientId,
    pub content: A,
}

/// A message sent by a local client: a single destination, or a fan-out over
/// several destinations with the same content.
#[derive(Clone, Debug, PartialEq, Eq)]
pub enum ClientMessage {
    Text { dest: ClientId, content: String },
    MText { dest: Vec<ClientId>, content: String },
}

impl ClientMessage {
    /// The destinations of the message, in input order.
    pub open spec fn dests(self) -> Seq<ClientId> {
        match self {
            ClientMessage::Text { dest, .. } => seq![dest],
            ClientMessage::MText { dest, .. } => dest.deep_view(),
        }
    }

    /// The textual content of the message.
    pub open spec fn text(self) -> Seq<char> {
        match self {
            ClientMessage::Text { content, .. } => content@,
            ClientMessage::MText { content, .. } => content@,
        }
    }
}

/// Errors reported to a client, one per failing destination.
#[derive(Clone, Debug, PartialEq, Eq)]
pub enum ClientError {
    UnknownClient,
    BoxFull(ClientId),
    SequenceError,
    InternalError(String),
}

/// View of [`ClientError`].
pub ghost enum ClientErrorV {
    UnknownClient,
    BoxFull(ClientId),
    SequenceError,
    InternalError(Seq<char>),
}

impl DeepView for ClientError {
    type V = ClientErrorV;

    open spec fn deep_view(&self) -> ClientErrorV {
        match self {
            ClientError::UnknownClient => ClientErrorV::UnknownClient,
            ClientError::BoxFull(c) => ClientErrorV::BoxFull(*c),
            ClientError::SequenceError => ClientErrorV::SequenceError,
            ClientError::InternalError(s) => ClientErrorV::InternalError(s@),
        }
    }
}

/// A message in transit between servers: the source client and its home
/// server, the destination clients each paired with its home server, and the
/// content.
#[derive(Clone, Debug, PartialEq, Eq)]
pub struct FullyQualifiedMessage {
    pub src: ClientId,
    pub srcsrv: ServerId,
    pub dsts: Vec<(ClientId, ServerId)>,
    pub content: String,
}

/// View of [`FullyQualifiedMessage`].
pub ghost struct FqMessageV {
    pub src: ClientId,
    pub srcsrv: ServerId,
    pub dsts: Seq<(ClientId, ServerId)>,
    pub content: Seq<char>,
}

impl DeepView for FullyQualifiedMessage {
    type V = FqMessageV;

    open spec fn deep_view(&self) -> FqMessageV {
        FqMessageV {
            src: self.src,
            srcsrv: self.srcsrv,
            dsts: self.dsts@,
            content: self.content@,
        }
    }
}

/// A message between peer servers: an announcement of a route and of the
/// clients hosted at the far end of that route, or a message in transit.
#[derive(Clone, Debug, PartialEq, Eq)]
pub enum ServerMessage {
    Announce { route: Vec<ServerId>, clients: Vec<(ClientId, String)> },
    Message(FullyQualifiedMessage),
}

/// View of [`ServerMessage`].
pub ghost enum ServerMessageV {
    Announce { route: Seq<ServerId>, clients: Seq<(ClientId, Seq<char>)> },
    Message(FqMessageV),
}

impl DeepView for ServerMessage {
    type V = ServerMessageV;

    open spec fn deep_view(&self) -> ServerMessageV {
        match self {
            ServerMessage::Announce { route, clients } => ServerMessageV::Announce {
                route: route@,
                clients: clients.deep_view(),
            },
            ServerMessage::Message(fq) => ServerMessageV::Message(fq.deep_view()),
        }
    }
}

/// Per-destination reply to a client message.
#[derive(Clone, Debug, PartialEq, Eq)]
pub enum ClientReply {
    Delivered,
    Delayed,
    Transfer(ServerId, ServerMessage),
    Error(ClientError),
}

/// View of [`ClientReply`].
pub ghost enum ClientReplyV {
    Delivered,
    Delayed,
    Transfer(ServerId, ServerMessageV),
    Error(ClientErrorV),
}

impl DeepView for ClientReply {
    type V = ClientReplyV;

    open spec fn deep_view(&self) -> ClientReplyV {
        match self {
            ClientReply::Delivered => ClientReplyV::Delivered,
            ClientReply::Delayed => ClientReplyV::Delayed,
            ClientReply::Transfer(next, m) => ClientReplyV::Transfer(*next, m.deep_view()),
            ClientReply::Error(e) => ClientReplyV::Error(e.deep_view()),
        }
    }
}

/// Reply to a mailbox poll: the oldest pending message, or nothing.
#[derive(Clone, Debug, PartialEq, Eq)]
pub enum ClientPollReply {
    Message { src: ClientId, content: String },
    Nothing,
}

/// View of [`ClientPollReply`].
pub ghost enum ClientPollReplyV {
    Message { src: ClientId, content: Seq<char> },
    Nothing,
}

impl DeepView for ClientPollReply {
    type V = ClientPollReplyV;

    open spec fn deep_view(&self) -> ClientPollReplyV {
        match self {
            ClientPollReply::Message { src, content } => ClientPollReplyV::Message {
                src: *src,
                content: content@,
            },
            ClientPollReply::Nothing => ClientPollReplyV::Nothing,
        }
    }
}

/// An outbound server message, addressed to the first hop of its route.
#[derive(Clone, Debug, PartialEq, Eq)]
pub struct Outgoing {
    pub nexthop: ServerId,
    pub message: FullyQualifiedMessage,
}

/// View of [`Outgoing`].
pub ghost struct OutgoingV {
    pub nexthop: ServerId,
    pub message: FqMessageV,
}

impl DeepView for Outgoing {
    type V = OutgoingV;

    open spec fn deep_view(&self) -> OutgoingV {
        OutgoingV { nexthop: self.nexthop, message: self.message.deep_view() }
    }
}

/// Reply to a server message: outbound messages to forward, or the report
/// that an announcement carried an empty route.
#[derive(Clone, Debug, PartialEq, Eq)]
pub enum ServerReply {
    Outgoing(Vec<Outgoing>),
    EmptyRoute,
}

/// View of [`ServerReply`].
pub ghost enum ServerReplyV {
    Outgoing(Seq<OutgoingV>),
    EmptyRoute,
}

impl DeepView for ServerReply {
    type V = ServerReplyV;

    open spec fn deep_view(&self) -> ServerReplyV {
        match self {
            ServerReply::Outgoing(v) => ServerReplyV::Outgoing(v.deep_view()),
            ServerReply::EmptyRoute => ServerReplyV::EmptyRoute,
        }
    }
}

} // verus!
