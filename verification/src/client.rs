//! Client-side sequence generator: a monotonic counter keyed to one client.

use vstd::prelude::*;

use crate::messages::{ClientId, Sequence};

verus! {

/// View of [`Client`].
pub ghost struct ClientV {
    pub id: ClientId,
    pub curid: u128,
}

/// Wraps a client identifier and the last sequence number it used.
#[derive(Debug)]
pub struct Client {
    id: ClientId,
    curid: u128,
}

impl View for Client {
    type V = ClientV;

    closed spec fn view(&self) -> ClientV {
        ClientV { id: self.id, curid: self.curid }
    }
}

impl Client {
    /// A fresh sequencer for the given client, starting below every valid
    /// sequence number.
    pub fn new(id: ClientId) -> (r: Client)
        ensures
            r@ == (ClientV { id, curid: 0 }),
    {
        Client { id, curid: 0 }
    }

    /// Wraps content in an envelope carrying the next sequence number.
    pub fn sequence<A>(&mut self, content: A) -> (r: Sequence<A>)
        requires
            old(self)@.curid < u128::MAX,
        ensures
            final(self)@ == (ClientV {
                id: old(self)@.id,
                curid: (old(self)@.curid + 1) as u128,
            }),
            r.seqid == old(self)@.curid + 1,
            r.src == old(self)@.id,
            r.content == content,
    {
        self.curid = self.curid + 1;
        Sequence { seqid: self.curid, src: self.id, content }
    }
}

} // verus!
