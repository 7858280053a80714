//! Verified core of a federated chat server: client mailboxes with bounded
//! FIFO delivery, per-client sequence tracking, a shortest-path route table
//! built from peer announcements, and the dispatch rules that classify each
//! destination as local, remote or not yet known.

pub mod assoc;
pub mod checker;
pub mod client;
pub mod laws;
pub mod messages;
pub mod server;
pub mod state;

use vstd::prelude::*;

verus! {

/// Maximum number of pending deliveries a single client mailbox may hold.
pub const MAILBOX_SIZE: usize = 256;

} // verus!
