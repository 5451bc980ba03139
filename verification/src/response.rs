//! Responses as the protocol names them.
use crate::connection::Connection;
use crate::peer::Peer;
use vstd::prelude::*;

verus! {

/// A response that acts on a connection.
pub trait Response {
    type Error;

    fn handle<C: Connection>(&self, conn: C) -> Result<(), Self::Error>;
}

/// A tracker's answer: when to ask again, and the peers.
pub struct TrackerResponse<C: Connection> {
    interval: u32,
    peers: Vec<Peer<C>>,
}

} // verus!
