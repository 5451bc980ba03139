//! Requests as the protocol names them.
use vstd::prelude::*;

verus! {

/// A request that can be written as bytes.
pub trait Request {
    fn to_bytes(&self) -> Vec<u8>;
}

#[derive(Clone, Copy, Debug, PartialEq, Eq)]
pub enum PeerRequestType {
    Choke,
    Unchoke,
    Interested,
    NotInterested,
    Have,
    Bitfield,
    Request,
    Piece,
    Cancel,
}

#[derive(Clone, Copy, Debug, PartialEq, Eq)]
pub enum Event {
    Started,
    Completed,
    Stopped,
}

/// An announce to a tracker.
pub struct TrackerRequest {
    info_hash: Vec<u8>,
    peer_id: Vec<u8>,
    port: u16,
    uploaded: u64,
    downloaded: u64,
    left: u64,
    event: Option<Event>,
}

/// A request to a peer.
pub struct PeerRequest {}

} // verus!
