//! The protocol side of a small BitTorrent client: bencode, bit fields, peers and their
//! handshake, the decisions of a download session, and the tracker's announce.
pub mod bencode;
pub mod bitfield;
pub mod connection;
pub mod file;
pub mod peer;
pub mod peerinfo;
pub mod request;
pub mod response;
pub mod session;
pub mod storage;
pub mod text;
pub mod tracker;
