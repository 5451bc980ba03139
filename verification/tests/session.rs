use bitt::bitfield::BitField;
use bitt::connection::Connection;
use bitt::peer::{Peer, PeerMessageType};
use bitt::peerinfo::PeerInfo;
use bitt::session::{
    discover_request, local_peer_info, remove_peer, ConnectProgress, PeerState, SessionError, PORT, TRIES,
};
use bitt::storage::piece_offset;

struct Endpoint;

impl Connection for Endpoint {
    fn set_ip(&mut self, _ip: String) {}
    fn set_port(&mut self, _port: u16) {}
    fn get_ip(&self) -> String {
        String::new()
    }
    fn get_port(&self) -> u16 {
        0
    }
}

fn peer() -> Peer<Endpoint> {
    Peer::new(Endpoint, local_peer_info(), PeerInfo::new(None, "1.2.3.4".to_string(), 1), vec![0; 20])
}

#[test]
fn local_identity() {
    let me = local_peer_info();
    assert_eq!(me.get_id(), &Some(b"-ZB0001-0123456789ab".to_vec()));
    assert_eq!(me.get_ip(), "");
    assert_eq!(me.get_port(), 2222);
    assert_eq!(PORT, 2222);
    assert_eq!(TRIES, 10);
}

#[test]
fn discover_request_fields() {
    let req = discover_request(vec![9; 20], &local_peer_info());
    assert_eq!(req.info_hash, vec![9; 20]);
    assert_eq!(req.peer_id, b"-ZB0001-0123456789ab".to_vec());
    assert_eq!(req.port, 2222);
    assert_eq!((req.uploaded, req.downloaded, req.left), (0, 0, 10));
    assert!(req.compact);
    assert_eq!(req.numwant, 500);
    assert!(req.event.is_none() && req.key.is_none() && req.tracker_id.is_none());
    let anon = discover_request(vec![], &PeerInfo::new(None, String::new(), 1));
    assert!(anon.peer_id.is_empty());
}

#[test]
fn connect_until_unchoke() {
    let mut c = ConnectProgress::new(BitField::new(64));
    assert!(!c.done());
    assert!(!c.on_message(PeerMessageType::Have, &[0, 0, 0, 3]));
    assert!(!c.on_message(PeerMessageType::Interested, &[]));
    assert!(!c.on_message(PeerMessageType::Piece, &[]));
    assert!(!c.done());
    assert!(c.on_message(PeerMessageType::Unchoke, &[]));
    assert!(c.done());
    let (choking, bits) = c.finish().unwrap();
    assert!(!choking);
    assert_eq!(bits.get_bit(3), 1);
    assert_eq!(bits.get_bit(2), 0);
}

#[test]
fn connect_bitfield_and_choke() {
    let mut c = ConnectProgress::new(BitField::new(0));
    assert!(!c.on_message(PeerMessageType::Bitfield, &[0, 0, 0, 0, 0, 0, 0, 1]));
    assert!(!c.on_message(PeerMessageType::NotInterested, &[]));
    assert!(!c.on_message(PeerMessageType::Choke, &[]));
    let (choking, bits) = c.finish().unwrap();
    assert!(choking);
    assert_eq!(bits.get_bit(0), 1);
}

#[test]
fn connect_without_choke_message() {
    let c = ConnectProgress::new(BitField::new(8));
    assert_eq!(c.finish().err(), Some(SessionError::NoChokeMessage));
}

#[test]
fn request_only_when_piece_present_and_idle() {
    let mut bits = BitField::new(64);
    bits.set_bit(2, 1);
    let mut s = PeerState::new(peer(), bits, false);
    assert!(s.request_payload(1).is_none());
    assert_eq!(s.request_payload(2), Some(vec![0, 0, 0, 0, 0, 0, 0, 2]));
    assert!(!s.busy);
    s.mark_busy();
    assert!(s.busy);
    assert!(s.request_payload(2).is_none());
}

fn peer_at(ip: &str, port: u16) -> PeerState<Endpoint> {
    let info = PeerInfo::new(None, ip.to_string(), port);
    PeerState::new(Peer::new(Endpoint, local_peer_info(), info, vec![0; 20]), BitField::new(0), false)
}

#[test]
fn remove_peer_keeps_others_in_order() {
    let mut peers = vec![peer_at("a", 1), peer_at("b", 2), peer_at("a", 1), peer_at("a", 3)];
    remove_peer(&mut peers, &PeerInfo::new(None, "a".to_string(), 1));
    let left: Vec<(String, u16)> = peers
        .iter()
        .map(|s| (s.peer.get_peerinfo().get_ip().clone(), s.peer.get_peerinfo().get_port()))
        .collect();
    assert_eq!(left, vec![("b".to_string(), 2), ("a".to_string(), 3)]);
    remove_peer(&mut peers, &PeerInfo::new(Some(vec![1]), "b".to_string(), 2));
    assert_eq!(peers.len(), 2);
}

#[test]
fn download_messages() {
    let mut s = PeerState::new(peer(), BitField::new(64), true);
    assert!(s.on_download_message(PeerMessageType::Have, &[0, 0, 0, 5]).is_none());
    assert_eq!(s.bits.get_bit(5), 1);
    assert!(s.on_download_message(PeerMessageType::Unchoke, &[]).is_none());
    assert!(!s.peer.peer_choking());
    assert!(s.on_download_message(PeerMessageType::Interested, &[]).is_none());
    assert!(s.peer.peer_interested());
    assert!(s.on_download_message(PeerMessageType::Cancel, &[]).is_none());
    assert!(s.busy);
    let got = s.on_download_message(PeerMessageType::Piece, &[0, 0, 0, 4, 0, 0, 0, 0, 9, 8, 7]);
    assert_eq!(got, Some((4usize, vec![9, 8, 7])));
    assert!(!s.busy);
}

#[test]
fn piece_offsets() {
    assert_eq!(piece_offset(3, 16384), Some(49152));
    assert_eq!(piece_offset(0, u64::MAX), Some(0));
    assert_eq!(piece_offset(2, u64::MAX), None);
}
