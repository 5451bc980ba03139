use bitt::bencode::{Dict, Entry};
use bitt::connection::{connect_address, listen_address, Connection};
use bitt::peer::{HandshakeError, Peer};
use bitt::peerinfo::{PeerInfo, PeerInfoError};

struct Endpoint {
    ip: String,
    port: u16,
}

impl Connection for Endpoint {
    fn set_ip(&mut self, ip: String) {
        self.ip = ip;
    }
    fn set_port(&mut self, port: u16) {
        self.port = port;
    }
    fn get_ip(&self) -> String {
        self.ip.clone()
    }
    fn get_port(&self) -> u16 {
        self.port
    }
}

fn endpoint() -> Endpoint {
    Endpoint { ip: "10.0.0.1".to_string(), port: 6881 }
}

fn dict(entries: Vec<(&str, Entry)>) -> Entry {
    let mut d = Dict::new();
    for (k, v) in entries {
        d.insert(k.to_string(), v);
    }
    Entry::Dict(d)
}

#[test]
fn peer_info_accessors() {
    let mut p = PeerInfo::new(None, "1.2.3.4".to_string(), 80);
    assert!(p.get_id().is_none());
    p.set_id(vec![1, 2]);
    p.set_ip("5.6.7.8".to_string());
    p.set_port(81);
    assert_eq!(p.get_id(), &Some(vec![1, 2]));
    assert_eq!(p.get_ip(), "5.6.7.8");
    assert_eq!(p.get_port(), 81);
}

#[test]
fn peer_info_from_bencode() {
    let e = dict(vec![
        ("peer id", Entry::String(b"abc".to_vec())),
        ("ip", Entry::String(b"127.0.0.1".to_vec())),
        ("port", Entry::Integer(6881)),
    ]);
    let p = PeerInfo::from_bencode(&e).unwrap();
    assert_eq!(p.get_id(), &Some(b"abc".to_vec()));
    assert_eq!(p.get_ip(), "127.0.0.1");
    assert_eq!(p.get_port(), 6881);
}

#[test]
fn peer_info_defaults_and_casts() {
    let e = dict(vec![("ip", Entry::String(vec![0xe9])), ("port", Entry::Integer(65536 + 7))]);
    let p = PeerInfo::from_bencode(&e).unwrap();
    assert_eq!(p.get_id(), &Some(Vec::new()));
    assert_eq!(p.get_ip(), "é");
    assert_eq!(p.get_port(), 7);
    let e = dict(vec![
        ("peer id", Entry::Integer(1)),
        ("ip", Entry::String(b"x".to_vec())),
        ("port", Entry::Integer(1)),
    ]);
    assert!(PeerInfo::from_bencode(&e).unwrap().get_id().is_none());
}

#[test]
fn peer_info_errors() {
    assert_eq!(PeerInfo::from_bencode(&Entry::Integer(1)).unwrap_err(), PeerInfoError::NotDictionary);
    assert_eq!(PeerInfo::from_bencode(&dict(vec![])).unwrap_err(), PeerInfoError::MissingIp);
    assert_eq!(
        PeerInfo::from_bencode(&dict(vec![("ip", Entry::Integer(1))])).unwrap_err(),
        PeerInfoError::IpNotString
    );
    assert_eq!(
        PeerInfo::from_bencode(&dict(vec![("ip", Entry::String(b"a".to_vec()))])).unwrap_err(),
        PeerInfoError::MissingPort
    );
    assert_eq!(
        PeerInfo::from_bencode(&dict(vec![
            ("ip", Entry::String(b"a".to_vec())),
            ("port", Entry::String(b"1".to_vec()))
        ]))
        .unwrap_err(),
        PeerInfoError::PortNotInteger
    );
}

#[test]
fn peer_info_roundtrip() {
    let p = PeerInfo::new(Some(b"-ZB0001-0123456789ab".to_vec()), "192.168.1.2".to_string(), 51413);
    let q = PeerInfo::from_bencode(&p.to_bencode()).unwrap();
    assert!(q.same_peer(&p));
    let e = p.to_bencode();
    let keys: Vec<String> = match &e {
        Entry::Dict(d) => d.entries().iter().map(|(k, _)| k.clone()).collect(),
        _ => Vec::new(),
    };
    assert_eq!(keys, vec!["peer id".to_string(), "ip".to_string(), "port".to_string()]);
}

#[test]
fn peer_without_id_comes_back_with_empty_id() {
    let p = PeerInfo::new(None, "1.1.1.1".to_string(), 1);
    let q = PeerInfo::from_bencode(&p.to_bencode()).unwrap();
    assert_eq!(q.get_id(), &Some(Vec::new()));
    assert!(!q.same_peer(&p));
}

#[test]
fn same_peer_compares_all_fields() {
    let a = PeerInfo::new(Some(vec![1]), "a".to_string(), 1);
    assert!(a.same_peer(&a.clone()));
    assert!(!a.same_peer(&PeerInfo::new(Some(vec![2]), "a".to_string(), 1)));
    assert!(!a.same_peer(&PeerInfo::new(Some(vec![1]), "b".to_string(), 1)));
    assert!(!a.same_peer(&PeerInfo::new(Some(vec![1]), "a".to_string(), 2)));
}

#[test]
fn peer_flags() {
    let me = PeerInfo::new(Some(vec![7; 20]), String::new(), 2222);
    let them = PeerInfo::new(None, "10.0.0.1".to_string(), 6881);
    let mut p = Peer::new(endpoint(), me, them, vec![0; 20]);
    assert!(p.choking());
    assert!(!p.interested());
    assert!(p.peer_choking());
    assert!(!p.peer_interested());
    p.set_choking(false);
    p.set_interested(true);
    p.set_peer_choking(false);
    p.set_peer_interested(true);
    assert!(!p.choking());
    assert!(p.interested());
    assert!(!p.peer_choking());
    assert!(p.peer_interested());
    assert_eq!(p.get_conn().get_port(), 6881);
    p.get_conn().set_port(1);
    assert_eq!(p.get_conn().get_port(), 1);
    assert_eq!(p.get_peerinfo().get_ip(), "10.0.0.1");
}

#[test]
fn handshake_layout() {
    let me = PeerInfo::new(Some(vec![7; 20]), String::new(), 2222);
    let them = PeerInfo::new(None, String::new(), 1);
    let hash: Vec<u8> = (1..=20).collect();
    let p = Peer::new(endpoint(), me, them, hash.clone());
    let h = p.handshake_message();
    assert_eq!(h.len(), 68);
    assert_eq!(h[0], 19);
    assert_eq!(&h[1..20], b"BitTorrent Protocol");
    assert_eq!(&h[20..28], &[0u8; 8]);
    assert_eq!(&h[28..48], hash.as_slice());
    assert_eq!(&h[48..68], &[7u8; 20]);
}

#[test]
fn handshake_check_reads_bytes_21_to_40() {
    let me = PeerInfo::new(None, String::new(), 1);
    let hash: Vec<u8> = (1..=20).collect();
    let p = Peer::new(endpoint(), me.clone(), me.clone(), hash.clone());
    let own = p.handshake_message();
    assert_eq!(own.len(), 48);
    assert_eq!(p.check_handshake(&own), Err(HandshakeError::InfoHashMismatch));
    let mut raw = vec![19u8];
    raw.extend_from_slice(b"BitTorrent Protocol");
    raw.push(0);
    raw.extend_from_slice(&hash);
    assert_eq!(p.check_handshake(&raw), Ok(()));
    assert_eq!(p.check_handshake(&[18]), Err(HandshakeError::InvalidProtocol));
    let mut wrong = raw.clone();
    wrong[5] = b'x';
    assert_eq!(p.check_handshake(&wrong), Err(HandshakeError::InvalidProtocol));
    let zero = Peer::new(endpoint(), me.clone(), me, vec![0; 20]);
    assert_eq!(zero.check_handshake(&zero.handshake_message()), Ok(()));
}

#[test]
fn addresses() {
    assert_eq!(connect_address("10.0.0.1", 6881), "10.0.0.1:6881");
    assert_eq!(connect_address("::1", 80), "[::1]:80");
    assert_eq!(listen_address("0.0.0.0", 2222), "0.0.0.0:2222");
    assert_eq!(listen_address("", 0), ":0");
}

#[test]
fn contains_char_finds_colons() {
    assert!(bitt::connection::contains_char("fe80::1", ':'));
    assert!(!bitt::connection::contains_char("1.2.3.4", ':'));
    assert!(!bitt::connection::contains_char("", ':'));
}

#[test]
fn non_ascii_address_does_not_come_back() {
    let p = PeerInfo::new(Some(vec![1]), "é".to_string(), 1);
    let q = PeerInfo::from_bencode(&p.to_bencode()).unwrap();
    assert_eq!(q.get_ip(), "Ã©");
}
