use bitt::bencode::BencodeError;
use bitt::peerinfo::PeerInfoError;
use bitt::tracker::{
    get_u32, parse_peers, parse_response, percent_encode, Tracker, TrackerError, TrackerEvent,
    TrackerRequest,
};

fn request(info_hash: Vec<u8>, peer_id: Vec<u8>) -> TrackerRequest {
    TrackerRequest {
        info_hash,
        peer_id,
        port: 2222,
        uploaded: 1,
        downloaded: 2,
        left: 10,
        compact: true,
        event: None,
        numwant: 500,
        key: None,
        tracker_id: None,
    }
}

#[test]
fn percent_encoding_is_lower_case_hex() {
    assert_eq!(percent_encode(&[0x00, 0xab, 0x10, 0xff]), "%00%ab%10%ff");
    assert_eq!(percent_encode(&[]), "");
}

#[test]
fn request_url_plain() {
    let t = Tracker::from_serialized("http://tracker.example/announce//".to_string());
    let req = request(vec![0xaa; 20], b"-ZB0001-0123456789ab".to_vec());
    let url = t.request_url(&req).unwrap();
    let hash = "%aa".repeat(20);
    let id = "%2d%5a%42%30%30%30%31%2d%30%31%32%33%34%35%36%37%38%39%61%62";
    assert_eq!(
        url,
        format!(
            "http://tracker.example/announce?info_hash={}&peer_id={}&port=2222&uploaded=1&downloaded=2&left=10&compact=1&numwant=500",
            hash, id
        )
    );
}

#[test]
fn request_url_optional_parts() {
    let t = Tracker::from_serialized("http://t/a".to_string());
    let mut req = request(vec![0; 20], vec![1; 20]);
    req.compact = false;
    req.tracker_id = Some("xy".to_string());
    req.key = Some(77);
    req.event = Some(TrackerEvent::Completed);
    let url = t.request_url(&req).unwrap();
    assert!(url.ends_with("&compact=0&numwant=500&trackerid=%78%79&key=77&event=completed"));
    req.event = Some(TrackerEvent::Started);
    assert!(t.request_url(&req).unwrap().ends_with("&event=started"));
    req.event = Some(TrackerEvent::Stopped);
    assert!(t.request_url(&req).unwrap().ends_with("&event=stopped"));
}

#[test]
fn request_url_checks_lengths() {
    let t = Tracker::from_serialized("http://t/a".to_string());
    assert!(matches!(
        t.request_url(&request(vec![0; 19], vec![0; 20])),
        Err(TrackerError::InfoHashLength)
    ));
    assert!(matches!(
        t.request_url(&request(vec![0; 20], vec![0; 3])),
        Err(TrackerError::PeerIdLength(3))
    ));
}

#[test]
fn tracker_new_parses_url() {
    let t = Tracker::new("HTTP://Example.COM".to_string()).unwrap();
    let url = t.request_url(&request(vec![0; 20], vec![0; 20])).unwrap();
    assert!(url.starts_with("http://example.com?info_hash="));
    assert!(matches!(Tracker::new("not a url".to_string()), Err(TrackerError::InvalidUrl)));
}

#[test]
fn compact_ipv4_answer() {
    let body = b"d8:completei5e10:incompletei3e8:intervali900e5:peers12:\x7f\x00\x00\x01\x1a\xe1\x0a\x00\x00\x02\x00\x50e";
    let (resp, warning) = parse_response(body).unwrap();
    assert!(warning.is_none());
    assert_eq!(resp.complete, 5);
    assert_eq!(resp.incomplete, 3);
    assert_eq!(resp.interval, 900);
    assert_eq!(resp.min_interval, 900);
    assert!(resp.tracker_id.is_none());
    assert_eq!(resp.peers.len(), 2);
    assert_eq!(resp.peers[0].get_ip(), "127.0.0.1");
    assert_eq!(resp.peers[0].get_port(), 6881);
    assert!(resp.peers[0].get_id().is_none());
    assert_eq!(resp.peers[1].get_ip(), "10.0.0.2");
    assert_eq!(resp.peers[1].get_port(), 80);
}

#[test]
fn defaults_and_min_interval() {
    let (resp, _) = parse_response(b"de").unwrap();
    assert_eq!(resp.complete, 0);
    assert_eq!(resp.incomplete, 0);
    assert_eq!(resp.interval, 1800);
    assert_eq!(resp.min_interval, 1800);
    assert!(resp.peers.is_empty());
    let (resp, _) = parse_response(b"d8:intervali60e12:min intervali30ee").unwrap();
    assert_eq!(resp.interval, 60);
    assert_eq!(resp.min_interval, 30);
}

#[test]
fn numbers_are_kept_modulo_2_32() {
    let (resp, _) = parse_response(b"d8:completei4294967297ee").unwrap();
    assert_eq!(resp.complete, 1);
}

#[test]
fn compact_ipv6_answer() {
    let mut body = b"d6:peers618:".to_vec();
    body.extend_from_slice(&[0x20, 0x01, 0x0d, 0xb8, 0, 0, 0, 0, 0, 0, 0, 0, 0, 0, 0xab, 0xcd, 0x1a, 0xe1]);
    body.extend_from_slice(b"e");
    let (resp, _) = parse_response(&body).unwrap();
    assert_eq!(resp.peers.len(), 1);
    assert_eq!(resp.peers[0].get_ip(), "2001:0db8:0000:0000:0000:0000:0000:abcd");
    assert_eq!(resp.peers[0].get_port(), 6881);
}

#[test]
fn dictionary_peer_list() {
    let body = b"d5:peersld7:peer id3:abc2:ip3:1.24:porti9eeee";
    let (resp, _) = parse_response(body).unwrap();
    assert_eq!(resp.peers.len(), 1);
    assert_eq!(resp.peers[0].get_id(), &Some(b"abc".to_vec()));
    assert_eq!(resp.peers[0].get_ip(), "1.2");
    assert_eq!(resp.peers[0].get_port(), 9);
    let bad = b"d5:peersld2:ipi1eeee";
    assert!(matches!(parse_response(bad), Err(TrackerError::Peer(PeerInfoError::IpNotString))));
}

#[test]
fn uneven_compact_list_falls_through() {
    let (resp, _) = parse_response(b"d5:peers5:abcdee").unwrap();
    assert!(resp.peers.is_empty());
}

#[test]
fn failure_warning_and_tracker_id() {
    assert!(matches!(parse_response(b"d14:failure reason3:bade"), Err(TrackerError::Failure(s)) if s == "bad"));
    let (resp, warning) = parse_response(b"d15:warning message7:careful10:tracker id2:\xffxe").unwrap();
    assert_eq!(warning, Some("careful".to_string()));
    assert_eq!(resp.tracker_id, Some("\u{fffd}x".to_string()));
    let (_, warning) = parse_response(b"d14:failure reasoni1ee").unwrap();
    assert!(warning.is_none());
}

#[test]
fn malformed_answers() {
    assert!(matches!(parse_response(b"li1ee"), Err(TrackerError::NotDictionary)));
    assert!(matches!(parse_response(b"d"), Err(TrackerError::Decode(BencodeError::UnexpectedEndInDictionary))));
}

#[test]
fn get_u32_and_parse_peers_directly() {
    let mut d = bitt::bencode::Dict::new();
    d.insert("n".to_string(), bitt::bencode::Entry::Integer(12));
    assert_eq!(get_u32(&d, "n", 5), 12);
    assert_eq!(get_u32(&d, "m", 5), 5);
    assert!(parse_peers(&d).unwrap().is_empty());
}
