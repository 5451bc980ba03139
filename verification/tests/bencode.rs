use bitt::bencode::{format_block, parse_block, Bencode, BencodeError, Dict, Entry};
use bitt::file::{File, TorrentError, TorrentFile};

fn decode(bytes: &[u8]) -> Result<Entry, BencodeError> {
    let mut pos = 0usize;
    parse_block(bytes, &mut pos)
}

fn dict_of(entries: Vec<(&str, Entry)>) -> Dict {
    let mut d = Dict::new();
    for (k, v) in entries {
        d.insert(k.to_string(), v);
    }
    d
}

fn dict_keys(e: &Entry) -> Vec<String> {
    match e {
        Entry::Dict(d) => d.entries().iter().map(|(k, _)| k.clone()).collect(),
        _ => panic!("not a dictionary"),
    }
}

#[test]
fn parse_dictionary_and_get() {
    let mut b = Bencode::new();
    b.parse(b"d3:foo3:bar4:spami42ee".to_vec()).unwrap();
    assert_eq!(b.get("foo").unwrap().as_string(), Some(b"bar".to_vec()));
    assert_eq!(b.get("spam").unwrap().as_int(), Some(42));
    assert!(b.get("missing").is_none());
}

#[test]
fn parse_integer_and_position() {
    let mut pos = 0usize;
    let e = parse_block(b"i42eXYZ", &mut pos).unwrap();
    assert_eq!(e.as_int(), Some(42));
    assert_eq!(pos, 4);
}

#[test]
fn integer_leading_zeros_and_empty() {
    assert_eq!(decode(b"i007e").unwrap().as_int(), Some(7));
    assert_eq!(decode(b"ie").unwrap().as_int(), Some(0));
}

#[test]
fn integer_max_and_overflow() {
    assert_eq!(decode(b"i9223372036854775807e").unwrap().as_int(), Some(i64::MAX));
    assert_eq!(decode(b"i9223372036854775808e").unwrap_err(), BencodeError::IntegerOverflow);
}

#[test]
fn each_error_variant() {
    assert_eq!(decode(b"").unwrap_err(), BencodeError::UnexpectedEnd);
    assert_eq!(decode(b"i-5e").unwrap_err(), BencodeError::InvalidInteger);
    assert_eq!(decode(b"i12").unwrap_err(), BencodeError::UnexpectedEndInInteger);
    assert_eq!(decode(b"li1e").unwrap_err(), BencodeError::UnexpectedEndInList);
    assert_eq!(decode(b"d1:ai1e").unwrap_err(), BencodeError::UnexpectedEndInDictionary);
    assert_eq!(decode(b"1a:").unwrap_err(), BencodeError::InvalidStringLength);
    assert_eq!(decode(b"12").unwrap_err(), BencodeError::MissingColon);
    assert_eq!(decode(b"4:ab").unwrap_err(), BencodeError::StringOutOfBounds);
    assert_eq!(decode(b"x").unwrap_err(), BencodeError::UnexpectedCharacter(b'x'));
    assert_eq!(decode(b"d2:\xff\xfei1ee").unwrap_err(), BencodeError::InvalidUtf8Key);
    assert_eq!(decode(b"d1:a").unwrap_err(), BencodeError::UnexpectedEnd);
}

#[test]
fn huge_string_length_is_out_of_bounds() {
    assert_eq!(decode(b"99999999999999999999999:x").unwrap_err(), BencodeError::StringOutOfBounds);
}

#[test]
fn failed_parse_keeps_document() {
    let mut b = Bencode::new();
    b.parse(b"d1:ai1ee".to_vec()).unwrap();
    assert_eq!(b.parse(b"i1".to_vec()).unwrap_err(), BencodeError::UnexpectedEndInInteger);
    assert_eq!(b.get("a").unwrap().as_int(), Some(1));
}

#[test]
fn duplicate_key_replaces_in_place() {
    let e = decode(b"d1:ai1e1:bi2e1:ai3ee").unwrap();
    assert_eq!(dict_keys(&e), vec!["a".to_string(), "b".to_string()]);
    let d = e.as_dict().unwrap();
    assert_eq!(d.len(), 2);
    assert_eq!(d.entries()[0].1.as_int(), Some(3));
    assert_eq!(d.get("b").unwrap().as_int(), Some(2));
}

#[test]
fn non_string_key_is_dropped() {
    let e = decode(b"di1ei2e1:ai3ee").unwrap();
    assert_eq!(dict_keys(&e), vec!["a".to_string()]);
}

#[test]
fn format_values() {
    assert_eq!(Bencode::new().format(), b"de".to_vec());
    assert_eq!(format_block(Entry::Integer(-5)), b"i-5e".to_vec());
    assert_eq!(format_block(Entry::Integer(i64::MIN)), b"i-9223372036854775808e".to_vec());
    assert_eq!(format_block(Entry::String(b"spam".to_vec())), b"4:spam".to_vec());
    assert_eq!(format_block(Entry::String(Vec::new())), b"0:".to_vec());
    let list = Entry::List(vec![Entry::Integer(1), Entry::String(b"x".to_vec())]);
    assert_eq!(format_block(list), b"li1e1:xe".to_vec());
    let dict = Entry::Dict(dict_of(vec![("cow", Entry::String(b"moo".to_vec()))]));
    assert_eq!(format_block(dict), b"d3:cow3:mooe".to_vec());
}

#[test]
fn decode_of_format_roundtrip() {
    let nested = Entry::Dict(dict_of(vec![
        ("list", Entry::List(vec![Entry::Integer(0), Entry::Integer(123456789)])),
        ("name", Entry::String(b"t\xc3\xa9st".to_vec())),
        ("é", Entry::Dict(Dict::new())),
    ]));
    let bytes = format_block(nested.clone());
    let mut b = Bencode::new();
    b.parse(bytes.clone()).unwrap();
    assert_eq!(b.format(), bytes);
    assert_eq!(b.get("name").unwrap().as_string(), Some(b"t\xc3\xa9st".to_vec()));
    assert_eq!(b.get("é").unwrap().as_dict().unwrap().len(), 0);
}

#[test]
fn accessors_on_other_kinds() {
    let i = Entry::Integer(3);
    assert!(i.as_string().is_none());
    assert!(i.as_list().is_none());
    assert!(i.as_dict().is_none());
    let s = Entry::String(b"a".to_vec());
    assert!(s.as_int().is_none());
    let l = Entry::List(vec![Entry::Integer(9)]);
    assert_eq!(l.as_list().unwrap()[0].as_int(), Some(9));
}

#[test]
fn get_on_non_dictionary_document() {
    let mut b = Bencode::new();
    b.parse(b"li1ee".to_vec()).unwrap();
    assert!(b.get("a").is_none());
    assert!(matches!(b.value(), Entry::List(_)));
}

#[test]
fn file_load_and_get() {
    let mut f = File::new();
    f.load(b"d8:announce12:http://t/anne".to_vec()).unwrap();
    assert_eq!(f.get("announce").unwrap().as_string(), Some(b"http://t/ann".to_vec()));
    assert_eq!(f.load(b"z".to_vec()).unwrap_err(), BencodeError::UnexpectedCharacter(b'z'));
    assert!(f.get("announce").is_some());
}

#[test]
fn decoded_value_reencodes_canonically() {
    let e = decode(b"d1:bi007e1:ai1e1:bi2ee").unwrap();
    let once = format_block(e);
    assert_eq!(once, b"d1:bi2e1:ai1ee".to_vec());
    let again = format_block(decode(&once).unwrap());
    assert_eq!(again, once);
}

#[test]
fn dict_insert_get_and_copy() {
    let mut d = Dict::new();
    d.insert("x".to_string(), Entry::Integer(1));
    d.insert("y".to_string(), Entry::Integer(2));
    d.insert("x".to_string(), Entry::Integer(3));
    assert_eq!(d.len(), 2);
    assert_eq!(d.get("x").unwrap().as_int(), Some(3));
    assert!(d.get("z").is_none());
    let c = d.clone();
    assert_eq!(c.entries()[0].0, "x");
    assert_eq!(c.entries()[1].1.as_int(), Some(2));
}

#[test]
fn bytes_after_a_value_do_not_change_it() {
    let mut pos = 0usize;
    let e = parse_block(b"l4:spami7ee", &mut pos).unwrap();
    let mut pos2 = 0usize;
    let e2 = parse_block(b"l4:spami7eei9e3:xyz", &mut pos2).unwrap();
    assert_eq!(pos, pos2);
    assert_eq!(format_block(e), format_block(e2));
}

#[test]
fn truncated_encoding_is_rejected() {
    let mut d = Dict::new();
    d.insert("a".to_string(), Entry::List(vec![Entry::Integer(12), Entry::String(b"xy".to_vec())]));
    let bytes = format_block(Entry::Dict(d));
    assert_eq!(bytes, b"d1:ali12e2:xyee".to_vec());
    for k in 0..bytes.len() {
        assert!(decode(&bytes[..k]).is_err(), "prefix of length {} was accepted", k);
    }
    assert!(decode(&bytes).is_ok());
}

#[test]
fn well_formed_entries() {
    assert!(decode(b"d1:ali1e2:xyee").unwrap().is_well_formed());
    assert!(Entry::Integer(0).is_well_formed());
    assert!(!Entry::Integer(-1).is_well_formed());
    let mut d = Dict::new();
    d.insert("k".to_string(), Entry::List(vec![Entry::String(vec![]), Entry::Integer(-5)]));
    assert!(!Entry::Dict(d).is_well_formed());
}

fn torrent(doc: &[u8]) -> Result<TorrentFile, TorrentError> {
    let mut b = Bencode::new();
    b.parse(doc.to_vec()).unwrap();
    TorrentFile::from_bencode(&b, vec![7; 20])
}

#[test]
fn torrent_from_document() {
    let t = torrent(
        b"d8:announce13:http://t/anno4:infod6:lengthi100e12:piece lengthi16e6:pieces41:aaaaaaaaaaaaaaaaaaaabbbbbbbbbbbbbbbbbbbbcee",
    )
    .unwrap();
    assert_eq!(t.get_trackers(), &vec!["http://t/anno".to_string()]);
    assert_eq!(t.piece_length, 16);
    assert_eq!(t.total_size(), 100);
    assert_eq!(t.piece_count(), 2);
    assert!(t.supports_v1());
    assert_eq!(t.get_info_hash(), vec![7; 20]);
}

#[test]
fn torrent_without_pieces_is_not_v1() {
    let t = torrent(b"d8:announce1:x4:infod6:lengthi0e12:piece lengthi1eee").unwrap();
    assert!(!t.supports_v1());
    assert_eq!(t.piece_count(), 0);
    let lossy = torrent(b"d8:announce2:\xffa4:infod6:lengthi0e12:piece lengthi1eee").unwrap();
    assert_eq!(lossy.get_trackers(), &vec!["\u{fffd}a".to_string()]);
}

#[test]
fn torrent_errors() {
    assert_eq!(torrent(b"d4:infod6:lengthi0e12:piece lengthi1eee").err(), Some(TorrentError::NoAnnounce));
    assert_eq!(torrent(b"d8:announcei1e4:infod6:lengthi0e12:piece lengthi1eee").err(), Some(TorrentError::NoAnnounce));
    assert_eq!(torrent(b"d8:announce1:x4:infoi3ee").err(), Some(TorrentError::NoInfo));
    assert_eq!(torrent(b"d8:announce1:x4:infod6:lengthi0eee").err(), Some(TorrentError::NoPieceLength));
    assert_eq!(torrent(b"d8:announce1:x4:infod12:piece lengthi1eee").err(), Some(TorrentError::NoLength));
}
