//! Who a peer is: its id, address and port, and their bencode form.
use crate::bencode::{dict_insert, dict_lookup, first_key_at, Dict, Entry, Value};
use crate::text::{latin1, latin1_string};
use vstd::prelude::*;
use vstd::utf8::*;

verus! {

/// The value of a `PeerInfo`.
pub struct PeerSpec {
    pub id: Option<Seq<u8>>,
    pub ip: Seq<char>,
    pub port: u16,
}

/// The bytes of an optional byte vector.
pub open spec fn opt_bytes(o: Option<Vec<u8>>) -> Option<Seq<u8>> {
    match o {
        Some(v) => Some(v@),
        None => None,
    }
}

/// Why an entry does not describe a peer.
#[derive(Clone, Copy, Debug, PartialEq, Eq)]
pub enum PeerInfoError {
    /// The entry is not a dictionary.
    NotDictionary,
    /// It has no `ip`.
    MissingIp,
    /// Its `ip` is not a string.
    IpNotString,
    /// It has no `port`.
    MissingPort,
    /// Its `port` is not an integer.
    PortNotInteger,
}

#[derive(Debug)]
pub struct PeerInfo {
    id: Option<Vec<u8>>,
    ip: String,
    port: u16,
}

impl View for PeerInfo {
    type V = PeerSpec;

    closed spec fn view(&self) -> PeerSpec {
        PeerSpec { id: opt_bytes(self.id), ip: self.ip@, port: self.port }
    }
}

/// The peer that a value describes: a dictionary with a string `ip` (each byte one
/// character) and an integer `port` (kept modulo 2^16), and an optional string `peer id`.
/// A missing `peer id` counts as an empty one; one that is not a string as none.
pub open spec fn peer_from_value(v: Value) -> Result<PeerSpec, PeerInfoError> {
    match v {
        Value::Dict(d) => {
            let id = match dict_lookup(d, "peer id"@) {
                None => Some(Seq::<u8>::empty()),
                Some(Value::Bytes(b)) => Some(b),
                Some(_) => None,
            };
            match dict_lookup(d, "ip"@) {
                None => Err(PeerInfoError::MissingIp),
                Some(Value::Bytes(ip)) => match dict_lookup(d, "port"@) {
                    None => Err(PeerInfoError::MissingPort),
                    Some(Value::Int(p)) => Ok(PeerSpec { id, ip: latin1(ip), port: p as u16 }),
                    Some(_) => Err(PeerInfoError::PortNotInteger),
                },
                Some(_) => Err(PeerInfoError::IpNotString),
            }
        },
        _ => Err(PeerInfoError::NotDictionary),
    }
}

/// The dictionary that describes a peer: `peer id` where it has one, then `ip` (its UTF-8
/// bytes) and `port`.
pub open spec fn peer_to_value(p: PeerSpec) -> Value {
    let rest = seq![("ip"@, Value::Bytes(encode_utf8(p.ip))), ("port"@, Value::Int(p.port as int))];
    Value::Dict(
        match p.id {
            Some(id) => seq![("peer id"@, Value::Bytes(id))] + rest,
            None => rest,
        },
    )
}

/// A copy of an optional byte vector.
fn copy_opt_bytes(o: &Option<Vec<u8>>) -> (r: Option<Vec<u8>>)
    ensures
        opt_bytes(r) == opt_bytes(*o),
{
    match o {
        Some(v) => Some(vstd::slice::slice_to_vec(v.as_slice())),
        None => None,
    }
}

/// Whether two byte sequences are equal.
pub fn bytes_equal(a: &[u8], b: &[u8]) -> (r: bool)
    ensures
        r == (a@ == b@),
{
    if a.len() != b.len() {
        return false;
    }
    let mut i: usize = 0;
    while i < a.len()
        invariant
            i <= a.len(),
            a.len() == b.len(),
            forall|j: int| 0 <= j < i ==> a@[j] == b@[j],
        decreases a.len() - i,
    {
        if a[i] != b[i] {
            return false;
        }
        i += 1;
    }
    assert(a@ =~= b@);
    true
}

impl PeerInfo {
    /// A peer with the given id, address and port.
    pub fn new(id: Option<Vec<u8>>, ip: String, port: u16) -> (r: PeerInfo)
        ensures
            r@ == (PeerSpec { id: opt_bytes(id), ip: ip@, port }),
    {
        Self { id, ip, port }
    }

    pub fn set_ip(&mut self, ip: String)
        ensures
            final(self)@ == (PeerSpec { ip: ip@, ..old(self)@ }),
    {
        self.ip = ip;
    }

    pub fn set_id(&mut self, id: Vec<u8>)
        ensures
            final(self)@ == (PeerSpec { id: Some(id@), ..old(self)@ }),
    {
        self.id = Some(id);
    }

    pub fn set_port(&mut self, port: u16)
        ensures
            final(self)@ == (PeerSpec { port, ..old(self)@ }),
    {
        self.port = port;
    }

    /// Reads a peer from its bencode dictionary.
    pub fn from_bencode(entry: &Entry) -> (r: Result<Self, PeerInfoError>)
        ensures
            match peer_from_value(entry.view()) {
                Ok(p) => r matches Ok(q) && q@ == p,
                Err(e) => r == Err::<Self, PeerInfoError>(e),
            },
    {
        let dict = match entry {
            Entry::Dict(d) => d,
            _ => {
                return Err(PeerInfoError::NotDictionary);
            },
        };
        let id: Option<Vec<u8>> = match dict.get("peer id") {
            None => Some(Vec::new()),
            Some(e) => e.as_string(),
        };
        let ip_bytes = match dict.get("ip") {
            None => {
                return Err(PeerInfoError::MissingIp);
            },
            Some(e) => match e.as_string() {
                Some(b) => b,
                None => {
                    return Err(PeerInfoError::IpNotString);
                },
            },
        };
        let ip = latin1_string(ip_bytes.as_slice());
        let port = match dict.get("port") {
            None => {
                return Err(PeerInfoError::MissingPort);
            },
            Some(e) => match e.as_int() {
                Some(p) => p as u16,
                None => {
                    return Err(PeerInfoError::PortNotInteger);
                },
            },
        };
        Ok(Self { id, ip, port })
    }

    /// The bencode dictionary of this peer.
    pub fn to_bencode(&self) -> (r: Entry)
        ensures
            r.view() == peer_to_value(self@),
    {
        proof {
            reveal_strlit("peer id");
            reveal_strlit("ip");
            reveal_strlit("port");
            assert("peer id"@.len() == 7 && "ip"@.len() == 2 && "port"@.len() == 4);
        }
        let mut dict = Dict::new();
        let ghost empty = dict.entries_view();
        if let Some(id) = &self.id {
            dict.insert("peer id".to_owned(), Entry::String(vstd::slice::slice_to_vec(id.as_slice())));
        }
        let ghost with_id = dict.entries_view();
        let ip_bytes = vstd::slice::slice_to_vec(self.ip.as_str().as_bytes());
        dict.insert("ip".to_owned(), Entry::String(ip_bytes));
        let ghost with_ip = dict.entries_view();
        dict.insert("port".to_owned(), Entry::Integer(self.port as i64));
        proof {
            assert(!exists|i: int| first_key_at(empty, "peer id"@, i));
            assert(!exists|i: int| first_key_at(with_id, "ip"@, i));
            assert(!exists|i: int| first_key_at(with_ip, "port"@, i));
            let expected = match peer_to_value(self@) {
                Value::Dict(d) => d,
                _ => Seq::empty(),
            };
            assert(dict.entries_view() =~= expected);
        }
        Entry::Dict(dict)
    }

    pub fn get_id(&self) -> (r: &Option<Vec<u8>>)
        ensures
            opt_bytes(*r) == self@.id,
    {
        &self.id
    }

    pub fn get_ip(&self) -> (r: &String)
        ensures
            r@ == self@.ip,
    {
        &self.ip
    }

    pub fn get_port(&self) -> (r: u16)
        ensures
            r == self@.port,
    {
        self.port
    }

    /// Whether two peers have the same id, address and port.
    pub fn same_peer(&self, other: &PeerInfo) -> (r: bool)
        ensures
            r == (self@ == other@),
    {
        let same_id = match (&self.id, &other.id) {
            (Some(a), Some(b)) => bytes_equal(a.as_slice(), b.as_slice()),
            (None, None) => true,
            _ => false,
        };
        same_id && self.ip == other.ip && self.port == other.port
    }
}

impl Clone for PeerInfo {
    fn clone(&self) -> (r: Self)
        ensures
            r@ == self@,
    {
        PeerInfo { id: copy_opt_bytes(&self.id), ip: self.ip.clone(), port: self.port }
    }
}

/// A peer with an ASCII address, written as bencode and read back, is the same peer; a
/// peer written without an id reads back with an empty one.
pub proof fn lemma_peer_roundtrip(p: PeerSpec)
    requires
        is_ascii_chars(p.ip),
    ensures
        peer_from_value(peer_to_value(p)) == Ok::<PeerSpec, PeerInfoError>(
            PeerSpec {
                id: Some(
                    match p.id {
                        Some(id) => id,
                        None => Seq::empty(),
                    },
                ),
                ..p
            },
        ),
{
    reveal_strlit("peer id");
    reveal_strlit("ip");
    reveal_strlit("port");
    let d = match peer_to_value(p) {
        Value::Dict(d) => d,
        _ => Seq::empty(),
    };
    assert("peer id"@.len() == 7);
    assert("peer id"@[0] == 'p' && "ip"@[0] == 'i');
    assert("peer id"@ != "ip"@);
    assert("peer id"@ != "port"@);
    assert("ip"@ != "port"@);
    vstd::utf8::is_ascii_chars_encode_utf8(p.ip);
    assert(latin1(encode_utf8(p.ip)) =~= p.ip) by {
        assert forall|i: int| 0 <= i < p.ip.len() implies #[trigger] latin1(encode_utf8(p.ip))[i]
            == p.ip[i] by {
            let c = p.ip[i];
            assert('\0' <= c <= '\u{7f}');
            assert(encode_utf8(p.ip)[i] == c as u8);
            assert(((c as u8) as char) == c);
        }
    }
    assert((p.port as int) as u16 == p.port);
    let o: int = if p.id is Some {
        1
    } else {
        0
    };
    assert(d.len() == 2 + o);
    assert(first_key_at(d, "ip"@, o));
    assert(first_key_at(d, "port"@, o + 1));
    let c1 = choose|i: int| first_key_at(d, "ip"@, i);
    crate::bencode::lemma_first_key_unique(d, "ip"@, o, c1);
    let c2 = choose|i: int| first_key_at(d, "port"@, i);
    crate::bencode::lemma_first_key_unique(d, "port"@, o + 1, c2);
    if p.id is Some {
        assert(first_key_at(d, "peer id"@, 0));
        let c0 = choose|i: int| first_key_at(d, "peer id"@, i);
        crate::bencode::lemma_first_key_unique(d, "peer id"@, 0, c0);
    } else {
        assert(!exists|i: int| first_key_at(d, "peer id"@, i)) by {
            assert forall|i: int| !first_key_at(d, "peer id"@, i) by {
                if 0 <= i < d.len() {
                    assert(d[i].0 == "ip"@ || d[i].0 == "port"@);
                }
            }
        }
    }
}

} // verus!
