//! The tracker: the address of an announce request, and what the tracker's answer says.
//! Sending the request over HTTP belongs to the program that talks to the tracker.
use crate::bencode::{dict_lookup, parse_block, parse_value, BencodeError, Dict, Entry, Value};
use crate::peerinfo::{peer_from_value, PeerInfo, PeerInfoError, PeerSpec};
use crate::text::{
    decimal, digit_chars, digit_chars_value, hex_char_value, hex_digit, latin1, latin1_string, lemma_decimal_chars,
    lemma_hex_digit_value, lemma_split_field, lemma_split_single, push_decimal, push_hex2, split_at,
    string_from_utf8_lossy, utf8_lossy,
};
use vstd::prelude::*;
use vstd::string::StrSliceExecFns;
use vstd::utf8::*;

verus! {

#[derive(Debug, Clone, Copy, PartialEq, Eq)]
pub enum TrackerEvent {
    Started,
    Stopped,
    Completed,
}

#[derive(Debug)]
pub struct TrackerRequest {
    pub info_hash: Vec<u8>,
    pub peer_id: Vec<u8>,
    pub port: u16,
    pub uploaded: u64,
    pub downloaded: u64,
    pub left: u64,
    pub compact: bool,
    pub event: Option<TrackerEvent>,
    pub numwant: u32,
    pub key: Option<u32>,
    pub tracker_id: Option<String>,
}

#[derive(Debug)]
pub struct TrackerResponse {
    pub complete: u32,
    pub incomplete: u32,
    pub interval: u32,
    pub min_interval: u32,
    pub tracker_id: Option<String>,
    pub peers: Vec<PeerInfo>,
}

/// Why an announce failed.
#[derive(Debug)]
pub enum TrackerError {
    /// The tracker's address is not a URL.
    InvalidUrl,
    /// The info hash is not 20 bytes long.
    InfoHashLength,
    /// The peer id is not 20 bytes long; its length.
    PeerIdLength(usize),
    /// The answer is not bencode.
    Decode(BencodeError),
    /// The answer is not a dictionary.
    NotDictionary,
    /// The tracker refused, for this reason.
    Failure(String),
    /// A peer in the answer is malformed.
    Peer(PeerInfoError),
}

/// The value of a `TrackerError`.
pub enum TrackerFault {
    InvalidUrl,
    InfoHashLength,
    PeerIdLength(usize),
    Decode(BencodeError),
    NotDictionary,
    Failure(Seq<char>),
    Peer(PeerInfoError),
}

/// The value of a `TrackerError`.
pub open spec fn fault_of(e: TrackerError) -> TrackerFault {
    match e {
        TrackerError::InvalidUrl => TrackerFault::InvalidUrl,
        TrackerError::InfoHashLength => TrackerFault::InfoHashLength,
        TrackerError::PeerIdLength(n) => TrackerFault::PeerIdLength(n),
        TrackerError::Decode(d) => TrackerFault::Decode(d),
        TrackerError::NotDictionary => TrackerFault::NotDictionary,
        TrackerError::Failure(s) => TrackerFault::Failure(s@),
        TrackerError::Peer(p) => TrackerFault::Peer(p),
    }
}

/* The request */

/// `%` and two lower-case hexadecimal digits for every byte.
pub open spec fn percent_bytes(b: Seq<u8>) -> Seq<u8> {
    Seq::new(
        3 * b.len(),
        |i: int|
            if i % 3 == 0 {
                37u8
            } else if i % 3 == 1 {
                hex_digit((b[i / 3] / 16) as int)
            } else {
                hex_digit((b[i / 3] % 16) as int)
            },
    )
}

/// The decimal spelling of `n` as characters.
pub open spec fn dec(n: nat) -> Seq<char> {
    latin1(decimal(n))
}

/// The name of an event in a request.
pub open spec fn event_name(e: TrackerEvent) -> Seq<char> {
    match e {
        TrackerEvent::Started => "started"@,
        TrackerEvent::Stopped => "stopped"@,
        TrackerEvent::Completed => "completed"@,
    }
}

/// The start of a query: info hash and peer id, percent-encoded.
pub open spec fn query_head(req: TrackerRequest) -> Seq<char> {
    "info_hash="@ + latin1(percent_bytes(req.info_hash@)) + "&peer_id="@ + latin1(
        percent_bytes(req.peer_id@),
    )
}

/// The numbers of a query, in decimal.
pub open spec fn query_numbers(req: TrackerRequest) -> Seq<char> {
    "&port="@ + dec(req.port as nat) + "&uploaded="@ + dec(req.uploaded as nat) + "&downloaded="@
        + dec(req.downloaded as nat) + "&left="@ + dec(req.left as nat) + "&compact="@ + (
    if req.compact {
        "1"@
    } else {
        "0"@
    }) + "&numwant="@ + dec(req.numwant as nat)
}

/// The end of a query: the tracker id, key and event where there are some.
pub open spec fn query_tail(req: TrackerRequest) -> Seq<char> {
    let id_part = match req.tracker_id {
        Some(id) => "&trackerid="@ + latin1(percent_bytes(encode_utf8(id@))),
        None => Seq::empty(),
    };
    let key_part = match req.key {
        Some(k) => "&key="@ + dec(k as nat),
        None => Seq::empty(),
    };
    let event_part = match req.event {
        Some(e) => "&event="@ + event_name(e),
        None => Seq::empty(),
    };
    id_part + key_part + event_part
}

/// The query of an announce request.
pub open spec fn query_text(req: TrackerRequest) -> Seq<char> {
    query_head(req) + query_numbers(req) + query_tail(req)
}

/// `s` without the `/` characters at its end.
pub open spec fn trim_slashes(s: Seq<char>) -> Seq<char>
    decreases s.len(),
{
    if s.len() > 0 && s.last() == '/' {
        trim_slashes(s.drop_last())
    } else {
        s
    }
}

/// The serialization that `url::Url::parse` gives a string, where it parses.
pub uninterp spec fn url_serialization(input: Seq<char>) -> Option<Seq<char>>;

/// The error of `url::Url::parse`, carried through unread.
#[verifier::external_type_specification]
#[verifier::external_body]
pub struct ExUrlParseError(url::ParseError);

/// Parses an absolute URL (`url::Url::parse`) and gives its serialization. Which strings
/// parse, and how they are serialized, is left to the name `url_serialization`.
#[verifier::external_body]
fn parse_url(input: &str) -> (r: Result<String, url::ParseError>)
    ensures
        r is Ok <==> url_serialization(input@) is Some,
        r matches Ok(s) ==> url_serialization(input@) == Some(s@),
{
    url::Url::parse(input).map(String::from)
}

/// Appends the decimal spelling of `n`.
fn append_decimal(s: &mut String, n: u64)
    ensures
        final(s)@ == old(s)@ + dec(n as nat),
{
    let mut digits: Vec<u8> = Vec::new();
    push_decimal(&mut digits, n);
    let text = latin1_string(digits.as_slice());
    s.append(text.as_str());
    assert(digits@ =~= decimal(n as nat));
}

/// `%xx` for every byte, with lower-case hexadecimal digits.
pub fn percent_encode(bytes: &[u8]) -> (r: String)
    ensures
        r@ == latin1(percent_bytes(bytes@)),
{
    let mut out: Vec<u8> = Vec::new();
    let mut i: usize = 0;
    while i < bytes.len()
        invariant
            i <= bytes.len(),
            out@ =~= percent_bytes(bytes@).take(3 * i),
        decreases bytes.len() - i,
    {
        out.push(37);
        push_hex2(&mut out, bytes[i]);
        assert(percent_bytes(bytes@).take(3 * (i + 1)) =~= out@);
        i += 1;
    }
    assert(percent_bytes(bytes@).take(3 * i) =~= percent_bytes(bytes@));
    latin1_string(out.as_slice())
}

/// Appends `%xx` for every byte.
fn append_percent(s: &mut String, bytes: &[u8])
    ensures
        final(s)@ == old(s)@ + latin1(percent_bytes(bytes@)),
{
    let text = percent_encode(bytes);
    s.append(text.as_str());
}

/// A string without the `/` characters at its end.
fn trim_end_slashes(s: &str) -> (r: &str)
    ensures
        r@ == trim_slashes(s@),
{
    let mut n = s.unicode_len();
    assert(s@.take(n as int) =~= s@);
    while n > 0 && s.get_char(n - 1) == '/'
        invariant
            n <= s@.len(),
            trim_slashes(s@) == trim_slashes(s@.take(n as int)),
        decreases n,
    {
        assert(s@.take(n as int).drop_last() =~= s@.take(n - 1));
        n -= 1;
    }
    s.substring_char(0, n)
}

/// Appends the start of the query.
fn append_query_head(q: &mut String, req: &TrackerRequest)
    ensures
        final(q)@ == old(q)@ + query_head(*req),
{
    q.append("info_hash=");
    append_percent(q, req.info_hash.as_slice());
    q.append("&peer_id=");
    append_percent(q, req.peer_id.as_slice());
    assert(final(q)@ =~= old(q)@ + query_head(*req));
}

/// Appends the numbers of the query.
fn append_query_numbers(q: &mut String, req: &TrackerRequest)
    ensures
        final(q)@ == old(q)@ + query_numbers(*req),
{
    let ghost start = q@;
    q.append("&port=");
    append_decimal(q, req.port as u64);
    q.append("&uploaded=");
    append_decimal(q, req.uploaded);
    q.append("&downloaded=");
    append_decimal(q, req.downloaded);
    let ghost mid = q@;
    assert(mid =~= start + "&port="@ + dec(req.port as nat) + "&uploaded="@ + dec(
        req.uploaded as nat,
    ) + "&downloaded="@ + dec(req.downloaded as nat));
    q.append("&left=");
    append_decimal(q, req.left);
    q.append("&compact=");
    if req.compact {
        q.append("1");
    } else {
        q.append("0");
    }
    q.append("&numwant=");
    append_decimal(q, req.numwant as u64);
    assert(final(q)@ =~= old(q)@ + query_numbers(*req));
}

/// Appends the optional end of the query.
fn append_query_tail(q: &mut String, req: &TrackerRequest)
    ensures
        final(q)@ == old(q)@ + query_tail(*req),
{
    let ghost start = q@;
    if let Some(id) = &req.tracker_id {
        q.append("&trackerid=");
        append_percent(q, id.as_str().as_bytes());
    }
    let ghost after_id = q@;
    if let Some(key) = req.key {
        q.append("&key=");
        append_decimal(q, key as u64);
    }
    let ghost after_key = q@;
    if let Some(event) = req.event {
        q.append("&event=");
        match event {
            TrackerEvent::Started => q.append("started"),
            TrackerEvent::Stopped => q.append("stopped"),
            TrackerEvent::Completed => q.append("completed"),
        }
    }
    assert(final(q)@ =~= old(q)@ + query_tail(*req));
}

/// A tracker, by the serialization of its URL.
pub struct Tracker {
    url: String,
}

impl Tracker {
    /// The serialization of the tracker's URL.
    pub closed spec fn url_text(&self) -> Seq<char> {
        self.url@
    }

    /// A tracker at `url`, where it parses as a URL.
    pub fn new(url: String) -> (r: Result<Self, TrackerError>)
        ensures
            match url_serialization(url@) {
                Some(s) => r matches Ok(t) && t.url_text() == s,
                None => r matches Err(TrackerError::InvalidUrl),
            },
    {
        match parse_url(url.as_str()) {
            Ok(s) => Ok(Self::from_serialized(s)),
            Err(_) => Err(TrackerError::InvalidUrl),
        }
    }

    /// A tracker whose URL has been parsed already and serializes as `url`.
    pub fn from_serialized(url: String) -> (r: Self)
        ensures
            r.url_text() == url@,
    {
        Tracker { url }
    }

    /// The address of an announce: the tracker's URL without trailing `/`, `?`, and the
    /// query. The info hash and the peer id must be 20 bytes long.
    pub fn request_url(&self, req: &TrackerRequest) -> (r: Result<String, TrackerError>)
        ensures
            req.info_hash@.len() != 20 ==> r matches Err(TrackerError::InfoHashLength),
            req.info_hash@.len() == 20 && req.peer_id@.len() != 20 ==> (r matches Err(
                TrackerError::PeerIdLength(n),
            ) && n == req.peer_id@.len()),
            req.info_hash@.len() == 20 && req.peer_id@.len() == 20 ==> (r matches Ok(u) && u@
                == trim_slashes(self.url_text()) + "?"@ + query_text(*req)),
    {
        if req.info_hash.len() != 20 {
            return Err(TrackerError::InfoHashLength);
        }
        if req.peer_id.len() != 20 {
            return Err(TrackerError::PeerIdLength(req.peer_id.len()));
        }
        let mut q = String::new();
        append_query_head(&mut q, req);
        append_query_numbers(&mut q, req);
        append_query_tail(&mut q, req);
        assert(q@ =~= query_text(*req));
        let mut u = trim_end_slashes(self.url.as_str()).to_owned();
        u.append("?");
        u.append(q.as_str());
        assert(u@ =~= trim_slashes(self.url_text()) + "?"@ + query_text(*req));
        Ok(u)
    }
}

/* The answer */

/// A number of the answer: the integer stored under `key`, kept modulo 2^32, or `default`
/// where there is none.
pub open spec fn get_u32_spec(d: Seq<(Seq<char>, Value)>, key: Seq<char>, default: u32) -> u32 {
    match dict_lookup(d, key) {
        Some(Value::Int(i)) => i as u32,
        _ => default,
    }
}

/// The numbers of a compact IPv4 address.
pub open spec fn ipv4_bytes(a: u8, b: u8, c: u8, d: u8) -> Seq<u8> {
    decimal(a as nat) + seq![46u8] + decimal(b as nat) + seq![46u8] + decimal(c as nat) + seq![
        46u8,
    ] + decimal(d as nat)
}

/// A port in two big-endian bytes.
pub open spec fn be_port(hi: u8, lo: u8) -> u16 {
    ((hi as u16) << 8u16) | (lo as u16)
}

/// Peer `i` of a compact IPv4 list: six bytes each, four of address and two of port.
pub open spec fn compact4_peer(b: Seq<u8>, i: int) -> PeerSpec {
    PeerSpec {
        id: None,
        ip: latin1(ipv4_bytes(b[6 * i], b[6 * i + 1], b[6 * i + 2], b[6 * i + 3])),
        port: be_port(b[6 * i + 4], b[6 * i + 5]),
    }
}

/// The peers of a compact IPv4 list.
pub open spec fn compact4_peers(b: Seq<u8>) -> Seq<PeerSpec> {
    Seq::new(b.len() / 6, |i: int| compact4_peer(b, i))
}

/// The text of an IPv6 address of sixteen bytes `c[o..o + 16]`: eight groups of four
/// lower-case hexadecimal digits, separated by `:`.
pub open spec fn ipv6_bytes(c: Seq<u8>, o: int) -> Seq<u8> {
    Seq::new(
        39,
        |i: int|
            if i % 5 == 4 {
                58u8
            } else if i % 5 % 2 == 0 {
                hex_digit((c[o + 2 * (i / 5) + i % 5 / 2] / 16) as int)
            } else {
                hex_digit((c[o + 2 * (i / 5) + i % 5 / 2] % 16) as int)
            },
    )
}

/// Peer `i` of a compact IPv6 list: eighteen bytes each, sixteen of address and two of
/// port.
pub open spec fn compact6_peer(b: Seq<u8>, i: int) -> PeerSpec {
    PeerSpec {
        id: None,
        ip: latin1(ipv6_bytes(b, 18 * i)),
        port: be_port(b[18 * i + 16], b[18 * i + 17]),
    }
}

/// The peers of a compact IPv6 list; bytes after the last whole peer are ignored.
pub open spec fn compact6_peers(b: Seq<u8>) -> Seq<PeerSpec> {
    Seq::new(b.len() / 18, |i: int| compact6_peer(b, i))
}

/// The peers of a list of peer dictionaries, or the error of the first malformed one.
pub open spec fn peers_from_list(l: Seq<Value>) -> Result<Seq<PeerSpec>, PeerInfoError>
    decreases l.len(),
{
    if l.len() == 0 {
        Ok(Seq::empty())
    } else {
        match peer_from_value(l[0]) {
            Err(e) => Err(e),
            Ok(p) => match peers_from_list(l.subrange(1, l.len() as int)) {
                Ok(ps) => Ok(seq![p] + ps),
                Err(e) => Err(e),
            },
        }
    }
}

/// The peers of an answer: a compact IPv4 list under `peers` whose length is a multiple
/// of six; else a compact IPv6 list under `peers6`; else a list of dictionaries under
/// `peers`; else none.
pub open spec fn peers_spec(d: Seq<(Seq<char>, Value)>) -> Result<Seq<PeerSpec>, PeerInfoError> {
    match dict_lookup(d, "peers"@) {
        Some(Value::Bytes(b)) if b.len() % 6 == 0 => Ok(compact4_peers(b)),
        _ => match dict_lookup(d, "peers6"@) {
            Some(Value::Bytes(b)) => Ok(compact6_peers(b)),
            _ => match dict_lookup(d, "peers"@) {
                Some(Value::List(l)) => peers_from_list(l),
                _ => Ok(Seq::empty()),
            },
        },
    }
}

/// The value of a `TrackerResponse`.
pub struct ResponseView {
    pub complete: u32,
    pub incomplete: u32,
    pub interval: u32,
    pub min_interval: u32,
    pub tracker_id: Option<Seq<char>>,
    pub peers: Seq<PeerSpec>,
}

/// The peers of a vector.
pub open spec fn peer_views(v: Seq<PeerInfo>) -> Seq<PeerSpec> {
    v.map_values(|p: PeerInfo| p@)
}

/// The characters of an optional string.
pub open spec fn opt_chars(o: Option<String>) -> Option<Seq<char>> {
    match o {
        Some(s) => Some(s@),
        None => None,
    }
}

/// The value of a `TrackerResponse`.
pub open spec fn response_view(r: TrackerResponse) -> ResponseView {
    ResponseView {
        complete: r.complete,
        incomplete: r.incomplete,
        interval: r.interval,
        min_interval: r.min_interval,
        tracker_id: opt_chars(r.tracker_id),
        peers: peer_views(r.peers@),
    }
}

/// What a tracker's answer says, and the warning it carries, if any.
pub open spec fn interpret_response(body: Seq<u8>) -> Result<(ResponseView, Option<Seq<char>>), TrackerFault> {
    match parse_value(body, 0) {
        Err(e) => Err(TrackerFault::Decode(e)),
        Ok((Value::Dict(d), _)) => match dict_lookup(d, "failure reason"@) {
            Some(Value::Bytes(reason)) => Err(TrackerFault::Failure(utf8_lossy(reason))),
            _ => match peers_spec(d) {
                Err(e) => Err(TrackerFault::Peer(e)),
                Ok(ps) => Ok(
                    (
                        ResponseView {
                            complete: get_u32_spec(d, "complete"@, 0),
                            incomplete: get_u32_spec(d, "incomplete"@, 0),
                            interval: get_u32_spec(d, "interval"@, 1800),
                            min_interval: get_u32_spec(
                                d,
                                "min interval"@,
                                get_u32_spec(d, "interval"@, 1800),
                            ),
                            tracker_id: match dict_lookup(d, "tracker id"@) {
                                Some(Value::Bytes(b)) => Some(utf8_lossy(b)),
                                _ => None,
                            },
                            peers: ps,
                        },
                        match dict_lookup(d, "warning message"@) {
                            Some(Value::Bytes(b)) => Some(utf8_lossy(b)),
                            _ => None,
                        },
                    ),
                ),
            },
        },
        Ok(_) => Err(TrackerFault::NotDictionary),
    }
}

/// The integer stored under `key`, kept modulo 2^32, or `default`.
pub fn get_u32(dict: &Dict, key: &str, default: u32) -> (r: u32)
    ensures
        r == get_u32_spec(dict.entries_view(), key@, default),
{
    match dict.get(key) {
        Some(e) => match e.as_int() {
            Some(i) => i as u32,
            None => default,
        },
        None => default,
    }
}

/// The decimal spelling of a byte.
fn push_dec_byte(out: &mut Vec<u8>, b: u8)
    ensures
        final(out)@ == old(out)@ + decimal(b as nat),
{
    push_decimal(out, b as u64);
}

/// The peers of a compact IPv4 list.
fn compact4_list(bytes: &[u8]) -> (r: Vec<PeerInfo>)
    requires
        bytes.len() % 6 == 0,
    ensures
        peer_views(r@) == compact4_peers(bytes@),
{
    let mut peers: Vec<PeerInfo> = Vec::new();
    let n = bytes.len() / 6;
    let mut i: usize = 0;
    while i < n
        invariant
            i <= n,
            n == bytes.len() / 6,
            peer_views(peers@) =~= compact4_peers(bytes@).take(i as int),
        decreases n - i,
    {
        let base = 6 * i;
        let mut text: Vec<u8> = Vec::new();
        push_dec_byte(&mut text, bytes[base]);
        text.push(46);
        push_dec_byte(&mut text, bytes[base + 1]);
        text.push(46);
        push_dec_byte(&mut text, bytes[base + 2]);
        text.push(46);
        push_dec_byte(&mut text, bytes[base + 3]);
        let ip = latin1_string(text.as_slice());
        let port: u16 = ((bytes[base + 4] as u16) << 8u16) | (bytes[base + 5] as u16);
        let p = PeerInfo::new(None, ip, port);
        assert(text@ =~= ipv4_bytes(
            bytes@[6 * i as int],
            bytes@[6 * i + 1],
            bytes@[6 * i + 2],
            bytes@[6 * i + 3],
        ));
        assert(p@ == compact4_peer(bytes@, i as int));
        let ghost before = peers@;
        peers.push(p);
        assert(peers@ =~= before.push(p));
        assert(peer_views(peers@) =~= peer_views(before).push(p@));
        assert(compact4_peers(bytes@).take(i + 1) =~= compact4_peers(bytes@).take(i as int).push(
            compact4_peer(bytes@, i as int),
        ));
        i += 1;
    }
    assert(compact4_peers(bytes@).take(n as int) =~= compact4_peers(bytes@));
    peers
}

/// The text of the IPv6 address in `bytes[o..o + 16]`.
fn ipv6_text(bytes: &[u8], o: usize) -> (r: Vec<u8>)
    requires
        o + 16 <= bytes.len(),
    ensures
        r@ == ipv6_bytes(bytes@, o as int),
{
    let ghost full = ipv6_bytes(bytes@, o as int);
    let mut out: Vec<u8> = Vec::new();
    let mut g: usize = 0;
    while g < 8
        invariant
            g <= 8,
            o + 16 <= bytes.len(),
            full == ipv6_bytes(bytes@, o as int),
            g == 0 ==> out@.len() == 0,
            g > 0 ==> out@ =~= full.take(5 * g - 1),
        decreases 8 - g,
    {
        let ghost before = out@;
        if g > 0 {
            out.push(58);
            assert(full[5 * g - 1] == 58u8);
        }
        let hi = bytes[o + 2 * g];
        let lo = bytes[o + 2 * g + 1];
        push_hex2(&mut out, hi);
        push_hex2(&mut out, lo);
        proof {
            let s = 5 * g as int;
            assert(s % 5 == 0 && s / 5 == g);
            assert((s + 1) % 5 == 1 && (s + 1) / 5 == g);
            assert((s + 2) % 5 == 2 && (s + 2) / 5 == g);
            assert((s + 3) % 5 == 3 && (s + 3) / 5 == g);
            assert(full[s] == hex_digit((hi / 16) as int));
            assert(full[s + 1] == hex_digit((hi % 16) as int));
            assert(full[s + 2] == hex_digit((lo / 16) as int));
            assert(full[s + 3] == hex_digit((lo % 16) as int));
            if g < 7 {
                assert(out@ =~= full.take(s + 4));
            } else {
                assert(out@ =~= full);
            }
        }
        g += 1;
    }
    out
}

/// The peers of a compact IPv6 list.
fn compact6_list(bytes: &[u8]) -> (r: Vec<PeerInfo>)
    ensures
        peer_views(r@) == compact6_peers(bytes@),
{
    let mut peers: Vec<PeerInfo> = Vec::new();
    let n = bytes.len() / 18;
    let mut i: usize = 0;
    while i < n
        invariant
            i <= n,
            n == bytes.len() / 18,
            peer_views(peers@) =~= compact6_peers(bytes@).take(i as int),
        decreases n - i,
    {
        let base = 18 * i;
        let text = ipv6_text(bytes, base);
        let ip = latin1_string(text.as_slice());
        let port: u16 = ((bytes[base + 16] as u16) << 8u16) | (bytes[base + 17] as u16);
        let p = PeerInfo::new(None, ip, port);
        assert(p@ == compact6_peer(bytes@, i as int));
        let ghost before = peers@;
        peers.push(p);
        assert(peers@ =~= before.push(p));
        assert(peer_views(peers@) =~= peer_views(before).push(p@));
        assert(compact6_peers(bytes@).take(i + 1) =~= compact6_peers(bytes@).take(i as int).push(
            compact6_peer(bytes@, i as int),
        ));
        i += 1;
    }
    assert(compact6_peers(bytes@).take(n as int) =~= compact6_peers(bytes@));
    peers
}

/// The peers of a list of peer dictionaries.
fn dict_peer_list(list: &Vec<Entry>) -> (r: Result<Vec<PeerInfo>, PeerInfoError>)
    ensures
        match peers_from_list(crate::bencode::views_of(list@)) {
            Ok(ps) => r matches Ok(v) && peer_views(v@) == ps,
            Err(e) => r == Err::<Vec<PeerInfo>, PeerInfoError>(e),
        },
{
    proof {
        crate::bencode::lemma_views_of(list@);
    }
    let ghost vs = crate::bencode::views_of(list@);
    let mut peers: Vec<PeerInfo> = Vec::new();
    let mut i: usize = 0;
    assert(vs.subrange(0, vs.len() as int) =~= vs);
    assert(peer_views(peers@) =~= Seq::<PeerSpec>::empty());
    proof {
        match peers_from_list(vs) {
            Ok(ps) => {
                assert(Seq::<PeerSpec>::empty() + ps =~= ps);
            },
            Err(_) => {},
        }
    }
    while i < list.len()
        invariant
            i <= list.len(),
            vs == crate::bencode::views_of(list@),
            vs.len() == list@.len(),
            forall|k: int| 0 <= k < list@.len() ==> #[trigger] vs[k] == list@[k].view(),
            peers_from_list(vs) == match peers_from_list(vs.subrange(i as int, vs.len() as int)) {
                Ok(ps) => Ok(peer_views(peers@) + ps),
                Err(e) => Err(e),
            },
        decreases list.len() - i,
    {
        let ghost rest = vs.subrange(i as int, vs.len() as int);
        assert(rest[0] == list@[i as int].view());
        assert(rest.subrange(1, rest.len() as int) =~= vs.subrange(i + 1, vs.len() as int));
        match PeerInfo::from_bencode(&list[i]) {
            Ok(p) => {
                let ghost before = peers@;
                peers.push(p);
                assert(peer_views(peers@) =~= peer_views(before).push(p@));
                proof {
                    match peers_from_list(vs.subrange(i + 1, vs.len() as int)) {
                        Ok(ps) => {
                            assert(peer_views(before) + (seq![p@] + ps) =~= peer_views(peers@) + ps);
                        },
                        Err(_) => {},
                    }
                }
            },
            Err(e) => {
                assert(peer_from_value(rest[0]) == Err::<PeerSpec, PeerInfoError>(e));
                assert(peers_from_list(rest) == Err::<Seq<PeerSpec>, PeerInfoError>(e));
                return Err(e);
            },
        }
        i += 1;
    }
    assert(vs.subrange(i as int, vs.len() as int) =~= Seq::<Value>::empty());
    assert(peer_views(peers@) + Seq::<PeerSpec>::empty() =~= peer_views(peers@));
    Ok(peers)
}

/// The peers of a tracker's answer.
pub fn parse_peers(dict: &Dict) -> (r: Result<Vec<PeerInfo>, PeerInfoError>)
    ensures
        match peers_spec(dict.entries_view()) {
            Ok(ps) => r matches Ok(v) && peer_views(v@) == ps,
            Err(e) => r == Err::<Vec<PeerInfo>, PeerInfoError>(e),
        },
{
    if let Some(value) = dict.get("peers") {
        if let Entry::String(bytes) = value {
            if bytes.len() % 6 == 0 {
                return Ok(compact4_list(bytes.as_slice()));
            }
        }
    }
    if let Some(value6) = dict.get("peers6") {
        if let Entry::String(bytes) = value6 {
            return Ok(compact6_list(bytes.as_slice()));
        }
    }
    if let Some(value) = dict.get("peers") {
        if let Entry::List(list) = value {
            return dict_peer_list(list);
        }
    }
    Ok(Vec::new())
}

/// What a tracker's answer says, and its warning where it carries one.
pub fn parse_response(body: &[u8]) -> (r: Result<(TrackerResponse, Option<String>), TrackerError>)
    ensures
        match interpret_response(body@) {
            Ok((resp, warning)) => r matches Ok((x, w)) && response_view(x) == resp && opt_chars(w)
                == warning,
            Err(f) => r matches Err(e) && fault_of(e) == f,
        },
{
    let mut pos: usize = 0;
    let value = match parse_block(body, &mut pos) {
        Ok(v) => v,
        Err(e) => {
            return Err(TrackerError::Decode(e));
        },
    };
    let dict = match &value {
        Entry::Dict(d) => d,
        _ => {
            return Err(TrackerError::NotDictionary);
        },
    };
    if let Some(reason) = dict.get("failure reason") {
        if let Entry::String(bytes) = reason {
            return Err(TrackerError::Failure(string_from_utf8_lossy(bytes.as_slice())));
        }
    }
    let warning = match dict.get("warning message") {
        Some(Entry::String(bytes)) => Some(string_from_utf8_lossy(bytes.as_slice())),
        _ => None,
    };
    let complete = get_u32(dict, "complete", 0);
    let incomplete = get_u32(dict, "incomplete", 0);
    let interval = get_u32(dict, "interval", 1800);
    let min_interval = get_u32(dict, "min interval", get_u32(dict, "interval", 1800));
    let tracker_id = match dict.get("tracker id") {
        Some(Entry::String(bytes)) => Some(string_from_utf8_lossy(bytes.as_slice())),
        _ => None,
    };
    let peers = match parse_peers(dict) {
        Ok(p) => p,
        Err(e) => {
            return Err(TrackerError::Peer(e));
        },
    };
    Ok((TrackerResponse { complete, incomplete, interval, min_interval, tracker_id, peers }, warning))
}

/* What the request and the answer carry */

/// Percent-encoded bytes read back: `%` before each pair of hexadecimal digits, and the
/// pair spells the byte.
pub open spec fn percent_encodes(t: Seq<char>, b: Seq<u8>) -> bool {
    &&& t.len() == 3 * b.len()
    &&& forall|k: int|
        0 <= k < b.len() ==> t[3 * k] == '%' && hex_char_value(t[3 * k + 1]) * 16 + hex_char_value(
            t[3 * k + 2],
        ) == #[trigger] b[k]
}

/// Percent-encoding any bytes reads back as those bytes, in order.
pub proof fn lemma_percent_reads_back(b: Seq<u8>)
    ensures
        percent_encodes(latin1(percent_bytes(b)), b),
{
    let t = latin1(percent_bytes(b));
    assert forall|k: int| 0 <= k < b.len() implies t[3 * k] == '%' && hex_char_value(t[3 * k + 1])
        * 16 + hex_char_value(t[3 * k + 2]) == #[trigger] b[k] by {
        assert((3 * k) % 3 == 0 && (3 * k) / 3 == k);
        assert((3 * k + 1) % 3 == 1 && (3 * k + 1) / 3 == k);
        assert((3 * k + 2) % 3 == 2 && (3 * k + 2) / 3 == k);
        lemma_hex_digit_value((b[k] / 16) as int);
        lemma_hex_digit_value((b[k] % 16) as int);
        assert(t[3 * k + 1] == (hex_digit((b[k] / 16) as int) as char));
        assert(t[3 * k + 2] == (hex_digit((b[k] % 16) as int) as char));
    }
}

/// The announce query starts with the info hash and then the peer id, each
/// percent-encoded byte by byte in order: `info_hash=`, the info hash's bytes,
/// `&peer_id=`, the peer id's bytes.
pub proof fn lemma_query_carries_hash_and_id(req: TrackerRequest)
    ensures
        ({
            let q = query_text(req);
            let n = req.info_hash@.len() as int;
            let m = req.peer_id@.len() as int;
            &&& q.len() >= 19 + 3 * n + 3 * m
            &&& q.take(10) == "info_hash="@
            &&& percent_encodes(q.subrange(10, 10 + 3 * n), req.info_hash@)
            &&& q.subrange(10 + 3 * n, 19 + 3 * n) == "&peer_id="@
            &&& percent_encodes(q.subrange(19 + 3 * n, 19 + 3 * n + 3 * m), req.peer_id@)
        }),
{
    reveal_strlit("info_hash=");
    reveal_strlit("&peer_id=");
    let h = latin1(percent_bytes(req.info_hash@));
    let p = latin1(percent_bytes(req.peer_id@));
    lemma_percent_reads_back(req.info_hash@);
    lemma_percent_reads_back(req.peer_id@);
    let head = "info_hash="@ + h + "&peer_id="@ + p;
    let q = query_text(req);
    let n = req.info_hash@.len() as int;
    let m = req.peer_id@.len() as int;
    assert(q == head + query_numbers(req) + query_tail(req));
    assert(q.take(10) =~= "info_hash="@);
    assert(q.subrange(10, 10 + 3 * n) =~= h);
    assert(q.subrange(10 + 3 * n, 19 + 3 * n) =~= "&peer_id="@);
    assert(q.subrange(19 + 3 * n, 19 + 3 * n + 3 * m) =~= p);
}

/// A big-endian port reads as its high byte times 256 plus its low byte.
pub proof fn lemma_be_port(hi: u8, lo: u8)
    ensures
        be_port(hi, lo) as int == hi as int * 256 + lo as int,
{
    assert(((hi as u16) << 8u16) | (lo as u16) == (hi as u16) * 256 + (lo as u16)) by (bit_vector);
}

/// A compact IPv4 peer list is read six bytes a peer: the address of peer `i`, split at
/// `.`, is four runs of digits that spell bytes `6i` to `6i + 3` in that order, its port
/// is bytes `6i + 4` and `6i + 5` read big-endian, and it has no id.
pub proof fn lemma_compact4_reads_back(d: Seq<(Seq<char>, Value)>, b: Seq<u8>, i: int)
    requires
        dict_lookup(d, "peers"@) == Some(Value::Bytes(b)),
        b.len() % 6 == 0,
        0 <= i < b.len() / 6,
    ensures
        peers_spec(d) matches Ok(ps) && ps.len() == b.len() / 6 && ({
            let f = split_at(ps[i].ip, '.');
            &&& f.len() == 4
            &&& forall|j: int|
                0 <= j < 4 ==> digit_chars(#[trigger] f[j]) && digit_chars_value(f[j]) == b[6 * i
                    + j]
            &&& ps[i].port as int == b[6 * i + 4] as int * 256 + b[6 * i + 5] as int
            &&& ps[i].id is None
        }),
{
    let ps = compact4_peers(b);
    assert(peers_spec(d) == Ok::<Seq<PeerSpec>, PeerInfoError>(ps));
    let a0 = latin1(decimal(b[6 * i] as nat));
    let a1 = latin1(decimal(b[6 * i + 1] as nat));
    let a2 = latin1(decimal(b[6 * i + 2] as nat));
    let a3 = latin1(decimal(b[6 * i + 3] as nat));
    lemma_decimal_chars(b[6 * i] as nat);
    lemma_decimal_chars(b[6 * i + 1] as nat);
    lemma_decimal_chars(b[6 * i + 2] as nat);
    lemma_decimal_chars(b[6 * i + 3] as nat);
    assert(forall|k: int| 0 <= k < a0.len() ==> a0[k] != '.');
    assert(forall|k: int| 0 <= k < a1.len() ==> a1[k] != '.');
    assert(forall|k: int| 0 <= k < a2.len() ==> a2[k] != '.');
    assert(forall|k: int| 0 <= k < a3.len() ==> a3[k] != '.');
    let ip = ps[i].ip;
    assert(ip =~= ((a0.push('.') + a1).push('.') + a2).push('.') + a3);
    lemma_split_single(a0, '.');
    lemma_split_field(a0, a1, '.');
    lemma_split_field(a0.push('.') + a1, a2, '.');
    lemma_split_field((a0.push('.') + a1).push('.') + a2, a3, '.');
    let f = split_at(ip, '.');
    assert(f =~= seq![a0, a1, a2, a3]);
    lemma_be_port(b[6 * i + 4], b[6 * i + 5]);
}

/// The value of four hexadecimal digit characters.
pub open spec fn hex4_value(t: Seq<char>) -> int {
    ((hex_char_value(t[0]) * 16 + hex_char_value(t[1])) * 16 + hex_char_value(t[2])) * 16
        + hex_char_value(t[3])
}

/// The first `k` groups of an IPv6 address text, split at `:`, are its first `k`
/// four-character groups.
proof fn lemma_ipv6_groups(c: Seq<u8>, o: int, k: int)
    requires
        1 <= k <= 8,
        0 <= o,
        o + 16 <= c.len(),
    ensures
        ({
            let t = latin1(ipv6_bytes(c, o));
            split_at(t.take(5 * k - 1), ':') == Seq::new(
                k as nat,
                |g: int| t.subrange(5 * g, 5 * g + 4),
            )
        }),
    decreases k,
{
    let t = latin1(ipv6_bytes(c, o));
    let gk = t.subrange(5 * (k - 1), 5 * (k - 1) + 4);
    assert forall|j: int| 0 <= j < gk.len() implies gk[j] != ':' by {
        let x = 5 * (k - 1) + j;
        assert(x % 5 == j);
        let v = ipv6_bytes(c, o)[x];
        assert(v == hex_digit((c[o + 2 * (x / 5) + x % 5 / 2] / 16) as int) || v == hex_digit(
            (c[o + 2 * (x / 5) + x % 5 / 2] % 16) as int,
        ));
        assert(gk[j] == (v as char));
    }
    if k == 1 {
        assert(t.take(4) =~= gk);
        crate::text::lemma_split_single(gk, ':');
        assert(seq![gk] =~= Seq::new(1, |g: int| t.subrange(5 * g, 5 * g + 4)));
    } else {
        lemma_ipv6_groups(c, o, k - 1);
        assert((5 * (k - 1) - 1) % 5 == 4);
        assert(t[5 * (k - 1) - 1] == ':');
        assert(t.take(5 * k - 1) =~= t.take(5 * (k - 1) - 1).push(':') + gk);
        lemma_split_field(t.take(5 * (k - 1) - 1), gk, ':');
        assert(Seq::new((k - 1) as nat, |g: int| t.subrange(5 * g, 5 * g + 4)).push(gk) =~= Seq::new(
            k as nat,
            |g: int| t.subrange(5 * g, 5 * g + 4),
        ));
    }
}

/// A compact IPv6 peer list is read eighteen bytes a peer: the address of peer `i`,
/// split at `:`, is eight groups of four hexadecimal digits, group `g` spelling bytes
/// `18i + 2g` and `18i + 2g + 1` as one big-endian number; its port is bytes `18i + 16`
/// and `18i + 17` read big-endian, and it has no id. This list is taken where `peers`
/// is not a compact IPv4 list.
pub proof fn lemma_compact6_reads_back(d: Seq<(Seq<char>, Value)>, b: Seq<u8>, i: int)
    requires
        !(dict_lookup(d, "peers"@) matches Some(Value::Bytes(p)) && p.len() % 6 == 0),
        dict_lookup(d, "peers6"@) == Some(Value::Bytes(b)),
        0 <= i < b.len() / 18,
    ensures
        peers_spec(d) matches Ok(ps) && ps.len() == b.len() / 18 && ({
            let f = split_at(ps[i].ip, ':');
            &&& f.len() == 8
            &&& forall|g: int|
                0 <= g < 8 ==> (#[trigger] f[g]).len() == 4 && (forall|j: int|
                    0 <= j < 4 ==> 0 <= #[trigger] hex_char_value(f[g][j]) < 16) && hex4_value(f[g])
                    == b[18 * i + 2 * g] as int * 256 + b[18 * i + 2 * g + 1] as int
            &&& ps[i].port as int == b[18 * i + 16] as int * 256 + b[18 * i + 17] as int
            &&& ps[i].id is None
        }),
{
    let ps = compact6_peers(b);
    assert(peers_spec(d) == Ok::<Seq<PeerSpec>, PeerInfoError>(ps));
    let o = 18 * i;
    assert(o + 18 <= b.len()) by (nonlinear_arith)
        requires
            0 <= i < b.len() / 18,
            o == 18 * i,
    ;
    let t = latin1(ipv6_bytes(b, o));
    assert(ps[i].ip == t);
    lemma_ipv6_groups(b, o, 8);
    assert(t.take(39) =~= t);
    let f = split_at(t, ':');
    assert forall|g: int| 0 <= g < 8 implies (#[trigger] f[g]).len() == 4 && (forall|j: int|
        0 <= j < 4 ==> 0 <= #[trigger] hex_char_value(f[g][j]) < 16) && hex4_value(f[g]) == b[18 * i
        + 2 * g] as int * 256 + b[18 * i + 2 * g + 1] as int by {
        let hi = b[o + 2 * g];
        let lo = b[o + 2 * g + 1];
        assert(f[g] == t.subrange(5 * g, 5 * g + 4));
        assert((5 * g) % 5 == 0 && (5 * g) / 5 == g);
        assert((5 * g + 1) % 5 == 1 && (5 * g + 1) / 5 == g);
        assert((5 * g + 2) % 5 == 2 && (5 * g + 2) / 5 == g);
        assert((5 * g + 3) % 5 == 3 && (5 * g + 3) / 5 == g);
        assert(f[g][0] == (hex_digit((hi / 16) as int) as char));
        assert(f[g][1] == (hex_digit((hi % 16) as int) as char));
        assert(f[g][2] == (hex_digit((lo / 16) as int) as char));
        assert(f[g][3] == (hex_digit((lo % 16) as int) as char));
        lemma_hex_digit_value((hi / 16) as int);
        lemma_hex_digit_value((hi % 16) as int);
        lemma_hex_digit_value((lo / 16) as int);
        lemma_hex_digit_value((lo % 16) as int);
        assert(hi == (hi / 16) * 16 + hi % 16);
        assert(lo == (lo / 16) * 16 + lo % 16);
    }
    lemma_be_port(b[o + 16], b[o + 17]);
}

/// `t` holds no `&`.
#[verifier::opaque]
pub open spec fn no_amp(t: Seq<char>) -> bool {
    forall|i: int| 0 <= i < t.len() ==> t[i] != '&'
}

/// `f` is `name` followed by a non-empty run of decimal digits that spells `n`.
#[verifier::opaque]
pub open spec fn names_number(f: Seq<char>, name: Seq<char>, n: nat) -> bool {
    &&& f.len() > name.len()
    &&& f.take(name.len() as int) == name
    &&& digit_chars(f.skip(name.len() as int))
    &&& digit_chars_value(f.skip(name.len() as int)) == n
}

/// `f` is `name` followed by the bytes `b`, percent-encoded.
#[verifier::opaque]
pub open spec fn names_bytes(f: Seq<char>, name: Seq<char>, b: Seq<u8>) -> bool {
    &&& f.len() >= name.len()
    &&& f.take(name.len() as int) == name
    &&& percent_encodes(f.skip(name.len() as int), b)
}

/// A named decimal number holds no `&` and reads back as the number.
proof fn lemma_number_field(name: Seq<char>, n: nat)
    requires
        no_amp(name),
    ensures
        no_amp(name + dec(n)),
        names_number(name + dec(n), name, n),
{
    reveal(no_amp);
    reveal(names_number);
    lemma_decimal_chars(n);
    crate::text::lemma_decimal_digits(n);
    let f = name + dec(n);
    assert(f.take(name.len() as int) =~= name);
    assert(f.skip(name.len() as int) =~= dec(n));
    assert forall|i: int| 0 <= i < f.len() implies f[i] != '&' by {
        if i >= name.len() {
            assert(f[i] == dec(n)[i - name.len()]);
        }
    }
}

/// Named percent-encoded bytes hold no `&` and read back as the bytes.
proof fn lemma_bytes_field(name: Seq<char>, b: Seq<u8>)
    requires
        no_amp(name),
    ensures
        no_amp(name + latin1(percent_bytes(b))),
        names_bytes(name + latin1(percent_bytes(b)), name, b),
{
    reveal(no_amp);
    reveal(names_bytes);
    let e = latin1(percent_bytes(b));
    let f = name + e;
    lemma_percent_reads_back(b);
    assert(f.take(name.len() as int) =~= name);
    assert(f.skip(name.len() as int) =~= e);
    assert forall|i: int| 0 <= i < f.len() implies f[i] != '&' by {
        if i >= name.len() {
            let x = i - name.len();
            assert(f[i] == e[x]);
            let v = percent_bytes(b)[x];
            assert(v == 37u8 || v == hex_digit((b[x / 3] / 16) as int) || v == hex_digit(
                (b[x / 3] % 16) as int,
            ));
            assert(e[x] == (v as char));
        }
    }
}

/// The parameter names of the query: each holds no `&`, and each one after the first
/// comes after an `&`.
proof fn lemma_query_names()
    ensures
        no_amp("info_hash="@),
        no_amp("peer_id="@),
        no_amp("port="@),
        no_amp("uploaded="@),
        no_amp("downloaded="@),
        no_amp("left="@),
        no_amp("compact="@ + "1"@),
        no_amp("compact="@ + "0"@),
        no_amp("numwant="@),
        no_amp("trackerid="@),
        no_amp("key="@),
        no_amp("event="@ + "started"@),
        no_amp("event="@ + "stopped"@),
        no_amp("event="@ + "completed"@),
        "&peer_id="@ == seq!['&'] + "peer_id="@,
        "&port="@ == seq!['&'] + "port="@,
        "&uploaded="@ == seq!['&'] + "uploaded="@,
        "&downloaded="@ == seq!['&'] + "downloaded="@,
        "&left="@ == seq!['&'] + "left="@,
        "&compact="@ == seq!['&'] + "compact="@,
        "&numwant="@ == seq!['&'] + "numwant="@,
        "&trackerid="@ == seq!['&'] + "trackerid="@,
        "&key="@ == seq!['&'] + "key="@,
        "&event="@ == seq!['&'] + "event="@,
{
    reveal(no_amp);
    reveal_strlit("info_hash=");
    reveal_strlit("&peer_id=");
    reveal_strlit("peer_id=");
    reveal_strlit("&port=");
    reveal_strlit("port=");
    reveal_strlit("&uploaded=");
    reveal_strlit("uploaded=");
    reveal_strlit("&downloaded=");
    reveal_strlit("downloaded=");
    reveal_strlit("&left=");
    reveal_strlit("left=");
    reveal_strlit("&compact=");
    reveal_strlit("compact=");
    reveal_strlit("1");
    reveal_strlit("0");
    reveal_strlit("&numwant=");
    reveal_strlit("numwant=");
    reveal_strlit("&trackerid=");
    reveal_strlit("trackerid=");
    reveal_strlit("&key=");
    reveal_strlit("key=");
    reveal_strlit("&event=");
    reveal_strlit("event=");
    reveal_strlit("started");
    reveal_strlit("stopped");
    reveal_strlit("completed");
    assert("&peer_id="@ =~= seq!['&'] + "peer_id="@);
    assert("&port="@ =~= seq!['&'] + "port="@);
    assert("&uploaded="@ =~= seq!['&'] + "uploaded="@);
    assert("&downloaded="@ =~= seq!['&'] + "downloaded="@);
    assert("&left="@ =~= seq!['&'] + "left="@);
    assert("&compact="@ =~= seq!['&'] + "compact="@);
    assert("&numwant="@ =~= seq!['&'] + "numwant="@);
    assert("&trackerid="@ =~= seq!['&'] + "trackerid="@);
    assert("&key="@ =~= seq!['&'] + "key="@);
    assert("&event="@ =~= seq!['&'] + "event="@);
    assert(("compact="@ + "1"@).len() == 9);
    assert(("compact="@ + "0"@).len() == 9);
    assert forall|i: int| 0 <= i < 9 implies ("compact="@ + "1"@)[i] != '&' && ("compact="@
        + "0"@)[i] != '&' by {}
    assert forall|i: int| 0 <= i < ("event="@ + "started"@).len() implies ("event="@
        + "started"@)[i] != '&' by {}
    assert forall|i: int| 0 <= i < ("event="@ + "stopped"@).len() implies ("event="@
        + "stopped"@)[i] != '&' by {}
    assert forall|i: int| 0 <= i < ("event="@ + "completed"@).len() implies ("event="@
        + "completed"@)[i] != '&' by {}
}

/// Appending `&`, a name and a value that hold no `&` adds the name and value as one
/// more piece.
proof fn lemma_add_param(q: Seq<char>, amp_name: Seq<char>, name: Seq<char>, val: Seq<char>)
    requires
        amp_name == seq!['&'] + name,
        no_amp(name + val),
    ensures
        split_at(q + (amp_name + val), '&') == split_at(q, '&').push(name + val),
{
    reveal(no_amp);
    assert(q + (amp_name + val) =~= q.push('&') + (name + val));
    lemma_split_field(q, name + val, '&');
}

/// Appending an optional part adds its parameter where it is there.
proof fn lemma_add_opt_param(q: Seq<char>, part: Seq<char>, amp_name: Seq<char>, name: Seq<char>, val: Option<Seq<char>>)
    requires
        amp_name == seq!['&'] + name,
        part == match val {
            Some(v) => amp_name + v,
            None => Seq::empty(),
        },
        val matches Some(v) ==> no_amp(name + v),
    ensures
        split_at(q + part, '&') == match val {
            Some(v) => split_at(q, '&').push(name + v),
            None => split_at(q, '&'),
        },
{
    match val {
        Some(v) => lemma_add_param(q, amp_name, name, v),
        None => {
            assert(q + part =~= q);
        },
    }
}

/// The parameters that every query has, in order.
pub open spec fn query_params(req: TrackerRequest) -> Seq<Seq<char>> {
    seq![
        "info_hash="@ + latin1(percent_bytes(req.info_hash@)),
        "peer_id="@ + latin1(percent_bytes(req.peer_id@)),
        "port="@ + dec(req.port as nat),
        "uploaded="@ + dec(req.uploaded as nat),
        "downloaded="@ + dec(req.downloaded as nat),
        "left="@ + dec(req.left as nat),
        "compact="@ + if req.compact {
            "1"@
        } else {
            "0"@
        },
        "numwant="@ + dec(req.numwant as nat),
    ]
}

/// The part of the query that every request has splits at `&` into its parameters.
proof fn lemma_query_mandatory(req: TrackerRequest)
    ensures
        split_at(query_head(req) + query_numbers(req), '&') == query_params(req),
        forall|j: int| 0 <= j < 8 ==> no_amp(#[trigger] query_params(req)[j]),
{
    lemma_query_names();
    let h = latin1(percent_bytes(req.info_hash@));
    let p = latin1(percent_bytes(req.peer_id@));
    lemma_bytes_field("info_hash="@, req.info_hash@);
    lemma_bytes_field("peer_id="@, req.peer_id@);
    lemma_number_field("port="@, req.port as nat);
    lemma_number_field("uploaded="@, req.uploaded as nat);
    lemma_number_field("downloaded="@, req.downloaded as nat);
    lemma_number_field("left="@, req.left as nat);
    lemma_number_field("numwant="@, req.numwant as nat);
    let c = if req.compact {
        "1"@
    } else {
        "0"@
    };
    let q0 = "info_hash="@ + h;
    assert(forall|i: int| 0 <= i < q0.len() ==> q0[i] != '&') by {
        reveal(no_amp);
    }
    lemma_split_single(q0, '&');
    let q1 = q0 + ("&peer_id="@ + p);
    lemma_add_param(q0, "&peer_id="@, "peer_id="@, p);
    let q2 = q1 + ("&port="@ + dec(req.port as nat));
    lemma_add_param(q1, "&port="@, "port="@, dec(req.port as nat));
    let q3 = q2 + ("&uploaded="@ + dec(req.uploaded as nat));
    lemma_add_param(q2, "&uploaded="@, "uploaded="@, dec(req.uploaded as nat));
    let q4 = q3 + ("&downloaded="@ + dec(req.downloaded as nat));
    lemma_add_param(q3, "&downloaded="@, "downloaded="@, dec(req.downloaded as nat));
    let q5 = q4 + ("&left="@ + dec(req.left as nat));
    lemma_add_param(q4, "&left="@, "left="@, dec(req.left as nat));
    let q6 = q5 + ("&compact="@ + c);
    lemma_add_param(q5, "&compact="@, "compact="@, c);
    let q7 = q6 + ("&numwant="@ + dec(req.numwant as nat));
    lemma_add_param(q6, "&numwant="@, "numwant="@, dec(req.numwant as nat));
    assert(q7 =~= query_head(req) + query_numbers(req));
    assert(split_at(q7, '&') =~= query_params(req));
}

/// The announce query, split at `&`, is its parameters in order, each reading back as
/// what the request holds: the info hash and the peer id percent-encoded byte by byte,
/// the port, the byte counts and `numwant` in decimal, `compact=1` or `compact=0`, and
/// then, where the request has them, the tracker id (its UTF-8 bytes percent-encoded),
/// the key in decimal and the event's name.
pub proof fn lemma_query_fields(req: TrackerRequest)
    ensures
        ({
            let f = split_at(query_text(req), '&');
            let id_n: int = if req.tracker_id is Some {
                1
            } else {
                0
            };
            let key_n: int = if req.key is Some {
                1
            } else {
                0
            };
            let ev_n: int = if req.event is Some {
                1
            } else {
                0
            };
            &&& f.len() == 8 + id_n + key_n + ev_n
            &&& names_bytes(f[0], "info_hash="@, req.info_hash@)
            &&& names_bytes(f[1], "peer_id="@, req.peer_id@)
            &&& names_number(f[2], "port="@, req.port as nat)
            &&& names_number(f[3], "uploaded="@, req.uploaded as nat)
            &&& names_number(f[4], "downloaded="@, req.downloaded as nat)
            &&& names_number(f[5], "left="@, req.left as nat)
            &&& f[6] == "compact="@ + if req.compact {
                "1"@
            } else {
                "0"@
            }
            &&& names_number(f[7], "numwant="@, req.numwant as nat)
            &&& (req.tracker_id matches Some(id) ==> names_bytes(
                f[8],
                "trackerid="@,
                encode_utf8(id@),
            ))
            &&& (req.key matches Some(k) ==> names_number(f[8 + id_n], "key="@, k as nat))
            &&& (req.event matches Some(e) ==> f[8 + id_n + key_n] == "event="@ + event_name(e))
        }),
{
    lemma_query_mandatory(req);
    lemma_query_names();
    let q7 = query_head(req) + query_numbers(req);
    let ps = query_params(req);
    lemma_bytes_field("info_hash="@, req.info_hash@);
    lemma_bytes_field("peer_id="@, req.peer_id@);
    lemma_number_field("port="@, req.port as nat);
    lemma_number_field("uploaded="@, req.uploaded as nat);
    lemma_number_field("downloaded="@, req.downloaded as nat);
    lemma_number_field("left="@, req.left as nat);
    lemma_number_field("numwant="@, req.numwant as nat);
    let id_val = match req.tracker_id {
        Some(id) => Some(latin1(percent_bytes(encode_utf8(id@)))),
        None => None,
    };
    if let Some(id) = req.tracker_id {
        lemma_bytes_field("trackerid="@, encode_utf8(id@));
    }
    let id_part = match req.tracker_id {
        Some(id) => "&trackerid="@ + latin1(percent_bytes(encode_utf8(id@))),
        None => Seq::empty(),
    };
    lemma_add_opt_param(q7, id_part, "&trackerid="@, "trackerid="@, id_val);
    let key_val = match req.key {
        Some(k) => Some(dec(k as nat)),
        None => None,
    };
    if let Some(k) = req.key {
        lemma_number_field("key="@, k as nat);
    }
    let key_part = match req.key {
        Some(k) => "&key="@ + dec(k as nat),
        None => Seq::empty(),
    };
    lemma_add_opt_param(q7 + id_part, key_part, "&key="@, "key="@, key_val);
    let ev_val = match req.event {
        Some(e) => Some(event_name(e)),
        None => None,
    };
    let ev_part = match req.event {
        Some(e) => "&event="@ + event_name(e),
        None => Seq::empty(),
    };
    lemma_add_opt_param(q7 + id_part + key_part, ev_part, "&event="@, "event="@, ev_val);
    assert(query_tail(req) == id_part + key_part + ev_part);
    assert(query_text(req) =~= q7 + id_part + key_part + ev_part);
}

/// Trimming removes exactly the `/` characters at the end: what is left is a prefix of
/// the URL that does not end in `/`, and everything cut off is `/`.
pub proof fn lemma_trim_slashes(u: Seq<char>)
    ensures
        trim_slashes(u).len() <= u.len(),
        trim_slashes(u) == u.take(trim_slashes(u).len() as int),
        trim_slashes(u).len() == 0 || trim_slashes(u).last() != '/',
        forall|k: int| trim_slashes(u).len() <= k < u.len() ==> u[k] == '/',
    decreases u.len(),
{
    if u.len() > 0 && u.last() == '/' {
        lemma_trim_slashes(u.drop_last());
        let t = trim_slashes(u.drop_last());
        assert(u.drop_last().take(t.len() as int) =~= u.take(t.len() as int));
        assert forall|k: int| t.len() <= k < u.len() implies u[k] == '/' by {
            if k < u.len() - 1 {
                assert(u.drop_last()[k] == u[k]);
            }
        }
    } else {
        assert(u.take(u.len() as int) =~= u);
    }
}

} // verus!
