//! The endpoint of a connection to a peer, and the address text that opening or
//! listening on it uses.
use crate::text::{decimal, latin1, latin1_string, push_decimal};
use vstd::prelude::*;
use vstd::string::StrSliceExecFns;

verus! {

/// The address and port of a connection. Opening, closing, sending and receiving are
/// I/O and belong to the program that drives the connection.
pub trait Connection {
    fn set_ip(&mut self, ip: String);

    fn set_port(&mut self, port: u16);

    fn get_ip(&self) -> String;

    fn get_port(&self) -> u16;
}

/// `host:port`, the port in decimal.
pub open spec fn host_port(host: Seq<char>, port: u16) -> Seq<char> {
    host + seq![':'] + latin1(decimal(port as nat))
}

/// The address to connect to: an address holding `:` (IPv6) is put in brackets.
pub open spec fn connect_text(address: Seq<char>, port: u16) -> Seq<char> {
    if address.contains(':') {
        host_port(seq!['['] + address + seq![']'], port)
    } else {
        host_port(address, port)
    }
}

/// Whether `s` holds the character `c`.
pub fn contains_char(s: &str, c: char) -> (r: bool)
    ensures
        r == s@.contains(c),
{
    let n = s.unicode_len();
    let mut i: usize = 0;
    while i < n
        invariant
            i <= n,
            n == s@.len(),
            forall|j: int| 0 <= j < i ==> s@[j] != c,
        decreases n - i,
    {
        if s.get_char(i) == c {
            return true;
        }
        i += 1;
    }
    false
}

/// `host:port`.
pub fn listen_address(host: &str, port: u16) -> (r: String)
    ensures
        r@ == host_port(host@, port),
{
    let mut digits: Vec<u8> = Vec::new();
    push_decimal(&mut digits, port as u64);
    let mut r = host.to_owned();
    r.append(":");
    let tail = latin1_string(digits.as_slice());
    r.append(tail.as_str());
    proof {
        reveal_strlit(":");
        assert(r@ =~= host_port(host@, port));
    }
    r
}

/// The address to connect to, `[address]:port` where the address holds `:`, else
/// `address:port`.
pub fn connect_address(address: &str, port: u16) -> (r: String)
    ensures
        r@ == connect_text(address@, port),
{
    if contains_char(address, ':') {
        let mut bracketed = "[".to_owned();
        bracketed.append(address);
        bracketed.append("]");
        proof {
            reveal_strlit("[");
            reveal_strlit("]");
            assert(bracketed@ =~= seq!['['] + address@ + seq![']']);
        }
        listen_address(bracketed.as_str(), port)
    } else {
        listen_address(address, port)
    }
}

} // verus!
