//! The decisions of a download session: who this client is, what a peer's messages
//! change while connecting and while downloading, and when to ask a peer for a piece.
//! Sending, receiving and storing are I/O and belong to the program that runs the session.
use crate::bitfield::{be_number, lemma_word_bytes_number, bit_value, bits_after_set, bits_of_words, bytes_of_words, max_words, u64_be_bytes, words_for_bytes, words_of_bytes, BitField};
use crate::connection::Connection;
use crate::peer::{Peer, PeerMessageType, PeerView};
use crate::peerinfo::{PeerInfo, PeerSpec};
use crate::tracker::TrackerRequest;
use vstd::prelude::*;

verus! {

/// How many messages a peer gets to answer.
pub const TRIES: usize = 10;

/// The port this client announces.
pub const PORT: u16 = 2222;

/// This client's peer id, `-ZB0001-0123456789ab`.
pub open spec fn local_peer_id() -> Seq<u8> {
    seq![45u8, 90, 66, 48, 48, 48, 49, 45, 48, 49, 50, 51, 52, 53, 54, 55, 56, 57, 97, 98]
}

/// Who this client is: its peer id, no address, and its port.
pub fn local_peer_info() -> (r: PeerInfo)
    ensures
        r@ == (PeerSpec { id: Some(local_peer_id()), ip: Seq::empty(), port: PORT }),
{
    let id: Vec<u8> = vec![45u8, 90, 66, 48, 48, 48, 49, 45, 48, 49, 50, 51, 52, 53, 54, 55, 56, 57, 97, 98];
    assert(id@ =~= local_peer_id());
    PeerInfo::new(Some(id), String::new(), PORT)
}

/// The announce that starts discovering peers: this client's peer id (empty where it has
/// none) and port, nothing up- or downloaded, 10 bytes left, compact answers with up to
/// 500 peers, no event, key or tracker id.
pub fn discover_request(info_hash: Vec<u8>, info: &PeerInfo) -> (r: TrackerRequest)
    ensures
        r.info_hash@ == info_hash@,
        r.peer_id@ == match info@.id {
            Some(id) => id,
            None => Seq::empty(),
        },
        r.port == PORT,
        r.uploaded == 0,
        r.downloaded == 0,
        r.left == 10,
        r.compact,
        r.numwant == 500,
        r.event is None,
        r.key is None,
        r.tracker_id is None,
{
    let peer_id = match info.get_id() {
        Some(id) => vstd::slice::slice_to_vec(id.as_slice()),
        None => Vec::with_capacity(20),
    };
    TrackerRequest {
        info_hash,
        peer_id,
        port: PORT,
        uploaded: 0,
        downloaded: 0,
        left: 10,
        compact: true,
        numwant: 500,
        event: None,
        key: None,
        tracker_id: None,
    }
}

/// The number whose big-endian bytes are `b0` to `b3`.
pub open spec fn be_u32(b0: u8, b1: u8, b2: u8, b3: u8) -> u32 {
    (b0 as u32) << 24u32 | (b1 as u32) << 16u32 | (b2 as u32) << 8u32 | (b3 as u32)
}

/// The number in the first four bytes of `s`, big-endian.
pub open spec fn be_u32_at(s: Seq<u8>) -> u32 {
    be_u32(s[0], s[1], s[2], s[3])
}

/// The number in the first four bytes of `s`, big-endian.
fn read_u32(s: &[u8]) -> (r: u32)
    requires
        s.len() >= 4,
    ensures
        r == be_u32_at(s@),
{
    (s[0] as u32) << 24u32 | (s[1] as u32) << 16u32 | (s[2] as u32) << 8u32 | (s[3] as u32)
}

/// The big-endian bytes of `n`, as many as a `usize` has: eight on a 64-bit target,
/// four on a 32-bit one.
pub open spec fn usize_be_bytes(n: usize) -> Seq<u8> {
    if usize::BITS == 64 {
        bytes_of_words(seq![n as u64])
    } else {
        let w = n as u32;
        seq![(w >> 24u32) as u8, ((w >> 16u32) & 0xff) as u8, ((w >> 8u32) & 0xff) as u8, (w & 0xff) as u8]
    }
}

/// The big-endian bytes of `n`, as many as a `usize` has.
fn usize_to_be_bytes(n: usize) -> (r: Vec<u8>)
    ensures
        r@ == usize_be_bytes(n),
{
    if usize::BITS == 64 {
        u64_be_bytes(n as u64)
    } else {
        let w = n as u32;
        let r = vec![(w >> 24u32) as u8, ((w >> 16u32) & 0xff) as u8, ((w >> 8u32) & 0xff) as u8, (w & 0xff) as u8];
        assert(r@ =~= usize_be_bytes(n));
        r
    }
}

/// What a peer has told so far while connecting.
pub struct ConnectView {
    pub bits: Seq<bool>,
    pub choking: Option<bool>,
    pub interesting: Option<bool>,
}

/// Why connecting to a peer failed.
#[derive(Clone, Copy, Debug, PartialEq, Eq)]
pub enum SessionError {
    /// The peer did not say whether it chokes.
    NoChokeMessage,
}

/// The state of a connection being set up: the peer's pieces, and whether it chokes
/// and is interested, once it has said so.
pub struct ConnectProgress {
    bits: BitField,
    choking: Option<bool>,
    interesting: Option<bool>,
}

impl View for ConnectProgress {
    type V = ConnectView;

    closed spec fn view(&self) -> ConnectView {
        ConnectView { bits: self.bits@, choking: self.choking, interesting: self.interesting }
    }
}

impl ConnectProgress {
    /// Starts from the pieces that the peer's first message announced.
    pub fn new(bits: BitField) -> (r: Self)
        ensures
            r@ == (ConnectView { bits: bits@, choking: None, interesting: None }),
    {
        ConnectProgress { bits, choking: None, interesting: None }
    }

    /// Whether the peer has said whether it chokes, which ends the exchange.
    pub fn done(&self) -> (r: bool)
        ensures
            r == self@.choking is Some,
    {
        self.choking.is_some()
    }

    /// Takes in a message of the peer. Returns whether to send `interested` now, which is
    /// when the peer unchokes.
    pub fn on_message(&mut self, msg_type: PeerMessageType, payload: &[u8]) -> (send_interested:
        bool)
        requires
            msg_type == PeerMessageType::Have ==> payload.len() >= 4,
            msg_type == PeerMessageType::Bitfield ==> words_for_bytes(payload.len() as int)
                <= max_words(),
        ensures
            send_interested == (msg_type == PeerMessageType::Unchoke),
            final(self)@ == match msg_type {
                PeerMessageType::Bitfield => ConnectView {
                    bits: bits_of_words(words_of_bytes(payload@)),
                    ..old(self)@
                },
                PeerMessageType::Have => ConnectView {
                    bits: bits_after_set(old(self)@.bits, be_u32_at(payload@) as int, 1),
                    ..old(self)@
                },
                PeerMessageType::Interested => ConnectView { interesting: Some(true), ..old(self)@ },
                PeerMessageType::NotInterested => ConnectView {
                    interesting: Some(false),
                    ..old(self)@
                },
                PeerMessageType::Choke => ConnectView { choking: Some(true), ..old(self)@ },
                PeerMessageType::Unchoke => ConnectView { choking: Some(false), ..old(self)@ },
                _ => old(self)@,
            },
    {
        match msg_type {
            PeerMessageType::Bitfield => {
                self.bits = BitField::from_vec(vstd::slice::slice_to_vec(payload));
                false
            },
            PeerMessageType::Have => {
                let index = read_u32(payload) as usize;
                self.bits.set_bit(index, 1);
                false
            },
            PeerMessageType::Interested => {
                self.interesting = Some(true);
                false
            },
            PeerMessageType::NotInterested => {
                self.interesting = Some(false);
                false
            },
            PeerMessageType::Choke => {
                self.choking = Some(true);
                false
            },
            PeerMessageType::Unchoke => {
                self.choking = Some(false);
                true
            },
            _ => false,
        }
    }

    /// Whether the peer chokes, and its pieces; an error where it never said whether it
    /// chokes.
    pub fn finish(self) -> (r: Result<(bool, BitField), SessionError>)
        ensures
            match self@.choking {
                Some(c) => r matches Ok((d, b)) && d == c && b@ == self@.bits,
                None => r == Err::<(bool, BitField), SessionError>(SessionError::NoChokeMessage),
            },
    {
        match self.choking {
            Some(c) => Ok((c, self.bits)),
            None => Err(SessionError::NoChokeMessage),
        }
    }
}

/// A connected peer, the pieces it has, and whether a piece request to it is pending.
pub struct PeerState<C: Connection> {
    pub peer: Peer<C>,
    pub bits: BitField,
    pub busy: bool,
}

impl<C: Connection> PeerState<C> {
    /// The state of a newly connected peer.
    pub fn new(peer: Peer<C>, bits: BitField, busy: bool) -> (r: Self)
        ensures
            r.peer == peer,
            r.bits == bits,
            r.busy == busy,
    {
        Self { peer, bits, busy }
    }

    /// Whether to ask the peer for piece `piece` now, which is where it has the piece and
    /// no request to it is pending: then the request's payload, the piece number in
    /// big-endian bytes, as many as a `usize` has. Nothing changes here; `mark_busy` records the request once it
    /// has been sent.
    pub fn request_payload(&self, piece: usize) -> (r: Option<Vec<u8>>)
        ensures
            if self.busy || bit_value(self.bits@, piece as int) == 0 {
                r is None
            } else {
                r matches Some(p) && p@ == usize_be_bytes(piece)
            },
    {
        if self.bits.get_bit(piece) == 0 || self.busy {
            return None;
        }
        Some(usize_to_be_bytes(piece))
    }

    /// Records that a piece request to the peer is pending.
    pub fn mark_busy(&mut self)
        ensures
            final(self).peer == old(self).peer,
            final(self).bits == old(self).bits,
            final(self).busy,
    {
        self.busy = true;
    }

    /// Takes in a message of the peer while a piece is awaited. Returns the piece's
    /// number and data when the message delivers a piece, which also ends the wait.
    pub fn on_download_message(&mut self, msg_type: PeerMessageType, payload: &[u8]) -> (r: Option<
        (usize, Vec<u8>),
    >)
        requires
            msg_type == PeerMessageType::Have ==> payload.len() >= 4,
            msg_type == PeerMessageType::Piece ==> payload.len() >= 8,
        ensures
            final(self).peer.connection() == old(self).peer.connection(),
            match msg_type {
                PeerMessageType::Have => {
                    &&& r is None
                    &&& final(self).bits@ == bits_after_set(old(self).bits@, be_u32_at(payload@) as int, 1)
                    &&& final(self).peer@ == old(self).peer@
                    &&& final(self).busy == old(self).busy
                },
                PeerMessageType::Interested | PeerMessageType::NotInterested => {
                    &&& r is None
                    &&& final(self).bits == old(self).bits
                    &&& final(self).peer@ == (PeerView {
                        peer_interested: msg_type == PeerMessageType::Interested,
                        ..old(self).peer@
                    })
                    &&& final(self).busy == old(self).busy
                },
                PeerMessageType::Choke | PeerMessageType::Unchoke => {
                    &&& r is None
                    &&& final(self).bits == old(self).bits
                    &&& final(self).peer@ == (PeerView {
                        peer_choking: msg_type == PeerMessageType::Choke,
                        ..old(self).peer@
                    })
                    &&& final(self).busy == old(self).busy
                },
                PeerMessageType::Piece => {
                    &&& r matches Some((index, block)) && index == be_u32_at(payload@) as usize
                        && block@ == payload@.subrange(8, payload@.len() as int)
                    &&& final(self).bits == old(self).bits
                    &&& final(self).peer@ == old(self).peer@
                    &&& !final(self).busy
                },
                _ => {
                    &&& r is None
                    &&& final(self).bits == old(self).bits
                    &&& final(self).peer@ == old(self).peer@
                    &&& final(self).busy == old(self).busy
                },
            },
    {
        match msg_type {
            PeerMessageType::Have => {
                let index = read_u32(payload) as usize;
                self.bits.set_bit(index, 1);
                None
            },
            PeerMessageType::Interested => {
                self.peer.set_peer_interested(true);
                None
            },
            PeerMessageType::NotInterested => {
                self.peer.set_peer_interested(false);
                None
            },
            PeerMessageType::Choke => {
                self.peer.set_peer_choking(true);
                None
            },
            PeerMessageType::Unchoke => {
                self.peer.set_peer_choking(false);
                None
            },
            PeerMessageType::Piece => {
                let index = read_u32(payload) as usize;
                let block = vstd::slice::slice_to_vec(
                    vstd::slice::slice_subrange(payload, 8, payload.len()),
                );
                self.busy = false;
                Some((index, block))
            },
            _ => None,
        }
    }
}

/// Whether a peer's state is not that of the peer `p`.
pub open spec fn other_peer<C: Connection>(p: PeerSpec) -> spec_fn(PeerState<C>) -> bool {
    |s: PeerState<C>| s.peer@.peer_info != p
}

/// Drops the state of every peer that is `peerinfo` (same id, address and port), keeping
/// the others in their order.
pub fn remove_peer<C: Connection>(peers: &mut Vec<PeerState<C>>, peerinfo: &PeerInfo)
    ensures
        final(peers)@ == old(peers)@.filter(other_peer(peerinfo@)),
{
    let ghost all = peers@;
    let ghost keep = other_peer::<C>(peerinfo@);
    let mut i: usize = 0;
    let ghost mut k: int = 0;
    while i < peers.len()
        invariant
            0 <= i <= k <= all.len(),
            peers@.len() == i + (all.len() - k),
            peers@.take(i as int) == all.take(k).filter(keep),
            peers@.skip(i as int) == all.skip(k),
            keep == other_peer::<C>(peerinfo@),
        decreases all.len() - k,
    {
        let same = peers[i].peer.get_peerinfo().same_peer(peerinfo);
        proof {
            assert(peers@[i as int] == all[k]) by {
                assert(peers@.skip(i as int)[0] == all.skip(k)[0]);
            }
            assert(all.take(k + 1) =~= all.take(k).push(all[k]));
            all.take(k).lemma_filter_push(all[k], keep);
        }
        let ghost before = peers@;
        if same {
            peers.remove(i);
            proof {
                assert(peers@.take(i as int) =~= before.take(i as int));
                assert(peers@.skip(i as int) =~= before.skip(i + 1));
                assert(before.skip(i + 1) =~= all.skip(k + 1)) by {
                    assert forall|j: int| 0 <= j < all.len() - k - 1 implies #[trigger] before.skip(
                        i + 1,
                    )[j] == all.skip(k + 1)[j] by {
                        assert(before.skip(i as int)[j + 1] == all.skip(k)[j + 1]);
                    }
                }
            }
        } else {
            i += 1;
            proof {
                assert(peers@.take(i as int) =~= before.take(i - 1).push(before[i - 1]));
                assert(peers@.skip(i as int) =~= all.skip(k + 1)) by {
                    assert forall|j: int| 0 <= j < all.len() - k - 1 implies #[trigger] peers@.skip(
                        i as int,
                    )[j] == all.skip(k + 1)[j] by {
                        assert(before.skip(i - 1)[j + 1] == all.skip(k)[j + 1]);
                    }
                }
            }
        }
        proof {
            k = k + 1;
        }
    }
    proof {
        assert(peers@.take(i as int) =~= peers@);
        assert(all.take(k) =~= all);
    }
}

/// The index in a `Have` or `Piece` message is its first four bytes read as a base-256
/// number, most significant first.
pub proof fn lemma_be_u32(b0: u8, b1: u8, b2: u8, b3: u8)
    ensures
        be_u32(b0, b1, b2, b3) as int == be_number(seq![b0, b1, b2, b3]),
        be_u32(b0, b1, b2, b3) as int == b0 as int * 16777216 + b1 as int * 65536 + b2 as int
            * 256 + b3 as int,
{
    let s = seq![b0, b1, b2, b3];
    assert(s.drop_last() =~= seq![b0, b1, b2]);
    assert(seq![b0, b1, b2].drop_last() =~= seq![b0, b1]);
    assert(seq![b0, b1].drop_last() =~= seq![b0]);
    assert(seq![b0].drop_last() =~= Seq::<u8>::empty());
    assert(be_number(Seq::<u8>::empty()) == 0);
    assert(be_number(seq![b0]) == b0 as int);
    assert(be_number(seq![b0, b1]) == b0 as int * 256 + b1 as int);
    assert(be_number(seq![b0, b1, b2]) == (b0 as int * 256 + b1 as int) * 256 + b2 as int);
    assert(be_number(s) == ((b0 as int * 256 + b1 as int) * 256 + b2 as int) * 256 + b3 as int);
    assert((b0 as u32) << 24u32 | (b1 as u32) << 16u32 | (b2 as u32) << 8u32 | (b3 as u32) == (b0
        as u32) * 16777216 + (b1 as u32) * 65536 + (b2 as u32) * 256 + (b3 as u32)) by (bit_vector);
}

/// A piece request's payload read back as a base-256 number, most significant first, is
/// the piece index, in as many bytes as a `usize` has.
pub proof fn lemma_request_bytes(n: usize)
    ensures
        usize_be_bytes(n).len() * 8 == usize::BITS,
        be_number(usize_be_bytes(n)) == n,
{
    if usize::BITS == 64 {
        lemma_word_bytes_number(n as u64);
    } else {
        assert(usize::BITS == 32);
        assert(n <= 0xffff_ffff);
        let w = n as u32;
        assert(w == n);
        let b0 = (w >> 24u32) as u8;
        let b1 = ((w >> 16u32) & 0xff) as u8;
        let b2 = ((w >> 8u32) & 0xff) as u8;
        let b3 = (w & 0xff) as u8;
        assert(usize_be_bytes(n) == seq![b0, b1, b2, b3]);
        lemma_be_u32(b0, b1, b2, b3);
        assert(be_u32(b0, b1, b2, b3) == w) by (bit_vector)
            requires
                b0 == (w >> 24u32) as u8,
                b1 == ((w >> 16u32) & 0xff) as u8,
                b2 == ((w >> 8u32) & 0xff) as u8,
                b3 == (w & 0xff) as u8,
        ;
    }
}

} // verus!
