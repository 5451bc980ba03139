//! A connection to one peer: who is on either end, the four choke and interest flags,
//! and the handshake that opens it.
use crate::connection::Connection;
use crate::peerinfo::{bytes_equal, PeerInfo, PeerSpec};
use vstd::prelude::*;

verus! {

#[derive(Clone, Copy, Debug, PartialEq, Eq)]
pub enum PeerMessageType {
    Choke,
    Unchoke,
    Interested,
    NotInterested,
    Have,
    Bitfield,
    Request,
    Piece,
    Cancel,
}

/// A message between peers: its type and payload.
pub struct PeerMessage {
    pub msg_type: PeerMessageType,
    pub length: u8,
    pub payload: Vec<u8>,
}

/// Why a handshake from a peer is refused.
#[derive(Clone, Copy, Debug, PartialEq, Eq)]
pub enum HandshakeError {
    /// It does not start with 19 and `BitTorrent Protocol`.
    InvalidProtocol,
    /// It carries another torrent's info hash.
    InfoHashMismatch,
}

/// The value of a `Peer` besides its connection.
pub struct PeerView {
    pub info: PeerSpec,
    pub peer_info: PeerSpec,
    pub choking: bool,
    pub interested: bool,
    pub peer_choking: bool,
    pub peer_interested: bool,
    pub info_hash: Seq<u8>,
}

/// One end of a connection to a peer.
pub struct Peer<C: Connection> {
    info: PeerInfo,
    peer_info: PeerInfo,
    conn: C,
    choking: bool,
    interested: bool,
    peer_choking: bool,
    peer_interested: bool,
    info_hash: Vec<u8>,
}

impl<C: Connection> View for Peer<C> {
    type V = PeerView;

    closed spec fn view(&self) -> PeerView {
        PeerView {
            info: self.info@,
            peer_info: self.peer_info@,
            choking: self.choking,
            interested: self.interested,
            peer_choking: self.peer_choking,
            peer_interested: self.peer_interested,
            info_hash: self.info_hash@,
        }
    }
}

/// The bytes `BitTorrent Protocol`.
pub open spec fn protocol_name() -> Seq<u8> {
    seq![
        66u8, 105, 116, 84, 111, 114, 114, 101, 110, 116, 32, 80, 114, 111, 116, 111, 99, 111, 108,
    ]
}

/// The handshake sent to a peer: 19, `BitTorrent Protocol`, eight zero bytes, the info
/// hash, then the own peer id where there is one.
pub open spec fn handshake_bytes(info_hash: Seq<u8>, id: Option<Seq<u8>>) -> Seq<u8> {
    seq![19u8] + protocol_name() + Seq::new(8, |i: int| 0u8) + info_hash + match id {
        Some(b) => b,
        None => Seq::empty(),
    }
}

/// Whether a received handshake is long enough to be checked: it is not empty, with 19
/// first it holds the protocol name, and with the protocol name it reaches byte 41.
pub open spec fn handshake_checkable(raw: Seq<u8>) -> bool {
    &&& raw.len() >= 1
    &&& raw[0] == 19 ==> raw.len() >= 20
    &&& (raw[0] == 19 && raw.subrange(1, 20) == protocol_name()) ==> raw.len() >= 41
}

/// The check of a received handshake: 19 and the protocol name first, then bytes 21 to
/// 40 equal to the info hash.
pub open spec fn handshake_check(raw: Seq<u8>, info_hash: Seq<u8>) -> Result<(), HandshakeError> {
    if raw[0] != 19 || raw.subrange(1, 20) != protocol_name() {
        Err(HandshakeError::InvalidProtocol)
    } else if raw.subrange(21, 41) != info_hash {
        Err(HandshakeError::InfoHashMismatch)
    } else {
        Ok(())
    }
}

/// The bytes `BitTorrent Protocol`.
fn protocol_name_bytes() -> (r: Vec<u8>)
    ensures
        r@ == protocol_name(),
{
    let r: Vec<u8> = vec![
        66u8, 105, 116, 84, 111, 114, 114, 101, 110, 116, 32, 80, 114, 111, 116, 111, 99, 111, 108,
    ];
    assert(r@ =~= protocol_name());
    r
}

impl<C: Connection> Peer<C> {
    /// The connection of this peer.
    pub closed spec fn connection(&self) -> C {
        self.conn
    }

    /// A peer over `conn`, choked and not interested on both sides.
    pub fn new(conn: C, info: PeerInfo, peer_info: PeerInfo, info_hash: Vec<u8>) -> (r: Self)
        ensures
            r@ == (PeerView {
                info: info@,
                peer_info: peer_info@,
                choking: true,
                interested: false,
                peer_choking: true,
                peer_interested: false,
                info_hash: info_hash@,
            }),
            r.connection() == conn,
    {
        Self {
            conn,
            choking: true,
            interested: false,
            peer_choking: true,
            peer_interested: false,
            info,
            peer_info,
            info_hash,
        }
    }

    pub fn choking(&self) -> (r: bool)
        ensures
            r == self@.choking,
    {
        self.choking
    }

    pub fn interested(&self) -> (r: bool)
        ensures
            r == self@.interested,
    {
        self.interested
    }

    pub fn peer_choking(&self) -> (r: bool)
        ensures
            r == self@.peer_choking,
    {
        self.peer_choking
    }

    pub fn peer_interested(&self) -> (r: bool)
        ensures
            r == self@.peer_interested,
    {
        self.peer_interested
    }

    pub fn set_choking(&mut self, choking: bool)
        ensures
            final(self)@ == (PeerView { choking, ..old(self)@ }),
            final(self).connection() == old(self).connection(),
    {
        self.choking = choking;
    }

    pub fn set_interested(&mut self, interested: bool)
        ensures
            final(self)@ == (PeerView { interested, ..old(self)@ }),
            final(self).connection() == old(self).connection(),
    {
        self.interested = interested;
    }

    pub fn set_peer_choking(&mut self, choking: bool)
        ensures
            final(self)@ == (PeerView { peer_choking: choking, ..old(self)@ }),
            final(self).connection() == old(self).connection(),
    {
        self.peer_choking = choking;
    }

    pub fn set_peer_interested(&mut self, interested: bool)
        ensures
            final(self)@ == (PeerView { peer_interested: interested, ..old(self)@ }),
            final(self).connection() == old(self).connection(),
    {
        self.peer_interested = interested;
    }

    /// The connection, to be used in place.
    pub fn get_conn(&mut self) -> (r: &mut C)
        ensures
            *r == old(self).connection(),
            final(self).connection() == *final(r),
            final(self)@ == old(self)@,
    {
        &mut self.conn
    }

    /// Who is on the other end.
    pub fn get_peerinfo(&self) -> (r: &PeerInfo)
        ensures
            r@ == self@.peer_info,
    {
        &self.peer_info
    }

    /// The handshake to send to the peer.
    pub fn handshake_message(&self) -> (r: Vec<u8>)
        ensures
            r@ == handshake_bytes(self@.info_hash, self@.info.id),
    {
        let mut handshake: Vec<u8> = Vec::new();
        handshake.push(19);
        let mut name = protocol_name_bytes();
        handshake.append(&mut name);
        let mut reserved: Vec<u8> = vec![0u8, 0, 0, 0, 0, 0, 0, 0];
        handshake.append(&mut reserved);
        let mut hash = vstd::slice::slice_to_vec(self.info_hash.as_slice());
        handshake.append(&mut hash);
        if let Some(id) = self.info.get_id() {
            let mut own = vstd::slice::slice_to_vec(id.as_slice());
            handshake.append(&mut own);
        }
        assert(handshake@ =~= handshake_bytes(self@.info_hash, self@.info.id));
        handshake
    }

    /// Checks the handshake received from the peer against this torrent's info hash.
    pub fn check_handshake(&self, raw: &[u8]) -> (r: Result<(), HandshakeError>)
        requires
            handshake_checkable(raw@),
        ensures
            r == handshake_check(raw@, self@.info_hash),
    {
        let name = protocol_name_bytes();
        if raw[0] != 19 || !bytes_equal(vstd::slice::slice_subrange(raw, 1, 20), name.as_slice()) {
            return Err(HandshakeError::InvalidProtocol);
        }
        if !bytes_equal(vstd::slice::slice_subrange(raw, 21, 41), self.info_hash.as_slice()) {
            return Err(HandshakeError::InfoHashMismatch);
        }
        Ok(())
    }
}

/// The check reads the info hash at bytes 21 to 40, where the own handshake has seven of
/// its eight zero bytes and then the first thirteen bytes of the hash: a handshake built
/// for a 20-byte info hash passes the check against that hash exactly when the hash is
/// all zeros.
pub proof fn lemma_own_handshake_check(info_hash: Seq<u8>, id: Option<Seq<u8>>)
    requires
        info_hash.len() == 20,
    ensures
        handshake_checkable(handshake_bytes(info_hash, id)),
        handshake_check(handshake_bytes(info_hash, id), info_hash) is Ok <==> info_hash == Seq::new(
            20,
            |i: int| 0u8,
        ),
{
    let h = handshake_bytes(info_hash, id);
    assert(h.subrange(1, 20) =~= protocol_name());
    let window = h.subrange(21, 41);
    assert forall|i: int| 0 <= i < 20 implies #[trigger] window[i] == if i < 7 {
        0u8
    } else {
        info_hash[i - 7]
    } by {}
    let zeros = Seq::new(20, |i: int| 0u8);
    if window == info_hash {
        assert forall|i: int| 0 <= i < 20 implies info_hash[i] == 0u8 by {
            if i >= 7 {
                assert(info_hash[i] == info_hash[i - 7]);
                if i >= 14 {
                    assert(info_hash[i - 7] == info_hash[i - 14]);
                }
            }
        }
        assert(info_hash =~= zeros);
    }
    if info_hash == zeros {
        assert(window =~= info_hash);
    }
}

} // verus!
