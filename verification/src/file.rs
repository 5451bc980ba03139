//! A torrent file's bencode document, and the facts of a torrent that a session needs.
pub use crate::bencode::Entry;
use crate::bencode::{
    decoded_as, dict_lookup, found_as, lemma_lookup_wf, parse_block, parse_value, wf, Bencode, BencodeError, Dict, Value,
};
use crate::text::{string_from_utf8_lossy, utf8_lossy};
use vstd::prelude::*;

verus! {

#[derive(Debug)]
pub struct File {
    value: Entry,
}

impl View for File {
    type V = Value;

    closed spec fn view(&self) -> Value {
        self.value.view()
    }
}

impl File {
    /// An empty dictionary.
    pub fn new() -> (f: Self)
        ensures
            f@ == Value::Dict(Seq::empty()),
    {
        File { value: Entry::Dict(Dict::new()) }
    }

    /// Decodes the value that starts at `*pos` and moves `*pos` past it.
    fn parse(block: &[u8], pos: &mut usize) -> (r: Result<Entry, BencodeError>)
        ensures
            decoded_as(parse_value(block@, *old(pos) as int), r, *final(pos) as int),
    {
        parse_block(block, pos)
    }

    /// Takes the value at the start of the file's `content`; on an error the document is
    /// left as it was.
    pub fn load(&mut self, content: Vec<u8>) -> (r: Result<(), BencodeError>)
        ensures
            match parse_value(content@, 0) {
                Ok((v, _)) => r is Ok && final(self)@ == v,
                Err(e) => r == Err::<(), BencodeError>(e) && final(self)@ == old(self)@,
            },
    {
        let mut pos: usize = 0;
        match Self::parse(content.as_slice(), &mut pos) {
            Ok(e) => {
                self.value = e;
                Ok(())
            },
            Err(e) => Err(e),
        }
    }

    /// A copy of the value stored under `key`, where the document is a dictionary.
    pub fn get(&self, key: &str) -> (r: Option<Entry>)
        ensures
            found_as(
                r,
                match self@ {
                    Value::Dict(d) => dict_lookup(d, key@),
                    _ => None,
                },
            ),
    {
        match &self.value {
            Entry::Dict(d) => match d.get(key) {
                Some(e) => Some(e.copy()),
                None => None,
            },
            _ => None,
        }
    }
}

/// Why a torrent document does not describe a torrent.
#[derive(Clone, Copy, Debug, PartialEq, Eq)]
pub enum TorrentError {
    /// It has no string `announce`.
    NoAnnounce,
    /// It has no dictionary `info`.
    NoInfo,
    /// Its `info` has no integer `piece length`.
    NoPieceLength,
    /// Its `info` has no integer `length`.
    NoLength,
}

/// The value of a `TorrentFile`.
pub struct TorrentSpec {
    pub info_hash: Seq<u8>,
    pub trackers: Seq<Seq<char>>,
    pub piece_length: u64,
    pub total_size: u64,
    pub piece_count: nat,
    pub v1: bool,
}

/// The value stored under `key` in a document, where it is a dictionary.
pub open spec fn doc_lookup(doc: Value, key: Seq<char>) -> Option<Value> {
    match doc {
        Value::Dict(d) => dict_lookup(d, key),
        _ => None,
    }
}

/// The integer under `key` in `info`, or `missing` where there is none. (The integers of
/// a decoded document are never negative, so the number is kept exactly.)
pub open spec fn size_field(info: Seq<(Seq<char>, Value)>, key: Seq<char>, missing: TorrentError) -> Result<
    u64,
    TorrentError,
> {
    match dict_lookup(info, key) {
        Some(Value::Int(n)) => Ok(n as u64),
        _ => Err(missing),
    }
}

/// The torrent that a document describes, with the given info hash: its one tracker (the
/// `announce` string, read as UTF-8 with invalid sequences replaced), the `piece length`
/// and `length` of its `info`, and, where `info` holds a string `pieces` (a version 1
/// torrent), one piece for each whole 20 bytes of it, else none.
pub open spec fn torrent_of(doc: Value, info_hash: Seq<u8>) -> Result<TorrentSpec, TorrentError> {
    match doc_lookup(doc, "announce"@) {
        Some(Value::Bytes(announce)) => match doc_lookup(doc, "info"@) {
            Some(Value::Dict(info)) => match size_field(info, "piece length"@, TorrentError::NoPieceLength) {
                Err(e) => Err(e),
                Ok(piece_length) => match size_field(info, "length"@, TorrentError::NoLength) {
                    Err(e) => Err(e),
                    Ok(total_size) => {
                        let (v1, piece_count) = match dict_lookup(info, "pieces"@) {
                            Some(Value::Bytes(p)) => (true, p.len() / 20),
                            _ => (false, 0nat),
                        };
                        Ok(
                            TorrentSpec {
                                info_hash,
                                trackers: seq![utf8_lossy(announce)],
                                piece_length,
                                total_size,
                                piece_count,
                                v1,
                            },
                        )
                    },
                },
            },
            _ => Err(TorrentError::NoInfo),
        },
        _ => Err(TorrentError::NoAnnounce),
    }
}

/// The texts of a sequence of strings.
pub open spec fn texts_of(s: Seq<String>) -> Seq<Seq<char>> {
    Seq::new(s.len(), |i: int| s[i]@)
}

/// What a session needs to know of a torrent.
pub struct TorrentFile {
    info_hash: Vec<u8>,
    trackers: Vec<String>,
    pub piece_length: u64,
    total_size: u64,
    piece_count: usize,
    v1: bool,
}

impl View for TorrentFile {
    type V = TorrentSpec;

    closed spec fn view(&self) -> TorrentSpec {
        TorrentSpec {
            info_hash: self.info_hash@,
            trackers: texts_of(self.trackers@),
            piece_length: self.piece_length,
            total_size: self.total_size,
            piece_count: self.piece_count as nat,
            v1: self.v1,
        }
    }
}

/// The integer under `key` in the well-formed dictionary `info` (so not negative).
fn size_of(info: &Dict, key: &str, missing: TorrentError) -> (r: Result<u64, TorrentError>)
    requires
        wf(Value::Dict(info.entries_view())),
    ensures
        r == size_field(info.entries_view(), key@, missing),
{
    proof {
        lemma_lookup_wf(info.entries_view(), key@);
    }
    match info.get(key) {
        Some(e) => match e.as_int() {
            Some(n) => Ok(n as u64),
            None => Err(missing),
        },
        None => Err(missing),
    }
}

impl TorrentFile {
    /// The torrent that the document `doc` describes, with the info hash `info_hash`.
    pub fn from_bencode(doc: &Bencode, info_hash: Vec<u8>) -> (r: Result<Self, TorrentError>)
        ensures
            match torrent_of(doc@, info_hash@) {
                Ok(t) => r matches Ok(f) && f@ == t,
                Err(e) => r == Err::<Self, TorrentError>(e),
            },
    {
        let announce = match doc.get("announce") {
            Some(Entry::String(b)) => b,
            _ => return Err(TorrentError::NoAnnounce),
        };
        let info = match doc.get("info") {
            Some(Entry::Dict(d)) => d,
            _ => return Err(TorrentError::NoInfo),
        };
        proof {
            if let Value::Dict(d) = doc@ {
                lemma_lookup_wf(d, "info"@);
            }
        }
        let piece_length = match size_of(&info, "piece length", TorrentError::NoPieceLength) {
            Ok(n) => n,
            Err(e) => return Err(e),
        };
        let total_size = match size_of(&info, "length", TorrentError::NoLength) {
            Ok(n) => n,
            Err(e) => return Err(e),
        };
        let (v1, piece_count) = match info.get("pieces") {
            Some(Entry::String(p)) => (true, p.len() / 20),
            _ => (false, 0),
        };
        let mut trackers: Vec<String> = Vec::new();
        trackers.push(string_from_utf8_lossy(announce.as_slice()));
        let f = TorrentFile { info_hash, trackers, piece_length, total_size, piece_count, v1 };
        assert(texts_of(f.trackers@) =~= seq![utf8_lossy(announce@)]);
        Ok(f)
    }

    /// A copy of the info hash.
    pub fn get_info_hash(&self) -> (r: Vec<u8>)
        ensures
            r@ == self@.info_hash,
    {
        vstd::slice::slice_to_vec(self.info_hash.as_slice())
    }

    /// The tracker URLs.
    pub fn get_trackers(&self) -> (r: &Vec<String>)
        ensures
            texts_of(r@) == self@.trackers,
    {
        &self.trackers
    }

    /// The number of bytes of the torrent's content.
    pub fn total_size(&self) -> (r: u64)
        ensures
            r == self@.total_size,
    {
        self.total_size
    }

    /// The number of pieces.
    pub fn piece_count(&self) -> (r: usize)
        ensures
            r == self@.piece_count,
    {
        self.piece_count
    }

    /// Whether the torrent is a version 1 one, with a `pieces` string.
    pub fn supports_v1(&self) -> (r: bool)
        ensures
            r == self@.v1,
    {
        self.v1
    }
}

} // verus!
