# bitt

The protocol side of a small BitTorrent client, verified with Verus.

- `src/` — the library, every function with its contract:
  - `bencode`: the decoder and encoder, over a mathematical model (`Value`). For a
    well-formed value (integers not negative, each dictionary key once), decoding what
    the encoder writes gives the value back and no strict prefix of the encoding decodes;
    an entry is well-formed exactly when none of its integers is negative
    (`Entry::is_well_formed`). Everything the decoder gives is well-formed, and the bytes
    after a value never change it.
  - `bitfield`: bits in 64-bit words, their big-endian byte form and its inverse.
  - `peerinfo`, `peer`, `connection`: peers, their bencode form, the handshake and the
    choke/interest flags, connection addresses.
  - `session`: the decisions of a download (what a peer's messages change, when to ask for
    a piece), as state and step functions.
  - `tracker`: the announce URL and what the tracker's answer says.
  - `file`, `storage`, `request`, `response`, `text`: the torrent document and the facts
    a session reads from it (tracker, piece length and count, size), piece offsets,
    protocol names, and the text helpers.
- `app/` — the program around it: TCP, HTTP (reqwest), files and the async session loop
  (tokio).
- `tests/` — tests of the library on concrete values.
