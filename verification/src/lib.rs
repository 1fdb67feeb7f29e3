//! Core of a single-file BitTorrent leech client: the wire codec
//! (handshake and length-prefixed message frames), the per-piece block
//! plan, the peer-session state machine, the block scheduler, and the
//! verified payload accumulator.

use vstd::prelude::*;

pub mod bencode;
pub mod download;
pub mod endian;
pub mod peer;
pub mod piece;
pub mod torrent;
pub mod tracker;

verus! {

/// Largest block requested from a peer: 16 KiB.
pub const BLOCK_MAX: usize = 16384;

/// Largest frame length accepted from a peer; larger frames are a
/// protocol error.
pub const MAX_FRAME: usize = 131072;

/// Why a download step failed.
#[derive(Debug, Clone, Copy, PartialEq, Eq, Structural)]
pub enum TorrentError {
    /// TCP connect to a peer failed.
    Connect,
    /// The peer's handshake was malformed.
    Handshake,
    /// A frame, tag or message broke the peer protocol.
    Protocol,
    /// The underlying stream failed.
    Io,
    /// No surviving peer advertises the piece.
    NoPeerForPiece(usize),
    /// The reassembled piece did not hash to its manifest entry.
    PieceHashMismatch(usize),
    /// The torrent descriptor asks for something this client does not do.
    Unsupported,
}

/// Relies on `<[u8]>::copy_from_slice`: copies a 20-byte slice into a
/// fresh fixed-size array, byte for byte.
#[verifier::external_body]
pub fn copy_to_array20(s: &[u8]) -> (r: [u8; 20])
    requires
        s@.len() == 20,
    ensures
        r@ == s@,
{
    let mut a = [0u8; 20];
    a.copy_from_slice(s);
    a
}

/// Appends every byte of `src` to `out`.
pub fn push_bytes(out: &mut Vec<u8>, src: &[u8])
    ensures
        final(out)@ == old(out)@ + src@,
{
    let n: usize = src.len();
    let mut i: usize = 0;
    while i < n
        invariant
            i <= n,
            n == src@.len(),
            out@ == old(out)@ + src@.subrange(0, i as int),
        decreases n - i,
    {
        out.push(src[i]);
        assert(out@ =~= old(out)@ + src@.subrange(0, i + 1));
        i = i + 1;
    }
    assert(out@ =~= old(out)@ + src@);
}

/// Compares two byte slices for equality.
pub fn bytes_eq(a: &[u8], b: &[u8]) -> (r: bool)
    ensures
        r == (a@ =~= b@),
{
    if a.len() != b.len() {
        return false;
    }
    let n: usize = a.len();
    let mut i: usize = 0;
    while i < n
        invariant
            i <= n,
            n == a@.len() == b@.len(),
            forall|k: int| 0 <= k < i ==> a@[k] == b@[k],
        decreases n - i,
    {
        if a[i] != b[i] {
            return false;
        }
        i = i + 1;
    }
    true
}

} // verus!
