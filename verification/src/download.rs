//! The per-piece block scheduler and the verified payload accumulator.
//!
//! The scheduler owns one piece's block bookkeeping: which blocks are
//! still to hand out, which are with a peer, and which have arrived.
//! The accumulator appends pieces in index order, each checked against
//! its manifest digest before a byte of it is kept.

use sha1::Digest;

use vstd::prelude::*;
use vstd::set_lib::lemma_len_subset;

use crate::piece::{
    lemma_blocks_cover_piece, spec_block_size, spec_nblocks, sum_chunk_sizes, PiecePlan,
};
use crate::{push_bytes, TorrentError, BLOCK_MAX};

verus! {

/// The SHA-1 digest of a byte sequence, as the `sha1` crate computes
/// it: a pure function of the bytes alone.
pub uninterp spec fn sha1_of(data: Seq<u8>) -> Seq<u8>;

/// Relies on sha1::Sha1 (the RustCrypto implementation): the digest
/// depends on the input bytes alone and is 20 bytes long.
#[verifier::external_body]
pub(crate) fn sha1_digest(data: &[u8]) -> (r: [u8; 20])
    ensures
        r@ == sha1_of(data@),
{
    let mut hasher = sha1::Sha1::new();
    hasher.update(data);
    hasher.finalize().into()
}

/// How many blocks of `rec` have arrived.
pub open spec fn count_received(rec: Seq<Option<Vec<u8>>>) -> int
    decreases rec.len(),
{
    if rec.len() == 0 {
        0
    } else {
        count_received(rec.drop_last()) + if rec.last() is Some {
            1int
        } else {
            0int
        }
    }
}

/// The received blocks' bytes, in block-index order over the first `n`
/// entries.
pub open spec fn concat_blocks(rec: Seq<Option<Vec<u8>>>, n: int) -> Seq<u8>
    decreases n,
{
    if n <= 0 {
        Seq::empty()
    } else {
        concat_blocks(rec, n - 1) + rec[n - 1].unwrap()@
    }
}

proof fn lemma_count_le_len(rec: Seq<Option<Vec<u8>>>)
    ensures
        count_received(rec) <= rec.len(),
        count_received(rec) >= 0,
    decreases rec.len(),
{
    if rec.len() > 0 {
        lemma_count_le_len(rec.drop_last());
    }
}

proof fn lemma_count_update_some(rec: Seq<Option<Vec<u8>>>, i: int, v: Vec<u8>)
    requires
        0 <= i < rec.len(),
        rec[i] is None,
    ensures
        count_received(rec.update(i, Some(v))) == count_received(rec) + 1,
    decreases rec.len(),
{
    let upd = rec.update(i, Some(v));
    if i == rec.len() - 1 {
        assert(upd.drop_last() =~= rec.drop_last());
    } else {
        assert(upd.drop_last() =~= rec.drop_last().update(i, Some(v)));
        lemma_count_update_some(rec.drop_last(), i, v);
        assert(upd.last() == rec.last());
    }
}

/// When every block has arrived, no entry is missing.
proof fn lemma_count_full(rec: Seq<Option<Vec<u8>>>)
    requires
        count_received(rec) == rec.len(),
    ensures
        forall|i: int| 0 <= i < rec.len() ==> rec[i] is Some,
    decreases rec.len(),
{
    if rec.len() > 0 {
        lemma_count_le_len(rec.drop_last());
        lemma_count_full(rec.drop_last());
        assert forall|i: int| 0 <= i < rec.len() implies rec[i] is Some by {
            if i < rec.len() - 1 {
                assert(rec.drop_last()[i] is Some);
            }
        }
    }
}

/// One piece's block scheduler: the work queue of blocks still to hand
/// out, the blocks currently with a peer, and the blocks received.
pub struct Scheduler {
    /// The piece's byte size.
    pub piece_size: usize,
    /// How many blocks the piece has.
    pub nblocks: usize,
    /// Blocks still to hand out, front first.
    pub pending: Vec<usize>,
    /// The bytes of each received block, by block index.
    pub received: Vec<Option<Vec<u8>>>,
    /// How many entries of `received` are filled.
    pub received_count: usize,
    /// How many blocks are with a peer right now.
    pub in_flight_count: usize,
    /// Which blocks are with a peer right now.
    pub flight: Ghost<Set<int>>,
}

impl Scheduler {
    /// Every block is in exactly one place: still pending, out with a
    /// peer, or received; received blocks carry exactly their planned
    /// size; the counters count what they say they count.
    pub open spec fn wf(self) -> bool {
        &&& 0 < self.piece_size <= u32::MAX
        &&& self.nblocks == spec_nblocks(self.piece_size as int)
        &&& self.received@.len() == self.nblocks
        &&& self.received_count == count_received(self.received@)
        &&& self.flight@.finite()
        &&& self.in_flight_count == self.flight@.len()
        &&& forall|k: int|
            0 <= k < self.pending@.len() ==> (self.pending@[k] as int) < self.nblocks
        &&& forall|b: int| self.flight@.contains(b) ==> 0 <= b < self.nblocks
        &&& forall|k: int|
            0 <= k < self.pending@.len() ==> !self.flight@.contains(self.pending@[k] as int)
                && self.received@[self.pending@[k] as int] is None
        &&& forall|b: int| self.flight@.contains(b) ==> self.received@[b] is None
        &&& forall|k1: int, k2: int|
            0 <= k1 < k2 < self.pending@.len() ==> self.pending@[k1] != self.pending@[k2]
        &&& forall|b: int|
            0 <= b < self.nblocks && self.received@[b] is None ==> (self.pending@.contains(
                b as usize,
            ) || self.flight@.contains(b))
        &&& forall|b: int|
            0 <= b < self.nblocks ==> ((#[trigger] self.received@[b]) matches Some(v) ==> v@.len()
                == spec_block_size(self.piece_size as int, b))
    }

    /// A fresh scheduler for the piece `plan` describes: blocks
    /// `0..nblocks` pending in ascending order, nothing in flight,
    /// nothing received.
    pub fn new(plan: &PiecePlan) -> (s: Scheduler)
        requires
            plan.wf(),
        ensures
            s.wf(),
            s.piece_size == plan.piece_size,
            s.nblocks == plan.nblocks,
            s.pending@.len() == plan.nblocks,
            forall|k: int| 0 <= k < s.pending@.len() ==> s.pending@[k] == k as usize,
            s.received_count == 0,
            s.in_flight_count == 0,
            s.flight@ == Set::<int>::empty(),
    {
        let mut pending: Vec<usize> = Vec::new();
        let mut k: usize = 0;
        while k < plan.nblocks
            invariant
                k <= plan.nblocks,
                pending@.len() == k,
                forall|i: int| 0 <= i < k ==> pending@[i] == i as usize,
            decreases plan.nblocks - k,
        {
            pending.push(k);
            k = k + 1;
        }
        let mut received: Vec<Option<Vec<u8>>> = Vec::new();
        let mut j: usize = 0;
        while j < plan.nblocks
            invariant
                j <= plan.nblocks,
                received@.len() == j,
                count_received(received@) == 0,
                forall|i: int| 0 <= i < j ==> received@[i] is None,
            decreases plan.nblocks - j,
        {
            let ghost prev: Seq<Option<Vec<u8>>> = received@;
            received.push(None);
            proof {
                assert(received@.drop_last() =~= prev);
            }
            j = j + 1;
        }
        let s = Scheduler {
            piece_size: plan.piece_size,
            nblocks: plan.nblocks,
            pending,
            received,
            received_count: 0,
            in_flight_count: 0,
            flight: Ghost(Set::empty()),
        };
        proof {
            assert forall|b: int|
                0 <= b < s.nblocks && s.received@[b] is None implies (s.pending@.contains(b as usize)
                || s.flight@.contains(b)) by {
                assert(s.pending@[b] == b as usize);
            }
        }
        s
    }

    /// Hands out the next pending block, marking it in flight; `None`
    /// once no block is pending (the peer should stop pulling work).
    pub fn next_block(&mut self) -> (r: Option<usize>)
        requires
            old(self).wf(),
        ensures
            final(self).wf(),
            final(self).piece_size == old(self).piece_size,
            final(self).nblocks == old(self).nblocks,
            final(self).received@ == old(self).received@,
            final(self).received_count == old(self).received_count,
            match r {
                None => {
                    &&& old(self).pending@.len() == 0
                    &&& final(self).pending@ == old(self).pending@
                    &&& final(self).flight@ == old(self).flight@
                    &&& final(self).in_flight_count == old(self).in_flight_count
                },
                Some(b) => {
                    &&& old(self).pending@.len() > 0
                    &&& b == old(self).pending@[0]
                    &&& final(self).pending@ == old(self).pending@.skip(1)
                    &&& final(self).flight@ == old(self).flight@.insert(b as int)
                    &&& final(self).in_flight_count == old(self).in_flight_count + 1
                },
            },
    {
        if self.pending.len() == 0 {
            return None;
        }
        let b: usize = self.pending.remove(0);
        proof {
            assert(self.pending@ =~= old(self).pending@.skip(1));
            lemma_flight_bound(self.flight@, self.nblocks as int);
        }
        self.flight = Ghost(self.flight@.insert(b as int));
        self.in_flight_count = self.in_flight_count + 1;
        proof {
            assert forall|k: int| 0 <= k < self.pending@.len() implies !self.flight@.contains(
                self.pending@[k] as int,
            ) && self.received@[self.pending@[k] as int] is None by {
                assert(self.pending@[k] == old(self).pending@[k + 1]);
            }
            assert forall|c: int|
                0 <= c < self.nblocks && self.received@[c] is None implies (self.pending@.contains(
                c as usize,
            ) || self.flight@.contains(c)) by {
                if old(self).pending@.contains(c as usize) {
                    let k = choose|k: int|
                        0 <= k < old(self).pending@.len() && old(self).pending@[k] == c as usize;
                    if k == 0 {
                        assert(self.flight@.contains(c));
                    } else {
                        assert(self.pending@[k - 1] == c as usize);
                    }
                }
            }
        }
        Some(b)
    }

    /// Puts a block a choked peer could not fetch back on the work
    /// queue, at the back.
    pub fn requeue(&mut self, block: usize)
        requires
            old(self).wf(),
            old(self).flight@.contains(block as int),
        ensures
            final(self).wf(),
            final(self).piece_size == old(self).piece_size,
            final(self).nblocks == old(self).nblocks,
            final(self).received@ == old(self).received@,
            final(self).received_count == old(self).received_count,
            final(self).pending@ == old(self).pending@.push(block),
            final(self).flight@ == old(self).flight@.remove(block as int),
            final(self).in_flight_count == old(self).in_flight_count - 1,
    {
        self.pending.push(block);
        self.flight = Ghost(self.flight@.remove(block as int));
        self.in_flight_count = self.in_flight_count - 1;
        proof {
            assert forall|c: int|
                0 <= c < self.nblocks && self.received@[c] is None implies (self.pending@.contains(
                c as usize,
            ) || self.flight@.contains(c)) by {
                if c == block as int {
                    assert(self.pending@[self.pending@.len() - 1] == block);
                } else if old(self).pending@.contains(c as usize) {
                    let k = choose|k: int|
                        0 <= k < old(self).pending@.len() && old(self).pending@[k] == c as usize;
                    assert(self.pending@[k] == c as usize);
                }
            }
        }
    }

    /// Records the bytes of a block a peer delivered; the block leaves
    /// flight and its slot is filled.
    pub fn complete(&mut self, block: usize, data: Vec<u8>)
        requires
            old(self).wf(),
            old(self).flight@.contains(block as int),
            data@.len() == spec_block_size(old(self).piece_size as int, block as int),
        ensures
            final(self).wf(),
            final(self).piece_size == old(self).piece_size,
            final(self).nblocks == old(self).nblocks,
            final(self).pending@ == old(self).pending@,
            final(self).received@ == old(self).received@.update(block as int, Some(data)),
            final(self).received_count == old(self).received_count + 1,
            final(self).flight@ == old(self).flight@.remove(block as int),
            final(self).in_flight_count == old(self).in_flight_count - 1,
    {
        proof {
            lemma_count_update_some(self.received@, block as int, data);
            lemma_count_le_len(self.received@.update(block as int, Some(data)));
        }
        self.received[block] = Some(data);
        self.received_count = self.received_count + 1;
        self.flight = Ghost(self.flight@.remove(block as int));
        self.in_flight_count = self.in_flight_count - 1;
    }

    /// Whether every block of the piece has arrived.
    pub fn is_done(&self) -> (r: bool)
        ensures
            r == (self.received_count == self.nblocks),
    {
        self.received_count == self.nblocks
    }

    /// The piece's bytes, blocks in index order. By the block-size
    /// bookkeeping, their length is exactly the piece's size.
    pub fn assemble(&self) -> (out: Vec<u8>)
        requires
            self.wf(),
            self.received_count == self.nblocks,
        ensures
            out@ == concat_blocks(self.received@, self.nblocks as int),
            out@.len() == self.piece_size,
    {
        proof {
            lemma_count_full(self.received@);
        }
        let mut out: Vec<u8> = Vec::new();
        let mut i: usize = 0;
        while i < self.nblocks
            invariant
                self.wf(),
                self.received_count == self.nblocks,
                i <= self.nblocks,
                forall|k: int| 0 <= k < self.received@.len() ==> self.received@[k] is Some,
                out@ == concat_blocks(self.received@, i as int),
                out@.len() == sum_chunk_sizes(self.piece_size as int, BLOCK_MAX as int, i as int),
            decreases self.nblocks - i,
        {
            if let Some(b) = &self.received[i] {
                push_bytes(&mut out, b.as_slice());
            } else {
                proof {
                    assert(false);
                }
            }
            i = i + 1;
        }
        proof {
            lemma_blocks_cover_piece(self.piece_size as int);
        }
        out
    }
}

/// A set of block indices below `n` holds at most `n` blocks.
proof fn lemma_flight_bound(flight: Set<int>, n: int)
    requires
        flight.finite(),
        n >= 0,
        forall|b: int| flight.contains(b) ==> 0 <= b < n,
    ensures
        flight.len() <= n,
{
    let range = vstd::set_lib::set_int_range(0, n);
    vstd::set_lib::lemma_int_range(0, n);
    lemma_len_subset(flight, range);
}

// ---------------------------------------------------------------------
// Assembled payload
// ---------------------------------------------------------------------

/// The pieces' bytes laid end to end, in piece order.
pub open spec fn concat_pieces(ps: Seq<Seq<u8>>) -> Seq<u8>
    decreases ps.len(),
{
    if ps.len() == 0 {
        Seq::empty()
    } else {
        concat_pieces(ps.drop_last()) + ps.last()
    }
}

/// The downloaded payload: every piece verified against its manifest
/// digest before it was appended, in ascending piece order.
pub struct Downloaded {
    data: Vec<u8>,
    pieces: Ghost<Seq<Seq<u8>>>,
    hashes: Ghost<Seq<Seq<u8>>>,
}

impl Downloaded {
    /// The bytes of each verified piece, in the order appended.
    pub closed spec fn pieces(self) -> Seq<Seq<u8>> {
        self.pieces@
    }

    /// The manifest digest each piece was checked against.
    pub closed spec fn hashes(self) -> Seq<Seq<u8>> {
        self.hashes@
    }

    /// The payload bytes so far.
    pub closed spec fn payload(self) -> Seq<u8> {
        self.data@
    }

    /// The payload is exactly the verified pieces laid end to end, and
    /// every piece hashes to its manifest digest.
    pub open spec fn wf(self) -> bool {
        &&& self.payload() == concat_pieces(self.pieces())
        &&& self.pieces().len() == self.hashes().len()
        &&& forall|i: int|
            0 <= i < self.pieces().len() ==> sha1_of(#[trigger] self.pieces()[i])
                == self.hashes()[i]
    }

    /// An empty payload: no piece yet.
    pub fn new() -> (d: Downloaded)
        ensures
            d.wf(),
            d.pieces().len() == 0,
            d.payload().len() == 0,
    {
        Downloaded { data: Vec::new(), pieces: Ghost(Seq::empty()), hashes: Ghost(Seq::empty()) }
    }

    /// The assembled payload bytes.
    pub fn bytes(&self) -> (b: &Vec<u8>)
        ensures
            b@ == self.payload(),
    {
        &self.data
    }

    /// Checks a reassembled piece against its manifest digest and
    /// appends it. A piece whose SHA-1 differs is discarded whole and
    /// the download fails with `PieceHashMismatch`.
    pub fn push_piece(&mut self, piece_i: usize, piece: Vec<u8>, expected: &[u8; 20]) -> (r: Result<
        (),
        TorrentError,
    >)
        requires
            old(self).wf(),
        ensures
            final(self).wf(),
            match r {
                Ok(()) => {
                    &&& sha1_of(piece@) == expected@
                    &&& final(self).pieces() == old(self).pieces().push(piece@)
                    &&& final(self).hashes() == old(self).hashes().push(expected@)
                    &&& final(self).payload() == old(self).payload() + piece@
                },
                Err(e) => {
                    &&& sha1_of(piece@) != expected@
                    &&& e == TorrentError::PieceHashMismatch(piece_i)
                    &&& *final(self) == *old(self)
                },
            },
    {
        let digest: [u8; 20] = sha1_digest(piece.as_slice());
        if !crate::bytes_eq(digest.as_slice(), expected.as_slice()) {
            return Err(TorrentError::PieceHashMismatch(piece_i));
        }
        let ghost piece_view: Seq<u8> = piece@;
        let mut piece = piece;
        self.data.append(&mut piece);
        proof {
            self.pieces@ = self.pieces@.push(piece_view);
            self.hashes@ = self.hashes@.push(expected@);
            assert(self.pieces@.drop_last() =~= old(self).pieces());
            assert(concat_pieces(self.pieces@) == self.data@);
        }
        Ok(())
    }
}

/// Every piece of a well-formed payload hashes to its manifest digest:
/// what `push_piece` checked once holds of the whole accumulator.
pub proof fn lemma_every_piece_verified(d: Downloaded)
    requires
        d.wf(),
    ensures
        forall|i: int| 0 <= i < d.pieces().len() ==> sha1_of(#[trigger] d.pieces()[i]) == d.hashes()[i],
{
}

/// The payload is the concatenation of the pieces in ascending index
/// order: no byte is reordered, dropped or duplicated.
pub proof fn lemma_payload_is_pieces_in_order(d: Downloaded)
    requires
        d.wf(),
    ensures
        d.payload() == concat_pieces(d.pieces()),
{
}

proof fn lemma_concat_pieces_len(ps: Seq<Seq<u8>>, total: int, plength: int)
    requires
        plength > 0,
        forall|i: int|
            0 <= i < ps.len() ==> (#[trigger] ps[i]).len() == crate::piece::spec_piece_size(
                total,
                plength,
                i,
            ),
    ensures
        concat_pieces(ps).len() == crate::piece::sum_chunk_sizes(
            total,
            plength,
            ps.len() as int,
        ),
    decreases ps.len(),
{
    if ps.len() > 0 {
        lemma_concat_pieces_len(ps.drop_last(), total, plength);
    }
}

/// A complete download is exactly as long as the torrent says: one
/// piece per manifest entry, each of its planned size, sums to
/// `total_length`.
pub proof fn lemma_payload_length_is_total(d: Downloaded, total: int, plength: int)
    requires
        d.wf(),
        total >= 0,
        plength > 0,
        d.pieces().len() == crate::piece::spec_npieces(total, plength),
        forall|i: int|
            0 <= i < d.pieces().len() ==> (#[trigger] d.pieces()[i]).len()
                == crate::piece::spec_piece_size(total, plength, i),
    ensures
        d.payload().len() == total,
{
    lemma_concat_pieces_len(d.pieces(), total, plength);
    crate::piece::lemma_pieces_cover_total(total, plength);
}

} // verus!
