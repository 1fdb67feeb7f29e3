//! Per-piece geometry: how a torrent's payload splits into pieces and
//! how one piece splits into wire-request blocks.
//!
//! Both splits follow the same rule: chunks of a fixed size cover the
//! length, and the last chunk is the remainder when that is nonzero,
//! else a full chunk.

use vstd::prelude::*;
use vstd::arithmetic::div_mod::{
    lemma_div_is_strictly_smaller, lemma_fundamental_div_mod, lemma_fundamental_div_mod_converse,
    lemma_mod_bound,
};

use crate::BLOCK_MAX;

verus! {

/// How many chunks of size `csize` cover `len` bytes.
pub open spec fn chunk_count(len: int, csize: int) -> int {
    (len + csize - 1) / csize
}

/// The size of chunk `i` when chunks of size `csize` cover `len` bytes:
/// every chunk is full except the last, which is the remainder when
/// that is nonzero.
pub open spec fn chunk_size(len: int, csize: int, i: int) -> int {
    if i == chunk_count(len, csize) - 1 && len % csize != 0 {
        len % csize
    } else {
        csize
    }
}

/// The sum of the sizes of the first `n` chunks.
pub open spec fn sum_chunk_sizes(len: int, csize: int, n: int) -> int
    decreases n,
{
    if n <= 0 {
        0
    } else {
        sum_chunk_sizes(len, csize, n - 1) + chunk_size(len, csize, n - 1)
    }
}

/// The chunk count is the quotient, rounded up.
pub proof fn lemma_chunk_count(len: int, csize: int)
    requires
        len >= 0,
        csize > 0,
    ensures
        chunk_count(len, csize) == if len % csize == 0 {
            len / csize
        } else {
            len / csize + 1
        },
        chunk_count(len, csize) >= 0,
        len > 0 ==> chunk_count(len, csize) >= 1,
        len <= csize && len > 0 ==> chunk_count(len, csize) == 1,
{
    let q = len / csize;
    let r = len % csize;
    lemma_fundamental_div_mod(len, csize);
    lemma_mod_bound(len, csize);
    if r == 0 {
        lemma_fundamental_div_mod_converse(len + csize - 1, csize, q, csize - 1);
    } else {
        assert(len + csize - 1 == (q + 1) * csize + (r - 1)) by (nonlinear_arith)
            requires len == q * csize + r;
        lemma_fundamental_div_mod_converse(len + csize - 1, csize, q + 1, r - 1);
    }
    if len > 0 && q == 0 {
        assert(q * csize == 0) by (nonlinear_arith) requires q == 0;
    }
    if 0 < len <= csize {
        lemma_fundamental_div_mod_converse(len, csize, if len == csize { 1int } else { 0int },
            if len == csize { 0int } else { len });
    }
}

/// Every chunk but the last is full, and the last is never empty nor
/// over-full.
pub proof fn lemma_chunk_size_bounds(len: int, csize: int, i: int)
    requires
        len > 0,
        csize > 0,
        0 <= i < chunk_count(len, csize),
    ensures
        0 < chunk_size(len, csize, i) <= csize,
        i < chunk_count(len, csize) - 1 ==> chunk_size(len, csize, i) == csize,
{
    lemma_mod_bound(len, csize);
}

proof fn lemma_sum_of_full_chunks(len: int, csize: int, n: int)
    requires
        len >= 0,
        csize > 0,
        0 <= n <= chunk_count(len, csize) - 1,
    ensures
        sum_chunk_sizes(len, csize, n) == n * csize,
    decreases n,
{
    if n > 0 {
        lemma_sum_of_full_chunks(len, csize, n - 1);
        assert((n - 1) * csize + csize == n * csize) by (nonlinear_arith);
    } else {
        assert(0 * csize == 0) by (nonlinear_arith);
    }
}

/// The chunk sizes sum back to the length that was split: no byte is
/// lost to the last-chunk rule and none is counted twice.
pub proof fn lemma_chunks_cover(len: int, csize: int)
    requires
        len >= 0,
        csize > 0,
    ensures
        sum_chunk_sizes(len, csize, chunk_count(len, csize)) == len,
{
    let n = chunk_count(len, csize);
    let q = len / csize;
    let r = len % csize;
    lemma_fundamental_div_mod(len, csize);
    lemma_mod_bound(len, csize);
    lemma_chunk_count(len, csize);
    if len == 0 {
        lemma_fundamental_div_mod_converse(0, csize, 0, 0);
    } else {
        lemma_sum_of_full_chunks(len, csize, n - 1);
        assert(sum_chunk_sizes(len, csize, n) == (n - 1) * csize + chunk_size(len, csize, n - 1));
        if r == 0 {
            assert(n == q);
            assert(chunk_size(len, csize, n - 1) == csize);
            assert((q - 1) * csize + csize == csize * q) by (nonlinear_arith);
        } else {
            assert(n == q + 1);
            assert(chunk_size(len, csize, n - 1) == r);
            assert(q * csize + r == csize * q + r) by (nonlinear_arith);
        }
    }
}

/// How many pieces a torrent of `total` bytes has, at `plength` bytes
/// per full piece.
pub open spec fn spec_npieces(total: int, plength: int) -> int {
    chunk_count(total, plength)
}

/// The byte size of piece `i`.
pub open spec fn spec_piece_size(total: int, plength: int, i: int) -> int {
    chunk_size(total, plength, i)
}

/// How many blocks a piece of `piece_size` bytes has.
pub open spec fn spec_nblocks(piece_size: int) -> int {
    chunk_count(piece_size, BLOCK_MAX as int)
}

/// The byte size of block `b` of a piece of `piece_size` bytes.
pub open spec fn spec_block_size(piece_size: int, b: int) -> int {
    chunk_size(piece_size, BLOCK_MAX as int, b)
}

/// The piece sizes sum to the torrent's total length.
pub proof fn lemma_pieces_cover_total(total: int, plength: int)
    requires
        total >= 0,
        plength > 0,
    ensures
        sum_chunk_sizes(total, plength, spec_npieces(total, plength)) == total,
{
    lemma_chunks_cover(total, plength);
}

/// The block sizes of one piece sum to that piece's size.
pub proof fn lemma_blocks_cover_piece(piece_size: int)
    requires
        piece_size >= 0,
    ensures
        sum_chunk_sizes(piece_size, BLOCK_MAX as int, spec_nblocks(piece_size)) == piece_size,
{
    lemma_chunks_cover(piece_size, BLOCK_MAX as int);
}

/// A piece whose size is an exact multiple of `BLOCK_MAX` has only
/// full blocks: the last-block rule never yields a zero-sized block.
pub proof fn lemma_aligned_piece_has_full_blocks(piece_size: int)
    requires
        piece_size > 0,
        piece_size % (BLOCK_MAX as int) == 0,
    ensures
        forall|b: int|
            0 <= b < spec_nblocks(piece_size) ==> spec_block_size(piece_size, b) == BLOCK_MAX,
{
}

/// A torrent whose total length is an exact multiple of the piece
/// length has a full final piece, not an empty one.
pub proof fn lemma_aligned_total_has_full_last_piece(total: int, plength: int)
    requires
        total > 0,
        plength > 0,
        total % plength == 0,
    ensures
        spec_piece_size(total, plength, spec_npieces(total, plength) - 1) == plength,
{
}

/// How many pieces a torrent of `total_length` bytes has at `plength`
/// bytes per full piece.
pub fn npieces(total_length: usize, plength: usize) -> (n: usize)
    requires
        plength > 0,
    ensures
        n == spec_npieces(total_length as int, plength as int),
{
    proof {
        lemma_chunk_count(total_length as int, plength as int);
        lemma_mod_bound(total_length as int, plength as int);
        if total_length as int % plength as int != 0 {
            vstd::arithmetic::div_mod::lemma_small_mod(0, plength as nat);
            lemma_div_is_strictly_smaller(total_length as int, plength as int);
        }
    }
    total_length / plength + (if total_length % plength == 0 {
        0
    } else {
        1
    })
}

/// Everything the driver needs to fetch and check one piece: its
/// index, its byte size, its block count, and its expected digest.
pub struct PiecePlan {
    pub piece_i: usize,
    pub piece_size: usize,
    pub nblocks: usize,
    pub hash: [u8; 20],
}

impl PiecePlan {
    /// The plan's fields agree with the piece geometry, and every
    /// block offset fits the wire format's 32-bit fields.
    pub open spec fn wf(self) -> bool {
        &&& 0 < self.piece_size <= u32::MAX
        &&& self.nblocks == spec_nblocks(self.piece_size as int)
    }

    /// Builds the plan for piece `piece_i` of a torrent of
    /// `total_length` bytes split at `plength` bytes per piece, with
    /// `hash` the piece's expected digest.
    pub fn new(piece_i: usize, total_length: usize, plength: usize, hash: [u8; 20]) -> (plan:
        PiecePlan)
        requires
            0 < plength <= u32::MAX,
            total_length > 0,
            piece_i < spec_npieces(total_length as int, plength as int),
        ensures
            plan.wf(),
            plan.piece_i == piece_i,
            plan.piece_size == spec_piece_size(total_length as int, plength as int, piece_i as int),
            plan.nblocks == spec_nblocks(plan.piece_size as int),
            plan.hash == hash,
    {
        proof {
            lemma_chunk_count(total_length as int, plength as int);
            lemma_mod_bound(total_length as int, plength as int);
        }
        let np: usize = npieces(total_length, plength);
        let piece_size: usize = if piece_i == np - 1 {
            let md: usize = total_length % plength;
            if md == 0 {
                plength
            } else {
                md
            }
        } else {
            plength
        };
        proof {
            lemma_chunk_count(piece_size as int, BLOCK_MAX as int);
            lemma_mod_bound(piece_size as int, BLOCK_MAX as int);
            if piece_size as int % BLOCK_MAX as int != 0 {
                lemma_div_is_strictly_smaller(piece_size as int, BLOCK_MAX as int);
            }
        }
        let nblocks: usize = piece_size / BLOCK_MAX + (if piece_size % BLOCK_MAX == 0 {
            0
        } else {
            1
        });
        PiecePlan { piece_i, piece_size, nblocks, hash }
    }

    /// The byte size of block `block`: `BLOCK_MAX` for every block but
    /// the last, the remainder for the last when that is nonzero.
    pub fn block_size(&self, block: usize) -> (s: usize)
        requires
            self.wf(),
            block < self.nblocks,
        ensures
            s == spec_block_size(self.piece_size as int, block as int),
            0 < s <= BLOCK_MAX,
    {
        proof {
            lemma_chunk_size_bounds(self.piece_size as int, BLOCK_MAX as int, block as int);
        }
        if block == self.nblocks - 1 {
            let md: usize = self.piece_size % BLOCK_MAX;
            if md == 0 {
                BLOCK_MAX
            } else {
                md
            }
        } else {
            BLOCK_MAX
        }
    }

    /// The byte offset at which block `block` starts inside the piece.
    pub fn block_begin(&self, block: usize) -> (off: usize)
        requires
            self.wf(),
            block < self.nblocks,
        ensures
            off == block * BLOCK_MAX,
            off < self.piece_size,
    {
        proof {
            lemma_block_begin_in_piece(self.piece_size as int, block as int);
        }
        block * BLOCK_MAX
    }
}

/// A block's starting offset lies inside the piece.
proof fn lemma_block_begin_in_piece(piece_size: int, b: int)
    requires
        0 < piece_size,
        0 <= b < spec_nblocks(piece_size),
    ensures
        b * BLOCK_MAX < piece_size,
{
    let c = BLOCK_MAX as int;
    lemma_chunk_count(piece_size, c);
    lemma_fundamental_div_mod(piece_size, c);
    lemma_mod_bound(piece_size, c);
    let q = piece_size / c;
    if piece_size % c == 0 {
        assert(b <= q - 1);
        assert(b * c <= (q - 1) * c) by (nonlinear_arith)
            requires b <= q - 1, c > 0;
        assert((q - 1) * c == q * c - c) by (nonlinear_arith);
    } else {
        assert(b <= q);
        assert(b * c <= q * c) by (nonlinear_arith)
            requires b <= q, c > 0;
    }
}

} // verus!
