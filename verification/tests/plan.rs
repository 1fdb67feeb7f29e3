use bittorrent::peer::request_message;
use bittorrent::peer::MessageTag;
use bittorrent::piece::{npieces, PiecePlan};
use bittorrent::BLOCK_MAX;

#[test]
fn single_block_piece() {
    // total_length = 100, piece_length = 100: one piece, one block.
    assert_eq!(npieces(100, 100), 1);
    let plan = PiecePlan::new(0, 100, 100, [0u8; 20]);
    assert_eq!(plan.piece_size, 100);
    assert_eq!(plan.nblocks, 1);
    assert_eq!(plan.block_size(0), 100);
    let req = request_message(&plan, 0);
    assert_eq!(req.tag, MessageTag::Request);
    assert_eq!(req.payload, vec![0, 0, 0, 0, 0, 0, 0, 0, 0, 0, 0, 100]);
}

#[test]
fn multi_block_piece() {
    // One piece of 32768 bytes: two full blocks.
    let plan = PiecePlan::new(0, 32768, 32768, [0u8; 20]);
    assert_eq!(plan.nblocks, 2);
    assert_eq!(plan.block_size(0), BLOCK_MAX);
    assert_eq!(plan.block_size(1), BLOCK_MAX);
    let r0 = request_message(&plan, 0);
    let r1 = request_message(&plan, 1);
    assert_eq!(r0.payload, vec![0, 0, 0, 0, 0, 0, 0, 0, 0, 0, 0x40, 0]);
    assert_eq!(r1.payload, vec![0, 0, 0, 0, 0, 0, 0x40, 0, 0, 0, 0x40, 0]);
}

#[test]
fn truncated_last_piece() {
    // total_length = 40000, piece_length = 32768: piece 1 holds 7232
    // bytes in a single short block.
    assert_eq!(npieces(40000, 32768), 2);
    let plan0 = PiecePlan::new(0, 40000, 32768, [0u8; 20]);
    assert_eq!(plan0.piece_size, 32768);
    let plan1 = PiecePlan::new(1, 40000, 32768, [1u8; 20]);
    assert_eq!(plan1.piece_size, 7232);
    assert_eq!(plan1.nblocks, 1);
    assert_eq!(plan1.block_size(0), 7232);
}

#[test]
fn aligned_piece_has_no_zero_sized_block() {
    // A piece that is an exact multiple of BLOCK_MAX: all blocks full.
    let plan = PiecePlan::new(0, 3 * BLOCK_MAX, 3 * BLOCK_MAX, [0u8; 20]);
    assert_eq!(plan.nblocks, 3);
    for b in 0..plan.nblocks {
        assert_eq!(plan.block_size(b), BLOCK_MAX);
    }
}

#[test]
fn aligned_total_has_full_last_piece() {
    // A total that is an exact multiple of the piece length: the final
    // piece is full-sized, not empty.
    let total = 2 * 32768;
    assert_eq!(npieces(total, 32768), 2);
    let last = PiecePlan::new(1, total, 32768, [0u8; 20]);
    assert_eq!(last.piece_size, 32768);
}

#[test]
fn piece_sizes_sum_to_total() {
    let total = 100_000;
    let plength = 32768;
    let n = npieces(total, plength);
    let mut sum = 0;
    for i in 0..n {
        sum += PiecePlan::new(i, total, plength, [0u8; 20]).piece_size;
    }
    assert_eq!(sum, total);
}

#[test]
fn block_sizes_sum_to_piece_size() {
    let plan = PiecePlan::new(0, 50_000, 50_000, [0u8; 20]);
    let mut sum = 0;
    for b in 0..plan.nblocks {
        sum += plan.block_size(b);
    }
    assert_eq!(sum, plan.piece_size);
}
