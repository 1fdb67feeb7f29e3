use bittorrent::download::{Downloaded, Scheduler};
use bittorrent::peer::{
    interested_message, request_message, BlockStep, ChokedStep, Message, MessageTag, PeerSession,
};
use bittorrent::piece::PiecePlan;
use bittorrent::{TorrentError, BLOCK_MAX};
use sha1::Digest;

fn sha1(data: &[u8]) -> [u8; 20] {
    let mut h = sha1::Sha1::new();
    h.update(data);
    h.finalize().into()
}

fn bitfield_message(payload: Vec<u8>) -> Message {
    Message { tag: MessageTag::Bitfield, payload }
}

fn piece_message(index: u32, begin: u32, block: &[u8]) -> Message {
    let mut payload = index.to_be_bytes().to_vec();
    payload.extend_from_slice(&begin.to_be_bytes());
    payload.extend_from_slice(block);
    Message { tag: MessageTag::Piece, payload }
}

#[test]
fn session_requires_bitfield_first() {
    let s = PeerSession::establish(bitfield_message(vec![0x80])).expect("bitfield first");
    assert!(s.choked);
    assert!(s.has_piece(0));
    assert!(!s.has_piece(1));

    let err = PeerSession::establish(Message { tag: MessageTag::Choke, payload: vec![] });
    assert!(matches!(err, Err(TorrentError::Protocol)));
}

#[test]
fn unchoke_frees_the_session_and_bitfield_rules_hold() {
    let mut s = PeerSession::establish(bitfield_message(vec![0x80])).unwrap();
    assert!(matches!(
        s.on_choked_message(&Message { tag: MessageTag::Choke, payload: vec![] }),
        ChokedStep::StillChoked
    ));
    // Have updates the bitfield even while choked.
    assert!(matches!(
        s.on_choked_message(&Message { tag: MessageTag::Have, payload: vec![0, 0, 0, 3] }),
        ChokedStep::StillChoked
    ));
    assert!(s.has_piece(3));
    // A second Bitfield after the handshake breaks the protocol.
    assert!(matches!(
        s.on_choked_message(&bitfield_message(vec![0xff])),
        ChokedStep::Rejected(TorrentError::Protocol)
    ));
    assert!(matches!(
        s.on_choked_message(&Message { tag: MessageTag::Unchoke, payload: vec![] }),
        ChokedStep::Unchoked
    ));
    assert!(!s.choked);
    let m = interested_message();
    assert_eq!(m.tag, MessageTag::Interested);
    assert!(m.payload.is_empty());
}

#[test]
fn two_peers_split_one_piece() {
    // Both peers advertise piece 0; four blocks; A takes 0 and 1, B
    // takes 2 and 3; the piece assembles and its hash verifies.
    let piece_bytes: Vec<u8> = (0..4 * BLOCK_MAX).map(|i| (i % 251) as u8).collect();
    let plan = PiecePlan::new(0, piece_bytes.len(), piece_bytes.len(), sha1(&piece_bytes));
    assert_eq!(plan.nblocks, 4);

    let mut a = PeerSession::establish(bitfield_message(vec![0x80])).unwrap();
    let mut b = PeerSession::establish(bitfield_message(vec![0x80])).unwrap();
    assert!(a.has_piece(0) && b.has_piece(0));
    a.on_choked_message(&Message { tag: MessageTag::Unchoke, payload: vec![] });
    b.on_choked_message(&Message { tag: MessageTag::Unchoke, payload: vec![] });

    let mut sched = Scheduler::new(&plan);
    for (session, _peer_name) in [(&mut a, "a"), (&mut b, "b")] {
        for _ in 0..2 {
            let block = sched.next_block().expect("four blocks to hand out");
            let req = request_message(&plan, block);
            assert_eq!(req.tag, MessageTag::Request);
            let begin = (block * BLOCK_MAX) as u32;
            let data = &piece_bytes[block * BLOCK_MAX..block * BLOCK_MAX + plan.block_size(block)];
            match session.on_block_message(piece_message(0, begin, data), 0, begin, data.len() as u32)
            {
                BlockStep::Delivered(bytes) => sched.complete(block, bytes),
                other => panic!("expected delivery, got {:?}", other),
            }
        }
    }
    assert!(sched.is_done());
    let assembled = sched.assemble();
    assert_eq!(assembled, piece_bytes);

    let mut payload = Downloaded::new();
    payload.push_piece(0, assembled, &plan.hash).expect("hash matches");
    assert_eq!(payload.bytes(), &piece_bytes);
}

#[test]
fn choke_mid_request_requeues_the_block() {
    // Peer A pulls block 2, is choked before the block arrives; the
    // block goes back on the queue and peer B finishes the piece.
    let piece_bytes: Vec<u8> = (0..4 * BLOCK_MAX).map(|i| (i / 7 % 256) as u8).collect();
    let plan = PiecePlan::new(0, piece_bytes.len(), piece_bytes.len(), sha1(&piece_bytes));
    let mut sched = Scheduler::new(&plan);

    let mut a = PeerSession::establish(bitfield_message(vec![0x80])).unwrap();
    let mut b = PeerSession::establish(bitfield_message(vec![0x80])).unwrap();
    a.on_choked_message(&Message { tag: MessageTag::Unchoke, payload: vec![] });
    b.on_choked_message(&Message { tag: MessageTag::Unchoke, payload: vec![] });

    let deliver = |session: &mut PeerSession, sched: &mut Scheduler, block: usize| {
        let begin = (block * BLOCK_MAX) as u32;
        let data = &piece_bytes[block * BLOCK_MAX..block * BLOCK_MAX + BLOCK_MAX];
        match session.on_block_message(piece_message(0, begin, data), 0, begin, data.len() as u32) {
            BlockStep::Delivered(bytes) => sched.complete(block, bytes),
            other => panic!("expected delivery, got {:?}", other),
        }
    };

    // A fetches blocks 0 and 1.
    for _ in 0..2 {
        let block = sched.next_block().unwrap();
        deliver(&mut a, &mut sched, block);
    }
    // A pulls block 2 and is choked mid-request.
    let block = sched.next_block().unwrap();
    assert_eq!(block, 2);
    match a.on_block_message(Message { tag: MessageTag::Choke, payload: vec![] }, 0, 0x8000, 0x4000)
    {
        BlockStep::Choked => sched.requeue(block),
        other => panic!("expected a choke, got {:?}", other),
    }
    assert!(a.choked);

    // B drains the queue: block 3, then the requeued block 2.
    let block = sched.next_block().unwrap();
    assert_eq!(block, 3);
    deliver(&mut b, &mut sched, block);
    let block = sched.next_block().unwrap();
    assert_eq!(block, 2);
    deliver(&mut b, &mut sched, block);

    assert!(sched.is_done());
    assert!(sched.next_block().is_none());
    let assembled = sched.assemble();
    assert_eq!(assembled, piece_bytes);
    let mut payload = Downloaded::new();
    payload.push_piece(0, assembled, &plan.hash).expect("hash matches");
}

#[test]
fn blocks_arriving_in_reverse_order_reassemble() {
    let piece_bytes: Vec<u8> = (0..2 * BLOCK_MAX).map(|i| (i % 13) as u8).collect();
    let plan = PiecePlan::new(0, piece_bytes.len(), piece_bytes.len(), sha1(&piece_bytes));
    assert_eq!(plan.nblocks, 2);
    let mut sched = Scheduler::new(&plan);
    let b0 = sched.next_block().unwrap();
    let b1 = sched.next_block().unwrap();
    assert_eq!((b0, b1), (0, 1));
    sched.complete(b1, piece_bytes[BLOCK_MAX..].to_vec());
    sched.complete(b0, piece_bytes[..BLOCK_MAX].to_vec());
    assert!(sched.is_done());
    assert_eq!(sched.assemble(), piece_bytes);
}

#[test]
fn stale_piece_messages_are_ignored() {
    let mut s = PeerSession::establish(bitfield_message(vec![0xc0])).unwrap();
    s.on_choked_message(&Message { tag: MessageTag::Unchoke, payload: vec![] });
    // Wrong piece index: stale.
    let step = s.on_block_message(piece_message(1, 0, &[1, 2, 3]), 0, 0, 3);
    assert!(matches!(step, BlockStep::Ignored));
    // Wrong offset: stale.
    let step = s.on_block_message(piece_message(0, 8, &[1, 2, 3]), 0, 0, 3);
    assert!(matches!(step, BlockStep::Ignored));
    // Right block, wrong size: protocol error.
    let step = s.on_block_message(piece_message(0, 0, &[1, 2]), 0, 0, 3);
    assert!(matches!(step, BlockStep::Rejected(TorrentError::Protocol)));
    // Unchoke while unchoked: protocol error.
    let step = s.on_block_message(Message { tag: MessageTag::Unchoke, payload: vec![] }, 0, 0, 3);
    assert!(matches!(step, BlockStep::Rejected(TorrentError::Protocol)));
}

#[test]
fn payload_concatenates_pieces_in_order() {
    let piece0: Vec<u8> = vec![1; 100];
    let piece1: Vec<u8> = vec![2; 40];
    let mut payload = Downloaded::new();
    payload.push_piece(0, piece0.clone(), &sha1(&piece0)).expect("hash matches");
    payload.push_piece(1, piece1.clone(), &sha1(&piece1)).expect("hash matches");
    let mut whole = piece0;
    whole.extend_from_slice(&piece1);
    assert_eq!(payload.bytes(), &whole);
}

#[test]
fn hash_mismatch_discards_the_piece() {
    let piece_bytes: Vec<u8> = (0..100).collect();
    let expected = sha1(&piece_bytes);
    let plan = PiecePlan::new(0, 100, 100, expected);
    let mut sched = Scheduler::new(&plan);
    let block = sched.next_block().unwrap();

    // The last byte of the (single) block arrives corrupted.
    let mut corrupted = piece_bytes.clone();
    *corrupted.last_mut().unwrap() ^= 0xff;
    sched.complete(block, corrupted);
    assert!(sched.is_done());

    let mut payload = Downloaded::new();
    let r = payload.push_piece(0, sched.assemble(), &plan.hash);
    assert!(matches!(r, Err(TorrentError::PieceHashMismatch(0))));
    assert!(payload.bytes().is_empty());
}
