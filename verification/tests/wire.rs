use bittorrent::peer::{Bitfield, Handshake, Message, MessageFramer, MessageTag, Piece, Request};

fn decode_all(bytes: &[u8]) -> Vec<Result<Option<Message>, bittorrent::TorrentError>> {
    let mut framer = MessageFramer;
    let mut buf = bytes::BytesMut::from(bytes);
    let mut out = Vec::new();
    loop {
        let r = framer.decode(&mut buf);
        let stop = !matches!(r, Ok(Some(_)));
        out.push(r);
        if stop {
            return out;
        }
    }
}

#[test]
fn handshake_roundtrip() {
    let info_hash = [7u8; 20];
    let peer_id = *b"00112233445566778899";
    let h = Handshake::new(info_hash, peer_id);
    let bytes = h.to_bytes();
    assert_eq!(bytes.len(), 68);
    assert_eq!(bytes[0], 19);
    assert_eq!(&bytes[1..20], b"BitTorrent protocol");
    let parsed = Handshake::parse(&bytes).expect("a fresh handshake parses");
    assert_eq!(parsed.length, 19);
    assert_eq!(parsed.bittorrent, b"BitTorrent protocol".to_vec());
    assert_eq!(parsed.reserved, vec![0u8; 8]);
    assert_eq!(parsed.info_hash, info_hash);
    assert_eq!(parsed.peer_id, peer_id);
}

#[test]
fn handshake_rejects_bad_frames() {
    let h = Handshake::new([0u8; 20], [1u8; 20]);
    let good = h.to_bytes();

    let mut wrong_len = good.clone();
    wrong_len.pop();
    assert!(Handshake::parse(&wrong_len).is_err());

    let mut wrong_first = good.clone();
    wrong_first[0] = 18;
    assert!(Handshake::parse(&wrong_first).is_err());

    let mut wrong_name = good.clone();
    wrong_name[5] ^= 0xff;
    assert!(Handshake::parse(&wrong_name).is_err());
}

#[test]
fn every_tag_roundtrips_through_the_framer() {
    let tags = [
        MessageTag::Choke,
        MessageTag::Unchoke,
        MessageTag::Interested,
        MessageTag::NotInterested,
        MessageTag::Have,
        MessageTag::Bitfield,
        MessageTag::Request,
        MessageTag::Piece,
        MessageTag::Cancel,
    ];
    let mut framer = MessageFramer;
    for (i, tag) in tags.iter().enumerate() {
        let payload: Vec<u8> = (0..i as u8).collect();
        let mut buf = bytes::BytesMut::new();
        framer
            .encode(Message { tag: *tag, payload: payload.clone() }, &mut buf)
            .expect("small frames encode");
        let got = framer
            .decode(&mut buf)
            .expect("an encoded frame decodes")
            .expect("a whole frame is buffered");
        assert_eq!(got.tag, *tag);
        assert_eq!(got.payload, payload);
        assert_eq!(buf.len(), 0);
    }
}

#[test]
fn keepalive_produces_no_message_and_advances_nothing_else() {
    // A lone keep-alive: consumed, no message, nothing left.
    let steps = decode_all(&[0, 0, 0, 0]);
    assert!(matches!(steps.as_slice(), [Ok(None)]));

    // A keep-alive in front of a real frame changes nothing about it.
    let mut framed = vec![0u8, 0, 0, 0];
    framed.extend_from_slice(&[0, 0, 0, 2, 4, 9]);
    let steps = decode_all(&framed);
    assert_eq!(steps.len(), 2);
    match &steps[0] {
        Ok(Some(m)) => {
            assert_eq!(m.tag, MessageTag::Have);
            assert_eq!(m.payload, vec![9]);
        }
        other => panic!("expected a Have frame, got {:?}", other),
    }
}

#[test]
fn oversize_frame_is_rejected() {
    // 2^17 + 1 = 131073 announced: rejected even before the body arrives.
    let steps = decode_all(&[0x00, 0x02, 0x00, 0x01]);
    assert!(matches!(steps.as_slice(), [Err(bittorrent::TorrentError::Protocol)]));

    // 2^17 exactly is still acceptable in the header.
    let steps = decode_all(&[0x00, 0x02, 0x00, 0x00]);
    assert!(matches!(steps.as_slice(), [Ok(None)]));
}

#[test]
fn unknown_tag_is_rejected() {
    let steps = decode_all(&[0, 0, 0, 1, 9]);
    assert!(matches!(steps.as_slice(), [Err(bittorrent::TorrentError::Protocol)]));
}

#[test]
fn partial_frames_ask_for_more() {
    assert!(matches!(decode_all(&[0, 0]).as_slice(), [Ok(None)]));
    assert!(matches!(decode_all(&[0, 0, 0, 3, 4]).as_slice(), [Ok(None)]));
}

#[test]
fn encode_rejects_oversize_payload() {
    let mut framer = MessageFramer;
    let mut buf = bytes::BytesMut::new();
    let r = framer.encode(
        Message { tag: MessageTag::Piece, payload: vec![0u8; 131072] },
        &mut buf,
    );
    assert!(matches!(r, Err(bittorrent::TorrentError::Protocol)));
    assert_eq!(buf.len(), 0);
}

#[test]
fn request_payload_layout() {
    let r = Request::new(1, 0x4000, 0x4000);
    assert_eq!(r.index(), 1);
    assert_eq!(r.begin(), 0x4000);
    assert_eq!(r.length(), 0x4000);
    let bytes = r.to_bytes();
    assert_eq!(bytes, vec![0, 0, 0, 1, 0, 0, 0x40, 0, 0, 0, 0x40, 0]);
}

#[test]
fn piece_payload_parses() {
    let mut payload = vec![0, 0, 0, 2, 0, 0, 0x40, 0];
    payload.extend_from_slice(&[10, 20, 30]);
    let p = Piece::from_bytes(&payload).expect("eight header bytes suffice");
    assert_eq!(p.index(), 2);
    assert_eq!(p.begin(), 0x4000);
    assert_eq!(p.block(), &vec![10, 20, 30]);
    assert!(Piece::from_bytes(&payload[..7]).is_none());
}

#[test]
fn bitfield_bits_are_msb_first() {
    let bf = Bitfield::from_payload(vec![0b1010_0000, 0b0000_0001]);
    assert!(bf.has_piece(0));
    assert!(!bf.has_piece(1));
    assert!(bf.has_piece(2));
    assert!(bf.has_piece(15));
    assert!(!bf.has_piece(16));
    assert!(!bf.has_piece(1000));
    assert_eq!(bf.pieces(), vec![0, 2, 15]);
}

#[test]
fn bitfield_set_piece_grows_and_keeps_other_bits() {
    let mut bf = Bitfield::from_payload(vec![0b1000_0000]);
    bf.set_piece(9);
    assert!(bf.has_piece(0));
    assert!(bf.has_piece(9));
    assert!(!bf.has_piece(1));
    assert!(!bf.has_piece(8));
    assert_eq!(bf.pieces(), vec![0, 9]);
}
