use bittorrent::torrent::{encode_info, File, Hashes, Info, Keys, Torrent};
use bittorrent::tracker::{parse_compact_peers, urlencode};
use serde_bencode::value::Value;
use sha1::Digest;
use std::collections::HashMap;

fn sha1(data: &[u8]) -> [u8; 20] {
    let mut h = sha1::Sha1::new();
    h.update(data);
    h.finalize().into()
}

fn sample_digest() -> [u8; 20] {
    let mut d = [0u8; 20];
    for (i, byte) in d.iter_mut().enumerate() {
        *byte = i as u8;
    }
    d
}

fn sample_info() -> Info {
    Info {
        name: String::from("x"),
        plength: 32768,
        pieces: Hashes(vec![sample_digest()]),
        keys: Keys::SingleFile { length: 100 },
    }
}

#[test]
fn info_dict_encodes_byte_exactly() {
    let encoded = encode_info(&sample_info());
    let mut expected = b"d6:lengthi100e4:name1:x12:piece lengthi32768e6:pieces20:".to_vec();
    expected.extend_from_slice(&sample_digest());
    expected.push(b'e');
    assert_eq!(encoded, expected);
}

#[test]
fn encoder_agrees_with_serde_bencode() {
    // The same dictionary built as a generic bencode value and
    // serialised by serde_bencode must give the same bytes.
    let mut dict: HashMap<Vec<u8>, Value> = HashMap::new();
    dict.insert(b"length".to_vec(), Value::Int(100));
    dict.insert(b"name".to_vec(), Value::Bytes(b"x".to_vec()));
    dict.insert(b"piece length".to_vec(), Value::Int(32768));
    dict.insert(b"pieces".to_vec(), Value::Bytes(sample_digest().to_vec()));
    let via_serde = serde_bencode::to_bytes(&Value::Dict(dict)).unwrap();
    assert_eq!(encode_info(&sample_info()), via_serde);
}

#[test]
fn decoding_then_reencoding_keeps_the_bytes() {
    // Decode a canonical info dictionary with the bencode collaborator,
    // rebuild the typed descriptor from what it yields, re-encode: the
    // bytes are identical, so the info-hash is stable.
    let original = encode_info(&sample_info());
    let value: Value = serde_bencode::from_bytes(&original).unwrap();
    let Value::Dict(entries) = value else {
        panic!("an info dict decodes to a dictionary");
    };
    let Some(Value::Int(length)) = entries.get(b"length".as_slice()) else {
        panic!("length is an integer");
    };
    let Some(Value::Bytes(name)) = entries.get(b"name".as_slice()) else {
        panic!("name is a byte string");
    };
    let Some(Value::Int(plength)) = entries.get(b"piece length".as_slice()) else {
        panic!("piece length is an integer");
    };
    let Some(Value::Bytes(pieces)) = entries.get(b"pieces".as_slice()) else {
        panic!("pieces is a byte string");
    };
    let rebuilt = Info {
        name: String::from_utf8(name.clone()).unwrap(),
        plength: *plength as usize,
        pieces: Hashes::from_bytes(pieces).unwrap(),
        keys: Keys::SingleFile { length: *length as usize },
    };
    assert_eq!(encode_info(&rebuilt), original);
}

#[test]
fn info_hash_is_the_sha1_of_the_encoded_dict() {
    let t = Torrent { announce: String::from("http://tracker.example/announce"), info: sample_info() };
    assert_eq!(t.info_hash(), sha1(&encode_info(&t.info)));
}

#[test]
fn multi_file_info_encodes_with_sorted_keys() {
    let info = Info {
        name: String::from("pair"),
        plength: 16384,
        pieces: Hashes(vec![sample_digest()]),
        keys: Keys::MutilFile {
            files: vec![
                File { length: 3, path: vec![String::from("a"), String::from("b.txt")] },
                File { length: 4, path: vec![String::from("c")] },
            ],
        },
    };
    let encoded = encode_info(&info);
    let mut expected =
        b"d5:filesld6:lengthi3e4:pathl1:a5:b.txteed6:lengthi4e4:pathl1:ceee4:name4:pair12:piece lengthi16384e6:pieces20:"
            .to_vec();
    expected.extend_from_slice(&sample_digest());
    expected.push(b'e');
    assert_eq!(encoded, expected);
}

#[test]
fn torrent_length_sums_files() {
    let single = Torrent {
        announce: String::new(),
        info: sample_info(),
    };
    assert_eq!(single.length(), 100);

    let multi = Torrent {
        announce: String::new(),
        info: Info {
            name: String::from("pair"),
            plength: 16384,
            pieces: Hashes(vec![sample_digest()]),
            keys: Keys::MutilFile {
                files: vec![
                    File { length: 3, path: vec![String::from("a")] },
                    File { length: 4, path: vec![String::from("c")] },
                ],
            },
        },
    };
    assert_eq!(multi.length(), 7);
}

#[test]
fn hashes_split_and_concat() {
    let mut bytes = Vec::new();
    bytes.extend_from_slice(&[1u8; 20]);
    bytes.extend_from_slice(&[2u8; 20]);
    let hashes = Hashes::from_bytes(&bytes).expect("40 bytes split");
    assert_eq!(hashes.0.len(), 2);
    assert_eq!(hashes.0[0], [1u8; 20]);
    assert_eq!(hashes.0[1], [2u8; 20]);
    assert_eq!(hashes.concat(), bytes);

    assert!(Hashes::from_bytes(&bytes[..39]).is_none());
}

#[test]
fn urlencode_escapes_every_byte() {
    let mut hash = [0u8; 20];
    hash[0] = 0xab;
    hash[1] = 0x01;
    hash[19] = 0xff;
    let encoded = urlencode(&hash);
    assert_eq!(encoded.len(), 60);
    assert!(encoded.starts_with("%ab%01%00"));
    assert!(encoded.ends_with("%ff"));
}

#[test]
fn compact_peer_list_parses() {
    let bytes = [1u8, 2, 3, 4, 0x1a, 0xe1, 127, 0, 0, 1, 0, 80];
    let peers = parse_compact_peers(&bytes).expect("two peers");
    assert_eq!(peers.len(), 2);
    assert_eq!((peers[0].a, peers[0].b, peers[0].c, peers[0].d), (1, 2, 3, 4));
    assert_eq!(peers[0].port, 6881);
    assert_eq!((peers[1].a, peers[1].b, peers[1].c, peers[1].d), (127, 0, 0, 1));
    assert_eq!(peers[1].port, 80);

    assert!(parse_compact_peers(&bytes[..5]).is_none());
}
