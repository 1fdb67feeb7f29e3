//! The torrent descriptor: announce URL, piece geometry, and the
//! per-piece digest manifest, with the byte-exact bencoding of the
//! `info` dictionary that the torrent's identity (its info-hash)
//! rests on.

use vstd::prelude::*;
use vstd::utf8::encode_utf8;

use crate::bencode::{
    encode_bint, encode_bstr, lemma_expect_of, lemma_expect_strict, lemma_parse_bint_of,
    lemma_parse_bint_strict, lemma_parse_bstr_of, lemma_parse_bstr_strict, spec_bint, spec_bstr,
    spec_expect, spec_parse_bint, spec_parse_bstr,
};
use crate::download::{sha1_digest, sha1_of};

verus! {

/// A parsed `.torrent` descriptor.
pub struct Torrent {
    /// The tracker's announce URL.
    pub announce: String,
    pub info: Info,
}

/// The `info` dictionary: the torrent's identity.
pub struct Info {
    pub name: String,
    /// Bytes per full piece.
    pub plength: usize,
    /// One 20-byte SHA-1 digest per piece.
    pub pieces: Hashes,
    pub keys: Keys,
}

/// A torrent carries either a single file's length or a file list.
pub enum Keys {
    SingleFile { length: usize },
    MutilFile { files: Vec<File> },
}

/// One entry of a multi-file torrent.
pub struct File {
    pub length: usize,
    pub path: Vec<String>,
}

/// The piece digest manifest: one 20-byte SHA-1 per piece.
pub struct Hashes(pub Vec<[u8; 20]>);

/// The manifest digests laid end to end, as the `pieces` value of the
/// `info` dictionary holds them.
pub open spec fn spec_hashes_bytes(hs: Seq<[u8; 20]>) -> Seq<u8>
    decreases hs.len(),
{
    if hs.len() == 0 {
        Seq::empty()
    } else {
        spec_hashes_bytes(hs.drop_last()) + hs.last()@
    }
}

impl Hashes {
    /// Splits the `pieces` byte string into 20-byte digests. `None`
    /// when its length is no multiple of 20.
    pub fn from_bytes(v: &[u8]) -> (r: Option<Hashes>)
        ensures
            match r {
                Some(h) => {
                    &&& v@.len() % 20 == 0
                    &&& h.0@.len() == v@.len() / 20
                    &&& forall|i: int|
                        0 <= i < h.0@.len() ==> (#[trigger] h.0@[i])@ == v@.subrange(
                            20 * i,
                            20 * i + 20,
                        )
                },
                None => v@.len() % 20 != 0,
            },
    {
        if v.len() % 20 != 0 {
            return None;
        }
        let vn: usize = v.len();
        let count: usize = vn / 20;
        let mut data: Vec<[u8; 20]> = Vec::new();
        let mut i: usize = 0;
        proof {
            vstd::arithmetic::div_mod::lemma_fundamental_div_mod(v@.len() as int, 20);
        }
        while i < count
            invariant
                i <= count,
                vn == v@.len(),
                20 * count <= vn,
                data@.len() == i,
                forall|k: int|
                    0 <= k < i ==> (#[trigger] data@[k])@ == v@.subrange(20 * k, 20 * k + 20),
            decreases count - i,
        {
            proof {
                assert(20 * (i + 1) <= 20 * count) by (nonlinear_arith)
                    requires i + 1 <= count;
            }
            let chunk: &[u8] = vstd::slice::slice_subrange(v, 20 * i, 20 * i + 20);
            let hash: [u8; 20] = crate::copy_to_array20(chunk);
            data.push(hash);
            i = i + 1;
        }
        Some(Hashes(data))
    }

    /// The manifest digests laid end to end.
    pub fn concat(&self) -> (out: Vec<u8>)
        ensures
            out@ == spec_hashes_bytes(self.0@),
    {
        let mut out: Vec<u8> = Vec::new();
        let n: usize = self.0.len();
        let mut i: usize = 0;
        while i < n
            invariant
                i <= n,
                n == self.0@.len(),
                out@ == spec_hashes_bytes(self.0@.subrange(0, i as int)),
            decreases n - i,
        {
            crate::push_bytes(&mut out, self.0[i].as_slice());
            proof {
                assert(self.0@.subrange(0, i + 1).drop_last() =~= self.0@.subrange(0, i as int));
                assert(self.0@.subrange(0, i + 1).last() == self.0@[i as int]);
            }
            i = i + 1;
        }
        assert(self.0@.subrange(0, n as int) =~= self.0@);
        out
    }
}

/// The lengths of the first `n` files, summed.
pub open spec fn spec_file_lengths(files: Seq<File>, n: int) -> int
    decreases n,
{
    if n <= 0 {
        0
    } else {
        spec_file_lengths(files, n - 1) + files[n - 1].length
    }
}

/// The payload length the descriptor announces: the single file's
/// length, or the file lengths summed.
pub open spec fn spec_length(t: Torrent) -> int {
    match t.info.keys {
        Keys::SingleFile { length } => length as int,
        Keys::MutilFile { files } => spec_file_lengths(files@, files@.len() as int),
    }
}

proof fn lemma_file_lengths_mono(files: Seq<File>, i: int, n: int)
    requires
        0 <= i <= n,
    ensures
        spec_file_lengths(files, i) <= spec_file_lengths(files, n),
    decreases n - i,
{
    if i < n {
        lemma_file_lengths_mono(files, i + 1, n);
    }
}

// ---------------------------------------------------------------------
// Bencoding of the info dictionary
// ---------------------------------------------------------------------

/// The dictionary key "length".
pub open spec fn key_length() -> Seq<u8> {
    seq![108u8, 101u8, 110u8, 103u8, 116u8, 104u8]
}

/// The dictionary key "name".
pub open spec fn key_name() -> Seq<u8> {
    seq![110u8, 97u8, 109u8, 101u8]
}

/// The dictionary key "piece length".
pub open spec fn key_piece_length() -> Seq<u8> {
    seq![112u8, 105u8, 101u8, 99u8, 101u8, 32u8, 108u8, 101u8, 110u8, 103u8, 116u8, 104u8]
}

/// The dictionary key "pieces".
pub open spec fn key_pieces() -> Seq<u8> {
    seq![112u8, 105u8, 101u8, 99u8, 101u8, 115u8]
}

/// The dictionary key "files".
pub open spec fn key_files() -> Seq<u8> {
    seq![102u8, 105u8, 108u8, 101u8, 115u8]
}

/// The dictionary key "path".
pub open spec fn key_path() -> Seq<u8> {
    seq![112u8, 97u8, 116u8, 104u8]
}

/// The bencoding of one file entry: a dictionary of its length and
/// path segments, keys in sorted order.
pub open spec fn spec_bencode_file(f: File) -> Seq<u8> {
    seq![100u8] + spec_bstr(key_length()) + spec_bint(f.length as int) + spec_bstr(key_path())
        + seq![108u8] + spec_path_list(f.path@, f.path@.len() as int) + seq![101u8] + seq![101u8]
}

/// The bencoded path segments of one file, first `n` entries.
pub open spec fn spec_path_list(ps: Seq<String>, n: int) -> Seq<u8>
    decreases n,
{
    if n <= 0 {
        Seq::empty()
    } else {
        spec_path_list(ps, n - 1) + spec_bstr(encode_utf8(ps[n - 1]@))
    }
}

/// The bencoded file entries, first `n` of them.
pub open spec fn spec_files_list(fs: Seq<File>, n: int) -> Seq<u8>
    decreases n,
{
    if n <= 0 {
        Seq::empty()
    } else {
        spec_files_list(fs, n - 1) + spec_bencode_file(fs[n - 1])
    }
}

/// The byte-exact bencoding of the `info` dictionary, keys in the
/// sorted order bencode prescribes: `files` or `length`, then `name`,
/// `piece length`, `pieces`.
pub open spec fn spec_bencode_info(info: Info) -> Seq<u8> {
    seq![100u8] + (match info.keys {
        Keys::SingleFile { length } => spec_bstr(key_length()) + spec_bint(length as int),
        Keys::MutilFile { files } => spec_bstr(key_files()) + seq![108u8] + spec_files_list(
            files@,
            files@.len() as int,
        ) + seq![101u8],
    }) + spec_bstr(key_name()) + spec_bstr(encode_utf8(info.name@)) + spec_bstr(key_piece_length())
        + spec_bint(info.plength as int) + spec_bstr(key_pieces()) + spec_bstr(
        spec_hashes_bytes(info.pieces.0@),
    ) + seq![101u8]
}

fn push_key(out: &mut Vec<u8>, which: u8)
    requires
        which < 6,
    ensures
        final(out)@ == old(out)@ + spec_bstr(
            if which == 0 {
                key_length()
            } else if which == 1 {
                key_name()
            } else if which == 2 {
                key_piece_length()
            } else if which == 3 {
                key_pieces()
            } else if which == 4 {
                key_files()
            } else {
                key_path()
            },
        ),
{
    let mut k: Vec<u8> = Vec::new();
    if which == 0 {
        k.push(108);
        k.push(101);
        k.push(110);
        k.push(103);
        k.push(116);
        k.push(104);
        assert(k@ =~= key_length());
    } else if which == 1 {
        k.push(110);
        k.push(97);
        k.push(109);
        k.push(101);
        assert(k@ =~= key_name());
    } else if which == 2 {
        k.push(112);
        k.push(105);
        k.push(101);
        k.push(99);
        k.push(101);
        k.push(32);
        k.push(108);
        k.push(101);
        k.push(110);
        k.push(103);
        k.push(116);
        k.push(104);
        assert(k@ =~= key_piece_length());
    } else if which == 3 {
        k.push(112);
        k.push(105);
        k.push(101);
        k.push(99);
        k.push(101);
        k.push(115);
        assert(k@ =~= key_pieces());
    } else if which == 4 {
        k.push(102);
        k.push(105);
        k.push(108);
        k.push(101);
        k.push(115);
        assert(k@ =~= key_files());
    } else {
        k.push(112);
        k.push(97);
        k.push(116);
        k.push(104);
        assert(k@ =~= key_path());
    }
    encode_bstr(out, k.as_slice());
}

/// Renders the `info` dictionary byte-exactly.
pub fn encode_info(info: &Info) -> (out: Vec<u8>)
    ensures
        out@ == spec_bencode_info(*info),
{
    let mut out: Vec<u8> = Vec::new();
    out.push(100);
    match &info.keys {
        Keys::SingleFile { length } => {
            push_key(&mut out, 0);
            encode_bint(&mut out, *length);
        },
        Keys::MutilFile { files } => {
            push_key(&mut out, 4);
            out.push(108);
            let n: usize = files.len();
            let mut i: usize = 0;
            let ghost header: Seq<u8> = out@;
            while i < n
                invariant
                    i <= n,
                    n == files@.len(),
                    out@ == header + spec_files_list(files@, i as int),
                decreases n - i,
            {
                encode_file(&mut out, &files[i]);
                i = i + 1;
            }
            out.push(101);
        },
    }
    push_key(&mut out, 1);
    encode_bstr(&mut out, info.name.as_str().as_bytes());
    push_key(&mut out, 2);
    encode_bint(&mut out, info.plength);
    push_key(&mut out, 3);
    let pieces_bytes: Vec<u8> = info.pieces.concat();
    encode_bstr(&mut out, pieces_bytes.as_slice());
    out.push(101);
    assert(out@ =~= spec_bencode_info(*info));
    out
}

fn encode_file(out: &mut Vec<u8>, f: &File)
    ensures
        final(out)@ == old(out)@ + spec_bencode_file(*f),
{
    out.push(100);
    push_key(out, 0);
    encode_bint(out, f.length);
    push_key(out, 5);
    out.push(108);
    let n: usize = f.path.len();
    let mut i: usize = 0;
    let ghost header: Seq<u8> = out@;
    while i < n
        invariant
            i <= n,
            n == f.path@.len(),
            out@ == header + spec_path_list(f.path@, i as int),
        decreases n - i,
    {
        encode_bstr(out, f.path[i].as_str().as_bytes());
        i = i + 1;
    }
    out.push(101);
    out.push(101);
    assert(out@ =~= old(out)@ + spec_bencode_file(*f));
}

// ---------------------------------------------------------------------
// Round trip of the single-file info dictionary
// ---------------------------------------------------------------------

/// The bencoding of a single-file `info` dictionary over its raw
/// field values: the file length, the name's bytes, the piece length,
/// and the `pieces` byte string.
pub open spec fn spec_info_bytes(length: int, name: Seq<u8>, plength: int, pieces: Seq<u8>) -> Seq<
    u8,
> {
    seq![100u8] + spec_bstr(key_length()) + spec_bint(length) + spec_bstr(key_name()) + spec_bstr(
        name,
    ) + spec_bstr(key_piece_length()) + spec_bint(plength) + spec_bstr(key_pieces()) + spec_bstr(
        pieces,
    ) + seq![101u8]
}

/// What the encoder emits for a single-file descriptor is exactly the
/// raw-field bencoding.
pub proof fn lemma_bencode_info_single(info: Info, length: usize)
    requires
        info.keys == (Keys::SingleFile { length }),
    ensures
        spec_bencode_info(info) == spec_info_bytes(
            length as int,
            encode_utf8(info.name@),
            info.plength as int,
            spec_hashes_bytes(info.pieces.0@),
        ),
{
    assert(spec_bencode_info(info) =~= spec_info_bytes(
        length as int,
        encode_utf8(info.name@),
        info.plength as int,
        spec_hashes_bytes(info.pieces.0@),
    ));
}

/// The strict parse of a whole single-file `info` dictionary: the four
/// fixed keys in bencode's sorted order, nothing before, between or
/// after them but their values, and nothing after the closing `e`.
pub open spec fn spec_parse_info(b: Seq<u8>) -> Option<(int, Seq<u8>, int, Seq<u8>)> {
    match spec_expect(b, seq![100u8] + spec_bstr(key_length())) {
        None => None,
        Some(r) => match spec_parse_bint(r) {
            None => None,
            Some((length, r)) => match spec_expect(r, spec_bstr(key_name())) {
                None => None,
                Some(r) => match spec_parse_bstr(r) {
                    None => None,
                    Some((name, r)) => match spec_expect(r, spec_bstr(key_piece_length())) {
                        None => None,
                        Some(r) => match spec_parse_bint(r) {
                            None => None,
                            Some((plength, r)) => match spec_expect(r, spec_bstr(key_pieces())) {
                                None => None,
                                Some(r) => match spec_parse_bstr(r) {
                                    None => None,
                                    Some((pieces, r)) => match spec_expect(r, seq![101u8]) {
                                        None => None,
                                        Some(r) => if r.len() == 0 {
                                            Some((length, name, plength, pieces))
                                        } else {
                                            None
                                        },
                                    },
                                },
                            },
                        },
                    },
                },
            },
        },
    }
}

/// Encoding a single-file `info` dictionary and decoding the bytes
/// returns the fields unchanged.
pub proof fn lemma_info_encode_then_decode(length: int, name: Seq<u8>, plength: int, pieces: Seq<
    u8,
>)
    requires
        length >= 0,
        plength >= 0,
    ensures
        spec_parse_info(spec_info_bytes(length, name, plength, pieces)) == Some(
            (length, name, plength, pieces),
        ),
{
    let b = spec_info_bytes(length, name, plength, pieces);
    let tok = seq![100u8] + spec_bstr(key_length());
    let r1 = spec_bint(length) + (spec_bstr(key_name()) + (spec_bstr(name) + (spec_bstr(
        key_piece_length(),
    ) + (spec_bint(plength) + (spec_bstr(key_pieces()) + (spec_bstr(pieces) + seq![101u8]))))));
    assert(b =~= tok + r1);
    lemma_expect_of(tok, r1);
    lemma_parse_bint_of(
        length,
        spec_bstr(key_name()) + (spec_bstr(name) + (spec_bstr(key_piece_length()) + (spec_bint(
            plength,
        ) + (spec_bstr(key_pieces()) + (spec_bstr(pieces) + seq![101u8]))))),
    );
    lemma_expect_of(
        spec_bstr(key_name()),
        spec_bstr(name) + (spec_bstr(key_piece_length()) + (spec_bint(plength) + (spec_bstr(
            key_pieces(),
        ) + (spec_bstr(pieces) + seq![101u8])))),
    );
    lemma_parse_bstr_of(
        name,
        spec_bstr(key_piece_length()) + (spec_bint(plength) + (spec_bstr(key_pieces()) + (
        spec_bstr(pieces) + seq![101u8]))),
    );
    lemma_expect_of(
        spec_bstr(key_piece_length()),
        spec_bint(plength) + (spec_bstr(key_pieces()) + (spec_bstr(pieces) + seq![101u8])),
    );
    lemma_parse_bint_of(plength, spec_bstr(key_pieces()) + (spec_bstr(pieces) + seq![101u8]));
    lemma_expect_of(spec_bstr(key_pieces()), spec_bstr(pieces) + seq![101u8]);
    lemma_parse_bstr_of(pieces, seq![101u8]);
    lemma_expect_of(seq![101u8], Seq::empty());
    assert(seq![101u8] =~= seq![101u8] + Seq::<u8>::empty());
}

/// Decoding a single-file `info` dictionary and re-encoding what it
/// yielded reproduces the decoded bytes exactly: the info-hash a
/// re-encoder computes is the hash of the bytes that were read.
pub proof fn lemma_info_decode_then_encode(
    b: Seq<u8>,
    length: int,
    name: Seq<u8>,
    plength: int,
    pieces: Seq<u8>,
)
    requires
        spec_parse_info(b) == Some((length, name, plength, pieces)),
    ensures
        b == spec_info_bytes(length, name, plength, pieces),
        length >= 0,
        plength >= 0,
{
    let tok = seq![100u8] + spec_bstr(key_length());
    let r1 = spec_expect(b, tok).unwrap();
    lemma_expect_strict(b, tok, r1);
    let (_, r2) = spec_parse_bint(r1).unwrap();
    lemma_parse_bint_strict(r1, length, r2);
    let r3 = spec_expect(r2, spec_bstr(key_name())).unwrap();
    lemma_expect_strict(r2, spec_bstr(key_name()), r3);
    let (_, r4) = spec_parse_bstr(r3).unwrap();
    lemma_parse_bstr_strict(r3, name, r4);
    let r5 = spec_expect(r4, spec_bstr(key_piece_length())).unwrap();
    lemma_expect_strict(r4, spec_bstr(key_piece_length()), r5);
    let (_, r6) = spec_parse_bint(r5).unwrap();
    lemma_parse_bint_strict(r5, plength, r6);
    let r7 = spec_expect(r6, spec_bstr(key_pieces())).unwrap();
    lemma_expect_strict(r6, spec_bstr(key_pieces()), r7);
    let (_, r8) = spec_parse_bstr(r7).unwrap();
    lemma_parse_bstr_strict(r7, pieces, r8);
    let r9 = spec_expect(r8, seq![101u8]).unwrap();
    lemma_expect_strict(r8, seq![101u8], r9);
    assert(r9 =~= Seq::<u8>::empty());
    assert(b =~= spec_info_bytes(length, name, plength, pieces));
}

impl Torrent {
    /// The torrent's identity: the SHA-1 of the bencoded `info`
    /// dictionary.
    pub fn info_hash(&self) -> (r: [u8; 20])
        ensures
            r@ == sha1_of(spec_bencode_info(self.info)),
    {
        let info_bytes: Vec<u8> = encode_info(&self.info);
        sha1_digest(info_bytes.as_slice())
    }

    /// The payload length the descriptor announces.
    pub fn length(&self) -> (n: usize)
        requires
            spec_length(*self) <= usize::MAX,
        ensures
            n == spec_length(*self),
    {
        match &self.info.keys {
            Keys::SingleFile { length } => *length,
            Keys::MutilFile { files } => {
                let n: usize = files.len();
                let mut sum: usize = 0;
                let mut i: usize = 0;
                while i < n
                    invariant
                        i <= n,
                        n == files@.len(),
                        sum == spec_file_lengths(files@, i as int),
                        spec_file_lengths(files@, n as int) <= usize::MAX,
                    decreases n - i,
                {
                    proof {
                        lemma_file_lengths_mono(files@, i + 1, n as int);
                    }
                    sum = sum + files[i].length;
                    i = i + 1;
                }
                sum
            },
        }
    }
}

} // verus!
