//! The peer wire protocol: message tags, the fixed 68-byte handshake,
//! the length-prefixed message framer, block requests, piece payloads,
//! per-peer bitfields, and the per-peer session state machine.

use vstd::prelude::*;

use crate::endian::{
    lemma_u32_from_to_be_bytes, spec_u32_from_be_bytes, spec_u32_to_be_bytes, push_u32_be,
    u32_from_be,
};
use crate::{bytes_eq, push_bytes, TorrentError, MAX_FRAME};

verus! {

/// The tag byte of each non-keep-alive peer message.
#[derive(Debug, Clone, Copy, PartialEq, Eq, Structural)]
pub enum MessageTag {
    Choke,
    Unchoke,
    Interested,
    NotInterested,
    Have,
    Bitfield,
    Request,
    Piece,
    Cancel,
}

/// The byte that encodes a tag on the wire.
pub open spec fn spec_tag_byte(t: MessageTag) -> u8 {
    match t {
        MessageTag::Choke => 0,
        MessageTag::Unchoke => 1,
        MessageTag::Interested => 2,
        MessageTag::NotInterested => 3,
        MessageTag::Have => 4,
        MessageTag::Bitfield => 5,
        MessageTag::Request => 6,
        MessageTag::Piece => 7,
        MessageTag::Cancel => 8,
    }
}

/// The tag a byte decodes to; bytes past 8 are no tag.
pub open spec fn spec_tag_from_byte(b: u8) -> Option<MessageTag> {
    if b == 0 {
        Some(MessageTag::Choke)
    } else if b == 1 {
        Some(MessageTag::Unchoke)
    } else if b == 2 {
        Some(MessageTag::Interested)
    } else if b == 3 {
        Some(MessageTag::NotInterested)
    } else if b == 4 {
        Some(MessageTag::Have)
    } else if b == 5 {
        Some(MessageTag::Bitfield)
    } else if b == 6 {
        Some(MessageTag::Request)
    } else if b == 7 {
        Some(MessageTag::Piece)
    } else if b == 8 {
        Some(MessageTag::Cancel)
    } else {
        None
    }
}

impl MessageTag {
    /// The wire byte of this tag.
    pub fn byte(self) -> (b: u8)
        ensures
            b == spec_tag_byte(self),
    {
        match self {
            MessageTag::Choke => 0,
            MessageTag::Unchoke => 1,
            MessageTag::Interested => 2,
            MessageTag::NotInterested => 3,
            MessageTag::Have => 4,
            MessageTag::Bitfield => 5,
            MessageTag::Request => 6,
            MessageTag::Piece => 7,
            MessageTag::Cancel => 8,
        }
    }

    /// Decodes a wire byte; `None` on an unknown tag.
    pub fn from_byte(b: u8) -> (t: Option<MessageTag>)
        ensures
            t == spec_tag_from_byte(b),
    {
        if b == 0 {
            Some(MessageTag::Choke)
        } else if b == 1 {
            Some(MessageTag::Unchoke)
        } else if b == 2 {
            Some(MessageTag::Interested)
        } else if b == 3 {
            Some(MessageTag::NotInterested)
        } else if b == 4 {
            Some(MessageTag::Have)
        } else if b == 5 {
            Some(MessageTag::Bitfield)
        } else if b == 6 {
            Some(MessageTag::Request)
        } else if b == 7 {
            Some(MessageTag::Piece)
        } else if b == 8 {
            Some(MessageTag::Cancel)
        } else {
            None
        }
    }
}

/// A tag's wire byte decodes back to the tag, and a byte that decodes
/// decodes to the one tag that encodes to it.
pub proof fn lemma_tag_byte_roundtrip(t: MessageTag, b: u8)
    ensures
        spec_tag_from_byte(spec_tag_byte(t)) == Some(t),
        spec_tag_from_byte(b) == Some(t) ==> spec_tag_byte(t) == b,
{
}

/// One post-handshake peer message: a tag and its payload bytes.
#[derive(Debug, Clone)]
pub struct Message {
    pub tag: MessageTag,
    pub payload: Vec<u8>,
}

// ---------------------------------------------------------------------
// Handshake
// ---------------------------------------------------------------------

/// The ASCII bytes of "BitTorrent protocol".
pub open spec fn spec_protocol_name() -> Seq<u8> {
    seq![
        66u8, 105u8, 116u8, 84u8, 111u8, 114u8, 114u8, 101u8, 110u8, 116u8, 32u8, 112u8, 114u8,
        111u8, 116u8, 111u8, 99u8, 111u8, 108u8,
    ]
}

/// Builds the 19 ASCII bytes of "BitTorrent protocol".
pub fn protocol_name() -> (r: Vec<u8>)
    ensures
        r@ == spec_protocol_name(),
{
    let mut v: Vec<u8> = Vec::new();
    v.push(66);
    v.push(105);
    v.push(116);
    v.push(84);
    v.push(111);
    v.push(114);
    v.push(114);
    v.push(101);
    v.push(110);
    v.push(116);
    v.push(32);
    v.push(112);
    v.push(114);
    v.push(111);
    v.push(116);
    v.push(111);
    v.push(99);
    v.push(111);
    v.push(108);
    assert(v@ =~= spec_protocol_name());
    v
}

/// The fixed 68-byte frame that opens a peer session.
pub struct Handshake {
    pub length: u8,
    pub bittorrent: Vec<u8>,
    pub reserved: Vec<u8>,
    pub info_hash: [u8; 20],
    pub peer_id: [u8; 20],
}

/// The 68 wire bytes of a handshake.
pub open spec fn spec_handshake_bytes(h: Handshake) -> Seq<u8> {
    seq![h.length] + h.bittorrent@ + h.reserved@ + h.info_hash@ + h.peer_id@
}

impl Handshake {
    /// A handshake this client would accept: correct length byte and
    /// protocol name, and the fixed field widths.
    pub open spec fn wf(self) -> bool {
        &&& self.length == 19
        &&& self.bittorrent@ == spec_protocol_name()
        &&& self.reserved@.len() == 8
    }

    /// A fresh outgoing handshake for `info_hash`, identifying this
    /// client as `peer_id`; reserved bytes all zero.
    pub fn new(info_hash: [u8; 20], peer_id: [u8; 20]) -> (h: Handshake)
        ensures
            h.wf(),
            h.info_hash == info_hash,
            h.peer_id == peer_id,
            h.reserved@ =~= Seq::new(8, |i: int| 0u8),
    {
        let mut reserved: Vec<u8> = Vec::new();
        let mut k: usize = 0;
        while k < 8
            invariant
                k <= 8,
                reserved@.len() == k,
                forall|i: int| 0 <= i < k ==> reserved@[i] == 0u8,
            decreases 8 - k,
        {
            reserved.push(0);
            k = k + 1;
        }
        assert(reserved@ =~= Seq::new(8, |i: int| 0u8));
        Handshake { length: 19, bittorrent: protocol_name(), reserved, info_hash, peer_id }
    }

    /// The 68 bytes this handshake puts on the wire.
    pub fn to_bytes(&self) -> (out: Vec<u8>)
        requires
            self.wf(),
        ensures
            out@ == spec_handshake_bytes(*self),
            out@.len() == 68,
    {
        let mut out: Vec<u8> = Vec::new();
        out.push(self.length);
        push_bytes(&mut out, self.bittorrent.as_slice());
        push_bytes(&mut out, self.reserved.as_slice());
        push_bytes(&mut out, self.info_hash.as_slice());
        push_bytes(&mut out, self.peer_id.as_slice());
        assert(out@ =~= spec_handshake_bytes(*self));
        out
    }

    /// Parses and validates a received handshake. Succeeds exactly on
    /// a 68-byte frame whose length byte is 19 and whose protocol name
    /// matches; anything else aborts the session.
    pub fn parse(data: &[u8]) -> (r: Result<Handshake, TorrentError>)
        ensures
            match r {
                Ok(h) => {
                    &&& data@.len() == 68
                    &&& data@[0] == 19
                    &&& data@.subrange(1, 20) == spec_protocol_name()
                    &&& h.wf()
                    &&& h.length == data@[0]
                    &&& h.bittorrent@ == data@.subrange(1, 20)
                    &&& h.reserved@ == data@.subrange(20, 28)
                    &&& h.info_hash@ == data@.subrange(28, 48)
                    &&& h.peer_id@ == data@.subrange(48, 68)
                },
                Err(e) => {
                    &&& e == TorrentError::Handshake
                    &&& (data@.len() != 68 || data@[0] != 19 || data@.subrange(1, 20)
                        != spec_protocol_name())
                },
            },
    {
        if data.len() != 68 {
            return Err(TorrentError::Handshake);
        }
        if data[0] != 19 {
            return Err(TorrentError::Handshake);
        }
        let name = protocol_name();
        let mut i: usize = 0;
        while i < 19
            invariant
                i <= 19,
                data@.len() == 68,
                name@ == spec_protocol_name(),
                forall|k: int| 0 <= k < i ==> data@[1 + k] == name@[k],
            decreases 19 - i,
        {
            if data[1 + i] != name[i] {
                assert(data@.subrange(1, 20)[i as int] != spec_protocol_name()[i as int]);
                return Err(TorrentError::Handshake);
            }
            i = i + 1;
        }
        assert(data@.subrange(1, 20) =~= spec_protocol_name());
        let mut reserved: Vec<u8> = Vec::new();
        let mut k: usize = 20;
        while k < 28
            invariant
                20 <= k <= 28,
                data@.len() == 68,
                reserved@ == data@.subrange(20, k as int),
            decreases 28 - k,
        {
            reserved.push(data[k]);
            assert(reserved@ =~= data@.subrange(20, k + 1));
            k = k + 1;
        }
        let info_hash: [u8; 20] = crate::copy_to_array20(vstd::slice::slice_subrange(data, 28, 48));
        let peer_id: [u8; 20] = crate::copy_to_array20(vstd::slice::slice_subrange(data, 48, 68));
        Ok(Handshake { length: data[0], bittorrent: name, reserved, info_hash, peer_id })
    }
}

/// A validated handshake's bytes parse back to the same handshake.
pub proof fn lemma_handshake_roundtrip(h: Handshake)
    requires
        h.wf(),
        h.reserved@.len() == 8,
    ensures
        spec_handshake_bytes(h).len() == 68,
        spec_handshake_bytes(h)[0] == 19,
        spec_handshake_bytes(h).subrange(1, 20) == spec_protocol_name(),
        spec_handshake_bytes(h).subrange(20, 28) == h.reserved@,
        spec_handshake_bytes(h).subrange(28, 48) == h.info_hash@,
        spec_handshake_bytes(h).subrange(48, 68) == h.peer_id@,
{
    let b = spec_handshake_bytes(h);
    assert(b.subrange(1, 20) =~= h.bittorrent@);
    assert(b.subrange(20, 28) =~= h.reserved@);
    assert(b.subrange(28, 48) =~= h.info_hash@);
    assert(b.subrange(48, 68) =~= h.peer_id@);
}

// ---------------------------------------------------------------------
// Request
// ---------------------------------------------------------------------

/// A block request: piece index, byte offset inside the piece, and
/// block length, each a 32-bit big-endian field on the wire.
pub struct Request {
    pub index: u32,
    pub begin: u32,
    pub length: u32,
}

/// The 12 payload bytes of a request.
pub open spec fn spec_request_bytes(index: u32, begin: u32, length: u32) -> Seq<u8> {
    spec_u32_to_be_bytes(index) + spec_u32_to_be_bytes(begin) + spec_u32_to_be_bytes(length)
}

impl Request {
    /// A request for `length` bytes at offset `begin` of piece `index`.
    pub fn new(index: u32, begin: u32, length: u32) -> (r: Request)
        ensures
            r.index == index,
            r.begin == begin,
            r.length == length,
    {
        Request { index, begin, length }
    }

    pub fn index(&self) -> (x: u32)
        ensures
            x == self.index,
    {
        self.index
    }

    pub fn begin(&self) -> (x: u32)
        ensures
            x == self.begin,
    {
        self.begin
    }

    pub fn length(&self) -> (x: u32)
        ensures
            x == self.length,
    {
        self.length
    }

    /// The request's payload bytes, big-endian field by field.
    pub fn to_bytes(&self) -> (out: Vec<u8>)
        ensures
            out@ == spec_request_bytes(self.index, self.begin, self.length),
            out@.len() == 12,
    {
        let mut out: Vec<u8> = Vec::new();
        push_u32_be(&mut out, self.index);
        push_u32_be(&mut out, self.begin);
        push_u32_be(&mut out, self.length);
        assert(out@ =~= spec_request_bytes(self.index, self.begin, self.length));
        out
    }
}

// ---------------------------------------------------------------------
// Piece message payload
// ---------------------------------------------------------------------

/// The decoded payload of a `Piece` message: which piece, at which
/// byte offset, and the block bytes themselves.
pub struct Piece {
    pub index: u32,
    pub begin: u32,
    pub block: Vec<u8>,
}

impl Piece {
    /// The piece the block belongs to.
    pub fn index(&self) -> (x: u32)
        ensures
            x == self.index,
    {
        self.index
    }

    /// The block's byte offset inside the piece.
    pub fn begin(&self) -> (x: u32)
        ensures
            x == self.begin,
    {
        self.begin
    }

    /// The block bytes.
    pub fn block(&self) -> (b: &Vec<u8>)
        ensures
            b@ == self.block@,
    {
        &self.block
    }

    /// Takes the block bytes out of the message.
    pub fn into_block(self) -> (b: Vec<u8>)
        ensures
            b@ == self.block@,
    {
        self.block
    }

    /// Splits a `Piece` payload into its fields: two big-endian words
    /// and the trailing block. `None` when the payload is too short to
    /// hold the fixed fields.
    pub fn from_bytes(data: &[u8]) -> (r: Option<Piece>)
        ensures
            match r {
                Some(p) => {
                    &&& data@.len() >= 8
                    &&& p.index == spec_u32_from_be_bytes(data@.subrange(0, 4))
                    &&& p.begin == spec_u32_from_be_bytes(data@.subrange(4, 8))
                    &&& p.block@ == data@.skip(8)
                },
                None => data@.len() < 8,
            },
    {
        if data.len() < 8 {
            return None;
        }
        let index: u32 = u32_from_be(data[0], data[1], data[2], data[3]);
        let begin: u32 = u32_from_be(data[4], data[5], data[6], data[7]);
        assert(seq![data@[0], data@[1], data@[2], data@[3]] =~= data@.subrange(0, 4));
        assert(seq![data@[4], data@[5], data@[6], data@[7]] =~= data@.subrange(4, 8));
        let mut block: Vec<u8> = Vec::new();
        let n: usize = data.len();
        let mut i: usize = 8;
        while i < n
            invariant
                8 <= i <= n,
                n == data@.len(),
                block@ == data@.subrange(8, i as int),
            decreases n - i,
        {
            block.push(data[i]);
            assert(block@ =~= data@.subrange(8, i + 1));
            i = i + 1;
        }
        assert(block@ =~= data@.skip(8));
        Some(Piece { index, begin, block })
    }
}

// ---------------------------------------------------------------------
// Message framer
// ---------------------------------------------------------------------

#[verifier::external_type_specification]
#[verifier::external_body]
pub struct ExBytesMut(bytes::BytesMut);

/// The bytes a `bytes::BytesMut` buffer holds, front to back.
pub uninterp spec fn buf_contents(b: bytes::BytesMut) -> Seq<u8>;

/// Relies on BytesMut::len: how many bytes the buffer holds.
#[verifier::external_body]
fn buf_len(b: &bytes::BytesMut) -> (n: usize)
    ensures
        n == buf_contents(*b).len(),
{
    b.len()
}

/// Relies on indexing the `[u8]` view of BytesMut: the byte at `i`.
#[verifier::external_body]
fn buf_byte(b: &bytes::BytesMut, i: usize) -> (x: u8)
    requires
        i < buf_contents(*b).len(),
    ensures
        x == buf_contents(*b)[i as int],
{
    b[i]
}

/// Relies on Buf::advance for BytesMut: drops the first `cnt` bytes.
#[verifier::external_body]
fn buf_advance(b: &mut bytes::BytesMut, cnt: usize)
    requires
        cnt <= buf_contents(*old(b)).len(),
    ensures
        buf_contents(*final(b)) == buf_contents(*old(b)).skip(cnt as int),
{
    bytes::Buf::advance(b, cnt)
}

/// Relies on slicing the `[u8]` view of BytesMut and `to_vec`: copies
/// the bytes from `start` up to `end` out of the buffer.
#[verifier::external_body]
fn buf_slice_to_vec(b: &bytes::BytesMut, start: usize, end: usize) -> (v: Vec<u8>)
    requires
        start <= end <= buf_contents(*b).len(),
    ensures
        v@ == buf_contents(*b).subrange(start as int, end as int),
{
    b[start..end].to_vec()
}

/// Relies on BytesMut::extend_from_slice: appends the bytes at the
/// back, growing the buffer.
#[verifier::external_body]
fn buf_extend(b: &mut bytes::BytesMut, s: &[u8])
    requires
        buf_contents(*old(b)).len() + s@.len() <= usize::MAX,
    ensures
        buf_contents(*final(b)) == buf_contents(*old(b)) + s@,
{
    b.extend_from_slice(s)
}

/// What one decoding step yields: the buffer does not yet hold a whole
/// frame, the frame at its front breaks the protocol, or a message.
pub enum FrameStep {
    NeedMore,
    Bad,
    Frame { tag: MessageTag, payload: Seq<u8> },
}

/// Decodes the frame at the front of `buf`: the step taken and the
/// buffer that remains. Keep-alive frames (length zero) are consumed
/// silently; a frame longer than `MAX_FRAME` or with an unknown tag is
/// a protocol error, and nothing past the offending frame's header is
/// consumed.
pub open spec fn spec_decode(buf: Seq<u8>) -> (FrameStep, Seq<u8>)
    decreases buf.len(),
{
    if buf.len() < 4 {
        (FrameStep::NeedMore, buf)
    } else {
        let n = spec_u32_from_be_bytes(buf.subrange(0, 4)) as int;
        if n == 0 {
            spec_decode(buf.skip(4))
        } else if n > MAX_FRAME {
            (FrameStep::Bad, buf)
        } else if buf.len() < 4 + n {
            (FrameStep::NeedMore, buf)
        } else {
            match spec_tag_from_byte(buf[4]) {
                None => (FrameStep::Bad, buf),
                Some(tag) => (
                    FrameStep::Frame { tag, payload: buf.subrange(5, 4 + n) },
                    buf.skip(4 + n),
                ),
            }
        }
    }
}

/// The wire bytes of one message frame: big-endian length (tag byte
/// included), the tag byte, the payload.
pub open spec fn spec_frame_bytes(tag: MessageTag, payload: Seq<u8>) -> Seq<u8> {
    spec_u32_to_be_bytes((payload.len() + 1) as u32) + seq![spec_tag_byte(tag)] + payload
}

/// Length-prefixed framing of peer messages over a byte stream.
pub struct MessageFramer;

impl MessageFramer {
    /// Decodes the frame at the front of `src`, consuming it (and any
    /// keep-alives before it). `Ok(None)` when the buffer does not yet
    /// hold a whole frame.
    pub fn decode(&mut self, src: &mut bytes::BytesMut) -> (r: Result<
        Option<Message>,
        TorrentError,
    >)
        ensures
            buf_contents(*final(src)) == spec_decode(buf_contents(*old(src))).1,
            match r {
                Ok(Some(m)) => spec_decode(buf_contents(*old(src))).0 == (FrameStep::Frame {
                    tag: m.tag,
                    payload: m.payload@,
                }),
                Ok(None) => spec_decode(buf_contents(*old(src))).0 is NeedMore,
                Err(e) => spec_decode(buf_contents(*old(src))).0 is Bad && e
                    == TorrentError::Protocol,
            },
        decreases buf_contents(*src).len(),
    {
        let len: usize = buf_len(src);
        if len < 4 {
            return Ok(None);
        }
        let b0: u8 = buf_byte(src, 0);
        let b1: u8 = buf_byte(src, 1);
        let b2: u8 = buf_byte(src, 2);
        let b3: u8 = buf_byte(src, 3);
        let length32: u32 = u32_from_be(b0, b1, b2, b3);
        proof {
            assert(seq![b0, b1, b2, b3] =~= buf_contents(*old(src)).subrange(0, 4));
        }
        if length32 == 0 {
            buf_advance(src, 4);
            return self.decode(src);
        }
        let length: usize = length32 as usize;
        if length > MAX_FRAME {
            return Err(TorrentError::Protocol);
        }
        if len < 4 + length {
            return Ok(None);
        }
        let tag_byte: u8 = buf_byte(src, 4);
        let tag: MessageTag = match MessageTag::from_byte(tag_byte) {
            Some(t) => t,
            None => {
                return Err(TorrentError::Protocol);
            },
        };
        let payload: Vec<u8> = buf_slice_to_vec(src, 5, 4 + length);
        buf_advance(src, 4 + length);
        Ok(Some(Message { tag, payload }))
    }

    /// Encodes `item` onto the back of `dst` as one frame. Rejects a
    /// payload that would not fit in an accepted frame, leaving `dst`
    /// alone.
    pub fn encode(&mut self, item: Message, dst: &mut bytes::BytesMut) -> (r: Result<
        (),
        TorrentError,
    >)
        requires
            buf_contents(*old(dst)).len() + item.payload@.len() + 5 <= usize::MAX,
        ensures
            item.payload@.len() + 1 <= MAX_FRAME ==> r is Ok && buf_contents(*final(dst))
                == buf_contents(*old(dst)) + spec_frame_bytes(item.tag, item.payload@),
            item.payload@.len() + 1 > MAX_FRAME ==> r == Result::<(), TorrentError>::Err(
                TorrentError::Protocol,
            ) && buf_contents(*final(dst)) == buf_contents(*old(dst)),
    {
        if item.payload.len() > MAX_FRAME - 1 {
            return Err(TorrentError::Protocol);
        }
        let mut frame: Vec<u8> = Vec::new();
        push_u32_be(&mut frame, (item.payload.len() + 1) as u32);
        frame.push(item.tag.byte());
        push_bytes(&mut frame, item.payload.as_slice());
        assert(frame@ =~= spec_frame_bytes(item.tag, item.payload@));
        buf_extend(dst, frame.as_slice());
        Ok(())
    }
}

/// An encoded frame decodes back to its tag and payload, leaving the
/// bytes behind it untouched.
pub proof fn lemma_frame_roundtrip(tag: MessageTag, payload: Seq<u8>, rest: Seq<u8>)
    requires
        payload.len() + 1 <= MAX_FRAME,
    ensures
        spec_decode(spec_frame_bytes(tag, payload) + rest) == (
            FrameStep::Frame { tag, payload },
            rest,
        ),
{
    let n: u32 = (payload.len() + 1) as u32;
    lemma_u32_from_to_be_bytes(n);
    let buf = spec_frame_bytes(tag, payload) + rest;
    assert(buf.subrange(0, 4) =~= spec_u32_to_be_bytes(n));
    assert(buf[4] == spec_tag_byte(tag));
    lemma_tag_byte_roundtrip(tag, 0);
    assert(buf.subrange(5, 4 + n as int) =~= payload);
    assert(buf.skip(4 + n as int) =~= rest);
}

/// A keep-alive frame (four zero bytes) yields no message and leaves
/// decoding exactly where it would be without it.
pub proof fn lemma_keepalive_yields_nothing(rest: Seq<u8>)
    ensures
        spec_decode(seq![0u8, 0u8, 0u8, 0u8] + rest) == spec_decode(rest),
{
    let buf = seq![0u8, 0u8, 0u8, 0u8] + rest;
    assert(buf.subrange(0, 4) =~= seq![0u8, 0u8, 0u8, 0u8]);
    assert(((0u8 as u32) << 24) | ((0u8 as u32) << 16) | ((0u8 as u32) << 8) | (0u8 as u32) == 0)
        by (bit_vector);
    assert(buf.skip(4) =~= rest);
}

/// A frame announcing a length over `MAX_FRAME` is rejected outright,
/// however little of it has arrived beyond the length itself.
pub proof fn lemma_oversize_frame_rejected(buf: Seq<u8>)
    requires
        buf.len() >= 4,
        spec_u32_from_be_bytes(buf.subrange(0, 4)) > MAX_FRAME,
    ensures
        spec_decode(buf).0 is Bad,
        spec_decode(buf).1 == buf,
{
}

// ---------------------------------------------------------------------
// Bitfield
// ---------------------------------------------------------------------

/// A peer's piece bitmap: bit `i` of byte `i/8`, most significant bit
/// first, says whether the peer has piece `i`.
pub struct Bitfield {
    payload: Vec<u8>,
}

/// Whether bit `i` is set in the bitmap `payload`; bits past the end
/// are clear.
pub open spec fn spec_has_piece(payload: Seq<u8>, i: int) -> bool {
    &&& 0 <= i
    &&& i / 8 < payload.len()
    &&& (payload[i / 8] >> ((7 - (i % 8)) as u8)) & 1 == 1
}

impl View for Bitfield {
    type V = Seq<u8>;

    closed spec fn view(&self) -> Seq<u8> {
        self.payload@
    }
}

impl Bitfield {
    /// Wraps the payload of a `Bitfield` message.
    pub fn from_payload(payload: Vec<u8>) -> (bf: Bitfield)
        ensures
            bf@ == payload@,
    {
        Bitfield { payload }
    }

    /// Whether this peer has piece `piece_i`.
    pub fn has_piece(&self, piece_i: usize) -> (r: bool)
        ensures
            r == spec_has_piece(self@, piece_i as int),
    {
        let byte_i: usize = piece_i / 8;
        let bit_i: usize = piece_i % 8;
        if byte_i >= self.payload.len() {
            return false;
        }
        let shift: u8 = (7 - bit_i) as u8;
        (self.payload[byte_i] >> shift) & 1 == 1
    }

    /// Records that the peer now has piece `piece_i` (a `Have`
    /// update), growing the bitmap when the bit lies past its end.
    /// Every other piece's bit is untouched.
    pub fn set_piece(&mut self, piece_i: usize)
        ensures
            spec_has_piece(final(self)@, piece_i as int),
            forall|j: int|
                j != piece_i ==> spec_has_piece(final(self)@, j) == spec_has_piece(old(self)@, j),
    {
        let byte_i: usize = piece_i / 8;
        let bit_i: usize = piece_i % 8;
        let ghost orig: Seq<u8> = self.payload@;
        while self.payload.len() <= byte_i
            invariant
                orig.len() <= self.payload@.len(),
                self.payload@.subrange(0, orig.len() as int) == orig,
                forall|k: int| orig.len() <= k < self.payload@.len() ==> self.payload@[k] == 0u8,
            decreases byte_i + 1 - self.payload.len(),
        {
            self.payload.push(0);
            assert(self.payload@.subrange(0, orig.len() as int) =~= orig);
        }
        let ghost grown: Seq<u8> = self.payload@;
        let shift: u8 = (7 - bit_i) as u8;
        let b: u8 = self.payload[byte_i];
        self.payload[byte_i] = b | (1u8 << shift);
        proof {
            assert(grown.subrange(0, orig.len() as int) =~= orig);
            lemma_set_bit_effect(grown, self.payload@, old(self)@, piece_i as int, b, shift);
        }
    }

    /// Every piece this bitmap advertises, in ascending order.
    pub fn pieces(&self) -> (r: Vec<usize>)
        requires
            self@.len() * 8 <= usize::MAX,
        ensures
            forall|k: int| 0 <= k < r@.len() ==> spec_has_piece(self@, r@[k] as int),
            forall|k1: int, k2: int| 0 <= k1 < k2 < r@.len() ==> r@[k1] < r@[k2],
            forall|j: int| #[trigger] spec_has_piece(self@, j) ==> r@.contains(j as usize),
    {
        let mut r: Vec<usize> = Vec::new();
        let nbits: usize = self.payload.len() * 8;
        let mut i: usize = 0;
        while i < nbits
            invariant
                i <= nbits,
                nbits == self@.len() * 8,
                forall|k: int| 0 <= k < r@.len() ==> spec_has_piece(self@, r@[k] as int),
                forall|k: int| 0 <= k < r@.len() ==> r@[k] < i,
                forall|k1: int, k2: int| 0 <= k1 < k2 < r@.len() ==> r@[k1] < r@[k2],
                forall|j: int| 0 <= j < i && spec_has_piece(self@, j) ==> r@.contains(j as usize),
            decreases nbits - i,
        {
            if self.has_piece(i) {
                let ghost prev: Seq<usize> = r@;
                r.push(i);
                proof {
                    assert forall|v: usize| prev.contains(v) implies r@.contains(v) by {
                        let k = choose|k: int| 0 <= k < prev.len() && prev[k] == v;
                        assert(r@[k] == v);
                    }
                    assert(r@[r@.len() - 1] == i);
                }
            }
            i = i + 1;
        }
        proof {
            assert forall|j: int| #[trigger] spec_has_piece(self@, j) implies r@.contains(
                j as usize) by {
                lemma_bit_index_bound(self@.len() as int, j);
            }
        }
        r
    }
}

// ---------------------------------------------------------------------
// Peer session
// ---------------------------------------------------------------------

/// The per-connection state the wire protocol mutates: whether the
/// remote peer currently chokes us, and which pieces it advertises.
pub struct PeerSession {
    pub choked: bool,
    pub bitfield: Bitfield,
}

/// What handling a message while choked amounts to.
#[derive(Debug, Clone, Copy, PartialEq, Eq, Structural)]
pub enum ChokedStep {
    /// Still waiting to be unchoked.
    StillChoked,
    /// The peer unchoked us; work may be requested.
    Unchoked,
    /// The message broke the protocol; the session must end.
    Rejected(TorrentError),
}

/// How a message received while choked is classified: `Unchoke` frees
/// the session, a well-formed `Have` is folded into the bitfield, a
/// `Bitfield` after the handshake or a malformed `Have` breaks the
/// protocol, and everything else is ignored.
pub open spec fn spec_choked_step(tag: MessageTag, payload: Seq<u8>) -> ChokedStep {
    match tag {
        MessageTag::Unchoke => ChokedStep::Unchoked,
        MessageTag::Have => if payload.len() == 4 {
            ChokedStep::StillChoked
        } else {
            ChokedStep::Rejected(TorrentError::Protocol)
        },
        MessageTag::Bitfield => ChokedStep::Rejected(TorrentError::Protocol),
        _ => ChokedStep::StillChoked,
    }
}

/// What handling a message while a block request is outstanding
/// amounts to.
#[derive(Debug)]
pub enum BlockStep {
    /// The requested block arrived; these are its bytes.
    Delivered(Vec<u8>),
    /// The peer choked us mid-request; the block must be requeued.
    Choked,
    /// A stale or irrelevant message; keep waiting.
    Ignored,
    /// The message broke the protocol; the session must end.
    Rejected(TorrentError),
}

/// The classification `BlockStep` follows.
#[derive(Debug, Clone, Copy, PartialEq, Eq, Structural)]
pub enum BlockStepKind {
    Deliver,
    Choked,
    Ignore,
    Reject,
}

/// How a message received while awaiting a block is classified. A
/// `Piece` message must parse; one for another piece or offset is
/// stale and ignored; one for the requested block must carry exactly
/// the requested size. `Choke` puts the block back in play. `Unchoke`
/// while unchoked and `Bitfield` after the handshake break the
/// protocol. A well-formed `Have` updates the bitfield; the rest is
/// ignored.
pub open spec fn spec_block_step(
    tag: MessageTag,
    payload: Seq<u8>,
    piece_i: u32,
    begin: u32,
    block_size: u32,
) -> BlockStepKind {
    match tag {
        MessageTag::Piece => {
            if payload.len() < 8 {
                BlockStepKind::Reject
            } else if spec_u32_from_be_bytes(payload.subrange(0, 4)) != piece_i
                || spec_u32_from_be_bytes(payload.subrange(4, 8)) != begin {
                BlockStepKind::Ignore
            } else if payload.len() - 8 != block_size {
                BlockStepKind::Reject
            } else {
                BlockStepKind::Deliver
            }
        },
        MessageTag::Choke => BlockStepKind::Choked,
        MessageTag::Unchoke => BlockStepKind::Reject,
        MessageTag::Bitfield => BlockStepKind::Reject,
        MessageTag::Have => if payload.len() == 4 {
            BlockStepKind::Ignore
        } else {
            BlockStepKind::Reject
        },
        _ => BlockStepKind::Ignore,
    }
}

/// Whether handling `msg` folds a `Have` update into the bitfield.
pub open spec fn spec_is_have_update(tag: MessageTag, payload: Seq<u8>) -> bool {
    tag is Have && payload.len() == 4
}

impl PeerSession {
    /// Builds the session from the first post-handshake frame, which
    /// the protocol requires to be a `Bitfield` message. The session
    /// starts choked.
    pub fn establish(bitfield_msg: Message) -> (r: Result<PeerSession, TorrentError>)
        ensures
            match r {
                Ok(s) => {
                    &&& bitfield_msg.tag is Bitfield
                    &&& s.choked
                    &&& s.bitfield@ == bitfield_msg.payload@
                },
                Err(e) => !(bitfield_msg.tag is Bitfield) && e == TorrentError::Protocol,
            },
    {
        match bitfield_msg.tag {
            MessageTag::Bitfield => Ok(
                PeerSession { choked: true, bitfield: Bitfield::from_payload(bitfield_msg.payload) },
            ),
            _ => Err(TorrentError::Protocol),
        }
    }

    /// Whether the remote peer advertises piece `piece_i`.
    pub fn has_piece(&self, piece_i: usize) -> (r: bool)
        ensures
            r == spec_has_piece(self.bitfield@, piece_i as int),
    {
        self.bitfield.has_piece(piece_i)
    }

    /// Handles one message while choked.
    pub fn on_choked_message(&mut self, msg: &Message) -> (step: ChokedStep)
        requires
            old(self).choked,
        ensures
            step == spec_choked_step(msg.tag, msg.payload@),
            final(self).choked == !(msg.tag is Unchoke),
            spec_is_have_update(msg.tag, msg.payload@) ==> {
                let p = spec_u32_from_be_bytes(msg.payload@) as int;
                &&& spec_has_piece(final(self).bitfield@, p)
                &&& forall|j: int|
                    j != p ==> spec_has_piece(final(self).bitfield@, j) == spec_has_piece(
                        old(self).bitfield@,
                        j,
                    )
            },
            !spec_is_have_update(msg.tag, msg.payload@) ==> final(self).bitfield@ == old(
                self,
            ).bitfield@,
    {
        match msg.tag {
            MessageTag::Unchoke => {
                self.choked = false;
                ChokedStep::Unchoked
            },
            MessageTag::Have => {
                if msg.payload.len() == 4 {
                    let p: u32 = u32_from_be(
                        msg.payload[0],
                        msg.payload[1],
                        msg.payload[2],
                        msg.payload[3],
                    );
                    proof {
                        assert(seq![msg.payload@[0], msg.payload@[1], msg.payload@[2], msg.payload@[3]]
                            =~= msg.payload@);
                    }
                    self.bitfield.set_piece(p as usize);
                    ChokedStep::StillChoked
                } else {
                    ChokedStep::Rejected(TorrentError::Protocol)
                }
            },
            MessageTag::Bitfield => ChokedStep::Rejected(TorrentError::Protocol),
            _ => ChokedStep::StillChoked,
        }
    }

    /// Handles one message while a request for block `begin` of piece
    /// `piece_i` (of `block_size` bytes) is outstanding.
    pub fn on_block_message(
        &mut self,
        msg: Message,
        piece_i: u32,
        begin: u32,
        block_size: u32,
    ) -> (step: BlockStep)
        requires
            !old(self).choked,
        ensures
            final(self).choked == (msg.tag is Choke),
            match step {
                BlockStep::Delivered(b) => spec_block_step(
                    msg.tag,
                    msg.payload@,
                    piece_i,
                    begin,
                    block_size,
                ) == BlockStepKind::Deliver && b@ == msg.payload@.skip(8),
                BlockStep::Choked => spec_block_step(
                    msg.tag,
                    msg.payload@,
                    piece_i,
                    begin,
                    block_size,
                ) == BlockStepKind::Choked,
                BlockStep::Ignored => spec_block_step(
                    msg.tag,
                    msg.payload@,
                    piece_i,
                    begin,
                    block_size,
                ) == BlockStepKind::Ignore,
                BlockStep::Rejected(e) => spec_block_step(
                    msg.tag,
                    msg.payload@,
                    piece_i,
                    begin,
                    block_size,
                ) == BlockStepKind::Reject && e == TorrentError::Protocol,
            },
            spec_is_have_update(msg.tag, msg.payload@) ==> {
                let p = spec_u32_from_be_bytes(msg.payload@) as int;
                &&& spec_has_piece(final(self).bitfield@, p)
                &&& forall|j: int|
                    j != p ==> spec_has_piece(final(self).bitfield@, j) == spec_has_piece(
                        old(self).bitfield@,
                        j,
                    )
            },
            !spec_is_have_update(msg.tag, msg.payload@) ==> final(self).bitfield@ == old(
                self,
            ).bitfield@,
    {
        match msg.tag {
            MessageTag::Piece => {
                match Piece::from_bytes(msg.payload.as_slice()) {
                    None => BlockStep::Rejected(TorrentError::Protocol),
                    Some(p) => {
                        if p.index() != piece_i || p.begin() != begin {
                            BlockStep::Ignored
                        } else if p.block().len() != block_size as usize {
                            BlockStep::Rejected(TorrentError::Protocol)
                        } else {
                            BlockStep::Delivered(p.into_block())
                        }
                    },
                }
            },
            MessageTag::Choke => {
                self.choked = true;
                BlockStep::Choked
            },
            MessageTag::Unchoke => BlockStep::Rejected(TorrentError::Protocol),
            MessageTag::Bitfield => BlockStep::Rejected(TorrentError::Protocol),
            MessageTag::Have => {
                if msg.payload.len() == 4 {
                    let p: u32 = u32_from_be(
                        msg.payload[0],
                        msg.payload[1],
                        msg.payload[2],
                        msg.payload[3],
                    );
                    proof {
                        assert(seq![msg.payload@[0], msg.payload@[1], msg.payload@[2], msg.payload@[3]]
                            =~= msg.payload@);
                    }
                    self.bitfield.set_piece(p as usize);
                    BlockStep::Ignored
                } else {
                    BlockStep::Rejected(TorrentError::Protocol)
                }
            },
            _ => BlockStep::Ignored,
        }
    }
}

/// The `Interested` message this client sends before pulling work.
pub fn interested_message() -> (m: Message)
    ensures
        m.tag is Interested,
        m.payload@ =~= Seq::<u8>::empty(),
{
    Message { tag: MessageTag::Interested, payload: Vec::new() }
}

/// The `Request` message for block `block` of the piece `plan`
/// describes: its offset inside the piece and its exact size.
pub fn request_message(plan: &crate::piece::PiecePlan, block: usize) -> (m: Message)
    requires
        plan.wf(),
        block < plan.nblocks,
        plan.piece_i <= u32::MAX,
    ensures
        m.tag is Request,
        m.payload@ == spec_request_bytes(
            plan.piece_i as u32,
            (block * crate::BLOCK_MAX) as u32,
            crate::piece::spec_block_size(plan.piece_size as int, block as int) as u32,
        ),
        block * crate::BLOCK_MAX <= u32::MAX,
{
    let begin: usize = plan.block_begin(block);
    let size: usize = plan.block_size(block);
    let req = Request::new(plan.piece_i as u32, begin as u32, size as u32);
    Message { tag: MessageTag::Request, payload: req.to_bytes() }
}

/// A bit index whose byte lies inside the bitmap is below the bitmap's
/// bit count.
proof fn lemma_bit_index_bound(nbytes: int, j: int)
    requires
        0 <= j,
        j / 8 < nbytes,
    ensures
        j < nbytes * 8,
{
    vstd::arithmetic::div_mod::lemma_fundamental_div_mod(j, 8);
    vstd::arithmetic::div_mod::lemma_mod_bound(j, 8);
    assert(8 * (j / 8) <= 8 * (nbytes - 1)) by (nonlinear_arith)
        requires j / 8 <= nbytes - 1;
    assert(8 * (nbytes - 1) == nbytes * 8 - 8) by (nonlinear_arith);
}

/// Setting one bit in a byte sets that bit and leaves the byte's other
/// bits alone.
proof fn lemma_set_bit_effect(
    grown: Seq<u8>,
    now: Seq<u8>,
    before: Seq<u8>,
    p: int,
    b: u8,
    shift: u8,
)
    requires
        0 <= p,
        grown.len() > p / 8,
        before.len() <= grown.len(),
        forall|k: int| before.len() <= k < grown.len() ==> grown[k] == 0u8,
        grown.subrange(0, before.len() as int) == before,
        b == grown[p / 8],
        shift == (7 - (p % 8)) as u8,
        now == grown.update(p / 8, b | (1u8 << shift)),
    ensures
        spec_has_piece(now, p),
        forall|j: int| j != p ==> spec_has_piece(now, j) == spec_has_piece(before, j),
{
    vstd::arithmetic::div_mod::lemma_mod_bound(p, 8);
    let s: u8 = shift;
    assert(((b | (1u8 << s)) >> s) & 1 == 1) by (bit_vector)
        requires s < 8;
    assert(spec_has_piece(now, p));
    assert forall|j: int| j != p implies spec_has_piece(now, j) == spec_has_piece(before, j) by {
        if 0 <= j {
            vstd::arithmetic::div_mod::lemma_mod_bound(j, 8);
            let s2: u8 = (7 - (j % 8)) as u8;
            if j / 8 == p / 8 {
                vstd::arithmetic::div_mod::lemma_fundamental_div_mod(j, 8);
                vstd::arithmetic::div_mod::lemma_fundamental_div_mod(p, 8);
                assert(s2 != s);
                assert(((b | (1u8 << s)) >> s2) & 1 == (b >> s2) & 1) by (bit_vector)
                    requires s < 8, s2 < 8, s2 != s;
                if p / 8 >= before.len() {
                    assert(b == 0u8);
                    assert((0u8 >> s2) & 1 == 0) by (bit_vector)
                        requires s2 < 8;
                }
            } else {
                if j / 8 < now.len() {
                    assert(now[j / 8] == grown[j / 8]);
                    if j / 8 >= before.len() {
                        assert(grown[j / 8] == 0u8);
                        assert((0u8 >> s2) & 1 == 0) by (bit_vector)
                            requires s2 < 8;
                    }
                }
            }
        }
    }
}

} // verus!
