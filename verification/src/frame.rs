//! The wire protocol: one length-delimited binary frame per message.
//!
//! ```text
//! offset  size  field
//! 0       1     frame type
//! 1       8     stream id, little-endian
//! 9       8     offset, little-endian
//! 17      4     payload length, little-endian
//! 21      N     payload
//! ```

use crate::le::{
    le_bytes, le_value, lemma_le_bytes_len, lemma_le_bytes_of_value, lemma_le_value_bound,
    lemma_le_value_of_bytes, lemma_pow256_values, read_le, write_le,
};
use vstd::prelude::*;
use vstd::slice::*;

verus! {

/// The four kinds of frame.
#[derive(Debug, Clone, Copy, PartialEq, Eq, Structural)]
pub enum FrameType {
    /// Client to broker: append this payload to the stream.
    Publish,
    /// Broker to subscriber: a committed record of the stream.
    Message,
    /// Client to broker: deliver the stream's future records.
    Subscribe,
    /// Broker to client: the publish was committed at this offset.
    Ack,
}

impl FrameType {
    /// The byte that stands for this kind on the wire.
    pub open spec fn wire_code(self) -> u8 {
        match self {
            FrameType::Publish => 0x01,
            FrameType::Message => 0x02,
            FrameType::Subscribe => 0x03,
            FrameType::Ack => 0x04,
        }
    }

    /// The kind that a wire byte stands for, if any.
    pub open spec fn of_code(b: u8) -> Option<FrameType> {
        if b == 0x01 {
            Some(FrameType::Publish)
        } else if b == 0x02 {
            Some(FrameType::Message)
        } else if b == 0x03 {
            Some(FrameType::Subscribe)
        } else if b == 0x04 {
            Some(FrameType::Ack)
        } else {
            None
        }
    }

    /// Whether frames of this kind must carry a payload.
    pub open spec fn carries_payload(self) -> bool {
        self == FrameType::Publish || self == FrameType::Message
    }

    /// The byte that stands for this kind on the wire.
    pub fn as_u8(self) -> (b: u8)
        ensures
            b == self.wire_code(),
    {
        match self {
            FrameType::Publish => 0x01,
            FrameType::Message => 0x02,
            FrameType::Subscribe => 0x03,
            FrameType::Ack => 0x04,
        }
    }

    /// The kind that a wire byte stands for, if any.
    pub fn from_u8(b: u8) -> (kind: Option<FrameType>)
        ensures
            kind == FrameType::of_code(b),
    {
        match b {
            0x01 => Some(FrameType::Publish),
            0x02 => Some(FrameType::Message),
            0x03 => Some(FrameType::Subscribe),
            0x04 => Some(FrameType::Ack),
            _ => None,
        }
    }
}

/// Every kind is found again from its wire byte, and no other byte names a kind.
pub proof fn lemma_wire_code_round_trip(kind: FrameType, b: u8)
    ensures
        FrameType::of_code(kind.wire_code()) == Some(kind),
        FrameType::of_code(b) == Some(kind) <==> b == kind.wire_code(),
{
}

/// One unit of wire communication.
#[derive(Debug, Clone)]
pub struct Frame {
    pub frame_type: FrameType,
    pub stream_id: u64,
    /// Meaningful on `Message` and `Ack` only.
    pub offset: u64,
    pub payload: Vec<u8>,
}

/// A frame as a mathematical value.
pub struct FrameView {
    pub frame_type: FrameType,
    pub stream_id: u64,
    pub offset: u64,
    pub payload: Seq<u8>,
}

impl View for Frame {
    type V = FrameView;

    open spec fn view(&self) -> FrameView {
        FrameView {
            frame_type: self.frame_type,
            stream_id: self.stream_id,
            offset: self.offset,
            payload: self.payload@,
        }
    }
}

/// Why a byte string is not a frame.
#[derive(Debug, Clone, Copy, PartialEq, Eq)]
pub enum DecodeError {
    /// Fewer bytes than a header.
    TooShort,
    /// The type byte names no kind.
    UnknownFrameType,
    /// Header plus declared payload length is not the input's length.
    LengthMismatch,
}

/// Length of the fixed header.
pub const HEADER_LEN: usize = 21;

impl FrameView {
    /// The payload length fits the header's four-byte length field.
    pub open spec fn encodable(self) -> bool {
        self.payload.len() <= u32::MAX
    }

    /// The frame invariant: encodable, and `Publish` and `Message` carry a payload.
    pub open spec fn valid(self) -> bool {
        &&& self.encodable()
        &&& self.frame_type.carries_payload() ==> self.payload.len() > 0
    }

    /// Whether the broker takes the frame from a client: a `Publish` must
    /// satisfy the frame invariant, since its payload is committed and
    /// delivered; frames of the other kinds are taken whatever they hold.
    pub open spec fn admissible(self) -> bool {
        self.frame_type == FrameType::Publish ==> self.valid()
    }

    /// The frame's bytes on the wire.
    pub open spec fn encoding(self) -> Seq<u8> {
        seq![self.frame_type.wire_code()] + le_bytes(self.stream_id as nat, 8) + le_bytes(
            self.offset as nat,
            8,
        ) + le_bytes(self.payload.len(), 4) + self.payload
    }
}

/// The payload length that the header of `bytes` declares.
pub open spec fn declared_len(bytes: Seq<u8>) -> nat
    recommends
        bytes.len() >= HEADER_LEN,
{
    le_value(bytes.subrange(17, 21))
}

/// What `bytes` decodes to: the three checks in the order in which they are made.
pub open spec fn decode_spec(bytes: Seq<u8>) -> Result<FrameView, DecodeError> {
    if bytes.len() < HEADER_LEN {
        Err(DecodeError::TooShort)
    } else if FrameType::of_code(bytes[0]) is None {
        Err(DecodeError::UnknownFrameType)
    } else if bytes.len() != HEADER_LEN + declared_len(bytes) {
        Err(DecodeError::LengthMismatch)
    } else {
        Ok(
            FrameView {
                frame_type: FrameType::of_code(bytes[0])->0,
                stream_id: le_value(bytes.subrange(1, 9)) as u64,
                offset: le_value(bytes.subrange(9, 17)) as u64,
                payload: bytes.subrange(HEADER_LEN as int, bytes.len() as int),
            },
        )
    }
}

impl Frame {
    /// Length of the fixed header: 1 + 8 + 8 + 4.
    pub const HEADER_LEN: usize = HEADER_LEN;

    /// Whether the frame satisfies the frame invariant.
    pub fn is_valid(&self) -> (ok: bool)
        ensures
            ok == self@.valid(),
    {
        let n: usize = self.payload.len();
        let fits: bool = n as u64 <= u32::MAX as u64;
        let needs_payload: bool = match self.frame_type {
            FrameType::Publish => true,
            FrameType::Message => true,
            FrameType::Subscribe => false,
            FrameType::Ack => false,
        };
        fits && (!needs_payload || n > 0)
    }

    /// Whether the broker takes the frame from a client.
    pub fn is_admissible(&self) -> (ok: bool)
        ensures
            ok == self@.admissible(),
    {
        match self.frame_type {
            FrameType::Publish => self.is_valid(),
            FrameType::Message => true,
            FrameType::Subscribe => true,
            FrameType::Ack => true,
        }
    }

    /// The frame's bytes on the wire: the header, then the payload.
    pub fn encode(&self) -> (bytes: Vec<u8>)
        requires
            self@.valid(),
        ensures
            bytes@ == self@.encoding(),
            bytes@.len() == HEADER_LEN + self.payload@.len(),
    {
        let mut buf: Vec<u8> = Vec::new();
        buf.push(self.frame_type.as_u8());
        write_le(&mut buf, self.stream_id, 8);
        write_le(&mut buf, self.offset, 8);
        write_le(&mut buf, self.payload.len() as u64, 4);
        let ghost header = buf@;
        buf.extend_from_slice(self.payload.as_slice());
        proof {
            lemma_le_bytes_len(self.stream_id as nat, 8);
            lemma_le_bytes_len(self.offset as nat, 8);
            lemma_le_bytes_len(self.payload@.len(), 4);
            assert(buf@ =~= header + self.payload@);
        }
        buf
    }

    /// Decodes exactly one frame from exactly `bytes`.
    pub fn decode(bytes: &[u8]) -> (r: Result<Frame, DecodeError>)
        ensures
            match r {
                Ok(frame) => decode_spec(bytes@) == Ok::<FrameView, DecodeError>(frame@),
                Err(e) => decode_spec(bytes@) == Err::<FrameView, DecodeError>(e),
            },
    {
        if bytes.len() < HEADER_LEN {
            return Err(DecodeError::TooShort);
        }
        let frame_type = match FrameType::from_u8(bytes[0]) {
            Some(kind) => kind,
            None => {
                return Err(DecodeError::UnknownFrameType);
            },
        };
        let stream_id: u64 = read_le(bytes, 1, 8);
        let offset: u64 = read_le(bytes, 9, 8);
        let len: u64 = read_le(bytes, 17, 4);
        proof {
            lemma_le_value_bound(bytes@.subrange(17, 21));
            lemma_pow256_values();
        }
        if bytes.len() as u64 != HEADER_LEN as u64 + len {
            return Err(DecodeError::LengthMismatch);
        }
        let payload = slice_to_vec(slice_subrange(bytes, HEADER_LEN, bytes.len()));
        Ok(Frame { frame_type, stream_id, offset, payload })
    }

    /// One step of streaming reassembly: takes one whole frame off the front of
    /// `buf` if one has arrived, and leaves `buf` as it is otherwise.
    pub fn try_decode(buf: &mut Vec<u8>) -> (r: Result<Option<Frame>, DecodeError>)
        ensures
            final(buf)@ == try_decode_spec(old(buf)@).1,
            match r {
                Ok(Some(frame)) => try_decode_spec(old(buf)@).0 == Ok::<
                    Option<FrameView>,
                    DecodeError,
                >(Some(frame@)),
                Ok(None) => try_decode_spec(old(buf)@).0 == Ok::<Option<FrameView>, DecodeError>(
                    None,
                ),
                Err(e) => try_decode_spec(old(buf)@).0 == Err::<Option<FrameView>, DecodeError>(e),
            },
    {
        if buf.len() < HEADER_LEN {
            return Ok(None);
        }
        let len: u64 = read_le(buf.as_slice(), 17, 4);
        proof {
            lemma_le_value_bound(buf@.subrange(17, 21));
            lemma_pow256_values();
        }
        let total: u64 = HEADER_LEN as u64 + len;
        if (buf.len() as u64) < total {
            return Ok(None);
        }
        let total: usize = total as usize;
        let frame = match Frame::decode(slice_subrange(buf.as_slice(), 0, total)) {
            Ok(frame) => frame,
            Err(e) => {
                return Err(e);
            },
        };
        let rest = buf.split_off(total);
        *buf = rest;
        Ok(Some(frame))
    }
}

/// Whether the front of `buf` holds every byte of the frame that its header declares.
pub open spec fn frame_arrived(buf: Seq<u8>) -> bool {
    buf.len() >= HEADER_LEN && buf.len() >= HEADER_LEN + declared_len(buf)
}

/// One reassembly step on a buffer: what is handed out, and what stays buffered.
///
/// Nothing is handed out, and nothing consumed, until a whole candidate frame
/// has arrived. Then exactly its bytes are decoded and, on success, consumed.
pub open spec fn try_decode_spec(buf: Seq<u8>) -> (Result<Option<FrameView>, DecodeError>, Seq<u8>) {
    if !frame_arrived(buf) {
        (Ok(None), buf)
    } else {
        let total = HEADER_LEN + declared_len(buf);
        match decode_spec(buf.take(total)) {
            Ok(frame) => (Ok(Some(frame)), buf.skip(total)),
            Err(e) => (Err(e), buf),
        }
    }
}

/// Where the fields of an encoded frame lie.
pub proof fn lemma_encoding_layout(f: FrameView)
    requires
        f.encodable(),
    ensures
        f.encoding().len() == HEADER_LEN + f.payload.len(),
        f.encoding()[0] == f.frame_type.wire_code(),
        f.encoding().subrange(1, 9) == le_bytes(f.stream_id as nat, 8),
        f.encoding().subrange(9, 17) == le_bytes(f.offset as nat, 8),
        f.encoding().subrange(17, 21) == le_bytes(f.payload.len(), 4),
        f.encoding().subrange(HEADER_LEN as int, f.encoding().len() as int) == f.payload,
        declared_len(f.encoding()) == f.payload.len(),
{
    let e = f.encoding();
    lemma_le_bytes_len(f.stream_id as nat, 8);
    lemma_le_bytes_len(f.offset as nat, 8);
    lemma_le_bytes_len(f.payload.len(), 4);
    assert(e.subrange(1, 9) =~= le_bytes(f.stream_id as nat, 8));
    assert(e.subrange(9, 17) =~= le_bytes(f.offset as nat, 8));
    assert(e.subrange(17, 21) =~= le_bytes(f.payload.len(), 4));
    assert(e.subrange(HEADER_LEN as int, e.len() as int) =~= f.payload);
    lemma_pow256_values();
    lemma_le_value_of_bytes(f.payload.len(), 4);
}

/// Round trip: decoding the encoding of a frame gives the frame back.
pub proof fn lemma_decode_encode(f: FrameView)
    requires
        f.encodable(),
    ensures
        decode_spec(f.encoding()) == Ok::<FrameView, DecodeError>(f),
{
    lemma_encoding_layout(f);
    lemma_pow256_values();
    lemma_le_value_of_bytes(f.stream_id as nat, 8);
    lemma_le_value_of_bytes(f.offset as nat, 8);
}

/// The encoding is the only byte string that decodes to a given frame.
pub proof fn lemma_encode_decode(bytes: Seq<u8>)
    requires
        decode_spec(bytes) is Ok,
    ensures
        decode_spec(bytes)->Ok_0.encodable(),
        decode_spec(bytes)->Ok_0.encoding() == bytes,
{
    let f = decode_spec(bytes)->Ok_0;
    lemma_pow256_values();
    lemma_le_value_bound(bytes.subrange(1, 9));
    lemma_le_value_bound(bytes.subrange(9, 17));
    lemma_le_value_bound(bytes.subrange(17, 21));
    lemma_le_bytes_of_value(bytes.subrange(1, 9));
    lemma_le_bytes_of_value(bytes.subrange(9, 17));
    lemma_le_bytes_of_value(bytes.subrange(17, 21));
    assert(f.encoding() =~= bytes);
}

/// A whole frame at the front of the buffer is handed out, and exactly its
/// bytes are consumed, whatever follows it.
pub proof fn lemma_try_decode_whole(f: FrameView, rest: Seq<u8>)
    requires
        f.encodable(),
    ensures
        try_decode_spec(f.encoding() + rest) == (
            Ok::<Option<FrameView>, DecodeError>(Some(f)),
            rest,
        ),
{
    let e = f.encoding();
    let buf = e + rest;
    lemma_encoding_layout(f);
    assert(buf.subrange(17, 21) =~= e.subrange(17, 21));
    assert(buf.take(e.len() as int) =~= e);
    assert(buf.skip(e.len() as int) =~= rest);
    lemma_decode_encode(f);
}

/// Any proper prefix of an encoded frame is "not enough data yet": nothing is
/// handed out and nothing is consumed.
pub proof fn lemma_try_decode_partial(f: FrameView, k: int)
    requires
        f.encodable(),
        0 <= k < f.encoding().len(),
    ensures
        try_decode_spec(f.encoding().take(k)) == (
            Ok::<Option<FrameView>, DecodeError>(None),
            f.encoding().take(k),
        ),
{
    let e = f.encoding();
    lemma_encoding_layout(f);
    if k >= HEADER_LEN {
        assert(e.take(k).subrange(17, 21) =~= e.subrange(17, 21));
    }
}

/// The only error of a reassembly step is an unknown frame type: the step
/// waits while the input is short, and cuts the candidate frame to the
/// length that its header declares.
pub proof fn lemma_try_decode_error(buf: Seq<u8>)
    ensures
        try_decode_spec(buf).0 matches Err(e) ==> e == DecodeError::UnknownFrameType,
{
    if frame_arrived(buf) {
        let total = HEADER_LEN + declared_len(buf);
        assert(buf.take(total as int).subrange(17, 21) =~= buf.subrange(17, 21));
    }
}

} // verus!
