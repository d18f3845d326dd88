//! Typed packets: the closed set of packet types, the phase-scoped registry
//! resolving numeric ids to them, the decoding error taxonomy, and the frame
//! decoder that extracts one length-prefixed packet from a byte buffer.

use vstd::prelude::*;

use crate::codec::{
    lead_cont, lemma_lead_cont_bytes, lemma_lead_cont_of, lemma_varint_prefix_incomplete,
    lemma_varint_round_trip, lemma_varint_trichotomy, varint_bytes, varint_incomplete, varint_ok,
    varint_oversized, varint_size, varint_value_at,
};
use crate::connection::ConnectionState;
use crate::reader::PacketReader;

verus! {

/// The closed set of packet types this protocol subset knows.
#[derive(Hash, PartialEq, Eq, Structural, Copy, Clone, Debug)]
pub enum PacketType {
    HandshakeServerboundStart,
    StatusServerboundRequest,
    StatusClientboundResponse,
    StatusServerboundPing,
    StatusClientboundPong,
    LoginServerboundStart,
    LoginClientboundSuccess,
    PlayClientboundLogin,
    PlayClientboundDifficulty,
    PlayClientboundAbilities,
    PlayClientboundSetDefaultSpawnPosition,
}

/// Why a decode failed. PacketTooSmall alone means "retry once more bytes
/// arrive"; every other variant is a protocol violation fatal to the
/// connection.
#[derive(PartialEq, Eq, Structural, Copy, Clone, Debug)]
pub enum DecodingError {
    PacketTooSmall,
    VarIntTooBig,
    InvalidPacketId(i32, ConnectionState),
    StringTooSmall,
    StringTooLarge,
    StringInvalidUtf8,
    InvalidClientboundPacket(PacketType),
}

/// A 128-bit identifier as the wire carries it: two big-endian 64-bit
/// halves, most significant first.
#[derive(PartialEq, Eq, Structural, Copy, Clone, Debug)]
pub struct UuidBits {
    pub msb: u64,
    pub lsb: u64,
}

/// The inbound registry: which packet type a numeric id names in each phase.
pub open spec fn serverbound_type_spec(state: ConnectionState, id: int) -> Option<PacketType> {
    if state == ConnectionState::Handshake && id == 0x00 {
        Some(PacketType::HandshakeServerboundStart)
    } else if state == ConnectionState::Status && id == 0x00 {
        Some(PacketType::StatusServerboundRequest)
    } else if state == ConnectionState::Status && id == 0x01 {
        Some(PacketType::StatusServerboundPing)
    } else if state == ConnectionState::Login && id == 0x00 {
        Some(PacketType::LoginServerboundStart)
    } else {
        None
    }
}

/// The outbound registry: the numeric id a clientbound packet type is sent
/// under, independent of phase.
pub open spec fn clientbound_id_spec(t: PacketType) -> Option<int> {
    match t {
        PacketType::StatusClientboundResponse => Some(0x00),
        PacketType::StatusClientboundPong => Some(0x01),
        PacketType::LoginClientboundSuccess => Some(0x02),
        PacketType::PlayClientboundLogin => Some(0x28),
        PacketType::PlayClientboundDifficulty => Some(0x0C),
        PacketType::PlayClientboundAbilities => Some(0x34),
        PacketType::PlayClientboundSetDefaultSpawnPosition => Some(0x50),
        _ => None,
    }
}

/// The declared byte length of the frame at the front of `s` (the value of
/// its leading variable-length integer, read as unsigned).
pub open spec fn frame_len(s: Seq<u8>) -> nat {
    varint_value_at(s) as nat
}

/// What follows the frame's length prefix.
pub open spec fn frame_rest(s: Seq<u8>) -> Seq<u8> {
    s.skip(varint_size(s) as int)
}

/// The length prefix is readable and the buffer already holds the declared
/// byte count.
pub open spec fn frame_complete(s: Seq<u8>) -> bool {
    varint_ok(s) && frame_len(s) <= frame_rest(s).len()
}

/// The numeric packet id of the frame, as the decoder's signed 32-bit view.
pub open spec fn frame_id(s: Seq<u8>) -> i32 {
    varint_value_at(frame_rest(s)) as i32
}

/// How many bytes the packet id's encoding occupies.
pub open spec fn frame_id_size(s: Seq<u8>) -> nat {
    varint_size(frame_rest(s))
}

/// The packet payload: the declared span minus the id's bytes.
pub open spec fn frame_payload(s: Seq<u8>) -> Seq<u8> {
    frame_rest(s).subrange(frame_id_size(s) as int, frame_len(s) as int)
}

/// The whole span a decoded frame occupies, length prefix included: the
/// count by which the accumulation buffer advances.
pub open spec fn frame_size(s: Seq<u8>) -> nat {
    varint_size(s) + frame_len(s)
}

/// The packet type the frame resolves to under `state`.
pub open spec fn frame_type_spec(s: Seq<u8>, state: ConnectionState) -> Option<PacketType> {
    serverbound_type_spec(state, frame_id(s) as int)
}

/// More bytes may turn the buffer into a complete frame: the length prefix,
/// the declared span, or the packet id is still short.
pub open spec fn frame_incomplete(s: Seq<u8>) -> bool {
    ||| varint_incomplete(s)
    ||| (varint_ok(s) && frame_len(s) > frame_rest(s).len())
    ||| (frame_complete(s) && varint_incomplete(frame_rest(s)))
}

/// The frame at the front of `s` is a protocol violation under `state`, and
/// which error reports it. More bytes cannot repair any of these.
pub open spec fn frame_error(s: Seq<u8>, state: ConnectionState) -> Option<DecodingError> {
    if varint_oversized(s) {
        Some(DecodingError::VarIntTooBig)
    } else if frame_complete(s) && varint_oversized(frame_rest(s)) {
        Some(DecodingError::VarIntTooBig)
    } else if frame_complete(s) && varint_ok(frame_rest(s)) && (frame_id_size(s) > frame_len(s)
        || frame_type_spec(s, state) is None) {
        Some(DecodingError::InvalidPacketId(frame_id(s), state))
    } else {
        None
    }
}

/// A frame that decodes to a typed packet under `state`.
pub open spec fn frame_ok(s: Seq<u8>, state: ConnectionState) -> bool {
    &&& frame_complete(s)
    &&& varint_ok(frame_rest(s))
    &&& frame_id_size(s) <= frame_len(s)
    &&& frame_type_spec(s, state) is Some
}

/// The wire form of one whole frame: the body (packet id, then payload)
/// prefixed by its own byte count.
pub open spec fn encoded_frame(id: i32, payload: Seq<u8>) -> Seq<u8> {
    let body = varint_bytes(id as u32) + payload;
    varint_bytes(body.len() as u32) + body
}

/// A numeric id resolved to a named packet type, its payload bytes copied
/// out, and the raw span it occupied in the source buffer.
pub struct Packet {
    pub data: Vec<u8>,
    pub raw_size: usize,
    pub packet_type: PacketType,
}

impl Packet {
    /// Attempt to extract one frame from the front of `buf` under `state`.
    /// `buf` is only read: a failed attempt mutates nothing.
    pub fn decode(buf: &Vec<u8>, state: ConnectionState) -> (r: Result<Packet, DecodingError>)
        ensures
            match r {
                Ok(p) => frame_ok(buf@, state) && p.packet_type == frame_type_spec(buf@, state)->0
                    && p.data@ == frame_payload(buf@) && p.raw_size == frame_size(buf@),
                Err(e) => if frame_incomplete(buf@) {
                    e == DecodingError::PacketTooSmall
                } else if frame_error(buf@, state) is Some {
                    e == frame_error(buf@, state)->0
                } else {
                    false
                },
            },
    {
        let mut reader = PacketReader::create(buf);

        Self::read(&mut reader, state)
    }

    /// Decode one frame from the reader's current position.
    pub fn read(reader: &mut PacketReader, state: ConnectionState) -> (r: Result<
        Packet,
        DecodingError,
    >)
        requires
            old(reader).wf(),
        ensures
            final(reader).wf(),
            final(reader).buf@ == old(reader).buf@,
            ({
                let s = old(reader).remaining();
                match r {
                    Ok(p) => frame_ok(s, state) && p.packet_type == frame_type_spec(s, state)->0
                        && p.data@ == frame_payload(s) && p.raw_size == frame_size(s)
                        && final(reader).reader_index == old(reader).reader_index + frame_size(s),
                    Err(e) => (if frame_incomplete(s) {
                        e == DecodingError::PacketTooSmall
                    } else if frame_error(s, state) is Some {
                        e == frame_error(s, state)->0
                    } else {
                        false
                    }) && final(reader).reader_index == old(reader).reader_index + (
                    if varint_incomplete(s) {
                        s.len() as int
                    } else if varint_oversized(s) {
                        5int
                    } else if frame_len(s) > frame_rest(s).len() {
                        varint_size(s) as int
                    } else if varint_incomplete(frame_rest(s)) {
                        s.len() as int
                    } else if varint_oversized(frame_rest(s)) {
                        (varint_size(s) + 5) as int
                    } else {
                        (varint_size(s) + frame_id_size(s)) as int
                    }),
                }
            }),
    {
        let ghost s = reader.remaining();
        let packet_beginning = reader.reader_index;

        if reader.left_to_read() < 1 {
            return Err(DecodingError::PacketTooSmall);
        }
        let length_i = match reader.read_varint() {
            Ok(v) => v,
            Err(e) => {
                return Err(e);
            },
        };
        let length: usize = #[verifier::truncate] (length_i as u32) as usize;
        proof {
            assert(reader.remaining() =~= frame_rest(s));
        }

        if length > reader.left_to_read() {
            return Err(DecodingError::PacketTooSmall);
        }
        let (packet_id, packet_id_size) = match reader.read_varint_with_size() {
            Ok(v) => v,
            Err(e) => {
                return Err(e);
            },
        };
        proof {
            let v = packet_id;
            assert((v as u32) as i32 == v) by (bit_vector);
        }
        if packet_id_size > length {
            return Err(DecodingError::InvalidPacketId(packet_id, state));
        }
        let packet_type = match Self::packet_id_to_type(packet_id, state) {
            Ok(t) => t,
            Err(e) => {
                return Err(e);
            },
        };

        let buffer_length = length - packet_id_size;
        let mut buffer: Vec<u8> = Vec::new();
        let mut i: usize = 0;
        while i < buffer_length
            invariant
                i <= buffer_length,
                buffer@ =~= Seq::new(i as nat, |j: int| 0u8),
            decreases buffer_length - i,
        {
            buffer.push(0u8);
            i = i + 1;
        }
        match reader.try_read_all(&mut buffer) {
            Ok(()) => {
            },
            Err(_) => {
                return Err(DecodingError::StringTooSmall);
            },
        }
        proof {
            assert(buffer@ =~= frame_payload(s));
        }

        let packet = Packet {
            data: buffer,
            raw_size: reader.reader_index - packet_beginning,
            packet_type,
        };

        Ok(packet)
    }

    /// Resolve a numeric id under the current phase via the inbound registry.
    pub fn packet_id_to_type(id: i32, state: ConnectionState) -> (r: Result<
        PacketType,
        DecodingError,
    >)
        ensures
            match serverbound_type_spec(state, id as int) {
                Some(t) => r is Ok && r->Ok_0 == t,
                None => r is Err && r->Err_0 == DecodingError::InvalidPacketId(id, state),
            },
    {
        if state == ConnectionState::Handshake && id == 0x00 {
            Ok(PacketType::HandshakeServerboundStart)
        } else if state == ConnectionState::Status && id == 0x00 {
            Ok(PacketType::StatusServerboundRequest)
        } else if state == ConnectionState::Status && id == 0x01 {
            Ok(PacketType::StatusServerboundPing)
        } else if state == ConnectionState::Login && id == 0x00 {
            Ok(PacketType::LoginServerboundStart)
        } else {
            Err(DecodingError::InvalidPacketId(id, state))
        }
    }

    /// Look up the numeric id a clientbound packet type is sent under.
    pub fn packet_type_to_id(packet_type: PacketType) -> (r: Result<i32, DecodingError>)
        ensures
            match clientbound_id_spec(packet_type) {
                Some(i) => r is Ok && r->Ok_0 == i,
                None => r is Err && r->Err_0 == DecodingError::InvalidClientboundPacket(
                    packet_type,
                ),
            },
    {
        match packet_type {
            PacketType::StatusClientboundResponse => Ok(0x00),
            PacketType::StatusClientboundPong => Ok(0x01),
            PacketType::LoginClientboundSuccess => Ok(0x02),
            PacketType::PlayClientboundLogin => Ok(0x28),
            PacketType::PlayClientboundDifficulty => Ok(0x0C),
            PacketType::PlayClientboundAbilities => Ok(0x34),
            PacketType::PlayClientboundSetDefaultSpawnPosition => Ok(0x50),
            _ => Err(DecodingError::InvalidClientboundPacket(packet_type)),
        }
    }
}

/// A buffer decodes in exactly one of three ways under a phase: it is still
/// incomplete, it is a protocol violation, or it holds a typed packet.
pub proof fn lemma_frame_trichotomy(s: Seq<u8>, state: ConnectionState)
    ensures
        frame_incomplete(s) || frame_error(s, state) is Some || frame_ok(s, state),
        !(frame_incomplete(s) && frame_error(s, state) is Some),
        !(frame_incomplete(s) && frame_ok(s, state)),
        !(frame_error(s, state) is Some && frame_ok(s, state)),
{
    lemma_varint_trichotomy(s);
    lemma_varint_trichotomy(frame_rest(s));
}

/// Frame round trip: a frame built from a packet id known to `state` and any
/// payload decodes, under the same phase, back to that id and payload, and
/// reports a consumed span equal to the encoded byte count, whatever follows.
pub proof fn lemma_frame_round_trip(
    state: ConnectionState,
    id: i32,
    payload: Seq<u8>,
    rest: Seq<u8>,
)
    requires
        serverbound_type_spec(state, id as int) is Some,
        varint_bytes(id as u32).len() + payload.len() <= u32::MAX,
    ensures
        ({
            let s = encoded_frame(id, payload) + rest;
            &&& frame_ok(s, state)
            &&& frame_id(s) == id
            &&& frame_type_spec(s, state) == serverbound_type_spec(state, id as int)
            &&& frame_payload(s) == payload
            &&& frame_size(s) == encoded_frame(id, payload).len()
        }),
{
    let idb = varint_bytes(id as u32);
    let body = idb + payload;
    let lenb = varint_bytes(body.len() as u32);
    let s = encoded_frame(id, payload) + rest;
    assert(s =~= lenb + (body + rest));
    lemma_varint_round_trip(body.len() as u32, body + rest);
    assert(varint_size(s) == lenb.len() && varint_value_at(s) == body.len() as u32);
    assert(frame_rest(s) =~= body + rest);
    assert(frame_len(s) == body.len());
    assert(body + rest =~= idb + (payload + rest));
    lemma_varint_round_trip(id as u32, payload + rest);
    assert(frame_id_size(s) == idb.len());
    assert((id as u32) as i32 == id) by (bit_vector);
    assert(frame_id(s) == id);
    assert(frame_payload(s) =~= payload);
}

/// Fragmentation invariance: every strict prefix of one complete frame still
/// reads as incomplete, never as a value or a hard error, so feeding a frame
/// in chunks consumes nothing and produces nothing until its last byte has
/// arrived, and no chunk boundary is observable in the decoded packet.
pub proof fn lemma_fragmentation_invariance(s: Seq<u8>, k: int)
    requires
        frame_complete(s),
        frame_size(s) == s.len(),
        0 <= k < s.len(),
    ensures
        frame_incomplete(s.take(k)),
{
    let p = s.take(k);
    lemma_lead_cont_bytes(s);
    if k <= lead_cont(s) {
        lemma_varint_prefix_incomplete(s, k);
    } else {
        assert(forall|j: int| 0 <= j < lead_cont(s) ==> p[j] == s[j]);
        lemma_lead_cont_of(p, lead_cont(s) as int);
        assert(p.take(varint_size(p) as int) =~= s.take(varint_size(s) as int));
        assert(frame_len(p) == frame_len(s));
        assert(frame_rest(p).len() == k - varint_size(s));
        assert(frame_len(s) == s.len() - varint_size(s));
    }
}

} // verus!
