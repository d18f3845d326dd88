//! The per-connection state machine: the protocol phase, the accumulation
//! buffer, and the decode-and-dispatch step that turns arriving bytes into
//! phase transitions and framed replies.

use vstd::prelude::*;

use crate::codec::{
    be32_bytes, be64_bytes, be64_value, lemma_varint_trichotomy, position_word, varint_bytes,
    varint_ok, varint_size, varint_value_at,
};
use crate::outside::{base64_decoded, base64_ok, decode_base64, fresh_uuid};
use crate::packet::{
    encoded_frame, frame_error, frame_incomplete, frame_ok, frame_payload, frame_size,
    frame_type_spec, DecodingError, Packet, PacketType, UuidBits,
};
use crate::reader::{string_chars, string_err, string_read_ok, string_rest, varint_err, PacketReader};
use crate::writer::{string_bytes, PacketWriter};

verus! {

/// The protocol phase a connection is in; it decides which packet ids are
/// valid. Disconnected is terminal.
#[derive(PartialEq, Eq, Structural, Hash, Clone, Copy, Debug)]
pub enum ConnectionState {
    Handshake,
    Status,
    Login,
    Play,
    Disconnected,
}

/// The IEEE-754 bit patterns of the fixed ability values the bootstrap
/// sequence sends: a fly speed of one twentieth and a field-of-view modifier
/// of one tenth.
pub const FLY_SPEED_BITS: u32 = 0x3D4CCCCD;

pub const FOV_MODIFIER_BITS: u32 = 0x3DCCCCCD;

/// A handshake-start payload parses: a protocol version, a host name of at
/// most 255 characters, a port, and a next-phase selector.
pub open spec fn handshake_parse_ok(p: Seq<u8>) -> bool {
    let p1 = p.skip(varint_size(p) as int);
    let p2 = string_rest(p1);
    let p3 = p2.skip(2);
    &&& varint_ok(p)
    &&& string_read_ok(p1, 255)
    &&& p2.len() >= 2
    &&& varint_ok(p3)
}

/// The next-phase selector a handshake-start payload carries.
pub open spec fn handshake_next_state(p: Seq<u8>) -> u32 {
    let p1 = p.skip(varint_size(p) as int);
    let p2 = string_rest(p1);
    varint_value_at(p2.skip(2))
}

/// A login-start payload parses: a player name of at most 16 characters and
/// an optional 128-bit identifier.
pub open spec fn login_parse_ok(p: Seq<u8>) -> bool {
    let q = string_rest(p);
    &&& string_read_ok(p, 16)
    &&& q.len() >= 1
    &&& (q[0] != 0 ==> q.len() >= 17)
}

/// The identifier a login-start payload carries, when its flag byte says one
/// is present.
pub open spec fn login_uuid_spec(p: Seq<u8>) -> Option<UuidBits> {
    let q = string_rest(p);
    if q[0] == 0 {
        None
    } else {
        Some(UuidBits { msb: be64_value(q.skip(1)), lsb: be64_value(q.skip(9)) })
    }
}

/// The fixed JSON status document the status-request handler answers with.
pub open spec fn status_json() -> Seq<char> {
    r#"{
    "version": {
        "name": "1.19.4",
        "protocol": 762
    },
    "players": {
        "max": 100,
        "online": 5,
        "sample": []
    },
    "description": {
        "text": "Hello world"
    }
}"#@
}

/// The base64 text of the fixed dimension-registry blob the login bootstrap
/// sends.
pub open spec fn nbt_base64() -> Seq<char> {
    "CgAACgATbWluZWNyYWZ0OmNoYXRfdHlwZQAKABhtaW5lY3JhZnQ6ZGltZW5zaW9uX3R5cGUACgAYbWluZWNyYWZ0OndvcmxkZ2VuL2Jpb21lAAA="@
}

pub open spec fn world_name() -> Seq<char> {
    "minecraft:world"@
}

pub open spec fn status_response_frame() -> Seq<u8> {
    encoded_frame(0x00, string_bytes(status_json()))
}

pub open spec fn pong_frame(v: u64) -> Seq<u8> {
    encoded_frame(0x01, be64_bytes(v))
}

pub open spec fn login_success_payload(name: Seq<char>, u: UuidBits) -> Seq<u8> {
    be64_bytes(u.msb) + be64_bytes(u.lsb) + string_bytes(name) + varint_bytes(0)
}

pub open spec fn login_success_frame(name: Seq<char>, u: UuidBits) -> Seq<u8> {
    encoded_frame(0x02, login_success_payload(name, u))
}

/// The world/login bootstrap payload: entity id, mode flags, dimension
/// names, the registry blob, seed hash, distances, and feature flags, all
/// fixed content.
pub open spec fn play_login_payload(nbt: Seq<u8>) -> Seq<u8> {
    be32_bytes(12) + seq![0u8] + seq![0u8] + seq![0u8] + varint_bytes(1) + string_bytes(
        world_name(),
    ) + nbt + string_bytes(world_name()) + string_bytes(world_name()) + be64_bytes(
        0x7D42D4473EB771F9,
    ) + varint_bytes(0) + varint_bytes(10) + varint_bytes(10) + seq![0u8] + seq![1u8] + seq![0u8]
        + seq![0u8] + seq![0u8]
}

pub open spec fn play_login_frame(nbt: Seq<u8>) -> Seq<u8> {
    encoded_frame(0x28, play_login_payload(nbt))
}

pub open spec fn difficulty_frame() -> Seq<u8> {
    encoded_frame(0x0C, seq![2u8] + seq![0u8])
}

pub open spec fn abilities_frame() -> Seq<u8> {
    encoded_frame(0x34, seq![0u8] + be32_bytes(FLY_SPEED_BITS) + be32_bytes(FOV_MODIFIER_BITS))
}

pub open spec fn spawn_position_frame() -> Seq<u8> {
    encoded_frame(0x50, be64_bytes(position_word(0, 100, 0) as u64) + be32_bytes(0))
}

/// Everything the login-start handler sends: login-success, then the fixed
/// Play-phase bootstrap sequence.
pub open spec fn login_reply(name: Seq<char>, u: UuidBits, nbt: Seq<u8>) -> Seq<u8> {
    login_success_frame(name, u) + play_login_frame(nbt) + difficulty_frame() + abilities_frame()
        + spawn_position_frame()
}

/// Which error the handler for `pt` reports on the payload `p`, None when
/// the payload parses: the fields are read left to right and the first
/// failing field decides.
pub open spec fn handle_err(pt: PacketType, p: Seq<u8>) -> Option<DecodingError> {
    match pt {
        PacketType::HandshakeServerboundStart => {
            let p1 = p.skip(varint_size(p) as int);
            let p2 = string_rest(p1);
            let p3 = p2.skip(2);
            if varint_err(p) is Some {
                varint_err(p)
            } else if string_err(p1, 255) is Some {
                string_err(p1, 255)
            } else if p2.len() < 2 {
                Some(DecodingError::StringTooSmall)
            } else {
                varint_err(p3)
            }
        },
        PacketType::StatusServerboundRequest => None,
        PacketType::StatusServerboundPing => if p.len() < 8 {
            Some(DecodingError::StringTooSmall)
        } else {
            None
        },
        PacketType::LoginServerboundStart => {
            let q = string_rest(p);
            if string_err(p, 16) is Some {
                string_err(p, 16)
            } else if q.len() == 0 {
                Some(DecodingError::PacketTooSmall)
            } else if q[0] != 0 && q.len() < 17 {
                Some(DecodingError::StringTooSmall)
            } else {
                None
            }
        },
        _ => None,
    }
}

/// The handler succeeds on this packet: its payload parses. The handlers
/// that only answer need nothing of the payload beyond what they read.
pub open spec fn handle_ok(pt: PacketType, p: Seq<u8>) -> bool {
    match pt {
        PacketType::HandshakeServerboundStart => handshake_parse_ok(p),
        PacketType::StatusServerboundRequest => true,
        PacketType::StatusServerboundPing => p.len() >= 8,
        PacketType::LoginServerboundStart => login_parse_ok(p),
        _ => true,
    }
}

/// The two sides of the handler contract agree: a payload parses exactly
/// when the error ladder reports nothing.
pub proof fn lemma_handle_err_none(pt: PacketType, p: Seq<u8>)
    ensures
        handle_err(pt, p) is None <==> handle_ok(pt, p),
{
    lemma_varint_trichotomy(p);
    lemma_varint_trichotomy(p.skip(varint_size(p) as int));
    lemma_varint_trichotomy(string_rest(p.skip(varint_size(p) as int)).skip(2));
}

/// How one handled packet relates the phase before to the phase after, and
/// which reply bytes it queues. The login reply is existential in the
/// identifier only when the client sent none: a fresh random one stands in.
pub open spec fn handle_rel(
    st: ConnectionState,
    pt: PacketType,
    p: Seq<u8>,
    st2: ConnectionState,
    reply: Seq<u8>,
) -> bool {
    match pt {
        PacketType::HandshakeServerboundStart => {
            &&& handshake_parse_ok(p)
            &&& reply == Seq::<u8>::empty()
            &&& st2 == (if handshake_next_state(p) == 1 {
                ConnectionState::Status
            } else if handshake_next_state(p) == 2 {
                ConnectionState::Login
            } else {
                ConnectionState::Disconnected
            })
        },
        PacketType::StatusServerboundRequest => st2 == st && reply == status_response_frame(),
        PacketType::StatusServerboundPing => {
            &&& p.len() >= 8
            &&& st2 == st
            &&& reply == pong_frame(be64_value(p))
        },
        PacketType::LoginServerboundStart => {
            &&& login_parse_ok(p)
            &&& st2 == ConnectionState::Play
            &&& match login_uuid_spec(p) {
                Some(u) => reply == login_reply(
                    string_chars(p),
                    u,
                    base64_decoded(nbt_base64()),
                ),
                None => exists|u: UuidBits|
                    reply == login_reply(string_chars(p), u, base64_decoded(nbt_base64())),
            }
        },
        _ => st2 == ConnectionState::Disconnected && reply == Seq::<u8>::empty(),
    }
}

/// The full drain loop as a relation: starting in `st` with buffered bytes
/// `s`, repeatedly extract a frame, dispatch it, and collect its reply,
/// until the buffer holds no complete frame, the phase is Disconnected, or
/// an error ends the connection. `err` None means the loop returned `out`;
/// `err` Some(e) means it failed with `e` and surrendered no output, and
/// `e` is always some frame's own decode error or some dispatched packet's
/// own handling failure, never an arbitrary refusal.
#[verifier::opaque]
pub open spec fn drain_rel(
    st: ConnectionState,
    s: Seq<u8>,
    st2: ConnectionState,
    b2: Seq<u8>,
    out: Seq<u8>,
    err: Option<DecodingError>,
) -> bool
    decreases s.len(),
{
    if st == ConnectionState::Disconnected {
        st2 == st && b2 == s && out == Seq::<u8>::empty() && err is None
    } else if frame_incomplete(s) {
        st2 == st && b2 == s && out == Seq::<u8>::empty() && err is None
    } else if frame_error(s, st) is Some {
        st2 == st && b2 == s && out == Seq::<u8>::empty() && err == frame_error(s, st)
    } else if frame_ok(s, st) {
        let pt = frame_type_spec(s, st)->0;
        let pl = frame_payload(s);
        let tail = s.skip(frame_size(s) as int);
        ||| (exists|stm: ConnectionState, reply: Seq<u8>|
            #![trigger handle_rel(st, pt, pl, stm, reply)]
            {
                &&& handle_rel(st, pt, pl, stm, reply)
                &&& if err is None {
                    &&& reply.len() <= out.len()
                    &&& out.take(reply.len() as int) == reply
                    &&& drain_rel(stm, tail, st2, b2, out.skip(reply.len() as int), err)
                } else {
                    &&& out == Seq::<u8>::empty()
                    &&& drain_rel(stm, tail, st2, b2, Seq::<u8>::empty(), err)
                }
            })
        ||| {
            &&& st2 == st
            &&& b2 == tail
            &&& out == Seq::<u8>::empty()
            &&& match handle_err(pt, pl) {
                Some(pe) => err == Some(pe),
                None => pt == PacketType::LoginServerboundStart && !base64_ok(nbt_base64()) && err
                    == Some(
                    DecodingError::InvalidClientboundPacket(PacketType::PlayClientboundLogin),
                ),
            }
        }
    } else {
        false
    }
}

/// Incomplete-frame non-mutation: when the buffered bytes hold no complete
/// frame, a read step returns nothing, keeps every buffered byte, and
/// leaves the phase as it was.
pub proof fn lemma_incomplete_non_mutation(
    st: ConnectionState,
    s: Seq<u8>,
    st2: ConnectionState,
    b2: Seq<u8>,
    out: Seq<u8>,
    err: Option<DecodingError>,
)
    requires
        st != ConnectionState::Disconnected,
        frame_incomplete(s),
        drain_rel(st, s, st2, b2, out, err),
    ensures
        st2 == st,
        b2 == s,
        out == Seq::<u8>::empty(),
        err is None,
{
    reveal(drain_rel);
}

/// One complete frame and nothing after it: the drain loop dispatches
/// exactly that packet, returns exactly its reply, and leaves the buffer
/// empty.
pub proof fn lemma_drain_single_frame(
    st: ConnectionState,
    s: Seq<u8>,
    st2: ConnectionState,
    b2: Seq<u8>,
    out: Seq<u8>,
)
    requires
        st != ConnectionState::Disconnected,
        frame_ok(s, st),
        frame_size(s) == s.len(),
        drain_rel(st, s, st2, b2, out, None),
    ensures
        b2 == Seq::<u8>::empty(),
        handle_rel(st, frame_type_spec(s, st)->0, frame_payload(s), st2, out),
{
    reveal(drain_rel);
    let pt = frame_type_spec(s, st)->0;
    let pl = frame_payload(s);
    let tail = s.subrange(frame_size(s) as int, s.len() as int);
    assert(tail =~= Seq::<u8>::empty());
    crate::packet::lemma_frame_trichotomy(s, st);
    let (stm, reply): (ConnectionState, Seq<u8>) = choose|stm: ConnectionState, reply: Seq<u8>|
        #![trigger handle_rel(st, pt, pl, stm, reply)]
        {
            &&& handle_rel(st, pt, pl, stm, reply)
            &&& reply.len() <= out.len()
            &&& out.take(reply.len() as int) == reply
            &&& drain_rel(stm, tail, st2, b2, out.skip(reply.len() as int), None)
        };
    assert(drain_rel(stm, tail, st2, b2, out.skip(reply.len() as int), None));
    assert(out.skip(reply.len() as int) =~= Seq::<u8>::empty());
    assert(out =~= reply);
}

/// One step of the drain loop preserves the relation: a decoded frame, a
/// handled packet and a drained tail assemble into a drain of the whole.
#[verifier::rlimit(100)]
#[verifier::spinoff_prover]
proof fn lemma_drain_step(
    st: ConnectionState,
    s: Seq<u8>,
    stm: ConnectionState,
    reply: Seq<u8>,
    st2: ConnectionState,
    b2: Seq<u8>,
    out2: Seq<u8>,
    err: Option<DecodingError>,
    out: Seq<u8>,
)
    requires
        st != ConnectionState::Disconnected,
        !frame_incomplete(s),
        frame_error(s, st) is None,
        frame_ok(s, st),
        handle_rel(st, frame_type_spec(s, st)->0, frame_payload(s), stm, reply),
        drain_rel(stm, s.skip(frame_size(s) as int), st2, b2, out2, err),
        out == (if err is None {
            reply + out2
        } else {
            Seq::<u8>::empty()
        }),
    ensures
        drain_rel(st, s, st2, b2, out, err),
{
    reveal(drain_rel);
    let pt = frame_type_spec(s, st)->0;
    let pl = frame_payload(s);
    let tail = s.subrange(frame_size(s) as int, s.len() as int);
    assert(tail == s.skip(frame_size(s) as int));
    if err is None {
        assert((reply + out2).take(reply.len() as int) =~= reply);
        assert((reply + out2).skip(reply.len() as int) =~= out2);
    }
    assert(exists|stm2: ConnectionState, reply2: Seq<u8>|
        #![trigger handle_rel(st, pt, pl, stm2, reply2)]
        {
            &&& handle_rel(st, pt, pl, stm2, reply2)
            &&& if err is None {
                &&& reply2.len() <= out.len()
                &&& out.take(reply2.len() as int) == reply2
                &&& drain_rel(stm2, tail, st2, b2, out.skip(reply2.len() as int), err)
            } else {
                &&& out == Seq::<u8>::empty()
                &&& drain_rel(stm2, tail, st2, b2, Seq::<u8>::empty(), err)
            }
        });
}

/// A connection's protocol core: its accumulation buffer and current phase.
/// The transport itself lives with the caller, who feeds bytes in and writes
/// the returned reply bytes out.
pub struct Connection {
    pub current_packet: Vec<u8>,
    pub state: ConnectionState,
}

impl Connection {
    pub fn create() -> (r: Connection)
        ensures
            r.state == ConnectionState::Handshake,
            r.current_packet@ == Seq::<u8>::empty(),
    {
        Connection { current_packet: Vec::with_capacity(4096), state: ConnectionState::Handshake }
    }

    /// Enter the terminal phase; entering it again is a no-op. The caller
    /// shuts the transport down.
    pub fn disconnect(&mut self)
        ensures
            final(self).state == ConnectionState::Disconnected,
            final(self).current_packet@ == old(self).current_packet@,
    {
        if self.state == ConnectionState::Disconnected {
            return ;
        }
        self.state = ConnectionState::Disconnected;
    }

    /// Dispatch one decoded packet to its phase handler: transition the
    /// phase and return the framed reply bytes it queues. An error reports a
    /// payload that does not parse (the connection is then torn down), or,
    /// defensively, a bootstrap blob the base64 alphabet rejects.
    #[verifier::rlimit(100)]
    #[verifier::spinoff_prover]
    pub fn handle_packet(&mut self, packet: Packet) -> (r: Result<Vec<u8>, DecodingError>)
        ensures
            final(self).current_packet@ == old(self).current_packet@,
            handle_err(packet.packet_type, packet.data@) is None && (packet.packet_type
                != PacketType::LoginServerboundStart || base64_ok(nbt_base64())) ==> r is Ok,
            match r {
                Ok(out) => handle_rel(
                    old(self).state,
                    packet.packet_type,
                    packet.data@,
                    final(self).state,
                    out@,
                ),
                Err(e) => final(self).state == old(self).state && (match handle_err(
                    packet.packet_type,
                    packet.data@,
                ) {
                    Some(pe) => e == pe,
                    None => packet.packet_type == PacketType::LoginServerboundStart && !base64_ok(
                        nbt_base64(),
                    ) && e == DecodingError::InvalidClientboundPacket(
                        PacketType::PlayClientboundLogin,
                    ),
                }),
            },
    {
        let ghost p = packet.data@;
        let mut reader = PacketReader::create(&packet.data);

        match packet.packet_type {
            PacketType::HandshakeServerboundStart => {
                let _protocol_version = match reader.read_varint() {
                    Ok(v) => v,
                    Err(e) => {
                        return Err(e);
                    },
                };
                proof {
                    assert(reader.remaining() =~= p.skip(varint_size(p) as int));
                }
                let _host = match reader.read_string(255) {
                    Ok(v) => v,
                    Err(e) => {
                        return Err(e);
                    },
                };
                proof {
                    assert(reader.remaining() =~= string_rest(p.skip(varint_size(p) as int)));
                }
                let _port = match reader.read_short() {
                    Ok(v) => v,
                    Err(e) => {
                        return Err(e);
                    },
                };
                proof {
                    assert(reader.remaining() =~= string_rest(
                        p.skip(varint_size(p) as int),
                    ).skip(2));
                }
                let next_state = match reader.read_varint() {
                    Ok(v) => v,
                    Err(e) => {
                        return Err(e);
                    },
                };
                proof {
                    assert((next_state as u32 == 1) == (next_state == 1i32)) by (bit_vector);
                    assert((next_state as u32 == 2) == (next_state == 2i32)) by (bit_vector);
                }

                if next_state == 1 {
                    self.state = ConnectionState::Status;
                } else if next_state == 2 {
                    self.state = ConnectionState::Login;
                } else {
                    self.disconnect();
                }
                Ok(Vec::new())
            },
            PacketType::StatusServerboundRequest => {
                let mut out = PacketWriter::create(1024);
                let mut packet = PacketWriter::create(1024);
                packet.write_packet_type(PacketType::StatusClientboundResponse);
                packet.write_string(
                    r#"{
    "version": {
        "name": "1.19.4",
        "protocol": 762
    },
    "players": {
        "max": 100,
        "online": 5,
        "sample": []
    },
    "description": {
        "text": "Hello world"
    }
}"#,
                );
                send_packet(&mut out, &packet);
                proof {
                    assert(packet@ =~= varint_bytes(0u32) + string_bytes(status_json()));
                    assert(out@ =~= status_response_frame());
                }
                Ok(out.buf)
            },
            PacketType::StatusServerboundPing => {
                let value = match reader.read_long() {
                    Ok(v) => v,
                    Err(e) => {
                        return Err(e);
                    },
                };

                let mut out = PacketWriter::create(1024);
                let mut packet = PacketWriter::create(1024);
                packet.write_packet_type(PacketType::StatusClientboundPong);
                packet.write_long(value);
                send_packet(&mut out, &packet);
                proof {
                    assert(packet@ =~= varint_bytes(1u32) + be64_bytes(value as u64));
                    assert(out@ =~= pong_frame(be64_value(p)));
                }
                Ok(out.buf)
            },
            PacketType::LoginServerboundStart => {
                let name = match reader.read_string(16) {
                    Ok(v) => v,
                    Err(e) => {
                        return Err(e);
                    },
                };
                proof {
                    assert(reader.remaining() =~= string_rest(p));
                }
                let uuid_opt = match reader.read_optional() {
                    Ok(v) => v,
                    Err(e) => {
                        return Err(e);
                    },
                };
                let nbt = match decode_base64(
                    "CgAACgATbWluZWNyYWZ0OmNoYXRfdHlwZQAKABhtaW5lY3JhZnQ6ZGltZW5zaW9uX3R5cGUACgAYbWluZWNyYWZ0OndvcmxkZ2VuL2Jpb21lAAA=",
                ) {
                    Some(v) => v,
                    None => {
                        return Err(
                            DecodingError::InvalidClientboundPacket(
                                PacketType::PlayClientboundLogin,
                            ),
                        );
                    },
                };

                let uuid = match uuid_opt {
                    Some(id) => id,
                    None => fresh_uuid(),
                };
                proof {
                    assert(string_rest(p)[0] != 0 ==> uuid == login_uuid_spec(p)->0);
                }

                let mut out = PacketWriter::create(1024);
                let mut packet = PacketWriter::create(32);
                packet.write_packet_type(PacketType::LoginClientboundSuccess);
                packet.write_uuid(uuid);
                packet.write_string(name.as_str());
                packet.write_var_int(0);
                send_packet(&mut out, &packet);
                proof {
                    assert(packet@ =~= varint_bytes(2u32) + login_success_payload(
                        string_chars(p),
                        uuid,
                    ));
                    assert(out@ =~= login_success_frame(string_chars(p), uuid));
                }

                self.state = ConnectionState::Play;

                packet.reset();
                packet.write_packet_type(PacketType::PlayClientboundLogin);
                packet.write_int(12);  // entity id
                packet.write_boolean(false);  // hardcore
                packet.write_byte(0);  // gamemode
                packet.write_byte(0);  // previous gamemode
                packet.write_var_int(1);  // dimension count
                packet.write_string("minecraft:world");  // dimension id
                packet.write_bytes(nbt.as_slice());  // dimension registry blob
                packet.write_string("minecraft:world");  // spawn dimension id
                packet.write_string("minecraft:world");  // spawn dimension name
                packet.write_long(0x7D42D4473EB771F9i64);  // seed hash
                packet.write_var_int(0);  // max players
                packet.write_var_int(10);  // view distance
                packet.write_var_int(10);  // simulation distance
                packet.write_boolean(false);  // reduced debug info
                packet.write_boolean(true);  // enable respawn screen
                packet.write_boolean(false);  // is debug
                packet.write_boolean(false);  // is flat
                packet.write_boolean(false);  // has death location
                send_packet(&mut out, &packet);
                proof {
                    assert(packet@ =~= varint_bytes(0x28u32) + play_login_payload(nbt@));
                    assert(out@ =~= login_success_frame(string_chars(p), uuid)
                        + play_login_frame(nbt@));
                }

                packet.reset();
                packet.write_packet_type(PacketType::PlayClientboundDifficulty);
                packet.write_byte(2);  // difficulty
                packet.write_boolean(false);  // difficulty locked
                send_packet(&mut out, &packet);
                proof {
                    assert(packet@ =~= varint_bytes(0x0Cu32) + (seq![2u8] + seq![0u8]));
                    assert(out@ =~= login_success_frame(string_chars(p), uuid)
                        + play_login_frame(nbt@) + difficulty_frame());
                }

                packet.reset();
                packet.write_packet_type(PacketType::PlayClientboundAbilities);
                packet.write_byte(0);  // ability flags
                packet.write_float_bits(FLY_SPEED_BITS);
                packet.write_float_bits(FOV_MODIFIER_BITS);
                send_packet(&mut out, &packet);
                proof {
                    assert(packet@ =~= varint_bytes(0x34u32) + (seq![0u8] + be32_bytes(
                        FLY_SPEED_BITS,
                    ) + be32_bytes(FOV_MODIFIER_BITS)));
                    assert(out@ =~= login_success_frame(string_chars(p), uuid)
                        + play_login_frame(nbt@) + difficulty_frame() + abilities_frame());
                }

                packet.reset();
                packet.write_packet_type(PacketType::PlayClientboundSetDefaultSpawnPosition);
                packet.write_position(0, 100, 0);
                packet.write_float_bits(0);  // angle
                send_packet(&mut out, &packet);
                proof {
                    assert(packet@ =~= varint_bytes(0x50u32) + (be64_bytes(
                        position_word(0, 100, 0) as u64,
                    ) + be32_bytes(0)));
                    assert(out@ =~= login_reply(string_chars(p), uuid, nbt@));
                    assert(nbt@ == base64_decoded(nbt_base64()));
                    assert(out@ == login_reply(string_chars(p), uuid, base64_decoded(
                        nbt_base64(),
                    )));
                    if string_rest(p)[0] == 0 {
                        assert(exists|u: UuidBits|
                            out@ == login_reply(string_chars(p), u, base64_decoded(nbt_base64())));
                    }
                }

                Ok(out.buf)
            },
            _ => {
                self.disconnect();
                Ok(Vec::new())
            },
        }
    }

    /// Append newly arrived bytes to the accumulation buffer, then extract,
    /// dispatch and answer complete frames until none remains or the phase
    /// is Disconnected. An incomplete frame consumes nothing: the buffer
    /// keeps exactly the appended bytes and the attempt can be retried
    /// verbatim once more data arrives.
    pub fn data_read(&mut self, bytes: &[u8]) -> (r: Result<Vec<u8>, DecodingError>)
        ensures
            ({
                let s = old(self).current_packet@ + bytes@;
                match r {
                    Ok(out) => drain_rel(
                        old(self).state,
                        s,
                        final(self).state,
                        final(self).current_packet@,
                        out@,
                        None,
                    ),
                    Err(e) => drain_rel(
                        old(self).state,
                        s,
                        final(self).state,
                        final(self).current_packet@,
                        Seq::<u8>::empty(),
                        Some(e),
                    ),
                }
            }),
    {
        let mut k: usize = 0;
        while k < bytes.len()
            invariant
                k <= bytes@.len(),
                self.state == old(self).state,
                self.current_packet@ =~= old(self).current_packet@ + bytes@.take(k as int),
            decreases bytes@.len() - k,
        {
            self.current_packet.push(bytes[k]);
            k += 1;
        }
        proof {
            assert(self.current_packet@ =~= old(self).current_packet@ + bytes@);
        }

        self.drain_frames()
    }

    /// The drain loop itself, one frame per step.
    #[verifier::rlimit(100)]
    #[verifier::spinoff_prover]
    fn drain_frames(&mut self) -> (r: Result<Vec<u8>, DecodingError>)
        ensures
            match r {
                Ok(out) => drain_rel(
                    old(self).state,
                    old(self).current_packet@,
                    final(self).state,
                    final(self).current_packet@,
                    out@,
                    None,
                ),
                Err(e) => drain_rel(
                    old(self).state,
                    old(self).current_packet@,
                    final(self).state,
                    final(self).current_packet@,
                    Seq::<u8>::empty(),
                    Some(e),
                ),
            },
        decreases old(self).current_packet@.len(),
    {
        let ghost st0 = self.state;
        let ghost s0 = self.current_packet@;
        proof {
            reveal(drain_rel);
        }

        if self.state == ConnectionState::Disconnected {
            return Ok(Vec::new());
        }

        match Packet::decode(&self.current_packet, self.state) {
            Ok(packet) => {
                let ghost tail = s0.skip(frame_size(s0) as int);
                let rest = self.current_packet.split_off(packet.raw_size);
                self.current_packet = rest;
                proof {
                    assert(self.current_packet@ =~= tail);
                }
                let ghost pt = packet.packet_type;
                let ghost pl = packet.data@;
                match self.handle_packet(packet) {
                    Ok(mut reply) => {
                        let ghost stm = self.state;
                        let ghost reply0 = reply@;
                        match self.drain_frames() {
                            Ok(mut tail_out) => {
                                let ghost tail_out0 = tail_out@;
                                reply.append(&mut tail_out);
                                proof {
                                    assert(reply@ == reply0 + tail_out0);
                                    lemma_drain_step(
                                        st0,
                                        s0,
                                        stm,
                                        reply0,
                                        self.state,
                                        self.current_packet@,
                                        tail_out0,
                                        None,
                                        reply@,
                                    );
                                }
                                Ok(reply)
                            },
                            Err(e) => {
                                proof {
                                    lemma_drain_step(
                                        st0,
                                        s0,
                                        stm,
                                        reply0,
                                        self.state,
                                        self.current_packet@,
                                        Seq::<u8>::empty(),
                                        Some(e),
                                        Seq::<u8>::empty(),
                                    );
                                }
                                Err(e)
                            },
                        }
                    },
                    Err(e) => {
                        proof {
                            assert(self.state == st0);
                            assert(self.current_packet@ == tail);
                        }
                        Err(e)
                    },
                }
            },
            Err(e) => {
                if matches!(e, DecodingError::PacketTooSmall) {
                    Ok(Vec::new())
                } else {
                    Err(e)
                }
            },
        }
    }
}

/// Frame one outbound packet into the reply accumulator: its byte length as
/// a variable-length integer, then its bytes.
fn send_packet(out: &mut PacketWriter, packet: &PacketWriter)
    ensures
        final(out)@ == old(out)@ + varint_bytes(packet@.len() as u32) + packet@,
{
    let n = packet.len();
    proof {
        assert(((n as i32) as u32) == (n as u32)) by (bit_vector);
    }
    out.write_var_int(#[verifier::truncate] (n as i32));
    out.write_bytes(packet.buf.as_slice());
    proof {
        assert(out@ =~= old(out)@ + varint_bytes(packet@.len() as u32) + packet@);
    }
}

} // verus!
