use base64::Engine;
use mcframe::connection::{Connection, ConnectionState};
use mcframe::packet::{DecodingError, Packet, PacketType};

const STATUS_JSON: &str = r#"{
    "version": {
        "name": "1.19.4",
        "protocol": 762
    },
    "players": {
        "max": 100,
        "online": 5,
        "sample": []
    },
    "description": {
        "text": "Hello world"
    }
}"#;

const NBT_B64: &str = "CgAACgATbWluZWNyYWZ0OmNoYXRfdHlwZQAKABhtaW5lY3JhZnQ6ZGltZW5zaW9uX3R5cGUACgAYbWluZWNyYWZ0OndvcmxkZ2VuL2Jpb21lAAA=";

fn varint(mut v: u32) -> Vec<u8> {
    let mut out = vec![];
    loop {
        if v < 0x80 {
            out.push(v as u8);
            return out;
        }
        out.push((v & 0x7F) as u8 | 0x80);
        v >>= 7;
    }
}

fn frame(id: u32, payload: &[u8]) -> Vec<u8> {
    let mut body = varint(id);
    body.extend_from_slice(payload);
    let mut out = varint(body.len() as u32);
    out.extend_from_slice(&body);
    out
}

/// Split a byte stream of concatenated frames into (id, payload) pairs.
fn split_frames(mut bytes: &[u8]) -> Vec<(u32, Vec<u8>)> {
    let mut frames = vec![];
    while !bytes.is_empty() {
        let mut len: u32 = 0;
        let mut shift = 0;
        let mut i = 0;
        loop {
            let b = bytes[i];
            len |= ((b & 0x7F) as u32) << shift;
            i += 1;
            if b & 0x80 == 0 {
                break;
            }
            shift += 7;
        }
        let body = &bytes[i..i + len as usize];
        let id = body[0] as u32;
        assert!(body[0] & 0x80 == 0, "test frames use one-byte ids");
        frames.push((id, body[1..].to_vec()));
        bytes = &bytes[i + len as usize..];
    }
    frames
}

fn handshake_frame(protocol: u32, host: &str, port: u16, next: u32) -> Vec<u8> {
    let mut payload = varint(protocol);
    payload.extend_from_slice(&varint(host.len() as u32));
    payload.extend_from_slice(host.as_bytes());
    payload.extend_from_slice(&port.to_be_bytes());
    payload.extend_from_slice(&varint(next));
    frame(0x00, &payload)
}

#[test]
fn frame_round_trip_reports_exact_span() {
    let payload = [0xDE, 0xAD, 0xBE, 0xEF];
    let bytes = frame(0x00, &payload);
    let p = Packet::decode(&bytes, ConnectionState::Handshake).unwrap();
    assert_eq!(p.packet_type, PacketType::HandshakeServerboundStart);
    assert_eq!(p.data, payload.to_vec());
    assert_eq!(p.raw_size, bytes.len());
}

#[test]
fn phase_id_scoping() {
    assert_eq!(
        Packet::packet_id_to_type(0x00, ConnectionState::Handshake).unwrap(),
        PacketType::HandshakeServerboundStart
    );
    assert_eq!(
        Packet::packet_id_to_type(0x00, ConnectionState::Status).unwrap(),
        PacketType::StatusServerboundRequest
    );
    assert_eq!(
        Packet::packet_id_to_type(0x01, ConnectionState::Status).unwrap(),
        PacketType::StatusServerboundPing
    );
    assert_eq!(
        Packet::packet_id_to_type(0x00, ConnectionState::Login).unwrap(),
        PacketType::LoginServerboundStart
    );
    assert!(matches!(
        Packet::packet_id_to_type(0x00, ConnectionState::Play),
        Err(DecodingError::InvalidPacketId(0x00, ConnectionState::Play))
    ));
    let bytes = frame(0x00, &[]);
    assert!(matches!(
        Packet::decode(&bytes, ConnectionState::Play),
        Err(DecodingError::InvalidPacketId(0x00, ConnectionState::Play))
    ));
}

#[test]
fn outbound_registry_ids() {
    assert_eq!(
        Packet::packet_type_to_id(PacketType::StatusClientboundResponse).unwrap(),
        0x00
    );
    assert_eq!(
        Packet::packet_type_to_id(PacketType::StatusClientboundPong).unwrap(),
        0x01
    );
    assert_eq!(
        Packet::packet_type_to_id(PacketType::LoginClientboundSuccess).unwrap(),
        0x02
    );
    assert!(matches!(
        Packet::packet_type_to_id(PacketType::HandshakeServerboundStart),
        Err(DecodingError::InvalidClientboundPacket(
            PacketType::HandshakeServerboundStart
        ))
    ));
}

#[test]
fn incomplete_frame_leaves_buffer_untouched() {
    // declared length 5, only 2 payload bytes present
    let bytes = vec![5, 0x00, 0x01];
    assert!(matches!(
        Packet::decode(&bytes, ConnectionState::Status),
        Err(DecodingError::PacketTooSmall)
    ));
    assert_eq!(bytes, vec![5, 0x00, 0x01]);

    let mut conn = Connection::create();
    conn.state = ConnectionState::Status;
    let out = conn.data_read(&bytes).unwrap();
    assert!(out.is_empty());
    assert_eq!(conn.current_packet, bytes);
    assert_eq!(conn.state, ConnectionState::Status);
}

#[test]
fn oversized_length_varint_is_fatal() {
    let bytes = vec![0x80, 0x80, 0x80, 0x80, 0x80];
    assert!(matches!(
        Packet::decode(&bytes, ConnectionState::Status),
        Err(DecodingError::VarIntTooBig)
    ));
}

#[test]
fn status_request_yields_fixed_json_document() {
    let mut conn = Connection::create();
    conn.state = ConnectionState::Status;
    let out = conn.data_read(&frame(0x00, &[])).unwrap();
    let frames = split_frames(&out);
    assert_eq!(frames.len(), 1);
    let (id, payload) = &frames[0];
    assert_eq!(*id, 0x00);
    let mut expected = varint(STATUS_JSON.len() as u32);
    expected.extend_from_slice(STATUS_JSON.as_bytes());
    assert_eq!(payload, &expected);
    assert_eq!(conn.state, ConnectionState::Status);
    assert!(conn.current_packet.is_empty());
}

#[test]
fn ping_echoes_value() {
    let mut conn = Connection::create();
    conn.state = ConnectionState::Status;
    let value = 0x1122334455667788u64;
    let out = conn.data_read(&frame(0x01, &value.to_be_bytes())).unwrap();
    let frames = split_frames(&out);
    assert_eq!(frames.len(), 1);
    assert_eq!(frames[0].0, 0x01);
    assert_eq!(frames[0].1, value.to_be_bytes().to_vec());
    assert_eq!(conn.state, ConnectionState::Status);
}

#[test]
fn fragmentation_invariance_byte_by_byte() {
    let bytes = frame(0x01, &7u64.to_be_bytes());

    let mut whole = Connection::create();
    whole.state = ConnectionState::Status;
    let out_whole = whole.data_read(&bytes).unwrap();

    let mut chunked = Connection::create();
    chunked.state = ConnectionState::Status;
    let mut collected = vec![];
    for (i, b) in bytes.iter().enumerate() {
        let out = chunked.data_read(&[*b]).unwrap();
        if i + 1 < bytes.len() {
            assert!(out.is_empty(), "no output before the frame completes");
            assert_eq!(chunked.current_packet, bytes[..i + 1].to_vec());
            assert_eq!(chunked.state, ConnectionState::Status);
        }
        collected.extend_from_slice(&out);
    }
    assert_eq!(collected, out_whole);
    assert!(chunked.current_packet.is_empty());
}

#[test]
fn fragmentation_invariance_split_points() {
    let bytes = frame(0x00, &[]);
    let mut whole = Connection::create();
    whole.state = ConnectionState::Status;
    let out_whole = whole.data_read(&bytes).unwrap();

    for split in 1..bytes.len() {
        let mut conn = Connection::create();
        conn.state = ConnectionState::Status;
        let first = conn.data_read(&bytes[..split]).unwrap();
        assert!(first.is_empty());
        let second = conn.data_read(&bytes[split..]).unwrap();
        assert_eq!(second, out_whole);
    }
}

#[test]
fn handshake_selects_status_phase() {
    let mut conn = Connection::create();
    let out = conn
        .data_read(&handshake_frame(762, "localhost", 25565, 1))
        .unwrap();
    assert!(out.is_empty());
    assert_eq!(conn.state, ConnectionState::Status);
}

#[test]
fn handshake_unknown_selector_disconnects() {
    let mut conn = Connection::create();
    let out = conn
        .data_read(&handshake_frame(762, "localhost", 25565, 7))
        .unwrap();
    assert!(out.is_empty());
    assert_eq!(conn.state, ConnectionState::Disconnected);
}

#[test]
fn login_scenario_reaches_play_with_bootstrap() {
    let mut conn = Connection::create();

    let out = conn
        .data_read(&handshake_frame(762, "localhost", 25565, 2))
        .unwrap();
    assert!(out.is_empty());
    assert_eq!(conn.state, ConnectionState::Login);

    let mut payload = varint(5);
    payload.extend_from_slice(b"Alice");
    payload.push(0x00); // no identifier supplied
    let out = conn.data_read(&frame(0x00, &payload)).unwrap();
    assert_eq!(conn.state, ConnectionState::Play);

    let frames = split_frames(&out);
    assert_eq!(frames.len(), 5, "login success plus four bootstrap packets");

    // login success: a fresh version-4 identifier, then the name
    let (id, success) = &frames[0];
    assert_eq!(*id, 0x02);
    let msb = u64::from_be_bytes(success[0..8].try_into().unwrap());
    let lsb = u64::from_be_bytes(success[8..16].try_into().unwrap());
    assert_eq!((msb >> 12) & 0xF, 4, "version nibble of a random identifier");
    assert_eq!(lsb >> 62, 0b10, "RFC 4122 variant bits");
    assert_eq!(success[16], 5);
    assert_eq!(&success[17..22], b"Alice");
    assert_eq!(success[22], 0);
    assert_eq!(success.len(), 23);

    // world/login bootstrap carries the decoded registry blob
    let (id, play) = &frames[1];
    assert_eq!(*id, 0x28);
    let nbt = base64::engine::general_purpose::STANDARD
        .decode(NBT_B64)
        .unwrap();
    let needle = nbt.as_slice();
    assert!(
        play.windows(needle.len()).any(|w| w == needle),
        "bootstrap contains the registry blob"
    );
    assert_eq!(&play[0..4], &12i32.to_be_bytes());

    assert_eq!(frames[2].0, 0x0C);
    assert_eq!(frames[2].1, vec![2, 0]);

    assert_eq!(frames[3].0, 0x34);
    let mut abilities = vec![0u8];
    abilities.extend_from_slice(&0.05f32.to_be_bytes());
    abilities.extend_from_slice(&0.1f32.to_be_bytes());
    assert_eq!(frames[3].1, abilities);

    assert_eq!(frames[4].0, 0x50);
    let mut spawn = 100u64.to_be_bytes().to_vec();
    spawn.extend_from_slice(&0.0f32.to_be_bytes());
    assert_eq!(frames[4].1, spawn);
}

#[test]
fn login_with_supplied_identifier_echoes_it() {
    let mut conn = Connection::create();
    conn.state = ConnectionState::Login;
    let mut payload = varint(3);
    payload.extend_from_slice(b"Bob");
    payload.push(0x01);
    payload.extend_from_slice(&0xAAAAAAAAAAAAAAAAu64.to_be_bytes());
    payload.extend_from_slice(&0x5555555555555555u64.to_be_bytes());
    let out = conn.data_read(&frame(0x00, &payload)).unwrap();
    let frames = split_frames(&out);
    let success = &frames[0].1;
    assert_eq!(
        u64::from_be_bytes(success[0..8].try_into().unwrap()),
        0xAAAAAAAAAAAAAAAA
    );
    assert_eq!(
        u64::from_be_bytes(success[8..16].try_into().unwrap()),
        0x5555555555555555
    );
}

#[test]
fn oversized_name_tears_the_connection_down() {
    let mut conn = Connection::create();
    conn.state = ConnectionState::Login;
    let mut payload = varint(17);
    payload.extend_from_slice(&[b'x'; 17]);
    payload.push(0x00);
    assert!(matches!(
        conn.data_read(&frame(0x00, &payload)),
        Err(DecodingError::StringTooLarge)
    ));
}

#[test]
fn declared_length_larger_than_delivered_parks_connection() {
    let mut conn = Connection::create();
    conn.state = ConnectionState::Status;
    // a frame declaring 100 bytes, of which only a handful ever arrive
    let mut bytes = varint(100);
    bytes.extend_from_slice(&[0x00, 0x01, 0x02]);
    let out = conn.data_read(&bytes).unwrap();
    assert!(out.is_empty());
    assert_eq!(conn.state, ConnectionState::Status);
    assert_eq!(conn.current_packet, bytes);

    // still parked after a little more data
    let out = conn.data_read(&[0x03, 0x04]).unwrap();
    assert!(out.is_empty());
    assert_eq!(conn.state, ConnectionState::Status);
    assert_eq!(conn.current_packet.len(), bytes.len() + 2);
}

#[test]
fn two_frames_in_one_read_are_handled_in_order() {
    let mut conn = Connection::create();
    conn.state = ConnectionState::Status;
    let mut bytes = frame(0x01, &1u64.to_be_bytes());
    bytes.extend_from_slice(&frame(0x01, &2u64.to_be_bytes()));
    let out = conn.data_read(&bytes).unwrap();
    let frames = split_frames(&out);
    assert_eq!(frames.len(), 2);
    assert_eq!(frames[0].1, 1u64.to_be_bytes().to_vec());
    assert_eq!(frames[1].1, 2u64.to_be_bytes().to_vec());
    assert!(conn.current_packet.is_empty());
}

#[test]
fn disconnected_is_terminal_and_idempotent() {
    let mut conn = Connection::create();
    conn.disconnect();
    assert_eq!(conn.state, ConnectionState::Disconnected);
    conn.disconnect();
    assert_eq!(conn.state, ConnectionState::Disconnected);
    // no further decode happens once disconnected
    let out = conn.data_read(&frame(0x00, &[])).unwrap();
    assert!(out.is_empty());
    assert_eq!(conn.state, ConnectionState::Disconnected);
}

#[test]
fn handler_wired_for_wrong_phase_id_is_rejected() {
    // a status-ping id sent during login is unknown there
    let mut conn = Connection::create();
    conn.state = ConnectionState::Login;
    assert!(matches!(
        conn.data_read(&frame(0x01, &7u64.to_be_bytes())),
        Err(DecodingError::InvalidPacketId(0x01, ConnectionState::Login))
    ));
}

#[test]
fn id_encoding_overrunning_declared_length_is_fatal() {
    // the frame declares one byte, but the id's encoding takes two
    let mut bytes = vec![1];
    bytes.extend_from_slice(&[0x80, 0x00]);
    assert!(matches!(
        Packet::decode(&bytes, ConnectionState::Handshake),
        Err(DecodingError::InvalidPacketId(0x00, ConnectionState::Handshake))
    ));
}

#[test]
fn non_canonical_id_encoding_still_resolves() {
    // id zero spelled over two bytes, within the declared length
    let mut bytes = vec![2];
    bytes.extend_from_slice(&[0x80, 0x00]);
    let p = Packet::decode(&bytes, ConnectionState::Status).unwrap();
    assert_eq!(p.packet_type, PacketType::StatusServerboundRequest);
    assert!(p.data.is_empty());
    assert_eq!(p.raw_size, 3);
}
