use mcframe::packet::{DecodingError, UuidBits};
use mcframe::reader::PacketReader;
use mcframe::writer::PacketWriter;

fn roundtrip_varint(x: i32) -> i32 {
    let mut w = PacketWriter::create(8);
    w.write_var_int(x);
    let buf = w.buf;
    let mut r = PacketReader::create(&buf);
    let decoded = r.read_varint().expect("varint must decode");
    assert_eq!(r.left_to_read(), 0, "whole encoding consumed");
    decoded
}

#[test]
fn varint_round_trip_samples() {
    for x in [
        0,
        1,
        2,
        127,
        128,
        255,
        300,
        762,
        25565,
        2097151,
        2147483647,
        -1,
        -2147483648,
        -25565,
    ] {
        assert_eq!(roundtrip_varint(x), x);
    }
}

#[test]
fn varint_known_encodings() {
    let mut w = PacketWriter::create(8);
    w.write_var_int(0);
    assert_eq!(w.buf, vec![0x00]);
    w.reset();
    w.write_var_int(300);
    assert_eq!(w.buf, vec![0xAC, 0x02]);
    w.reset();
    w.write_var_int(-1);
    assert_eq!(w.buf, vec![0xFF, 0xFF, 0xFF, 0xFF, 0x0F]);
}

#[test]
fn varint_too_big_rejected() {
    let buf = vec![0x80, 0x80, 0x80, 0x80, 0x80, 0x01];
    let mut r = PacketReader::create(&buf);
    assert!(matches!(r.read_varint(), Err(DecodingError::VarIntTooBig)));
}

#[test]
fn varint_incomplete_is_too_small() {
    let buf = vec![0x80, 0x80];
    let mut r = PacketReader::create(&buf);
    assert!(matches!(r.read_varint(), Err(DecodingError::PacketTooSmall)));
}

#[test]
fn varint_with_size_reports_consumed() {
    let buf = vec![0xAC, 0x02, 0x7F];
    let mut r = PacketReader::create(&buf);
    let (v, n) = r.read_varint_with_size().unwrap();
    assert_eq!((v, n), (300, 2));
}

#[test]
fn read_boolean_zero_and_nonzero() {
    let buf = vec![0x00, 0x01, 0x2A];
    let mut r = PacketReader::create(&buf);
    assert_eq!(r.read_boolean().unwrap(), false);
    assert_eq!(r.read_boolean().unwrap(), true);
    assert_eq!(r.read_boolean().unwrap(), true);
    assert!(matches!(
        r.read_boolean(),
        Err(DecodingError::PacketTooSmall)
    ));
}

#[test]
fn read_short_big_endian() {
    let buf = vec![0x63, 0xDD];
    let mut r = PacketReader::create(&buf);
    assert_eq!(r.read_short().unwrap(), 25565);
}

#[test]
fn read_short_too_small() {
    let buf = vec![0x63];
    let mut r = PacketReader::create(&buf);
    assert!(matches!(r.read_short(), Err(DecodingError::StringTooSmall)));
}

#[test]
fn read_long_big_endian() {
    let buf = vec![0x01, 0x02, 0x03, 0x04, 0x05, 0x06, 0x07, 0x08];
    let mut r = PacketReader::create(&buf);
    assert_eq!(r.read_long().unwrap(), 0x0102030405060708);
    let buf2 = vec![0xFF; 8];
    let mut r2 = PacketReader::create(&buf2);
    assert_eq!(r2.read_long().unwrap(), -1);
}

#[test]
fn read_long_rejects_partial_field() {
    let buf = vec![0x01, 0x02, 0x03];
    let mut r = PacketReader::create(&buf);
    assert!(matches!(r.read_long(), Err(DecodingError::StringTooSmall)));
}

#[test]
fn read_string_decodes_utf8() {
    let mut buf = vec![0x05];
    buf.extend_from_slice(b"Alice");
    let mut r = PacketReader::create(&buf);
    assert_eq!(r.read_string(16).unwrap(), "Alice");
}

#[test]
fn string_bound_enforced_before_availability() {
    // declared length 17 exceeds the bound of 16 even though the buffer has
    // nowhere near 17 bytes
    let buf = vec![17, b'a', b'b'];
    let mut r = PacketReader::create(&buf);
    assert!(matches!(
        r.read_string(16),
        Err(DecodingError::StringTooLarge)
    ));
}

#[test]
fn string_shorter_than_declared_is_too_small() {
    let buf = vec![5, b'a', b'b'];
    let mut r = PacketReader::create(&buf);
    assert!(matches!(
        r.read_string(16),
        Err(DecodingError::StringTooSmall)
    ));
}

#[test]
fn string_invalid_utf8_rejected() {
    let buf = vec![2, 0xC3, 0x28];
    let mut r = PacketReader::create(&buf);
    assert!(matches!(
        r.read_string(16),
        Err(DecodingError::StringInvalidUtf8)
    ));
}

#[test]
fn read_uuid_combines_two_longs() {
    let mut buf = vec![];
    buf.extend_from_slice(&0x0123456789ABCDEFu64.to_be_bytes());
    buf.extend_from_slice(&0xFEDCBA9876543210u64.to_be_bytes());
    let mut r = PacketReader::create(&buf);
    let u = r.read_uuid().unwrap();
    assert_eq!(u.msb, 0x0123456789ABCDEF);
    assert_eq!(u.lsb, 0xFEDCBA9876543210);
}

#[test]
fn read_optional_absent_and_present() {
    let buf = vec![0x00];
    let mut r = PacketReader::create(&buf);
    assert_eq!(r.read_optional().unwrap(), None);

    let mut buf2 = vec![0x01];
    buf2.extend_from_slice(&7u64.to_be_bytes());
    buf2.extend_from_slice(&9u64.to_be_bytes());
    let mut r2 = PacketReader::create(&buf2);
    assert_eq!(
        r2.read_optional().unwrap(),
        Some(UuidBits { msb: 7, lsb: 9 })
    );
}

#[test]
fn write_int_and_long_big_endian() {
    let mut w = PacketWriter::create(16);
    w.write_int(12);
    assert_eq!(w.buf, vec![0, 0, 0, 12]);
    w.reset();
    w.write_int(-1);
    assert_eq!(w.buf, vec![0xFF, 0xFF, 0xFF, 0xFF]);
    w.reset();
    w.write_long(0x7D42D4473EB771F9);
    assert_eq!(w.buf, 0x7D42D4473EB771F9u64.to_be_bytes().to_vec());
}

#[test]
fn write_boolean_and_byte() {
    let mut w = PacketWriter::create(4);
    w.write_boolean(true);
    w.write_boolean(false);
    w.write_byte(0x2A);
    assert_eq!(w.buf, vec![1, 0, 0x2A]);
}

#[test]
fn write_position_packs_bit_fields() {
    let mut w = PacketWriter::create(8);
    w.write_position(0, 100, 0);
    assert_eq!(w.buf, 100u64.to_be_bytes().to_vec());
    w.reset();
    // X in bits 38-63, Z in bits 12-37, Y in the low 12 bits
    w.write_position(1, 2, 3);
    let word = (1u64 << 38) | (3u64 << 12) | 2u64;
    assert_eq!(w.buf, word.to_be_bytes().to_vec());
    w.reset();
    w.write_position(-1, -1, -1);
    let packed = ((-1i64 & 0x3FFFFFF) << 38) | ((-1i64 & 0x3FFFFFF) << 12) | (-1i64 & 0xFFF);
    assert_eq!(w.buf, (packed as u64).to_be_bytes().to_vec());
}

#[test]
fn write_float_bits_matches_ieee754() {
    let mut w = PacketWriter::create(4);
    w.write_float_bits(0.05f32.to_bits());
    assert_eq!(w.buf, 0.05f32.to_be_bytes().to_vec());
    assert_eq!(0.05f32.to_bits(), mcframe::connection::FLY_SPEED_BITS);
    assert_eq!(0.1f32.to_bits(), mcframe::connection::FOV_MODIFIER_BITS);
}

#[test]
fn write_string_prefixes_byte_length() {
    let mut w = PacketWriter::create(16);
    w.write_string("Alice");
    let mut expected = vec![5];
    expected.extend_from_slice(b"Alice");
    assert_eq!(w.buf, expected);
}

#[test]
fn write_uuid_two_halves() {
    let mut w = PacketWriter::create(16);
    w.write_uuid(UuidBits {
        msb: 0x0123456789ABCDEF,
        lsb: 0xFEDCBA9876543210,
    });
    let mut expected = 0x0123456789ABCDEFu64.to_be_bytes().to_vec();
    expected.extend_from_slice(&0xFEDCBA9876543210u64.to_be_bytes());
    assert_eq!(w.buf, expected);
}

#[test]
fn writer_len_and_reset() {
    let mut w = PacketWriter::create(4);
    w.write_int(7);
    assert_eq!(w.len(), 4);
    w.reset();
    assert_eq!(w.len(), 0);
}

#[test]
fn try_read_all_and_ensure_at_least() {
    let buf = vec![1, 2, 3, 4];
    let mut r = PacketReader::create(&buf);
    assert!(r.ensure_at_least(4).is_ok());
    assert!(r.ensure_at_least(5).is_err());
    let mut out = vec![0u8; 3];
    r.try_read_all(&mut out).unwrap();
    assert_eq!(out, vec![1, 2, 3]);
    assert_eq!(r.left_to_read(), 1);
    let mut too_much = vec![0u8; 2];
    assert!(matches!(
        r.try_read_all(&mut too_much),
        Err(DecodingError::StringTooSmall)
    ));
    assert_eq!(r.try_read_one().unwrap(), 4);
    assert!(matches!(
        r.try_read_one(),
        Err(DecodingError::PacketTooSmall)
    ));
}
