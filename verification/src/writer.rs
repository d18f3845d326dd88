//! The write side of the field codec: an append-only byte buffer with one
//! method per wire primitive. Writes never fail on valid in-memory values;
//! each contract states the exact bytes appended.

use vstd::prelude::*;
use vstd::string::StringSliceAdditionalSpecFns;
use vstd::utf8::encode_utf8;

use crate::codec::{
    be32_bytes, be64_bytes, lemma_varint_bytes_shape, position_word, varint_bytes,
};
use crate::packet::{clientbound_id_spec, Packet, PacketType, UuidBits};

verus! {

/// The wire form of a length-prefixed string: the UTF-8 byte count as a
/// variable-length integer, then the UTF-8 bytes, no terminator.
pub open spec fn string_bytes(s: Seq<char>) -> Seq<u8> {
    varint_bytes(encode_utf8(s).len() as u32) + encode_utf8(s)
}

/// An append-only buffer of outbound bytes.
pub struct PacketWriter {
    pub buf: Vec<u8>,
}

impl View for PacketWriter {
    type V = Seq<u8>;

    open spec fn view(&self) -> Seq<u8> {
        self.buf@
    }
}

impl PacketWriter {
    pub fn create(capacity: usize) -> (r: Self)
        ensures
            r@ == Seq::<u8>::empty(),
    {
        PacketWriter { buf: Vec::with_capacity(capacity) }
    }

    /// Write the numeric id a clientbound packet type is registered under;
    /// sending a type with no assigned id is a programming error the caller
    /// rules out.
    pub fn write_packet_type(&mut self, packet_type: PacketType)
        requires
            clientbound_id_spec(packet_type) is Some,
        ensures
            final(self)@ == old(self)@ + varint_bytes(clientbound_id_spec(packet_type)->0 as u32),
    {
        match Packet::packet_type_to_id(packet_type) {
            Ok(id) => {
                self.write_var_int(id);
                proof {
                    let i = clientbound_id_spec(packet_type)->0;
                    assert(0 <= i <= 0x50);
                    assert((id as u32) == i as u32);
                }
            },
            Err(_) => {
                proof {
                    assert(false);
                }
            },
        }
    }

    pub fn write_byte(&mut self, byte: u8)
        ensures
            final(self)@ == old(self)@ + seq![byte],
    {
        self.buf.push(byte);
        proof {
            assert(self@ =~= old(self)@ + seq![byte]);
        }
    }

    pub fn write_boolean(&mut self, boolean: bool)
        ensures
            final(self)@ == old(self)@ + seq![(if boolean { 1u8 } else { 0u8 })],
    {
        self.write_byte(if boolean { 1 } else { 0 });
    }

    /// Four bytes, big-endian.
    pub fn write_int(&mut self, value: i32)
        ensures
            final(self)@ == old(self)@ + be32_bytes(value as u32),
    {
        let v: u32 = value as u32;
        self.buf.reserve(4);

        self.write_byte((v >> 24u32) as u8);
        self.write_byte(#[verifier::truncate] ((v >> 16u32) as u8));
        self.write_byte(#[verifier::truncate] ((v >> 8u32) as u8));
        self.write_byte(#[verifier::truncate] (v as u8));
        proof {
            assert(self@ =~= old(self)@ + be32_bytes(v));
        }
    }

    /// Eight bytes, big-endian.
    pub fn write_long(&mut self, value: i64)
        ensures
            final(self)@ == old(self)@ + be64_bytes(value as u64),
    {
        let v: u64 = value as u64;
        self.buf.reserve(8);

        self.write_byte((v >> 56u64) as u8);
        self.write_byte(#[verifier::truncate] ((v >> 48u64) as u8));
        self.write_byte(#[verifier::truncate] ((v >> 40u64) as u8));
        self.write_byte(#[verifier::truncate] ((v >> 32u64) as u8));

        self.write_byte(#[verifier::truncate] ((v >> 24u64) as u8));
        self.write_byte(#[verifier::truncate] ((v >> 16u64) as u8));
        self.write_byte(#[verifier::truncate] ((v >> 8u64) as u8));
        self.write_byte(#[verifier::truncate] (v as u8));
        proof {
            assert(self@ =~= old(self)@ + be64_bytes(v));
        }
    }

    /// Four bytes, big-endian: the IEEE-754 bit pattern of a 32-bit float,
    /// supplied by the caller as bits.
    pub fn write_float_bits(&mut self, bits: u32)
        ensures
            final(self)@ == old(self)@ + be32_bytes(bits),
    {
        self.buf.reserve(4);

        self.write_byte((bits >> 24u32) as u8);
        self.write_byte(#[verifier::truncate] ((bits >> 16u32) as u8));
        self.write_byte(#[verifier::truncate] ((bits >> 8u32) as u8));
        self.write_byte(#[verifier::truncate] (bits as u8));
        proof {
            assert(self@ =~= old(self)@ + be32_bytes(bits));
        }
    }

    /// The packed position word: 26-bit X, 26-bit Z, 12-bit Y.
    pub fn write_position(&mut self, x: i32, y: i16, z: i32)
        ensures
            final(self)@ == old(self)@ + be64_bytes(position_word(x, y, z) as u64),
    {
        self.write_long(
            (((x as i64) & 0x3FFFFFFi64) << 38i64) | (((z as i64) & 0x3FFFFFFi64) << 12i64) | ((
            y as i64) & 0xFFFi64),
        );
    }

    /// The 7-bit-group encoding: low groups first, continuation flag on every
    /// byte but the last.
    pub fn write_var_int(&mut self, value: i32)
        ensures
            final(self)@ == old(self)@ + varint_bytes(value as u32),
    {
        let mut current_value: u32 = value as u32;

        loop
            invariant
                old(self)@ + varint_bytes(value as u32) == self@ + varint_bytes(current_value),
            decreases current_value,
        {
            if current_value & !0x7Fu32 == 0 {
                proof {
                    assert((current_value & !0x7Fu32 == 0) == (current_value < 0x80))
                        by (bit_vector);
                }
                self.write_byte(#[verifier::truncate] (current_value as u8));
                proof {
                    assert(varint_bytes(current_value) =~= seq![current_value as u8]);
                    assert(self@ =~= old(self)@ + varint_bytes(value as u32));
                }
                return ;
            }

            proof {
                assert((current_value & !0x7Fu32 != 0) == (current_value >= 0x80)) by (bit_vector);
                assert(((current_value & 0x7F) | 0x80) == (current_value % 0x80) + 0x80)
                    by (bit_vector);
                assert(current_value >> 7u32 == current_value / 0x80) by (bit_vector);
                assert(varint_bytes(current_value) =~= seq![((current_value % 0x80)
                    + 0x80) as u8] + varint_bytes(current_value / 0x80));
            }
            self.write_byte(#[verifier::truncate] (((current_value & 0x7F) | 0x80) as u8));

            current_value = current_value >> 7u32;
        }
    }

    /// A length-prefixed UTF-8 string: byte count, then the bytes.
    pub fn write_string(&mut self, str: &str)
        ensures
            final(self)@ == old(self)@ + string_bytes(str@),
    {
        let bytes = str.as_bytes();
        let n = bytes.len();
        proof {
            assert(((n as i32) as u32) == (n as u32)) by (bit_vector);
        }
        self.write_var_int(#[verifier::truncate] (n as i32));
        self.write_bytes(bytes);
        proof {
            assert(self@ =~= old(self)@ + string_bytes(str@));
        }
    }

    /// Raw bytes, appended as they stand.
    pub fn write_bytes(&mut self, data: &[u8])
        ensures
            final(self)@ == old(self)@ + data@,
    {
        self.buf.extend_from_slice(data);
    }

    /// Two big-endian 64-bit halves, most significant first.
    pub fn write_uuid(&mut self, uuid: UuidBits)
        ensures
            final(self)@ == old(self)@ + be64_bytes(uuid.msb) + be64_bytes(uuid.lsb),
    {
        let msb = uuid.msb;
        let lsb = uuid.lsb;
        proof {
            assert(((msb as i64) as u64) == msb) by (bit_vector);
            assert(((lsb as i64) as u64) == lsb) by (bit_vector);
        }
        self.write_long(msb as i64);
        self.write_long(lsb as i64);
    }

    pub fn len(&self) -> (r: usize)
        ensures
            r == self@.len(),
    {
        self.buf.len()
    }

    pub fn reset(&mut self)
        ensures
            final(self)@ == Seq::<u8>::empty(),
    {
        self.buf.clear();
        proof {
            assert(self@ =~= Seq::<u8>::empty());
        }
    }
}

} // verus!
