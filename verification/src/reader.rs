//! The read side of the field codec: a cursor over a borrowed byte buffer
//! with one method per wire primitive, each failing with the distinguishable
//! condition the protocol prescribes when the buffer is short or malformed.

use vstd::prelude::*;
use vstd::utf8::{decode_utf8, valid_utf8};

use crate::codec::{
    lead_cont, lemma_lead_cont_at_least, lemma_lead_cont_of, lemma_pow128_small,
    lemma_varint_num_bound, lemma_varint_num_push, pow128, varint_incomplete, varint_num,
    varint_ok, varint_oversized, varint_size, varint_value_at, be16_value, be64_value,
};
use crate::outside::utf8_to_string;
use crate::packet::{DecodingError, UuidBits};

verus! {

/// The bytes a length-prefixed string field occupies after its length
/// prefix: the prefix's value, counted from behind the prefix.
pub open spec fn string_payload(s: Seq<u8>) -> Seq<u8> {
    s.skip(varint_size(s) as int).take(varint_value_at(s) as int)
}

/// A string field at the front of `s` reads back successfully under the
/// character bound `max`: length prefix readable, within the bound, bytes
/// present and valid UTF-8.
pub open spec fn string_read_ok(s: Seq<u8>, max: int) -> bool {
    &&& varint_ok(s)
    &&& varint_value_at(s) <= max
    &&& varint_size(s) + varint_value_at(s) <= s.len()
    &&& valid_utf8(string_payload(s))
}

/// What follows a string field: the bytes after its prefix and payload.
pub open spec fn string_rest(s: Seq<u8>) -> Seq<u8> {
    s.skip((varint_size(s) + varint_value_at(s)) as int)
}

/// The characters a string field decodes to.
pub open spec fn string_chars(s: Seq<u8>) -> Seq<char> {
    decode_utf8(string_payload(s))
}

/// Which error a variable-length integer read at the front of `s` reports,
/// None when it succeeds.
pub open spec fn varint_err(s: Seq<u8>) -> Option<DecodingError> {
    if varint_incomplete(s) {
        Some(DecodingError::PacketTooSmall)
    } else if varint_oversized(s) {
        Some(DecodingError::VarIntTooBig)
    } else {
        None
    }
}

/// Which error a string read at the front of `s` under the bound `max`
/// reports, None when it succeeds: the bound is checked before
/// availability, availability before the bytes' encoding.
pub open spec fn string_err(s: Seq<u8>, max: int) -> Option<DecodingError> {
    if varint_err(s) is Some {
        varint_err(s)
    } else if varint_value_at(s) > max {
        Some(DecodingError::StringTooLarge)
    } else if varint_size(s) + varint_value_at(s) > s.len() {
        Some(DecodingError::StringTooSmall)
    } else if !valid_utf8(string_payload(s)) {
        Some(DecodingError::StringInvalidUtf8)
    } else {
        None
    }
}

/// A cursor over a borrowed buffer; reads consume from the front.
pub struct PacketReader<'a> {
    pub buf: &'a Vec<u8>,
    pub reader_index: usize,
}

impl<'a> PacketReader<'a> {
    /// The cursor has not run past the end of the buffer.
    pub open spec fn wf(self) -> bool {
        self.reader_index <= self.buf@.len()
    }

    /// The bytes not yet consumed.
    pub open spec fn remaining(self) -> Seq<u8> {
        self.buf@.skip(self.reader_index as int)
    }

    pub fn create(buf: &'a Vec<u8>) -> (r: Self)
        ensures
            r.wf(),
            r.buf@ == buf@,
            r.reader_index == 0,
            r.remaining() == buf@,
    {
        proof {
            assert(buf@.skip(0) =~= buf@);
        }
        PacketReader { buf, reader_index: 0 }
    }

    pub fn left_to_read(&self) -> (r: usize)
        requires
            self.wf(),
        ensures
            r == self.remaining().len(),
    {
        self.buf.len() - self.reader_index
    }

    /// Report StringTooSmall unless `len` more bytes are available.
    pub fn ensure_at_least(&self, len: usize) -> (r: Result<(), DecodingError>)
        requires
            self.wf(),
        ensures
            r is Ok <==> len <= self.remaining().len(),
            r is Err ==> r->Err_0 == DecodingError::StringTooSmall,
    {
        if len > self.buf.len() - self.reader_index {
            Err(DecodingError::StringTooSmall)
        } else {
            Ok(())
        }
    }

    /// Consume one byte; the caller has checked that one is there.
    pub fn read_one_unsafe(&mut self) -> (r: u8)
        requires
            old(self).wf(),
            old(self).remaining().len() >= 1,
        ensures
            final(self).wf(),
            final(self).buf@ == old(self).buf@,
            final(self).reader_index == old(self).reader_index + 1,
            r == old(self).remaining()[0],
    {
        let total = self.buf.len();
        let result = self.buf[self.reader_index];
        self.reader_index += 1;
        result
    }

    pub fn try_read_one(&mut self) -> (r: Result<u8, DecodingError>)
        requires
            old(self).wf(),
        ensures
            final(self).wf(),
            final(self).buf@ == old(self).buf@,
            match r {
                Ok(b) => old(self).remaining().len() >= 1 && b == old(self).remaining()[0]
                    && final(self).reader_index == old(self).reader_index + 1,
                Err(e) => e == DecodingError::PacketTooSmall && old(self).remaining().len() == 0
                    && final(self).reader_index == old(self).reader_index,
            },
    {
        if self.reader_index >= self.buf.len() {
            Err(DecodingError::PacketTooSmall)
        } else {
            Ok(self.read_one_unsafe())
        }
    }

    /// Fill `out` from the front of the remaining bytes, consuming exactly
    /// `out.len()` of them, or report StringTooSmall and consume nothing.
    pub fn try_read_all(&mut self, out: &mut Vec<u8>) -> (r: Result<(), DecodingError>)
        requires
            old(self).wf(),
        ensures
            final(self).wf(),
            final(self).buf@ == old(self).buf@,
            match r {
                Ok(_) => old(out)@.len() <= old(self).remaining().len() && final(out)@ == old(
                    self,
                ).remaining().take(old(out)@.len() as int) && final(self).reader_index == old(
                    self,
                ).reader_index + old(out)@.len(),
                Err(e) => e == DecodingError::StringTooSmall && old(out)@.len() > old(
                    self,
                ).remaining().len() && final(out)@ == old(out)@ && final(self).reader_index == old(
                    self,
                ).reader_index,
            },
    {
        let len = out.len();
        match self.ensure_at_least(len) {
            Ok(_) => {},
            Err(e) => {
                return Err(e);
            },
        }

        out.clear();
        let mut i: usize = 0;
        while i < len
            invariant
                i <= len,
                len <= old(self).remaining().len(),
                self.wf(),
                self.buf@ == old(self).buf@,
                self.reader_index == old(self).reader_index + i,
                out@ =~= old(self).remaining().take(i as int),
            decreases len - i,
        {
            let b = self.read_one_unsafe();
            out.push(b);
            i += 1;
            proof {
                assert(out@ =~= old(self).remaining().take(i as int));
            }
        }

        Ok(())
    }

    /// Decode one variable-length integer: 7 bits per byte at increasing
    /// shifts until a byte's continuation bit is clear, at most five bytes.
    pub fn read_varint(&mut self) -> (r: Result<i32, DecodingError>)
        requires
            old(self).wf(),
        ensures
            final(self).wf(),
            final(self).buf@ == old(self).buf@,
            match r {
                Ok(v) => varint_ok(old(self).remaining()) && final(self).reader_index == old(
                    self,
                ).reader_index + varint_size(old(self).remaining()) && v as u32 == varint_value_at(
                    old(self).remaining(),
                ),
                Err(DecodingError::PacketTooSmall) => varint_incomplete(old(self).remaining())
                    && final(self).reader_index == old(self).reader_index + old(
                    self,
                ).remaining().len(),
                Err(DecodingError::VarIntTooBig) => varint_oversized(old(self).remaining())
                    && final(self).reader_index == old(self).reader_index + 5,
                Err(_) => false,
            },
    {
        let ghost s = old(self).remaining();
        let mut value: u64 = 0;
        let mut mult: u64 = 1;
        let mut count: usize = 0;

        proof {
            lemma_pow128_small();
        }

        loop
            invariant
                self.wf(),
                self.buf@ == old(self).buf@,
                self.reader_index == old(self).reader_index + count,
                s == old(self).remaining(),
                count <= 4,
                count <= s.len(),
                mult == pow128(count as nat),
                value == varint_num(s.take(count as int)),
                value < 0x1000_0000,
                forall|j: int| 0 <= j < count ==> s[j] >= 0x80,
            decreases 5 - count,
        {
            proof {
                lemma_pow128_small();
                assert(self.remaining() =~= s.skip(count as int));
            }
            let current_byte = match self.try_read_one() {
                Ok(b) => b,
                Err(e) => {
                    proof {
                        lemma_lead_cont_of(s, count as int);
                    }
                    return Err(e);
                },
            };
            assert(current_byte == s[count as int]);

            let group: u64 = (current_byte & 0x7f) as u64;
            proof {
                assert((current_byte & 0x7f) <= 0x7f) by (bit_vector);
                assert(mult * group <= 0x1000_0000 * 0x7f) by (nonlinear_arith)
                    requires
                        mult <= 0x1000_0000,
                        group <= 0x7f,
                ;
                lemma_varint_num_push(s.take(count as int), current_byte);
                assert(s.take(count as int).push(s[count as int]) =~= s.take(count as int + 1));
            }
            value = value + mult * group;

            if current_byte & 0x80 == 0 {
                proof {
                    assert((current_byte & 0x80 == 0) == (current_byte < 0x80)) by (bit_vector);
                    lemma_lead_cont_of(s, count as int);
                    lemma_varint_num_bound(s.take(count as int + 1));
                }
                let truncated: u32 = #[verifier::truncate] (value as u32);
                proof {
                    assert(truncated == value % 0x1_0000_0000) by (bit_vector)
                        requires
                            truncated == value as u32,
                    ;
                    let out: u32 = truncated;
                    assert((out as i32) as u32 == out) by (bit_vector);
                }
                return Ok(truncated as i32);
            }
            proof {
                assert((current_byte & 0x80 != 0) == (current_byte >= 0x80)) by (bit_vector);
            }

            count += 1;

            if count == 5 {
                proof {
                    lemma_lead_cont_at_least(s, 5);
                }
                return Err(DecodingError::VarIntTooBig);
            }
            proof {
                assert(pow128(count as nat) == 128 * pow128((count - 1) as nat));
                lemma_varint_num_bound(s.take(count as int));
            }
            mult = mult * 128;
        }
    }

    /// As read_varint, also reporting how many bytes the encoding occupied.
    pub fn read_varint_with_size(&mut self) -> (r: Result<(i32, usize), DecodingError>)
        requires
            old(self).wf(),
        ensures
            final(self).wf(),
            final(self).buf@ == old(self).buf@,
            match r {
                Ok(v) => varint_ok(old(self).remaining()) && v.1 == varint_size(
                    old(self).remaining(),
                ) && final(self).reader_index == old(self).reader_index + v.1 && v.0 as u32
                    == varint_value_at(old(self).remaining()),
                Err(DecodingError::PacketTooSmall) => varint_incomplete(old(self).remaining())
                    && final(self).reader_index == old(self).reader_index + old(
                    self,
                ).remaining().len(),
                Err(DecodingError::VarIntTooBig) => varint_oversized(old(self).remaining())
                    && final(self).reader_index == old(self).reader_index + 5,
                Err(_) => false,
            },
    {
        let index_before = self.reader_index;
        match self.read_varint() {
            Ok(varint) => Ok((varint, self.reader_index - index_before)),
            Err(e) => Err(e),
        }
    }

    /// Read a length-prefixed UTF-8 string whose declared character count may
    /// not exceed `max_length`; the bound is enforced before availability.
    pub fn read_string(&mut self, max_length: usize) -> (r: Result<String, DecodingError>)
        requires
            old(self).wf(),
        ensures
            final(self).wf(),
            final(self).buf@ == old(self).buf@,
            ({
                let s = old(self).remaining();
                match r {
                    Ok(st) => varint_ok(s) && varint_value_at(s) <= max_length && varint_size(s)
                        + varint_value_at(s) <= s.len() && valid_utf8(string_payload(s)) && st@
                        == decode_utf8(string_payload(s)) && final(self).reader_index == old(
                        self,
                    ).reader_index + varint_size(s) + varint_value_at(s),
                    Err(DecodingError::PacketTooSmall) => varint_incomplete(s),
                    Err(DecodingError::VarIntTooBig) => varint_oversized(s),
                    Err(DecodingError::StringTooLarge) => varint_ok(s) && varint_value_at(s)
                        > max_length,
                    Err(DecodingError::StringTooSmall) => varint_ok(s) && varint_value_at(s)
                        <= max_length && varint_size(s) + varint_value_at(s) > s.len(),
                    Err(DecodingError::StringInvalidUtf8) => varint_ok(s) && varint_value_at(s)
                        <= max_length && varint_size(s) + varint_value_at(s) <= s.len()
                        && !valid_utf8(string_payload(s)),
                    Err(_) => false,
                }
            }),
    {
        let ghost s = old(self).remaining();
        let size_i = match self.read_varint() {
            Ok(v) => v,
            Err(e) => {
                return Err(e);
            },
        };
        let size: usize = (size_i as u32) as usize;
        if size > max_length {
            return Err(DecodingError::StringTooLarge);
        }

        match self.ensure_at_least(size) {
            Ok(_) => {},
            Err(_) => {
                return Err(DecodingError::StringTooSmall);
            },
        }
        proof {
            assert(self.remaining() =~= s.skip(varint_size(s) as int));
        }

        let mut bytes: Vec<u8> = Vec::new();
        let mut i: usize = 0;
        let ghost mid = self.reader_index;
        while i < size
            invariant
                i <= size,
                self.wf(),
                self.buf@ == old(self).buf@,
                self.reader_index == mid + i,
                size <= self.buf@.len() - mid,
                bytes@ =~= self.buf@.skip(mid as int).take(i as int),
            decreases size - i,
        {
            let b = self.read_one_unsafe();
            bytes.push(b);
            i += 1;
            proof {
                assert(bytes@ =~= self.buf@.skip(mid as int).take(i as int));
            }
        }
        proof {
            assert(bytes@ =~= string_payload(s));
        }

        match utf8_to_string(bytes.as_slice()) {
            Some(str) => Ok(str),
            None => Err(DecodingError::StringInvalidUtf8),
        }
    }

    /// One byte: zero is false, anything else is true.
    pub fn read_boolean(&mut self) -> (r: Result<bool, DecodingError>)
        requires
            old(self).wf(),
        ensures
            final(self).wf(),
            final(self).buf@ == old(self).buf@,
            match r {
                Ok(b) => old(self).remaining().len() >= 1 && b == (old(self).remaining()[0] != 0)
                    && final(self).reader_index == old(self).reader_index + 1,
                Err(e) => e == DecodingError::PacketTooSmall && old(self).remaining().len() == 0
                    && final(self).reader_index == old(self).reader_index,
            },
    {
        match self.try_read_one() {
            Ok(value) => Ok(value != 0),
            Err(e) => Err(e),
        }
    }

    /// Two bytes, big-endian, unsigned.
    pub fn read_short(&mut self) -> (r: Result<u16, DecodingError>)
        requires
            old(self).wf(),
        ensures
            final(self).wf(),
            final(self).buf@ == old(self).buf@,
            match r {
                Ok(v) => old(self).remaining().len() >= 2 && v == be16_value(old(self).remaining())
                    && final(self).reader_index == old(self).reader_index + 2,
                Err(e) => e == DecodingError::StringTooSmall && old(self).remaining().len() < 2
                    && final(self).reader_index == old(self).reader_index,
            },
    {
        match self.ensure_at_least(2) {
            Ok(_) => {},
            Err(e) => {
                return Err(e);
            },
        }

        let b0 = self.read_one_unsafe();
        let b1 = self.read_one_unsafe();
        assert(b1 == old(self).remaining()[1]);
        let result = ((b0 as u16) << 8u16) | (b1 as u16);

        Ok(result)
    }

    /// Eight bytes, big-endian, signed.
    pub fn read_long(&mut self) -> (r: Result<i64, DecodingError>)
        requires
            old(self).wf(),
        ensures
            final(self).wf(),
            final(self).buf@ == old(self).buf@,
            match r {
                Ok(v) => old(self).remaining().len() >= 8 && v as u64 == be64_value(
                    old(self).remaining(),
                ) && final(self).reader_index == old(self).reader_index + 8,
                Err(e) => e == DecodingError::StringTooSmall && old(self).remaining().len() < 8
                    && final(self).reader_index == old(self).reader_index,
            },
    {
        match self.ensure_at_least(8) {
            Ok(_) => {},
            Err(e) => {
                return Err(e);
            },
        }

        let b0 = self.read_one_unsafe();
        let b1 = self.read_one_unsafe();
        let b2 = self.read_one_unsafe();
        let b3 = self.read_one_unsafe();
        let b4 = self.read_one_unsafe();
        let b5 = self.read_one_unsafe();
        let b6 = self.read_one_unsafe();
        let b7 = self.read_one_unsafe();
        proof {
            assert(b1 == old(self).remaining()[1] && b2 == old(self).remaining()[2] && b3 == old(
                self,
            ).remaining()[3] && b4 == old(self).remaining()[4] && b5 == old(self).remaining()[5]
                && b6 == old(self).remaining()[6] && b7 == old(self).remaining()[7]);
        }

        let result: u64 = ((b0 as u64) << 56u64) | ((b1 as u64) << 48u64) | ((b2 as u64) << 40u64)
            | ((b3 as u64) << 32u64) | ((b4 as u64) << 24u64) | ((b5 as u64) << 16u64) | ((
        b6 as u64) << 8u64) | (b7 as u64);
        proof {
            let out: u64 = result;
            assert((out as i64) as u64 == out) by (bit_vector);
        }

        Ok(result as i64)
    }

    /// Two consecutive big-endian 64-bit halves, most significant first.
    pub fn read_uuid(&mut self) -> (r: Result<UuidBits, DecodingError>)
        requires
            old(self).wf(),
        ensures
            final(self).wf(),
            final(self).buf@ == old(self).buf@,
            match r {
                Ok(u) => old(self).remaining().len() >= 16 && u.msb == be64_value(
                    old(self).remaining(),
                ) && u.lsb == be64_value(old(self).remaining().skip(8)) && final(self).reader_index == old(self).reader_index + 16,
                Err(e) => e == DecodingError::StringTooSmall && old(self).remaining().len() < 16,
            },
    {
        let ghost s = old(self).remaining();
        let msb_i = match self.read_long() {
            Ok(v) => v,
            Err(e) => {
                return Err(e);
            },
        };
        proof {
            assert(self.remaining() =~= s.skip(8));
        }
        let lsb_i = match self.read_long() {
            Ok(v) => v,
            Err(e) => {
                return Err(e);
            },
        };

        Ok(UuidBits { msb: msb_i as u64, lsb: lsb_i as u64 })
    }

    /// A leading boolean deciding whether a 128-bit identifier follows.
    pub fn read_optional(&mut self) -> (r: Result<Option<UuidBits>, DecodingError>)
        requires
            old(self).wf(),
        ensures
            final(self).wf(),
            final(self).buf@ == old(self).buf@,
            ({
                let s = old(self).remaining();
                match r {
                    Ok(opt) => match opt {
                        None => s.len() >= 1 && s[0] == 0 && final(self).reader_index == old(
                            self,
                        ).reader_index + 1,
                        Some(u) => s.len() >= 17 && s[0] != 0 && u.msb == be64_value(s.skip(1))
                            && u.lsb == be64_value(s.skip(9)) && final(self).reader_index == old(
                            self,
                        ).reader_index + 17,
                    },
                    Err(DecodingError::PacketTooSmall) => s.len() == 0,
                    Err(DecodingError::StringTooSmall) => s.len() >= 1 && s[0] != 0 && s.len()
                        < 17,
                    Err(_) => false,
                }
            }),
    {
        let ghost s = old(self).remaining();
        let present = match self.read_boolean() {
            Ok(b) => b,
            Err(e) => {
                return Err(e);
            },
        };
        if present {
            proof {
                assert(self.remaining() =~= s.skip(1));
            }
            match self.read_uuid() {
                Ok(u) => {
                    proof {
                        assert(s.skip(1).skip(8) =~= s.skip(9));
                    }
                    Ok(Some(u))
                },
                Err(e) => Err(e),
            }
        } else {
            Ok(None)
        }
    }
}

} // verus!
