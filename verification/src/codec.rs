//! Byte-level specifications of the wire encodings: the 7-bit-group
//! variable-length integer, big-endian fixed-width integers, and the packed
//! position word, together with the round-trip lemmas about them.

use vstd::prelude::*;

verus! {

/// The canonical encoding of `v` as little-endian 7-bit groups, the high bit
/// of every byte but the last set as a continuation flag.
pub open spec fn varint_bytes(v: u32) -> Seq<u8>
    decreases v,
{
    if v < 0x80 {
        seq![v as u8]
    } else {
        seq![((v % 0x80) + 0x80) as u8] + varint_bytes(v / 0x80)
    }
}

/// How many continuation bytes (high bit set) stand at the front of `s`.
pub open spec fn lead_cont(s: Seq<u8>) -> nat
    decreases s.len(),
{
    if s.len() == 0 {
        0
    } else if s[0] < 0x80 {
        0
    } else {
        1 + lead_cont(s.drop_first())
    }
}

/// The unbounded value of a group sequence: 7 payload bits per byte,
/// least-significant group first.
pub open spec fn varint_num(s: Seq<u8>) -> nat
    decreases s.len(),
{
    if s.len() == 0 {
        0
    } else {
        ((s[0] & 0x7f) as nat) + 128 * varint_num(s.drop_first())
    }
}

/// A buffer starting with a decodable variable-length integer: its
/// terminating byte arrives within the first five.
pub open spec fn varint_ok(s: Seq<u8>) -> bool {
    lead_cont(s) < 5 && lead_cont(s) < s.len()
}

/// A buffer that ran out of bytes before the integer terminated: more input
/// may still complete it.
pub open spec fn varint_incomplete(s: Seq<u8>) -> bool {
    lead_cont(s) == s.len() && s.len() < 5
}

/// A buffer whose first five bytes all carry the continuation flag: the
/// encoding is rejected as oversized no matter what follows.
pub open spec fn varint_oversized(s: Seq<u8>) -> bool {
    lead_cont(s) >= 5
}

/// Byte count of the integer at the front of `s` (meaningful when `varint_ok`).
pub open spec fn varint_size(s: Seq<u8>) -> nat {
    lead_cont(s) + 1
}

/// Value of the integer at the front of `s`, truncated to 32 bits exactly as
/// the decoder's shift-and-or accumulation truncates it.
pub open spec fn varint_value_at(s: Seq<u8>) -> u32 {
    (varint_num(s.take(varint_size(s) as int)) % 0x1_0000_0000) as u32
}

/// 128^n, the weight of the n-th 7-bit group.
pub open spec fn pow128(n: nat) -> nat
    decreases n,
{
    if n == 0 {
        1
    } else {
        128 * pow128((n - 1) as nat)
    }
}

/// Big-endian bytes of fixed-width integers.
pub open spec fn be16_bytes(v: u16) -> Seq<u8> {
    seq![(v >> 8) as u8, v as u8]
}

pub open spec fn be32_bytes(v: u32) -> Seq<u8> {
    seq![(v >> 24) as u8, (v >> 16) as u8, (v >> 8) as u8, v as u8]
}

pub open spec fn be64_bytes(v: u64) -> Seq<u8> {
    seq![
        (v >> 56) as u8,
        (v >> 48) as u8,
        (v >> 40) as u8,
        (v >> 32) as u8,
        (v >> 24) as u8,
        (v >> 16) as u8,
        (v >> 8) as u8,
        v as u8,
    ]
}

/// The value read back from two big-endian bytes.
pub open spec fn be16_value(s: Seq<u8>) -> u16 {
    ((s[0] as u16) << 8) | (s[1] as u16)
}

/// The value read back from eight big-endian bytes.
pub open spec fn be64_value(s: Seq<u8>) -> u64 {
    ((s[0] as u64) << 56) | ((s[1] as u64) << 48) | ((s[2] as u64) << 40) | ((s[3] as u64) << 32)
        | ((s[4] as u64) << 24) | ((s[5] as u64) << 16) | ((s[6] as u64) << 8) | (s[7] as u64)
}

/// The 64-bit word packing a 26-bit X (bits 38-63), 26-bit Z (bits 12-37) and
/// 12-bit Y (bits 0-11).
pub open spec fn position_word(x: i32, y: i16, z: i32) -> i64 {
    (((x as i64) & 0x3FFFFFF) << 38) | (((z as i64) & 0x3FFFFFF) << 12) | ((y as i64) & 0xFFF)
}

pub proof fn lemma_varint_num_push(t: Seq<u8>, b: u8)
    ensures
        varint_num(t.push(b)) == varint_num(t) + pow128(t.len()) * ((b & 0x7f) as nat),
    decreases t.len(),
{
    if t.len() == 0 {
        assert(t.push(b) =~= seq![b]);
        assert(varint_num(seq![b]) == ((b & 0x7f) as nat) + 128 * varint_num(seq![b].drop_first()));
        assert(seq![b].drop_first() =~= Seq::<u8>::empty());
        assert(pow128(0) == 1);
    } else {
        assert(t.push(b).drop_first() =~= t.drop_first().push(b));
        lemma_varint_num_push(t.drop_first(), b);
        assert(varint_num(t.push(b)) == ((t[0] & 0x7f) as nat) + 128 * varint_num(
            t.drop_first().push(b),
        ));
        assert(128 * (varint_num(t.drop_first()) + pow128((t.len() - 1) as nat) * ((b
            & 0x7f) as nat)) == 128 * varint_num(t.drop_first()) + (128 * pow128((t.len()
            - 1) as nat)) * ((b & 0x7f) as nat)) by (nonlinear_arith);
        assert(pow128(t.len()) == 128 * pow128((t.len() - 1) as nat));
    }
}

/// `lead_cont` of a buffer is fixed by the bytes up to and including the first
/// byte without the continuation flag.
pub proof fn lemma_lead_cont_of(s: Seq<u8>, k: int)
    requires
        0 <= k <= s.len(),
        forall|j: int| 0 <= j < k ==> s[j] >= 0x80,
        k < s.len() ==> s[k] < 0x80,
    ensures
        lead_cont(s) == k,
    decreases k,
{
    if s.len() == 0 {
    } else if k == 0 {
    } else {
        lemma_lead_cont_of(s.drop_first(), k - 1);
    }
}

/// At least `k` continuation bytes stand at the front of `s`.
pub proof fn lemma_lead_cont_at_least(s: Seq<u8>, k: int)
    requires
        0 <= k <= s.len(),
        forall|j: int| 0 <= j < k ==> s[j] >= 0x80,
    ensures
        lead_cont(s) >= k,
    decreases k,
{
    if k > 0 {
        lemma_lead_cont_at_least(s.drop_first(), k - 1);
    }
}

/// A group sequence's value is below the weight of the next group.
pub proof fn lemma_varint_num_bound(s: Seq<u8>)
    ensures
        varint_num(s) < pow128(s.len()),
    decreases s.len(),
{
    if s.len() == 0 {
    } else {
        lemma_varint_num_bound(s.drop_first());
        assert(pow128(s.len()) == 128 * pow128((s.len() - 1) as nat));
        let b = s[0];
        assert((b & 0x7f) < 0x80) by (bit_vector);
    }
}

/// The small powers of 128 the five-byte bound turns on.
pub proof fn lemma_pow128_small()
    ensures
        pow128(0) == 1,
        pow128(1) == 0x80,
        pow128(2) == 0x4000,
        pow128(3) == 0x20_0000,
        pow128(4) == 0x1000_0000,
        pow128(5) == 0x8_0000_0000,
{
    assert(pow128(0) == 1);
    assert(pow128(1) == 128 * pow128(0));
    assert(pow128(2) == 128 * pow128(1));
    assert(pow128(3) == 128 * pow128(2));
    assert(pow128(4) == 128 * pow128(3));
    assert(pow128(5) == 128 * pow128(4));
}

/// Every buffer reads back in exactly one of three ways: a value, a retry
/// signal, or an oversized-encoding rejection.
pub proof fn lemma_varint_trichotomy(s: Seq<u8>)
    ensures
        varint_ok(s) || varint_incomplete(s) || varint_oversized(s),
        !(varint_ok(s) && varint_incomplete(s)),
        !(varint_ok(s) && varint_oversized(s)),
        !(varint_incomplete(s) && varint_oversized(s)),
{
    lemma_lead_cont_bytes(s);
}

/// The shape of the canonical encoding: one to five bytes, continuation flags
/// on all but the last, and the groups sum back to the encoded value.
pub proof fn lemma_varint_bytes_shape(v: u32)
    ensures
        1 <= varint_bytes(v).len() <= 5,
        forall|j: int| 0 <= j < varint_bytes(v).len() - 1 ==> #[trigger] varint_bytes(v)[j] >= 0x80,
        varint_bytes(v)[varint_bytes(v).len() - 1] < 0x80,
        varint_num(varint_bytes(v)) == v,
    decreases v,
{
    if v < 0x80 {
        let t = varint_bytes(v);
        assert(t =~= seq![v as u8]);
        assert(t.drop_first() =~= Seq::<u8>::empty());
        let b: u8 = v as u8;
        assert(b < 0x80 ==> (b & 0x7f) == b) by (bit_vector);
        assert(varint_num(t) == ((b & 0x7f) as nat) + 128 * varint_num(t.drop_first()));
        assert(varint_num(t) == v);
    } else {
        let b: u8 = ((v % 0x80) + 0x80) as u8;
        let m: u8 = (v % 0x80) as u8;
        let rest = varint_bytes(v / 0x80);
        lemma_varint_bytes_shape(v / 0x80);
        let t = varint_bytes(v);
        assert(t =~= seq![b] + rest);
        assert(t.drop_first() =~= rest);
        assert(m < 0x80 ==> ((m + 0x80) as u8) >= 0x80 && (((m + 0x80) as u8) & 0x7f) == m)
            by (bit_vector);
        assert(varint_num(t) == ((b & 0x7f) as nat) + 128 * varint_num(rest));
        assert(varint_num(t) == (v % 0x80) as nat + 128 * (v / 0x80) as nat);
        // a five-byte tail would need v / 0x80 >= 128^4 * 0x80, impossible for u32
        assert(pow128(0) == 1);
        assert(pow128(1) == 128 * pow128(0));
        assert(pow128(2) == 128 * pow128(1));
        assert(pow128(3) == 128 * pow128(2));
        lemma_varint_len_bound(v / 0x80, 3);
        assert(rest.len() <= 4);
        assert(forall|j: int| 0 <= j < t.len() - 1 ==> #[trigger] t[j] >= 0x80) by {
            assert(t[0] == b);
            assert(forall|j: int| 1 <= j < t.len() - 1 ==> t[j] == rest[j - 1]);
        }
    }
}

proof fn lemma_varint_len_bound(v: u32, n: nat)
    requires
        n >= 1,
        (v as nat) < pow128(n) * 0x80,
    ensures
        varint_bytes(v).len() <= n + 1,
    decreases n,
{
    if v < 0x80 {
    } else {
        assert(varint_bytes(v).len() == 1 + varint_bytes(v / 0x80).len());
        if n == 1 {
            assert(pow128(1) == 128 * pow128(0) && pow128(0) == 1);
            assert((v / 0x80) < 0x80);
            assert(varint_bytes(v / 0x80).len() == 1);
        } else {
            assert(pow128(n) == 128 * pow128((n - 1) as nat));
            assert(((v / 0x80) as nat) < pow128((n - 1) as nat) * 0x80) by (nonlinear_arith)
                requires
                    (v as nat) < pow128(n) * 0x80,
                    pow128(n) == 128 * pow128((n - 1) as nat),
            ;
            lemma_varint_len_bound(v / 0x80, (n - 1) as nat);
        }
    }
}

/// Round trip: a buffer whose front is the canonical encoding of `v` decodes
/// to exactly `v`, consuming exactly the encoding's bytes, whatever follows.
pub proof fn lemma_varint_round_trip(v: u32, rest: Seq<u8>)
    ensures
        varint_ok(varint_bytes(v) + rest),
        varint_size(varint_bytes(v) + rest) == varint_bytes(v).len(),
        varint_value_at(varint_bytes(v) + rest) == v,
{
    let t = varint_bytes(v);
    let s = t + rest;
    lemma_varint_bytes_shape(v);
    assert(forall|j: int| 0 <= j < t.len() - 1 ==> s[j] >= 0x80);
    assert(s[t.len() - 1] < 0x80);
    lemma_lead_cont_of(s, t.len() - 1);
    assert(s.take(t.len() as int) =~= t);
    assert(varint_num(t) % 0x1_0000_0000 == v);
}

/// The round trip stated for signed 32-bit values, the form the protocol's
/// fields use: decoding the encoding of `x` yields `x` again.
pub proof fn lemma_varint_round_trip_i32(x: i32, rest: Seq<u8>)
    ensures
        varint_ok(varint_bytes(x as u32) + rest),
        varint_size(varint_bytes(x as u32) + rest) == varint_bytes(x as u32).len(),
        varint_value_at(varint_bytes(x as u32) + rest) as i32 == x,
{
    lemma_varint_round_trip(x as u32, rest);
    assert((x as u32) as i32 == x) by (bit_vector);
}

/// Every strict prefix of a buffer holding a complete variable-length integer
/// still reads as incomplete, never as a value or a hard error.
pub proof fn lemma_varint_prefix_incomplete(s: Seq<u8>, k: int)
    requires
        varint_ok(s),
        0 <= k <= lead_cont(s),
    ensures
        varint_incomplete(s.take(k)),
{
    let p = s.take(k);
    assert(forall|j: int| 0 <= j < k ==> p[j] >= 0x80) by {
        assert(forall|j: int| 0 <= j < lead_cont(s) ==> s[j] >= 0x80) by {
            lemma_lead_cont_bytes(s);
        }
    }
    lemma_lead_cont_of(p, k);
}

/// The bytes counted by `lead_cont` all carry the continuation flag, and the
/// byte after them (when there is one) does not.
pub proof fn lemma_lead_cont_bytes(s: Seq<u8>)
    ensures
        lead_cont(s) <= s.len(),
        forall|j: int| 0 <= j < lead_cont(s) ==> s[j] >= 0x80,
        lead_cont(s) < s.len() ==> s[lead_cont(s) as int] < 0x80,
    decreases s.len(),
{
    if s.len() == 0 {
    } else if s[0] < 0x80 {
    } else {
        lemma_lead_cont_bytes(s.drop_first());
        assert(forall|j: int| 1 <= j < lead_cont(s) ==> s[j] == s.drop_first()[j - 1]);
    }
}

} // verus!
