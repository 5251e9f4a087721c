//! Properties that relate packing, encoding and decoding.
use vstd::prelude::*;

use crate::codec::{
    byte_value, chunk_byte, decoded, embedded, lemma_chunk_byte_prefix, lsb, lsbs, with_lsb,
    weighted_sum,
};
use crate::packer::{bits_of, byte_bits, lemma_bits_of_len, packed, TERMINATOR};

verus! {

/// Reading back the bits of a byte, most significant first, gives the byte.
pub proof fn lemma_byte_bits_value(b: u8)
    ensures
        byte_value(byte_bits(b)) == b,
{
    reveal_with_fuel(weighted_sum, 9);
    let s = byte_bits(b);
    assert(byte_value(s) == (if b & 128 != 0 { 128int } else { 0 }) + (if b & 64 != 0 { 64int } else { 0 }) + (if b & 32 != 0 { 32int } else { 0 }) + (if b & 16 != 0 { 16int } else { 0 }) + (if b & 8 != 0 { 8int } else { 0 }) + (if b & 4 != 0 { 4int } else { 0 }) + (if b & 2 != 0 { 2int } else { 0 }) + (if b & 1 != 0 { 1int } else { 0 }));
    assert((if b & 128 != 0 { 128int } else { 0 }) + (if b & 64 != 0 { 64int } else { 0 }) + (if b & 32 != 0 { 32int } else { 0 }) + (if b & 16 != 0 { 16int } else { 0 }) + (if b & 8 != 0 { 8int } else { 0 }) + (if b & 4 != 0 { 4int } else { 0 }) + (if b & 2 != 0 { 2int } else { 0 }) + (if b & 1 != 0 { 1int } else { 0 }) == b) by (bit_vector);
}

/// Setting the low bit of a byte to `bit` makes the low bit read `bit`.
pub proof fn lemma_with_lsb_reads_back(b: u8, bit: bool)
    ensures
        lsb(with_lsb(b, bit)) == bit,
{
    assert((b | 1) % 2 == 1) by (bit_vector);
    assert((b & 254) % 2 == 0) by (bit_vector);
}

/// Bit `k` of group `j` of `bits_of(bytes)` is bit `k` of byte `j`.
pub proof fn lemma_bits_of_index(bytes: Seq<u8>, j: int, k: int)
    requires
        0 <= j < bytes.len(),
        0 <= k < 8,
    ensures
        bits_of(bytes)[8 * j + k] == byte_bits(bytes[j])[k],
    decreases bytes.len(),
{
    let init = bytes.drop_last();
    lemma_bits_of_len(init);
    if j < bytes.len() - 1 {
        lemma_bits_of_index(init, j, k);
    }
}

/// Two buffers whose first eight bytes agree carry the same first byte.
pub proof fn lemma_chunk_byte_same(x: Seq<u8>, y: Seq<u8>)
    requires
        x.len() >= 8,
        y.len() >= 8,
        forall|k: int| 0 <= k < 8 ==> x[k] == y[k],
    ensures
        chunk_byte(x) == chunk_byte(y),
{
    let flags = lsbs(x).take(8);
    lemma_chunk_byte_prefix(x, flags);
    lemma_chunk_byte_prefix(y, flags);
}

/// Decoding the buffer that hides `p` from group `j` on gives the rest of `p`.
proof fn lemma_decode_embedded_from(buf: Seq<u8>, p: Seq<u8>, j: int)
    requires
        8 * (p.len() + 1) <= buf.len(),
        forall|i: int| 0 <= i < p.len() ==> p[i] != TERMINATOR,
        0 <= j <= p.len(),
    ensures
        decoded(embedded(buf, packed(p)).skip(8 * j)) == p.skip(j),
    decreases p.len() - j,
{
    let q = p.push(TERMINATOR);
    let bits = packed(p);
    lemma_bits_of_len(q);
    let s = embedded(buf, bits);
    let rest = s.skip(8 * j);
    let flags = byte_bits(q[j]);
    assert forall|k: int| 0 <= k < 8 implies flags[k] == lsb(rest[k]) by {
        lemma_bits_of_index(q, j, k);
        lemma_with_lsb_reads_back(buf[8 * j + k], bits[8 * j + k]);
    }
    lemma_chunk_byte_prefix(rest, flags);
    lemma_byte_bits_value(q[j]);
    if j < p.len() {
        lemma_decode_embedded_from(buf, p, j + 1);
        assert(rest.skip(8) == s.skip(8 * (j + 1)));
        assert(p.skip(j) == seq![p[j]] + p.skip(j + 1));
    } else {
        assert(p.skip(j) == Seq::<u8>::empty());
    }
}

/// Round trip: hiding a payload that holds no terminator byte in a buffer
/// large enough for it, then decoding the buffer, gives the payload back.
pub proof fn lemma_round_trip(buf: Seq<u8>, p: Seq<u8>)
    requires
        8 * (p.len() + 1) <= buf.len(),
        forall|i: int| 0 <= i < p.len() ==> p[i] != TERMINATOR,
    ensures
        decoded(embedded(buf, packed(p))) == p,
{
    lemma_decode_embedded_from(buf, p, 0);
    assert(embedded(buf, packed(p)).skip(0) == embedded(buf, packed(p)));
    assert(p.skip(0) == p);
}

/// Decoding stops at a terminator: when the last group of eight bytes of `a`
/// carries the terminator, nothing placed after `a` changes what is decoded.
pub proof fn lemma_decode_ignores_after_terminator(a: Seq<u8>, b: Seq<u8>)
    requires
        a.len() >= 8,
        a.len() % 8 == 0,
        chunk_byte(a.skip(a.len() - 8)) == TERMINATOR,
    ensures
        decoded(a + b) == decoded(a),
    decreases a.len(),
{
    let ab = a + b;
    lemma_chunk_byte_same(a, ab);
    if a.len() == 8 {
        assert(a.skip(0) == a);
    } else if chunk_byte(a) != TERMINATOR {
        let tail = a.skip(8);
        assert(tail.skip(tail.len() - 8) == a.skip(a.len() - 8));
        lemma_decode_ignores_after_terminator(tail, b);
        assert(ab.skip(8) == tail + b);
    }
}

/// Packing is a function of the payload alone: equal payloads pack to equal bits.
pub proof fn lemma_pack_deterministic(p: Seq<u8>, q: Seq<u8>)
    requires
        p == q,
    ensures
        packed(p) == packed(q),
{
}

/// The empty payload packs to the eight bits of the terminator alone, and
/// hiding it in any buffer of at least eight bytes decodes to nothing.
pub proof fn lemma_empty_payload(buf: Seq<u8>)
    requires
        buf.len() >= 8,
    ensures
        packed(Seq::empty()) == seq![false, false, false, false, false, true, false, false],
        decoded(embedded(buf, packed(Seq::empty()))) == Seq::<u8>::empty(),
{
    let q = Seq::<u8>::empty().push(TERMINATOR);
    assert(q.drop_last() == Seq::<u8>::empty());
    assert(q.last() == TERMINATOR);
    assert(bits_of(Seq::<u8>::empty()) == Seq::<bool>::empty());
    assert(Seq::<bool>::empty() + byte_bits(TERMINATOR) == byte_bits(TERMINATOR));
    assert(bits_of(q) == byte_bits(TERMINATOR));
    let t = TERMINATOR;
    assert(t & 128 == 0 && t & 64 == 0 && t & 32 == 0 && t & 16 == 0 && t & 8 == 0 && t & 4 != 0
        && t & 2 == 0 && t & 1 == 0) by (bit_vector)
        requires
            t == 4,
    ;
    assert(byte_bits(TERMINATOR) == seq![false, false, false, false, false, true, false, false]);
    lemma_round_trip(buf, Seq::empty());
}

} // verus!
