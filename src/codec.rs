//! Writing a bit sequence into the low bits of a channel buffer, and reading
//! a payload back out of one.
use vstd::prelude::*;

use crate::packer::{pack, packed, TERMINATOR};

verus! {

/// The channel buffer has fewer bytes than there are bits to hide.
#[derive(Debug, Clone, Copy, PartialEq, Eq, Structural)]
pub struct CapacityError {
    /// How many channel bytes the bit sequence needs: one per bit.
    pub needed: usize,
    /// How many channel bytes the buffer has.
    pub available: usize,
}

/// `b` with its least significant bit set to `bit` and its other seven bits kept.
pub open spec fn with_lsb(b: u8, bit: bool) -> u8 {
    if bit {
        b | 1
    } else {
        b & 254
    }
}

/// The buffer after hiding `bits` in it: channel byte `i` carries bit `i` in
/// its low bit, and every byte past the last bit is left as it was.
pub open spec fn embedded(buf: Seq<u8>, bits: Seq<bool>) -> Seq<u8> {
    Seq::new(buf.len(), |i: int| if i < bits.len() { with_lsb(buf[i], bits[i]) } else { buf[i] })
}

/// Hides `bits` in the low bits of the first `bits.len()` bytes of
/// `channel_buffer`. Fails, leaving the buffer untouched, when the buffer has
/// fewer bytes than there are bits.
pub fn encode(channel_buffer: &mut Vec<u8>, bits: &[bool]) -> (r: Result<(), CapacityError>)
    ensures
        r is Err <==> bits@.len() > old(channel_buffer)@.len(),
        r matches Err(e) ==> e.needed == bits@.len() && e.available == old(channel_buffer)@.len(),
        r is Err ==> final(channel_buffer)@ == old(channel_buffer)@,
        r is Ok ==> final(channel_buffer)@ == embedded(old(channel_buffer)@, bits@),
        r is Ok ==> final(channel_buffer)@.len() == old(channel_buffer)@.len(),
        r is Ok ==> forall|i: int|
            bits@.len() <= i < old(channel_buffer)@.len()
                ==> final(channel_buffer)@[i] == old(channel_buffer)@[i],
{
    if bits.len() > channel_buffer.len() {
        return Err(CapacityError { needed: bits.len(), available: channel_buffer.len() });
    }
    let ghost original = channel_buffer@;
    let mut i: usize = 0;
    while i < bits.len()
        invariant
            0 <= i <= bits@.len() <= original.len(),
            channel_buffer@.len() == original.len(),
            forall|j: int| 0 <= j < i ==> channel_buffer@[j] == with_lsb(original[j], bits@[j]),
            forall|j: int| i <= j < original.len() ==> channel_buffer@[j] == original[j],
        decreases bits@.len() - i,
    {
        let byte = channel_buffer[i];
        channel_buffer.set(i, if bits[i] { byte | 1 } else { byte & 254 });
        i = i + 1;
    }
    proof {
        assert(channel_buffer@ == embedded(original, bits@));
    }
    Ok(())
}

/// Packs `payload` and hides its bits, terminator included, in
/// `channel_buffer`. Fails, leaving the buffer untouched, when the buffer has
/// fewer than `8 * (payload.len() + 1)` bytes; the error then reports that
/// count, or `usize::MAX` where it does not fit.
pub fn encode_payload(channel_buffer: &mut Vec<u8>, payload: &[u8]) -> (r: Result<(), CapacityError>)
    ensures
        r is Err <==> 8 * (payload@.len() + 1) > old(channel_buffer)@.len(),
        r matches Err(e) ==> {
            &&& e.available == old(channel_buffer)@.len()
            &&& e.needed == if 8 * (payload@.len() + 1) <= usize::MAX {
                8 * (payload@.len() + 1)
            } else {
                usize::MAX as nat
            }
        },
        r is Err ==> final(channel_buffer)@ == old(channel_buffer)@,
        r is Ok ==> final(channel_buffer)@ == embedded(old(channel_buffer)@, packed(payload@)),
{
    if payload.len() >= channel_buffer.len() / 8 {
        let needed: usize = if payload.len() < usize::MAX / 8 {
            8 * (payload.len() + 1)
        } else {
            usize::MAX
        };
        return Err(CapacityError { needed, available: channel_buffer.len() });
    }
    let bits = pack(payload);
    encode(channel_buffer, bits.as_slice())
}

/// The weight of bit `k` of a byte, counting from the most significant bit.
pub open spec fn place_value(k: int) -> int {
    if k == 0 {
        128
    } else if k == 1 {
        64
    } else if k == 2 {
        32
    } else if k == 3 {
        16
    } else if k == 4 {
        8
    } else if k == 5 {
        4
    } else if k == 6 {
        2
    } else {
        1
    }
}

/// The sum of the weights of the set bits among the first `n` of `bits`.
pub open spec fn weighted_sum(bits: Seq<bool>, n: int) -> int
    decreases n,
{
    if n <= 0 {
        0
    } else {
        weighted_sum(bits, n - 1) + if bits[n - 1] {
            place_value(n - 1)
        } else {
            0
        }
    }
}

/// The byte whose bits, most significant first, are the first eight of `bits`.
pub open spec fn byte_value(bits: Seq<bool>) -> int {
    weighted_sum(bits, 8)
}

/// True when the low bit of `b` is set.
pub open spec fn lsb(b: u8) -> bool {
    b % 2 == 1
}

/// The low bits of the channel bytes of `chunk`, in order.
pub open spec fn lsbs(chunk: Seq<u8>) -> Seq<bool> {
    chunk.map_values(|b: u8| lsb(b))
}

/// The byte carried by the low bits of the first eight bytes of `chunk`.
pub open spec fn chunk_byte(chunk: Seq<u8>) -> u8 {
    byte_value(lsbs(chunk)) as u8
}

/// The payload recovered from `buf`: its bytes are read eight at a time, each
/// group giving one byte; reading stops before the first group that gives the
/// terminator, or when fewer than eight bytes are left.
pub open spec fn decoded(buf: Seq<u8>) -> Seq<u8>
    decreases buf.len(),
{
    if buf.len() < 8 {
        Seq::empty()
    } else if chunk_byte(buf) == TERMINATOR {
        Seq::empty()
    } else {
        seq![chunk_byte(buf)] + decoded(buf.skip(8))
    }
}

/// A weighted sum over `n` bits stays within the sum of their weights.
proof fn lemma_weighted_sum_bound(bits: Seq<bool>, n: int)
    requires
        0 <= n <= 8,
    ensures
        0 <= weighted_sum(bits, n),
        weighted_sum(bits, n) + (if n < 8 { 2 * place_value(n) } else { 1 }) <= 256,
    decreases n,
{
    if n > 0 {
        lemma_weighted_sum_bound(bits, n - 1);
    }
}

/// Builds a byte from eight flags, most significant first: flag `i` sets
/// bit `7 - i` when it is non-zero.
pub fn make_u8(bits: [u8; 8]) -> (r: u8)
    ensures
        r as int == byte_value(bits@.map_values(|x: u8| x > 0)),
{
    let place_vals: [u8; 8] = [128, 64, 32, 16, 8, 4, 2, 1];
    let ghost flags = bits@.map_values(|x: u8| x > 0);
    let mut sum: u8 = 0;
    let mut i: usize = 0;
    while i < 8
        invariant
            0 <= i <= 8,
            place_vals@ == seq![128u8, 64, 32, 16, 8, 4, 2, 1],
            flags == bits@.map_values(|x: u8| x > 0),
            sum as int == weighted_sum(flags, i as int),
        decreases 8 - i,
    {
        proof {
            lemma_weighted_sum_bound(flags, i as int);
            assert(place_vals@[i as int] as int == place_value(i as int));
        }
        if bits[i] > 0 {
            sum = sum + place_vals[i];
        }
        i = i + 1;
    }
    sum
}

/// Only the first eight low bits of a buffer decide the byte it carries.
pub proof fn lemma_chunk_byte_prefix(buf: Seq<u8>, flags: Seq<bool>)
    requires
        buf.len() >= 8,
        flags.len() == 8,
        forall|k: int| 0 <= k < 8 ==> flags[k] == lsb(buf[k]),
    ensures
        byte_value(flags) == byte_value(lsbs(buf)),
{
    let l = lsbs(buf);
    assert forall|n: int| 0 <= n <= 8 implies weighted_sum(flags, n) == weighted_sum(l, n) by {
        lemma_weighted_sum_prefix(flags, l, n);
    }
}

/// Weighted sums over bit sequences that agree on their first eight bits agree.
pub proof fn lemma_weighted_sum_prefix(a: Seq<bool>, b: Seq<bool>, n: int)
    requires
        0 <= n <= 8,
        a.len() >= 8,
        b.len() >= 8,
        forall|k: int| 0 <= k < 8 ==> a[k] == b[k],
    ensures
        weighted_sum(a, n) == weighted_sum(b, n),
    decreases n,
{
    if n > 0 {
        lemma_weighted_sum_prefix(a, b, n - 1);
    }
}

/// Recovers the payload hidden in `channel_buffer`: the low bits of each group
/// of eight channel bytes give one byte, most significant first. Reading stops
/// at the first terminator, which is not part of the result, and ignores a
/// last group of fewer than eight bytes. A buffer without a terminator gives
/// every whole byte it holds.
pub fn decode(channel_buffer: &[u8]) -> (r: Vec<u8>)
    ensures
        r@ == decoded(channel_buffer@),
        forall|j: int| 0 <= j < r@.len() ==> r@[j] != TERMINATOR,
{
    let ghost whole = channel_buffer@;
    let mut out: Vec<u8> = Vec::new();
    let mut i: usize = 0;
    proof {
        assert(whole.skip(0) == whole);
        assert(out@ + decoded(whole) == decoded(whole));
    }
    while channel_buffer.len() - i >= 8
        invariant_except_break
            0 <= i <= whole.len(),
            channel_buffer@ == whole,
            decoded(whole) == out@ + decoded(whole.skip(i as int)),
        ensures
            decoded(whole) == out@,
        decreases whole.len() - i,
    {
        let cur_byte: [u8; 8] = [
            channel_buffer[i] % 2,
            channel_buffer[i + 1] % 2,
            channel_buffer[i + 2] % 2,
            channel_buffer[i + 3] % 2,
            channel_buffer[i + 4] % 2,
            channel_buffer[i + 5] % 2,
            channel_buffer[i + 6] % 2,
            channel_buffer[i + 7] % 2,
        ];
        let dec = make_u8(cur_byte);
        let ghost rest = whole.skip(i as int);
        proof {
            let flags = cur_byte@.map_values(|x: u8| x > 0);
            assert forall|k: int| 0 <= k < 8 implies flags[k] == lsb(rest[k]) by {
                assert(cur_byte@[k] == rest[k] % 2);
            }
            lemma_chunk_byte_prefix(rest, flags);
            assert(rest.skip(8) == whole.skip(i + 8));
        }
        if dec == TERMINATOR {
            proof {
                assert(out@ + Seq::<u8>::empty() == out@);
            }
            break;
        }
        proof {
            assert(out@.push(dec) + decoded(rest.skip(8)) == out@ + (seq![dec] + decoded(rest.skip(8))));
        }
        out.push(dec);
        i = i + 8;
    }
    proof {
        lemma_decoded_no_terminator(whole);
    }
    out
}

/// No byte of a decoded payload is the terminator.
pub proof fn lemma_decoded_no_terminator(buf: Seq<u8>)
    ensures
        forall|j: int| 0 <= j < decoded(buf).len() ==> decoded(buf)[j] != TERMINATOR,
    decreases buf.len(),
{
    if buf.len() >= 8 && chunk_byte(buf) != TERMINATOR {
        lemma_decoded_no_terminator(buf.skip(8));
        let d = decoded(buf);
        assert forall|j: int| 0 <= j < d.len() implies d[j] != TERMINATOR by {
            if j > 0 {
                assert(d[j] == decoded(buf.skip(8))[j - 1]);
            }
        }
    }
}

} // verus!
