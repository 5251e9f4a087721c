//! Turning a payload into the bit sequence that is hidden in the image.
use vstd::prelude::*;

verus! {

/// The byte that marks the end of a hidden payload (ASCII end of transmission).
pub const TERMINATOR: u8 = 4;

/// The eight bits of `b`, most significant first.
pub open spec fn byte_bits(b: u8) -> Seq<bool> {
    seq![
        b & 128 != 0,
        b & 64 != 0,
        b & 32 != 0,
        b & 16 != 0,
        b & 8 != 0,
        b & 4 != 0,
        b & 2 != 0,
        b & 1 != 0,
    ]
}

/// The bits of every byte of `bytes`, in order, each byte most significant bit first.
pub open spec fn bits_of(bytes: Seq<u8>) -> Seq<bool>
    decreases bytes.len(),
{
    if bytes.len() == 0 {
        Seq::empty()
    } else {
        bits_of(bytes.drop_last()) + byte_bits(bytes.last())
    }
}

/// The bit sequence hidden for `payload`: its bytes followed by the terminator.
pub open spec fn packed(payload: Seq<u8>) -> Seq<bool> {
    bits_of(payload.push(TERMINATOR))
}

/// Appends the eight bits of `num` to `bits`, most significant first.
pub fn add_bits(num: u8, bits: &mut Vec<bool>)
    ensures
        final(bits)@ == old(bits)@ + byte_bits(num),
{
    let place_vals: [u8; 8] = [128, 64, 32, 16, 8, 4, 2, 1];
    let ghost start = bits@;
    let mut k: usize = 0;
    while k < 8
        invariant
            0 <= k <= 8,
            place_vals@ == seq![128u8, 64, 32, 16, 8, 4, 2, 1],
            bits@ == start + byte_bits(num).take(k as int),
        decreases 8 - k,
    {
        let pv = place_vals[k];
        bits.push(num & pv != 0);
        proof {
            assert(byte_bits(num).take(k + 1) == byte_bits(num).take(k as int).push(num & pv != 0));
        }
        k = k + 1;
    }
    proof {
        assert(byte_bits(num).take(8) == byte_bits(num));
    }
}

/// Each byte contributes exactly eight bits.
pub proof fn lemma_bits_of_len(bytes: Seq<u8>)
    ensures
        bits_of(bytes).len() == 8 * bytes.len(),
    decreases bytes.len(),
{
    if bytes.len() > 0 {
        lemma_bits_of_len(bytes.drop_last());
    }
}

/// Packs `payload` into bits: each byte most significant bit first, then the
/// bits of the terminator. The result has `8 * (payload.len() + 1)` bits.
pub fn pack(payload: &[u8]) -> (r: Vec<bool>)
    requires
        8 * (payload@.len() + 1) <= usize::MAX,
    ensures
        r@ == packed(payload@),
        r@.len() == 8 * (payload@.len() + 1),
{
    let mut bits: Vec<bool> = Vec::with_capacity(8 * (payload.len() + 1));
    let mut i: usize = 0;
    while i < payload.len()
        invariant
            0 <= i <= payload@.len(),
            bits@ == bits_of(payload@.take(i as int)),
        decreases payload@.len() - i,
    {
        add_bits(payload[i], &mut bits);
        proof {
            let t = payload@.take(i + 1);
            assert(t.drop_last() == payload@.take(i as int));
        }
        i = i + 1;
    }
    add_bits(TERMINATOR, &mut bits);
    proof {
        let full = payload@.push(TERMINATOR);
        assert(payload@.take(i as int) == payload@);
        assert(full.drop_last() == payload@);
        lemma_bits_of_len(full);
    }
    bits
}

} // verus!
