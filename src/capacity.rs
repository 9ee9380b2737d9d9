//! Whether a bit stream fits into a grid's channels.
use vstd::prelude::*;

verus! {

/// The number of channels that carry `bit_len` bits at `bits` bits per channel:
/// `ceil(bit_len / bits)`.
pub open spec fn chunks_needed(bit_len: nat, bits: nat) -> nat
    recommends
        bits >= 1,
{
    ((bit_len + bits - 1) as nat / bits) as nat
}

/// Channel `i` carries part of a `bit_len`-bit stream exactly when `i` is below
/// the number of chunks needed for it.
pub proof fn lemma_chunk_index(i: nat, bits: nat, bit_len: nat)
    requires
        bits >= 1,
    ensures
        i * bits < bit_len <==> i < chunks_needed(bit_len, bits),
{
    let n = (bit_len + bits - 1) as nat;
    let q = n / bits;
    let r = n % bits;
    assert(n == q * bits + r && 0 <= r < bits) by {
        vstd::arithmetic::div_mod::lemma_fundamental_div_mod(n as int, bits as int);
    }
    if i * bits < bit_len {
        assert(i < q) by (nonlinear_arith)
            requires
                i * bits < bit_len,
                n == bit_len + bits - 1,
                n == q * bits + r,
                r < bits,
                bits >= 1,
        ;
    }
    if i < q {
        assert(i * bits < bit_len) by (nonlinear_arith)
            requires
                i < q,
                n == bit_len + bits - 1,
                n == q * bits + r,
                r >= 0,
                bits >= 1,
        ;
    }
}

/// Whether a `bit_len`-bit stream fits into `pixel_count` pixels of three
/// channels, `bits` bits per channel.
pub fn is_encodable(pixel_count: usize, bits: u8, bit_len: usize) -> (r: bool)
    requires
        bits >= 1,
    ensures
        r == (chunks_needed(bit_len as nat, bits as nat) <= 3 * pixel_count),
{
    let chunks: u128 = ((bit_len as u128) + (bits as u128) - 1) / (bits as u128);
    let slots: u128 = (pixel_count as u128) * 3;
    chunks <= slots
}

} // verus!
