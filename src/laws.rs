//! Laws relating the encoder and the decoder.
use vstd::prelude::*;
use vstd::utf8::{
    decode_utf8_encode_utf8, encode_utf8, encode_utf8_decode_utf8, encode_utf8_valid_utf8,
};

use crate::bits::{
    bit_seq, bits_value, bytes_bits, lemma_byte_value, lemma_bytes_bits_at, lemma_bytes_bits_len,
    lemma_read_replaced, lemma_replace_byte_bound, replace_low_bits,
};
use crate::capacity::{chunks_needed, lemma_chunk_index};
use crate::decode::{decode_spec, decode_walk, ends_with, take_len};
use crate::encode::{
    chunk, delimiter, embed_stream, encode_spec, marker, payload_bytes, payload_stream,
    valid_bits, MARKER_LEN,
};
use crate::grid::StegoError;

verus! {

/// Whether four marker bytes end no prefix of `bytes` shorter than
/// `bytes.len() - 1`: the decoder meets the start of the end marker only
/// where it really stands.
pub open spec fn marker_only_at_end(bytes: Seq<u8>) -> bool {
    forall|q: int|
        0 <= q < bytes.len() - 1 ==> !#[trigger] ends_with(
            bytes.take(q),
            marker((MARKER_LEN - 1) as nat),
        )
}

/// Whether the end marker ends no proper prefix of `bytes`.
pub open spec fn delimiter_only_at_end(bytes: Seq<u8>) -> bool {
    forall|q: int| 0 <= q < bytes.len() ==> !#[trigger] ends_with(bytes.take(q), delimiter())
}

/// What the round trip asks of the payload bytes at width `bits`: the start of
/// the marker occurs only at the end; or, where `bits` divides eight (the
/// decoder's correction then reads `bits` bits as usual), the whole marker
/// occurs only at the end.
pub open spec fn unambiguous_payload(bytes: Seq<u8>, bits: nat) -> bool {
    marker_only_at_end(bytes) || (8nat % bits == 0 && delimiter_only_at_end(bytes))
}

/// Where `bits` divides eight, the decoder's pending bits and what is left of
/// the stream are whole multiples of `bits`.
proof fn lemma_aligned(b: nat, i: nat, q: nat, m: nat)
    requires
        1 <= b <= 8,
        8nat % b == 0,
        8 * q <= i * b < 8 * q + 8,
        i * b < 8 * m,
    ensures
        (i * b - 8 * q) + b >= 8 ==> 8 - (i * b - 8 * q) == b,
        8 * m - i * b >= b,
{
    assert(b == 1 || b == 2 || b == 4 || b == 8) by {
        if b == 3 || b == 5 || b == 6 || b == 7 {
            assert(8nat % 3 == 2 && 8nat % 5 == 3 && 8nat % 6 == 2 && 8nat % 7 == 1);
        }
    }
}

/// How many bits of a `total`-bit stream the first `i` channels carry.
pub open spec fn consumed(i: nat, bits: nat, total: nat) -> nat {
    if i * bits < total {
        i * bits
    } else {
        total
    }
}

proof fn lemma_five_ends_four(s: Seq<u8>)
    requires
        ends_with(s, marker(5)),
    ensures
        ends_with(s.take(s.len() - 1), marker(4)),
{
    let t = s.take(s.len() - 1);
    assert(t.subrange(t.len() - 4, t.len() as int) =~= marker(4)) by {
        assert forall|j: int| 0 <= j < 4 implies t.subrange(t.len() - 4, t.len() as int)[j]
            == marker(4)[j] by {
            assert(s.subrange(s.len() - 5, s.len() as int)[j] == marker(5)[j]);
        }
    }
}

/// From channel `i` on, with the first `q` bytes read, the decoder walking
/// an encoded grid reads exactly the encoded bytes.
proof fn lemma_walk_encoded(chs: Seq<u8>, bytes: Seq<u8>, b: nat, i: nat, q: nat)
    requires
        1 <= b <= 8,
        bytes.len() >= MARKER_LEN,
        ends_with(bytes, delimiter()),
        unambiguous_payload(bytes, b),
        chunks_needed(8 * bytes.len(), b) <= chs.len(),
        i <= chs.len(),
        q <= bytes.len(),
        8 * q <= consumed(i, b, 8 * bytes.len()) < 8 * q + 8,
    ensures
        decode_walk(
            embed_stream(chs, bytes_bits(bytes), b),
            b,
            i,
            bytes.take(q as int),
            bytes_bits(bytes).subrange(8 * q as int, consumed(i, b, 8 * bytes.len()) as int),
        ) == Some(bytes),
    decreases chs.len() - i,
{
    let m = bytes.len();
    let total = 8 * m;
    let s = bytes_bits(bytes);
    let e = embed_stream(chs, s, b);
    let c = consumed(i, b, total);
    let secret = bytes.take(q as int);
    let pending = s.subrange(8 * q as int, c as int);
    lemma_bytes_bits_len(bytes);
    if c == total {
        assert(q == m);
        assert(secret =~= bytes);
    } else {
        assert(q < m);
        lemma_chunk_index(i, b, total);
        assert(i < chs.len());
        // No marker yet.
        if ends_with(secret, delimiter()) && marker_only_at_end(bytes) {
            lemma_five_ends_four(secret);
            assert(secret.take(secret.len() - 1) =~= bytes.take(q - 1));
            assert(ends_with(bytes.take(q - 1), marker(4)));
        }
        assert(!ends_with(secret, delimiter()));
        let k = take_len(secret, pending.len(), b);
        let ck = chunk(s, b, i);
        // The pending bits and the length of this channel's chunk.
        assert(pending.len() == c - 8 * q);
        if !marker_only_at_end(bytes) {
            lemma_aligned(b, i, q, m);
        } else if ends_with(secret, marker(4)) {
            assert(q >= m - 1);
        } else {
            assert(q != m - 1) by {
                if q == m - 1 {
                    assert(secret.subrange(secret.len() - 4, secret.len() as int) =~= marker(4))
                        by {
                        assert forall|j: int| 0 <= j < 4 implies secret.subrange(
                            secret.len() - 4,
                            secret.len() as int,
                        )[j] == marker(4)[j] by {
                            assert(bytes.subrange(m - 5, m as int)[j] == delimiter()[j]);
                        }
                    }
                }
            }
        }
        assert(ck =~= s.subrange(c as int, (c + k) as int));
        assert(ck.len() == k);
        lemma_replace_byte_bound(chs[i as int], ck);
        lemma_read_replaced(chs[i as int] as nat, ck);
        assert(e[i as int] as nat == replace_low_bits(chs[i as int] as nat, ck));
        let p2 = pending + bit_seq(e[i as int] as nat, k);
        assert(p2 =~= s.subrange(8 * q as int, (c + k) as int));
        let c2 = consumed(i + 1, b, total);
        assert((i + 1) * b == i * b + b) by (nonlinear_arith);
        assert(c2 == c + k);
        if p2.len() >= 8 {
            lemma_bytes_bits_at(bytes, q as int);
            lemma_byte_value(bytes[q as int]);
            assert(p2.take(8) =~= s.subrange(8 * q as int, 8 * q + 8 as int));
            assert(secret.push(bits_value(p2.take(8)) as u8) =~= bytes.take(q + 1 as int));
            assert(p2.skip(8) =~= s.subrange(8 * (q + 1) as int, c2 as int));
            lemma_walk_encoded(chs, bytes, b, i + 1, q + 1);
        } else {
            lemma_walk_encoded(chs, bytes, b, i + 1, q);
        }
    }
}

/// Round trip: encoding a text into a grid that has room for it and decoding
/// the result at the same bit width gives the text back, for every bit width
/// in `1..=8`, provided the text followed by the end marker holds the start of
/// the marker (four `'#'` bytes) only at its end, or, where the width divides
/// eight, the whole marker only at its end.
pub proof fn lemma_round_trip(chs: Seq<u8>, text: Seq<char>, bits: int)
    requires
        valid_bits(bits),
        chunks_needed(payload_stream(text).len(), bits as nat) <= chs.len(),
        unambiguous_payload(payload_bytes(text), bits as nat),
    ensures
        encode_spec(chs, text, bits) matches Ok(e) && decode_spec(e, bits) == Ok::<
            Seq<char>,
            StegoError,
        >(text),
{
    let bytes = payload_bytes(text);
    let b = bits as nat;
    lemma_bytes_bits_len(bytes);
    assert(bytes.subrange(bytes.len() - 5, bytes.len() as int) =~= delimiter());
    assert(consumed(0, b, 8 * bytes.len()) == 0);
    lemma_walk_encoded(chs, bytes, b, 0, 0);
    assert(bytes.take(0) =~= Seq::<u8>::empty());
    assert(bytes_bits(bytes).subrange(0, 0) =~= Seq::<bool>::empty());
    assert(bytes.take(bytes.len() - MARKER_LEN) =~= encode_utf8(text));
    encode_utf8_valid_utf8(text);
    encode_utf8_decode_utf8(text);
}

/// Capacity boundary: a payload whose chunk count equals the number of
/// channels is encoded; one that needs a chunk more is refused with
/// `PayloadTooLarge`.
pub proof fn lemma_capacity_boundary(chs: Seq<u8>, text: Seq<char>, bits: int)
    requires
        valid_bits(bits),
    ensures
        chunks_needed(payload_stream(text).len(), bits as nat) == chs.len() ==> encode_spec(
            chs,
            text,
            bits,
        ) is Ok,
        chunks_needed(payload_stream(text).len(), bits as nat) == chs.len() + 1 ==> encode_spec(
            chs,
            text,
            bits,
        ) == Err::<Seq<u8>, StegoError>(StegoError::PayloadTooLarge),
{
}

/// Parameter validation: a bit width outside `1..=8` (zero, negative or
/// above eight) is refused with `InvalidParameter` by encode and decode alike.
pub proof fn lemma_invalid_bits(chs: Seq<u8>, text: Seq<char>, bits: int)
    requires
        !valid_bits(bits),
    ensures
        encode_spec(chs, text, bits) == Err::<Seq<u8>, StegoError>(StegoError::InvalidParameter),
        decode_spec(chs, bits) == Err::<Seq<char>, StegoError>(StegoError::InvalidParameter),
{
}

/// What the decoder's walk finds ends with the end marker.
proof fn lemma_walk_ends_with_marker(
    chs: Seq<u8>,
    bits: nat,
    i: nat,
    secret: Seq<u8>,
    pending: Seq<bool>,
)
    ensures
        decode_walk(chs, bits, i, secret, pending) matches Some(found) ==> ends_with(
            found,
            delimiter(),
        ),
    decreases chs.len() - i,
{
    if !ends_with(secret, delimiter()) && i < chs.len() {
        let p2 = pending + bit_seq(chs[i as int] as nat, take_len(secret, pending.len(), bits));
        if p2.len() >= 8 {
            lemma_walk_ends_with_marker(
                chs,
                bits,
                i + 1,
                secret.push(bits_value(p2.take(8)) as u8),
                p2.skip(8),
            );
        } else {
            lemma_walk_ends_with_marker(chs, bits, i + 1, secret, p2);
        }
    }
}

/// Width mismatch is reported: where the walk at `bits` meets no end marker,
/// decoding fails with `BitWidthMismatch`; and text is returned only when the
/// walk found that text's UTF-8 bytes followed by the end marker.
pub proof fn lemma_mismatch_reported(chs: Seq<u8>, bits: int)
    requires
        valid_bits(bits),
    ensures
        decode_walk(chs, bits as nat, 0, Seq::empty(), Seq::empty()) is None ==> decode_spec(
            chs,
            bits,
        ) == Err::<Seq<char>, StegoError>(StegoError::BitWidthMismatch),
        decode_spec(chs, bits) matches Ok(t) ==> decode_walk(
            chs,
            bits as nat,
            0,
            Seq::empty(),
            Seq::empty(),
        ) == Some(payload_bytes(t)),
{
    lemma_walk_ends_with_marker(chs, bits as nat, 0, Seq::empty(), Seq::empty());
    if let Some(found) = decode_walk(chs, bits as nat, 0, Seq::empty(), Seq::empty()) {
        let body = found.take(found.len() - MARKER_LEN);
        if vstd::utf8::valid_utf8(body) {
            decode_utf8_encode_utf8(body);
            assert(found =~= body + delimiter());
        }
    }
}

} // verus!
