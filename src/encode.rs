//! Embedding a text payload into the low-order bits of a grid's channels.
use vstd::prelude::*;
use vstd::utf8::encode_utf8;

use crate::bits::{bytes_bits, bytes_to_bit_vec, replace_low, replace_low_bits};
use crate::capacity::{chunks_needed, is_encodable, lemma_chunk_index};
use crate::grid::{PixelGrid, StegoError};

verus! {

/// The byte of the end marker, `'#'`.
pub const MARKER_BYTE: u8 = 35;

/// The number of marker bytes that close a payload.
pub const MARKER_LEN: usize = 5;

/// `k` marker bytes.
pub open spec fn marker(k: nat) -> Seq<u8> {
    Seq::new(k, |_i: int| MARKER_BYTE)
}

/// The end marker appended once after the payload: `"#####"`.
pub open spec fn delimiter() -> Seq<u8> {
    marker(MARKER_LEN as nat)
}

/// Whether the bit width is one of `1..=8`.
pub open spec fn valid_bits(bits: int) -> bool {
    1 <= bits <= 8
}

/// The UTF-8 bytes of `text` followed by the end marker.
pub open spec fn payload_bytes(text: Seq<char>) -> Seq<u8> {
    encode_utf8(text) + delimiter()
}

/// The bit stream written into a grid for `text`.
pub open spec fn payload_stream(text: Seq<char>) -> Seq<bool> {
    bytes_bits(payload_bytes(text))
}

/// The bits that channel `i` takes from the front of what is left of `stream`:
/// `bits` of them, or fewer for the final chunk.
pub open spec fn chunk(stream: Seq<bool>, bits: nat, i: nat) -> Seq<bool> {
    let start = i * bits;
    let end = if start + bits <= stream.len() {
        (start + bits) as int
    } else {
        stream.len() as int
    };
    stream.subrange(start as int, end)
}

/// `chs` with the low-order bits of each channel that the stream reaches
/// replaced by that channel's chunk; every other channel as it was.
pub open spec fn embed_stream(chs: Seq<u8>, stream: Seq<bool>, bits: nat) -> Seq<u8> {
    Seq::new(
        chs.len(),
        |i: int|
            if i * bits < stream.len() {
                replace_low_bits(chs[i] as nat, chunk(stream, bits, i as nat)) as u8
            } else {
                chs[i]
            },
    )
}

/// What encoding `text` into channels `chs` at `bits` bits per channel gives.
pub open spec fn encode_spec(chs: Seq<u8>, text: Seq<char>, bits: int) -> Result<
    Seq<u8>,
    StegoError,
> {
    if !valid_bits(bits) {
        Err(StegoError::InvalidParameter)
    } else if chunks_needed(payload_stream(text).len(), bits as nat) > chs.len() {
        Err(StegoError::PayloadTooLarge)
    } else {
        Ok(embed_stream(chs, payload_stream(text), bits as nat))
    }
}

/// The UTF-8 bytes of `text` followed by the end marker.
fn payload_of(text: &String) -> (r: Vec<u8>)
    ensures
        r@ == payload_bytes(text@),
{
    let mut payload: Vec<u8> = Vec::new();
    payload.extend_from_slice(text.as_str().as_bytes());
    let mut d: usize = 0;
    while d < MARKER_LEN
        invariant
            d <= MARKER_LEN,
            payload@ == encode_utf8(text@) + marker(d as nat),
        decreases MARKER_LEN - d,
    {
        payload.push(MARKER_BYTE);
        proof {
            assert(encode_utf8(text@) + marker((d + 1) as nat) =~= (encode_utf8(text@) + marker(
                d as nat,
            )).push(MARKER_BYTE));
        }
        d = d + 1;
    }
    payload
}

/// Hides `secret` in the low-order `bits` bits of the channels of `image`.
///
/// Channels are walked in order; each takes the next `bits` bits of the
/// stream of `secret`'s UTF-8 bytes and the end marker (fewer for the last
/// one), and every channel after the stream ends is left as it was. Fails
/// with `InvalidParameter` where `bits` is not in `1..=8`, and with
/// `PayloadTooLarge`, touching nothing, where the stream needs more channels
/// than the grid has.
pub fn encode_image(image: PixelGrid, secret: String, bits: i8) -> (r: Result<PixelGrid, StegoError>)
    requires
        image.wf(),
    ensures
        r matches Ok(g) ==> encode_spec(image@, secret@, bits as int) == Ok::<Seq<u8>, StegoError>(g@) && g.wf()
            && g.spec_width() == image.spec_width() && g.spec_height() == image.spec_height(),
        r matches Err(e) ==> encode_spec(image@, secret@, bits as int) == Err::<Seq<u8>, _>(e),
        r matches Ok(g) ==> forall|j: int|
            chunks_needed(payload_stream(secret@).len(), bits as nat) <= j < image@.len()
                ==> g@[j] == image@[j],
{
    if bits < 1 || bits > 8 {
        return Err(StegoError::InvalidParameter);
    }
    let b = bits as usize;
    let payload = payload_of(&secret);
    let stream = bytes_to_bit_vec(payload.as_slice());
    let total = stream.len();
    if !is_encodable(image.pixel_count(), bits as u8, total) {
        return Err(StegoError::PayloadTooLarge);
    }
    let ghost orig = image@;
    let ghost target = embed_stream(orig, stream@, b as nat);
    let mut g = image;
    let n = g.channels().len();
    let mut i: usize = 0;
    let mut pos: usize = 0;
    while pos < total
        invariant
            1 <= b <= 8,
            total == stream@.len(),
            stream@ == payload_stream(secret@),
            target == embed_stream(orig, stream@, b as nat),
            n == g@.len(),
            n == orig.len(),
            g.wf(),
            g.spec_width() == image.spec_width(),
            g.spec_height() == image.spec_height(),
            chunks_needed(total as nat, b as nat) <= n,
            pos <= total,
            pos < total ==> pos == i * b,
            pos == total ==> i * b >= total,
            i <= n,
            forall|j: int| 0 <= j < i ==> g@[j] == target[j],
            forall|j: int| i <= j < n ==> g@[j] == orig[j],
        decreases total - pos,
    {
        proof {
            lemma_chunk_index(i as nat, b as nat, total as nat);
        }
        let k: usize = if total - pos < b {
            total - pos
        } else {
            b
        };
        let c = g.channels()[i];
        let v = replace_low(c, &stream, pos, k);
        g.set_channel(i, v);
        proof {
            assert((i + 1) * b == i * b + b) by (nonlinear_arith);
            assert(stream@.subrange(pos as int, pos + k) == chunk(stream@, b as nat, i as nat));
        }
        pos = pos + k;
        i = i + 1;
    }
    proof {
        assert forall|j: int| i <= j < n implies target[j] == orig[j] by {
            assert(j * b >= i * b) by (nonlinear_arith)
                requires
                    j >= i,
                    b >= 0,
            ;
        }
        assert(g@ =~= target);
        assert forall|j: int|
            chunks_needed(total as nat, b as nat) <= j < n implies g@[j] == orig[j] by {
            lemma_chunk_index(j as nat, b as nat, total as nat);
        }
    }
    Ok(g)
}

} // verus!
