//! Recovering a text payload from the low-order bits of a grid's channels.
use vstd::prelude::*;
use vstd::utf8::{decode_utf8, encode_utf8, encode_utf8_decode_utf8, valid_utf8};

use crate::bits::{bit_seq, bits_value, low_bits, replace_low};
use crate::encode::{delimiter, marker, valid_bits, MARKER_BYTE, MARKER_LEN};
use crate::grid::{PixelGrid, StegoError};

verus! {

/// Whether `s` ends with `suffix`.
pub open spec fn ends_with(s: Seq<u8>, suffix: Seq<u8>) -> bool {
    suffix.len() <= s.len() && s.subrange(s.len() - suffix.len(), s.len() as int) == suffix
}

/// How many low-order bits the decoder reads from the next channel: `bits`,
/// except right before the last marker byte, where it reads only what
/// completes the pending byte.
pub open spec fn take_len(secret: Seq<u8>, pending_len: nat, bits: nat) -> nat {
    if ends_with(secret, marker((MARKER_LEN - 1) as nat)) && pending_len + bits >= 8 {
        (8 - pending_len) as nat
    } else {
        bits
    }
}

/// The decoder's walk from channel `i`, with the bytes read so far in `secret`
/// and the bits not yet forming a byte in `pending`: the bytes read up to and
/// including the end marker, or `None` where the channels run out first.
pub open spec fn decode_walk(
    chs: Seq<u8>,
    bits: nat,
    i: nat,
    secret: Seq<u8>,
    pending: Seq<bool>,
) -> Option<Seq<u8>>
    decreases chs.len() - i,
{
    if ends_with(secret, delimiter()) {
        Some(secret)
    } else if i >= chs.len() {
        None
    } else {
        let p2 = pending + bit_seq(chs[i as int] as nat, take_len(secret, pending.len(), bits));
        if p2.len() >= 8 {
            decode_walk(chs, bits, i + 1, secret.push(bits_value(p2.take(8)) as u8), p2.skip(8))
        } else {
            decode_walk(chs, bits, i + 1, secret, p2)
        }
    }
}

/// What decoding channels `chs` at `bits` bits per channel gives.
pub open spec fn decode_spec(chs: Seq<u8>, bits: int) -> Result<Seq<char>, StegoError> {
    if !valid_bits(bits) {
        Err(StegoError::InvalidParameter)
    } else {
        match decode_walk(chs, bits as nat, 0, Seq::empty(), Seq::empty()) {
            None => Err(StegoError::BitWidthMismatch),
            Some(found) => {
                let body = found.take(found.len() - MARKER_LEN);
                if valid_utf8(body) {
                    Ok(decode_utf8(body))
                } else {
                    Err(StegoError::BitWidthMismatch)
                }
            },
        }
    }
}

/// Relies on `String::from_utf8`: it succeeds exactly on valid UTF-8, and the
/// string then holds those bytes.
#[verifier::external_body]
fn string_from_utf8(bytes: Vec<u8>) -> (r: Option<String>)
    ensures
        r is Some <==> valid_utf8(bytes@),
        r matches Some(s) ==> encode_utf8(s@) == bytes@,
{
    String::from_utf8(bytes).ok()
}

/// Whether `v` ends with `k` marker bytes.
fn ends_with_marker(v: &Vec<u8>, k: usize) -> (r: bool)
    ensures
        r == ends_with(v@, marker(k as nat)),
{
    let n = v.len();
    if n < k {
        return false;
    }
    let mut j: usize = n - k;
    while j < n
        invariant
            n == v@.len(),
            k <= n,
            n - k <= j <= n,
            forall|m: int| n - k <= m < j ==> v@[m] == MARKER_BYTE,
        decreases n - j,
    {
        if v[j] != MARKER_BYTE {
            proof {
                assert(v@.subrange(n - k, n as int)[j - (n - k)] != marker(k as nat)[j - (n - k)]);
            }
            return false;
        }
        j = j + 1;
    }
    proof {
        assert(v@.subrange(n - k, n as int) =~= marker(k as nat));
    }
    true
}

/// `v` without its first `k` elements.
fn drop_front(v: &Vec<bool>, k: usize) -> (r: Vec<bool>)
    requires
        k <= v@.len(),
    ensures
        r@ == v@.skip(k as int),
{
    let mut r: Vec<bool> = Vec::new();
    let mut j: usize = k;
    while j < v.len()
        invariant
            k <= j <= v@.len(),
            r@ == v@.subrange(k as int, j as int),
        decreases v@.len() - j,
    {
        r.push(v[j]);
        proof {
            assert(v@.subrange(k as int, j + 1) =~= v@.subrange(k as int, j as int).push(v@[j as int]));
        }
        j = j + 1;
    }
    proof {
        assert(v@.subrange(k as int, v@.len() as int) =~= v@.skip(k as int));
    }
    r
}

/// Reads the text hidden in the low-order `bits` bits of the channels of `image`.
///
/// Channels are walked in order, `bits` low-order bits each (fewer right
/// before the last marker byte, see `take_len`), eight bits making a byte,
/// until the bytes read end with the end marker; the bytes before it are the
/// text. Fails with `InvalidParameter` where `bits` is not in `1..=8`, and with
/// `BitWidthMismatch` where the channels run out before the marker or the
/// bytes before it are not UTF-8.
pub fn decode_image(image: PixelGrid, bits: i8) -> (r: Result<String, StegoError>)
    ensures
        r matches Ok(s) ==> decode_spec(image@, bits as int) == Ok::<Seq<char>, StegoError>(s@),
        r matches Err(e) ==> decode_spec(image@, bits as int) == Err::<Seq<char>, _>(e),
{
    if bits < 1 || bits > 8 {
        return Err(StegoError::InvalidParameter);
    }
    let b = bits as usize;
    let chs = image.channels();
    let n = chs.len();
    let ghost start = decode_walk(chs@, b as nat, 0, Seq::empty(), Seq::empty());
    let mut secret: Vec<u8> = Vec::new();
    let mut pending: Vec<bool> = Vec::new();
    let mut i: usize = 0;
    proof {
        assert(secret@ =~= Seq::<u8>::empty());
        assert(pending@ =~= Seq::<bool>::empty());
    }
    while i < n && !ends_with_marker(&secret, MARKER_LEN)
        invariant
            1 <= b <= 8,
            n == chs@.len(),
            i <= n,
            pending@.len() < 8,
            decode_walk(chs@, b as nat, i as nat, secret@, pending@) == start,
        decreases n - i,
    {
        let k: usize = if ends_with_marker(&secret, MARKER_LEN - 1) && pending.len() + b >= 8 {
            8 - pending.len()
        } else {
            b
        };
        let mut taken = low_bits(chs[i], k);
        proof {
            crate::bits::lemma_bit_seq_len(chs@[i as int] as nat, k as nat);
        }
        pending.append(&mut taken);
        if pending.len() >= 8 {
            let byte = replace_low(0, &pending, 0, 8);
            proof {
                assert(pending@.subrange(0, 8) =~= pending@.take(8));
            }
            secret.push(byte);
            pending = drop_front(&pending, 8);
        }
        i = i + 1;
    }
    if !ends_with_marker(&secret, MARKER_LEN) {
        return Err(StegoError::BitWidthMismatch);
    }
    let ghost found = secret@;
    assert(start == Some(found));
    let keep = secret.len() - MARKER_LEN;
    secret.truncate(keep);
    match string_from_utf8(secret) {
        Some(s) => {
            proof {
                encode_utf8_decode_utf8(s@);
            }
            Ok(s)
        },
        None => Err(StegoError::BitWidthMismatch),
    }
}

} // verus!
