//! Bit codec: bytes and text to and from most-significant-bit-first bit sequences.
use vstd::prelude::*;
use vstd::utf8::encode_utf8;
use vstd::string::StringExecFns;

verus! {

/// The `k` low-order bits of `v`, most significant first.
pub open spec fn bit_seq(v: nat, k: nat) -> Seq<bool>
    decreases k,
{
    if k == 0 {
        Seq::empty()
    } else {
        bit_seq(v / 2, (k - 1) as nat).push(v % 2 == 1)
    }
}

/// `c` with its `s.len()` low-order bits replaced by the bits of `s`
/// (most significant first); the higher bits of `c` are kept.
pub open spec fn replace_low_bits(c: nat, s: Seq<bool>) -> nat
    decreases s.len(),
{
    if s.len() == 0 {
        c
    } else {
        2 * replace_low_bits(c / 2, s.drop_last()) + (if s.last() { 1nat } else { 0nat })
    }
}

/// The number whose binary digits, most significant first, are `s`.
pub open spec fn bits_value(s: Seq<bool>) -> nat {
    replace_low_bits(0, s)
}

/// `v` shifted right by `k` bits.
pub open spec fn shift_right(v: nat, k: nat) -> nat
    decreases k,
{
    if k == 0 {
        v
    } else {
        shift_right(v / 2, (k - 1) as nat)
    }
}

/// Each byte of `bs` as eight bits, most significant first, in order.
pub open spec fn bytes_bits(bs: Seq<u8>) -> Seq<bool>
    decreases bs.len(),
{
    if bs.len() == 0 {
        Seq::empty()
    } else {
        bytes_bits(bs.drop_last()) + bit_seq(bs.last() as nat, 8)
    }
}

/// A bit sequence written with the characters `'0'` and `'1'`.
pub open spec fn bit_chars(s: Seq<bool>) -> Seq<char> {
    s.map_values(|b: bool| if b { '1' } else { '0' })
}

pub proof fn lemma_bit_seq_len(v: nat, k: nat)
    ensures
        bit_seq(v, k).len() == k,
    decreases k,
{
    if k > 0 {
        lemma_bit_seq_len(v / 2, (k - 1) as nat);
    }
}

/// Reading back the low bits of a value whose low bits were replaced gives the replacement.
pub proof fn lemma_read_replaced(c: nat, s: Seq<bool>)
    ensures
        bit_seq(replace_low_bits(c, s), s.len()) == s,
    decreases s.len(),
{
    if s.len() > 0 {
        let b: nat = if s.last() { 1 } else { 0 };
        let h = replace_low_bits(c / 2, s.drop_last());
        lemma_read_replaced(c / 2, s.drop_last());
        assert((2 * h + b) / 2 == h);
        assert((2 * h + b) % 2 == b);
        assert(s.drop_last().push(s.last()) =~= s);
    }
}

/// Replacing the low bits of a value by its own low bits changes nothing.
pub proof fn lemma_replace_own_bits(x: nat, k: nat)
    ensures
        replace_low_bits(x, bit_seq(x, k)) == x,
    decreases k,
{
    if k > 0 {
        lemma_replace_own_bits(x / 2, (k - 1) as nat);
        let s = bit_seq(x, k);
        assert(s.drop_last() =~= bit_seq(x / 2, (k - 1) as nat));
    }
}

/// The result of replacing `k` low bits depends on `c` only through `c` shifted right by `k`.
pub proof fn lemma_replace_depends_on_high(c1: nat, c2: nat, s: Seq<bool>)
    requires
        shift_right(c1, s.len()) == shift_right(c2, s.len()),
    ensures
        replace_low_bits(c1, s) == replace_low_bits(c2, s),
    decreases s.len(),
{
    if s.len() > 0 {
        lemma_replace_depends_on_high(c1 / 2, c2 / 2, s.drop_last());
    }
}

pub proof fn lemma_shift_byte(x: nat)
    requires
        x < 256,
    ensures
        shift_right(x, 8) == 0,
{
    reveal_with_fuel(shift_right, 9);
}

/// The value of the eight bits of a byte is that byte.
pub proof fn lemma_byte_value(x: u8)
    ensures
        bits_value(bit_seq(x as nat, 8)) == x,
{
    lemma_bit_seq_len(x as nat, 8);
    lemma_replace_own_bits(x as nat, 8);
    lemma_shift_byte(x as nat);
    lemma_shift_byte(0);
    lemma_replace_depends_on_high(0, x as nat, bit_seq(x as nat, 8));
}

/// Replacing at most `m` low bits of a number below `2^m` gives a number below `2^m`.
pub proof fn lemma_replace_bound(c: nat, s: Seq<bool>, m: nat)
    requires
        c < vstd::arithmetic::power2::pow2(m),
        s.len() <= m,
    ensures
        replace_low_bits(c, s) < vstd::arithmetic::power2::pow2(m),
    decreases s.len(),
{
    if s.len() > 0 {
        vstd::arithmetic::power2::lemma_pow2_unfold(m);
        let pm1 = vstd::arithmetic::power2::pow2((m - 1) as nat);
        assert(c / 2 < pm1);
        lemma_replace_bound(c / 2, s.drop_last(), (m - 1) as nat);
    }
}

pub proof fn lemma_replace_byte_bound(c: u8, s: Seq<bool>)
    requires
        s.len() <= 8,
    ensures
        replace_low_bits(c as nat, s) < 256,
{
    vstd::arithmetic::power2::lemma2_to64();
    lemma_replace_bound(c as nat, s, 8);
}

pub proof fn lemma_bytes_bits_len(bs: Seq<u8>)
    ensures
        bytes_bits(bs).len() == 8 * bs.len(),
    decreases bs.len(),
{
    if bs.len() > 0 {
        lemma_bytes_bits_len(bs.drop_last());
        lemma_bit_seq_len(bs.last() as nat, 8);
    }
}

/// The eight bits of the stream at byte position `q` are the bits of byte `q`.
pub proof fn lemma_bytes_bits_at(bs: Seq<u8>, q: int)
    requires
        0 <= q < bs.len(),
    ensures
        bytes_bits(bs).subrange(8 * q, 8 * q + 8) == bit_seq(bs[q] as nat, 8),
    decreases bs.len(),
{
    let init = bs.drop_last();
    lemma_bytes_bits_len(init);
    lemma_bit_seq_len(bs.last() as nat, 8);
    if q < init.len() {
        lemma_bytes_bits_at(init, q);
        assert(bytes_bits(bs).subrange(8 * q, 8 * q + 8) =~= bytes_bits(init).subrange(
            8 * q,
            8 * q + 8,
        ));
    } else {
        assert(bytes_bits(bs).subrange(8 * q, 8 * q + 8) =~= bit_seq(bs.last() as nat, 8));
    }
}

/// The `k` low-order bits of `c`, most significant first.
pub fn low_bits(c: u8, k: usize) -> (r: Vec<bool>)
    requires
        k <= 8,
    ensures
        r@ == bit_seq(c as nat, k as nat),
    decreases k,
{
    if k == 0 {
        Vec::new()
    } else {
        let mut r = low_bits(c / 2, k - 1);
        r.push(c % 2 == 1);
        r
    }
}

/// `c` with its `len` low-order bits replaced by `s[from..from + len]`.
pub fn replace_low(c: u8, s: &Vec<bool>, from: usize, len: usize) -> (r: u8)
    requires
        len <= 8,
        from + len <= s@.len(),
    ensures
        r as nat == replace_low_bits(c as nat, s@.subrange(from as int, from + len)),
    decreases len,
{
    let ghost chunk = s@.subrange(from as int, from + len);
    proof {
        lemma_replace_byte_bound(c, chunk);
    }
    if len == 0 {
        c
    } else {
        let h = replace_low(c / 2, s, from, len - 1);
        proof {
            assert(chunk.drop_last() =~= s@.subrange(from as int, from + len - 1));
        }
        let n = s.len();
        assert(from + len <= n);
        let last: usize = from + len - 1;
        let b: u32 = if s[last] { 1 } else { 0 };
        (2 * (h as u32) + b) as u8
    }
}

/// Each byte of `bs` as eight bits, most significant first.
pub fn bytes_to_bit_vec(bs: &[u8]) -> (r: Vec<bool>)
    ensures
        r@ == bytes_bits(bs@),
{
    let mut r: Vec<bool> = Vec::new();
    let mut i: usize = 0;
    while i < bs.len()
        invariant
            i <= bs@.len(),
            r@ == bytes_bits(bs@.subrange(0, i as int)),
        decreases bs@.len() - i,
    {
        let b = low_bits(bs[i], 8);
        proof {
            lemma_bit_seq_len(bs[i as int] as nat, 8);
        }
        let mut j: usize = 0;
        let ghost before = r@;
        while j < 8
            invariant
                b@.len() == 8,
                j <= 8,
                r@ == before + b@.subrange(0, j as int),
            decreases 8 - j,
        {
            r.push(b[j]);
            proof {
                assert(b@.subrange(0, j + 1) =~= b@.subrange(0, j as int).push(b@[j as int]));
            }
            j = j + 1;
        }
        proof {
            assert(b@.subrange(0, 8) =~= b@);
            assert(bs@.subrange(0, i + 1).drop_last() =~= bs@.subrange(0, i as int));
        }
        i = i + 1;
    }
    proof {
        assert(bs@.subrange(0, bs@.len() as int) =~= bs@);
    }
    r
}

/// The bits of `s` written as a string of `'0'` and `'1'`.
pub fn render_bits(s: &Vec<bool>) -> (r: String)
    ensures
        r@ == bit_chars(s@),
{
    let one = "1";
    let zero = "0";
    proof {
        reveal_strlit("1");
        reveal_strlit("0");
    }
    let mut r = String::new();
    let mut i: usize = 0;
    while i < s.len()
        invariant
            i <= s@.len(),
            one@ == seq!['1'],
            zero@ == seq!['0'],
            r@ == bit_chars(s@.subrange(0, i as int)),
        decreases s@.len() - i,
    {
        if s[i] {
            r.append(one);
        } else {
            r.append(zero);
        }
        proof {
            assert(bit_chars(s@.subrange(0, i + 1)) =~= bit_chars(s@.subrange(0, i as int))
                + bit_chars(s@.subrange(i as int, i + 1)));
        }
        i = i + 1;
    }
    proof {
        assert(s@.subrange(0, s@.len() as int) =~= s@);
    }
    r
}

/// The eight-digit binary form of `number`, most significant digit first.
pub fn to_binary(number: u8) -> (r: String)
    ensures
        r@ == bit_chars(bit_seq(number as nat, 8)),
        r@.len() == 8,
{
    proof {
        lemma_bit_seq_len(number as nat, 8);
    }
    render_bits(&low_bits(number, 8))
}

/// The UTF-8 bytes of `text` as a binary string, eight digits per byte.
pub fn text_to_bits(text: String) -> (r: String)
    ensures
        r@ == bit_chars(bytes_bits(encode_utf8(text@))),
{
    render_bits(&bytes_to_bit_vec(text.as_str().as_bytes()))
}

} // verus!
