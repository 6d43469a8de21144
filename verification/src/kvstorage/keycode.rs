//! The order-preserving encoding of keys.
//!
//! Eight bytes read as one big-endian integer compare as the bytes do from
//! left to right. This file states the encoding, its inverse, and proves both
//! facts.

use vstd::prelude::*;

verus! {

/// The integer that eight bytes spell in big-endian order: the first byte
/// weighs most.
pub open spec fn spec_encode_raw(raw: Seq<u8>) -> u64
    recommends
        raw.len() == 8,
{
    (raw[0] as int * 0x0100_0000_0000_0000 + raw[1] as int * 0x0001_0000_0000_0000 + raw[2] as int
        * 0x0000_0100_0000_0000 + raw[3] as int * 0x0000_0001_0000_0000 + raw[4] as int
        * 0x0000_0000_0100_0000 + raw[5] as int * 0x0000_0000_0001_0000 + raw[6] as int
        * 0x0000_0000_0000_0100 + raw[7] as int) as u64
}

/// The eight bytes that spell `encoded` in big-endian order.
pub open spec fn spec_decode_raw(encoded: u64) -> Seq<u8> {
    seq![
        (encoded / 0x0100_0000_0000_0000) as u8,
        ((encoded / 0x0001_0000_0000_0000) % 256) as u8,
        ((encoded / 0x0000_0100_0000_0000) % 256) as u8,
        ((encoded / 0x0000_0001_0000_0000) % 256) as u8,
        ((encoded / 0x0000_0000_0100_0000) % 256) as u8,
        ((encoded / 0x0000_0000_0001_0000) % 256) as u8,
        ((encoded / 0x0000_0000_0000_0100) % 256) as u8,
        (encoded % 256) as u8,
    ]
}

/// Byte-wise lexicographic order on two byte strings of one length: at the
/// first place where they differ, `a` holds the smaller byte.
pub open spec fn lex_lt(a: Seq<u8>, b: Seq<u8>) -> bool
    recommends
        a.len() == b.len(),
{
    exists|i: int|
        0 <= i < a.len() && i < b.len() && #[trigger] a[i] < b[i] && forall|j: int|
            0 <= j < i ==> a[j] == b[j]
}

/// One digit of a number in base 256: with `digit` standing at weight
/// `weight`, above it `high` and below it `low`, dividing by the weight and
/// taking the remainder by 256 gives the digit back.
proof fn lemma_digit_at(high: int, digit: int, low: int, weight: int)
    requires
        0 <= high,
        0 <= digit < 256,
        0 < weight,
        0 <= low < weight,
    ensures
        (((high * 256 + digit) * weight + low) / weight) % 256 == digit,
        ((high * 256 + digit) * weight + low) / weight == high * 256 + digit,
{
    let q = high * 256 + digit;
    let x = q * weight + low;
    vstd::arithmetic::div_mod::lemma_fundamental_div_mod_converse(x, weight, q, low);
    vstd::arithmetic::div_mod::lemma_fundamental_div_mod_converse(q, 256, high, digit);
}

/// Decoding undoes encoding: the bytes of an encoded key are the key's bytes.
pub proof fn lemma_encode_then_decode(raw: Seq<u8>)
    requires
        raw.len() == 8,
    ensures
        spec_decode_raw(spec_encode_raw(raw)) == raw,
{
    let x = spec_encode_raw(raw);
    let d0 = raw[0] as int;
    let d1 = raw[1] as int;
    let d2 = raw[2] as int;
    let d3 = raw[3] as int;
    let d4 = raw[4] as int;
    let d5 = raw[5] as int;
    let d6 = raw[6] as int;
    let d7 = raw[7] as int;
    let h1 = d0;
    let h2 = h1 * 256 + d1;
    let h3 = h2 * 256 + d2;
    let h4 = h3 * 256 + d3;
    let h5 = h4 * 256 + d4;
    let h6 = h5 * 256 + d5;
    let h7 = h6 * 256 + d6;
    let l6 = d7;
    let l5 = d6 * 0x100 + l6;
    let l4 = d5 * 0x1_0000 + l5;
    let l3 = d4 * 0x100_0000 + l4;
    let l2 = d3 * 0x1_0000_0000 + l3;
    let l1 = d2 * 0x100_0000_0000 + l2;
    let l0 = d1 * 0x1_0000_0000_0000 + l1;
    lemma_digit_at(0, d0, l0, 0x0100_0000_0000_0000);
    lemma_digit_at(h1, d1, l1, 0x0001_0000_0000_0000);
    lemma_digit_at(h2, d2, l2, 0x0000_0100_0000_0000);
    lemma_digit_at(h3, d3, l3, 0x0000_0001_0000_0000);
    lemma_digit_at(h4, d4, l4, 0x0000_0000_0100_0000);
    lemma_digit_at(h5, d5, l5, 0x0000_0000_0001_0000);
    lemma_digit_at(h6, d6, l6, 0x0000_0000_0000_0100);
    lemma_digit_at(h7, d7, 0, 1);
    assert(spec_decode_raw(x) =~= raw);
}

/// Encoding undoes decoding: every `u64` is the code of the bytes it decodes to.
pub proof fn lemma_decode_then_encode(encoded: u64)
    ensures
        spec_decode_raw(encoded).len() == 8,
        spec_encode_raw(spec_decode_raw(encoded)) == encoded,
{
    let x = encoded;
    assert((x / 0x0100_0000_0000_0000) * 0x0100_0000_0000_0000 + ((x / 0x0001_0000_0000_0000) % 256)
        * 0x0001_0000_0000_0000 + ((x / 0x0000_0100_0000_0000) % 256) * 0x0000_0100_0000_0000 + ((x
        / 0x0000_0001_0000_0000) % 256) * 0x0000_0001_0000_0000 + ((x / 0x0000_0000_0100_0000)
        % 256) * 0x0000_0000_0100_0000 + ((x / 0x0000_0000_0001_0000) % 256)
        * 0x0000_0000_0001_0000 + ((x / 0x0000_0000_0000_0100) % 256) * 0x0000_0000_0000_0100 + (x
        % 256) == x) by (bit_vector);
    assert(x / 0x0100_0000_0000_0000 < 256) by (bit_vector);
}

/// The encoding preserves order: one key sorts before another byte by byte
/// exactly when its code is the smaller integer.
pub proof fn lemma_encode_preserves_order(a: Seq<u8>, b: Seq<u8>)
    requires
        a.len() == 8,
        b.len() == 8,
    ensures
        lex_lt(a, b) <==> spec_encode_raw(a) < spec_encode_raw(b),
{
    if spec_encode_raw(a) < spec_encode_raw(b) {
        if a[0] != b[0] {
            assert(a[0] < b[0]);
        } else if a[1] != b[1] {
            assert(a[1] < b[1]);
        } else if a[2] != b[2] {
            assert(a[2] < b[2]);
        } else if a[3] != b[3] {
            assert(a[3] < b[3]);
        } else if a[4] != b[4] {
            assert(a[4] < b[4]);
        } else if a[5] != b[5] {
            assert(a[5] < b[5]);
        } else if a[6] != b[6] {
            assert(a[6] < b[6]);
        } else {
            assert(a[7] < b[7]);
        }
        assert(lex_lt(a, b));
    }
}

/// Two keys with one code are one key.
pub proof fn lemma_encode_injective(a: Seq<u8>, b: Seq<u8>)
    requires
        a.len() == 8,
        b.len() == 8,
        spec_encode_raw(a) == spec_encode_raw(b),
    ensures
        a == b,
{
    lemma_encode_then_decode(a);
    lemma_encode_then_decode(b);
}

/// The `u64` that eight bytes spell in big-endian order.
pub fn encode_bytes(raw: &[u8; 8]) -> (res: u64)
    ensures
        res == spec_encode_raw(raw@),
{
    (raw[0] as u64) * 0x0100_0000_0000_0000 + (raw[1] as u64) * 0x0001_0000_0000_0000 + (
    raw[2] as u64) * 0x0000_0100_0000_0000 + (raw[3] as u64) * 0x0000_0001_0000_0000 + (
    raw[4] as u64) * 0x0000_0000_0100_0000 + (raw[5] as u64) * 0x0000_0000_0001_0000 + (
    raw[6] as u64) * 0x0000_0000_0000_0100 + (raw[7] as u64)
}

/// The eight bytes that spell `encoded` in big-endian order.
pub fn decode_bytes(encoded: u64) -> (res: [u8; 8])
    ensures
        res@ == spec_decode_raw(encoded),
        spec_encode_raw(res@) == encoded,
{
    let data: [u8; 8] = [
        (encoded / 0x0100_0000_0000_0000) as u8,
        ((encoded / 0x0001_0000_0000_0000) % 256) as u8,
        ((encoded / 0x0000_0100_0000_0000) % 256) as u8,
        ((encoded / 0x0000_0001_0000_0000) % 256) as u8,
        ((encoded / 0x0000_0000_0100_0000) % 256) as u8,
        ((encoded / 0x0000_0000_0001_0000) % 256) as u8,
        ((encoded / 0x0000_0000_0000_0100) % 256) as u8,
        (encoded % 256) as u8,
    ];
    proof {
        assert(data@ =~= spec_decode_raw(encoded));
        lemma_decode_then_encode(encoded);
    }
    data
}

} // verus!
