//! Encoding a byte stream into Hamming(16,11) codewords and decoding it back.
//!
//! The byte stream is read least-significant-bit first: bit `i` of a stream
//! is bit `i % 8` of byte `i / 8`. The stream is split into consecutive
//! groups of 11 data bits (the last group zero-padded on the right), each
//! group becomes one 16-bit codeword, and each codeword is laid down as two
//! bytes, low byte first. Decoding reverses this: each codeword is checked
//! and corrected (or rejected) on its own, the recovered 11-bit groups are
//! concatenated, and the result is regrouped into bytes, dropping the
//! trailing bits that do not fill a whole byte.

use vstd::prelude::*;
use vstd::arithmetic::div_mod::{
    lemma_fundamental_div_mod, lemma_fundamental_div_mod_converse,
    lemma_mod_division_less_than_divisor,
};
use crate::code::{Code, DecodeError};
use crate::word::{codeword_of, decoded_data, encode_codeword, decode_codeword};

verus! {

/// Bit `i` of a byte stream, least-significant-bit first within each byte.
pub open spec fn stream_bit(bytes: Seq<u8>, i: int) -> bool
    recommends
        0 <= i < 8 * bytes.len(),
{
    (bytes[i / 8] >> (i % 8)) & 1 == 1
}

/// Bit `i` of the data stream fed to the encoder: the message bits, then
/// zero padding.
pub open spec fn data_bit(m: Seq<u8>, i: int) -> bool {
    i < 8 * m.len() && stream_bit(m, i)
}

/// How many codewords a message of `n` bytes needs: one per started group
/// of 11 data bits.
pub open spec fn num_codewords(n: int) -> int {
    (8 * n + 10) / 11
}

/// The low `j` bits of data group `c`: data stream bits `11*c .. 11*c + j`,
/// least-significant first.
pub open spec fn chunk_prefix(m: Seq<u8>, c: int, j: int) -> u16
    decreases j,
{
    if j <= 0 {
        0u16
    } else if data_bit(m, 11 * c + (j - 1)) {
        chunk_prefix(m, c, j - 1) | (1u16 << ((j - 1) as u16))
    } else {
        chunk_prefix(m, c, j - 1)
    }
}

/// The 11 data bits of group `c` of the message, as the low bits of a `u16`.
pub open spec fn chunk_word(m: Seq<u8>, c: int) -> u16 {
    chunk_prefix(m, c, 11)
}

/// The encoded stream: each data group's codeword, two bytes each, low
/// byte first.
pub open spec fn encoded_stream(m: Seq<u8>) -> Seq<u8> {
    Seq::new((2 * num_codewords(m.len() as int)) as nat, |i: int|
        if i % 2 == 0 {
            (codeword_of(chunk_word(m, i / 2)) & 0xFF) as u8
        } else {
            (codeword_of(chunk_word(m, i / 2)) >> 8) as u8
        })
}

/// Codeword `c` of a received stream, rebuilt from its two bytes.
pub open spec fn word_at(s: Seq<u8>, c: int) -> u16
    recommends
        0 <= c,
        2 * c + 1 < s.len(),
{
    (s[2 * c] as u16) | ((s[2 * c + 1] as u16) << 8)
}

/// Every codeword of the received stream is error-free or carries a single
/// correctable error.
pub open spec fn all_correctable(s: Seq<u8>) -> bool {
    forall|c: int| 0 <= c < s.len() / 2 ==> (#[trigger] decoded_data(word_at(s, c))) is Some
}

/// Bit `t` of the concatenation of all recovered 11-bit data groups.
pub open spec fn payload_bit(s: Seq<u8>, t: int) -> bool
    recommends
        0 <= t < 11 * (s.len() / 2),
        all_correctable(s),
{
    (decoded_data(word_at(s, t / 11))->Some_0 >> (t % 11)) & 1 == 1
}

/// The low `j` bits of recovered byte `i`: payload bits `8*i .. 8*i + j`.
pub open spec fn out_byte_prefix(s: Seq<u8>, i: int, j: int) -> u8
    decreases j,
{
    if j <= 0 {
        0u8
    } else if payload_bit(s, 8 * i + (j - 1)) {
        out_byte_prefix(s, i, j - 1) | (1u8 << ((j - 1) as u8))
    } else {
        out_byte_prefix(s, i, j - 1)
    }
}

/// Recovered byte `i`: payload bits `8*i .. 8*i + 8`, least-significant
/// first.
pub open spec fn out_byte(s: Seq<u8>, i: int) -> u8 {
    out_byte_prefix(s, i, 8)
}

/// What decoding a received stream yields: `None` if any codeword shows an
/// uncorrectable double-bit error, else the recovered bytes, trailing bits
/// that do not fill a whole byte dropped.
pub open spec fn decoded_stream(s: Seq<u8>) -> Option<Seq<u8>> {
    if all_correctable(s) {
        Some(Seq::new((11 * (s.len() as int / 2) / 8) as nat, |i: int| out_byte(s, i)))
    } else {
        None
    }
}

/// Every started group holds bits within or just beyond the message:
/// `11 * num_codewords(n) <= 8 * n + 10`.
pub proof fn lemma_num_codewords_bounds(n: int)
    requires
        n >= 0,
    ensures
        11 * num_codewords(n) <= 8 * n + 10,
        8 * n <= 11 * num_codewords(n),
        num_codewords(n) <= n,
{
    lemma_fundamental_div_mod(8 * n + 10, 11);
    lemma_mod_division_less_than_divisor(8 * n + 10, 11);
}

/// A prefix of a data group stays below the next power of two.
proof fn lemma_chunk_prefix_bound(m: Seq<u8>, c: int, j: int)
    requires
        0 <= j <= 11,
    ensures
        chunk_prefix(m, c, j) < (1u16 << (j as u16)),
    decreases j,
{
    if j == 0 {
        assert((1u16 << 0u16) == 1) by (bit_vector);
    } else {
        lemma_chunk_prefix_bound(m, c, j - 1);
        let x = chunk_prefix(m, c, j - 1);
        let jm: u16 = (j - 1) as u16;
        let ju: u16 = j as u16;
        assert((x < (1u16 << jm) && ju == jm + 1 && jm < 11) ==> (x < (1u16 << ju) && (x | (
        1u16 << jm)) < (1u16 << ju))) by (bit_vector);
    }
}

/// A data group fits in 11 bits.
pub proof fn lemma_chunk_word_bound(m: Seq<u8>, c: int)
    ensures
        chunk_word(m, c) < 0x800,
{
    lemma_chunk_prefix_bound(m, c, 11);
    assert((1u16 << 11u16) == 0x800) by (bit_vector);
}

/// Bit `k` of a data-group prefix is the corresponding data stream bit.
proof fn lemma_chunk_prefix_bit(m: Seq<u8>, c: int, j: int, k: int)
    requires
        0 <= k < j <= 11,
    ensures
        ((chunk_prefix(m, c, j) >> (k as u16)) & 1 == 1) == data_bit(m, 11 * c + k),
    decreases j,
{
    let x = chunk_prefix(m, c, j - 1);
    let jm: u16 = (j - 1) as u16;
    let ku: u16 = k as u16;
    if k == j - 1 {
        lemma_chunk_prefix_bound(m, c, j - 1);
        assert(x < (1u16 << jm) ==> ((((x | (1u16 << jm)) >> jm) & 1 == 1) && !((x >> jm) & 1
            == 1))) by (bit_vector)
            requires
                jm < 11,
        ;
    } else {
        lemma_chunk_prefix_bit(m, c, j - 1, k);
        assert((((x | (1u16 << jm)) >> ku) & 1) == ((x >> ku) & 1)) by (bit_vector)
            requires
                ku < jm && jm < 11,
        ;
    }
}

/// A recovered-byte prefix stays below the next power of two.
proof fn lemma_out_byte_prefix_bound(s: Seq<u8>, i: int, j: int)
    requires
        0 <= j <= 8,
    ensures
        (out_byte_prefix(s, i, j) as u16) < (1u16 << (j as u16)),
    decreases j,
{
    if j == 0 {
        assert((0u8 as u16) < (1u16 << 0u16)) by (bit_vector);
    } else {
        lemma_out_byte_prefix_bound(s, i, j - 1);
        let x = out_byte_prefix(s, i, j - 1);
        let jm: u16 = (j - 1) as u16;
        let ju: u16 = j as u16;
        assert(((x as u16) < (1u16 << jm) && ju == jm + 1 && jm < 8) ==> (((x as u16) < (1u16
            << ju)) && (((x | (1u8 << (jm as u8))) as u16) < (1u16 << ju)))) by (bit_vector);
    }
}

/// Bit `k` of a recovered-byte prefix is the corresponding payload bit.
proof fn lemma_out_byte_prefix_bit(s: Seq<u8>, i: int, j: int, k: int)
    requires
        0 <= k < j <= 8,
    ensures
        ((out_byte_prefix(s, i, j) >> (k as u8)) & 1 == 1) == payload_bit(s, 8 * i + k),
    decreases j,
{
    let x = out_byte_prefix(s, i, j - 1);
    let jm: u8 = (j - 1) as u8;
    let ku: u8 = k as u8;
    if k == j - 1 {
        lemma_out_byte_prefix_bound(s, i, j - 1);
        assert((x as u16) < (1u16 << ((jm as u16))) ==> ((((x | (1u8 << jm)) >> jm) & 1 == 1)
            && !((x >> jm) & 1 == 1))) by (bit_vector)
            requires
                jm < 8,
        ;
    } else {
        lemma_out_byte_prefix_bit(s, i, j - 1, k);
        assert((((x | (1u8 << jm)) >> ku) & 1) == ((x >> ku) & 1)) by (bit_vector)
            requires
                ku < jm && jm < 8,
        ;
    }
}

/// Codeword `c` of the encoded stream, rebuilt from its two bytes, is the
/// codeword of data group `c`.
pub proof fn lemma_encoded_word_at(m: Seq<u8>, c: int)
    requires
        0 <= c < num_codewords(m.len() as int),
    ensures
        word_at(encoded_stream(m), c) == codeword_of(chunk_word(m, c)),
{
    let s = encoded_stream(m);
    lemma_fundamental_div_mod_converse(2 * c, 2, c, 0);
    lemma_fundamental_div_mod_converse(2 * c + 1, 2, c, 1);
    let w = codeword_of(chunk_word(m, c));
    let lo: u8 = (w & 0xFF) as u8;
    let hi: u8 = (w >> 8) as u8;
    assert(s[2 * c] == lo);
    assert(s[2 * c + 1] == hi);
    assert(((lo as u16) | ((hi as u16) << 8)) == w) by (bit_vector)
        requires
            lo == (w & 0xFF) as u8,
            hi == (w >> 8) as u8,
    ;
}

/// Law: an undisturbed encoded stream decodes without failure, each
/// codeword to its own data group.
pub proof fn lemma_encoded_all_correctable(m: Seq<u8>)
    ensures
        all_correctable(encoded_stream(m)),
        forall|c: int| 0 <= c < num_codewords(m.len() as int) ==> #[trigger] decoded_data(
            word_at(encoded_stream(m), c)) == Some(chunk_word(m, c)),
{
    let s = encoded_stream(m);
    let n = m.len() as int;
    let ncw = num_codewords(n);
    lemma_num_codewords_bounds(n);
    assert forall|c: int| 0 <= c < ncw implies #[trigger] decoded_data(word_at(s, c)) == Some(
        chunk_word(m, c)) by {
        lemma_encoded_word_at(m, c);
        lemma_chunk_word_bound(m, c);
        crate::word::lemma_codeword_no_error(chunk_word(m, c));
    }
    lemma_fundamental_div_mod_converse(2 * ncw, 2, ncw, 0);
    assert(s.len() / 2 == ncw);
}

/// Bit `t` of the payload recovered from an undisturbed encoded stream is
/// data stream bit `t`.
proof fn lemma_payload_matches(m: Seq<u8>, t: int)
    requires
        0 <= t < 11 * num_codewords(m.len() as int),
    ensures
        payload_bit(encoded_stream(m), t) == data_bit(m, t),
{
    let s = encoded_stream(m);
    let c = t / 11;
    let k = t % 11;
    lemma_fundamental_div_mod(t, 11);
    lemma_mod_division_less_than_divisor(t, 11);
    lemma_encoded_all_correctable(m);
    assert(decoded_data(word_at(s, c)) == Some(chunk_word(m, c)));
    lemma_chunk_prefix_bit(m, c, 11, k);
}

/// Law: decoding an undisturbed encoded stream succeeds and yields the
/// message, followed by the zero bytes that complete the last group's
/// padding to whole bytes.
pub proof fn lemma_round_trip_padded(m: Seq<u8>)
    ensures
        decoded_stream(encoded_stream(m)) is Some,
        m.len() <= 11 * num_codewords(m.len() as int) / 8,
        decoded_stream(encoded_stream(m))->Some_0 == m + Seq::new(
            (11 * num_codewords(m.len() as int) / 8 - m.len()) as nat, |x: int| 0u8),
{
    let s = encoded_stream(m);
    let n = m.len() as int;
    let ncw = num_codewords(n);
    lemma_num_codewords_bounds(n);
    lemma_encoded_all_correctable(m);
    lemma_fundamental_div_mod_converse(2 * ncw, 2, ncw, 0);
    let l = 11 * ncw / 8;
    lemma_fundamental_div_mod(11 * ncw, 8);
    lemma_mod_division_less_than_divisor(11 * ncw, 8);
    let target = m + Seq::new((l - n) as nat, |x: int| 0u8);
    assert forall|i: int| 0 <= i < l implies out_byte(s, i) == target[i] by {
        let a = out_byte(s, i);
        lemma_out_byte_prefix_bit(s, i, 8, 0);
        lemma_out_byte_prefix_bit(s, i, 8, 1);
        lemma_out_byte_prefix_bit(s, i, 8, 2);
        lemma_out_byte_prefix_bit(s, i, 8, 3);
        lemma_out_byte_prefix_bit(s, i, 8, 4);
        lemma_out_byte_prefix_bit(s, i, 8, 5);
        lemma_out_byte_prefix_bit(s, i, 8, 6);
        lemma_out_byte_prefix_bit(s, i, 8, 7);
        lemma_payload_matches(m, 8 * i + 0);
        lemma_payload_matches(m, 8 * i + 1);
        lemma_payload_matches(m, 8 * i + 2);
        lemma_payload_matches(m, 8 * i + 3);
        lemma_payload_matches(m, 8 * i + 4);
        lemma_payload_matches(m, 8 * i + 5);
        lemma_payload_matches(m, 8 * i + 6);
        lemma_payload_matches(m, 8 * i + 7);
        if i < n {
            lemma_fundamental_div_mod_converse(8 * i + 0, 8, i, 0);
            lemma_fundamental_div_mod_converse(8 * i + 1, 8, i, 1);
            lemma_fundamental_div_mod_converse(8 * i + 2, 8, i, 2);
            lemma_fundamental_div_mod_converse(8 * i + 3, 8, i, 3);
            lemma_fundamental_div_mod_converse(8 * i + 4, 8, i, 4);
            lemma_fundamental_div_mod_converse(8 * i + 5, 8, i, 5);
            lemma_fundamental_div_mod_converse(8 * i + 6, 8, i, 6);
            lemma_fundamental_div_mod_converse(8 * i + 7, 8, i, 7);
            let b = m[i];
            assert(a == b) by (bit_vector)
                requires
                    ((a >> 0u8) & 1 == 1) == ((b >> 0u8) & 1 == 1),
                    ((a >> 1u8) & 1 == 1) == ((b >> 1u8) & 1 == 1),
                    ((a >> 2u8) & 1 == 1) == ((b >> 2u8) & 1 == 1),
                    ((a >> 3u8) & 1 == 1) == ((b >> 3u8) & 1 == 1),
                    ((a >> 4u8) & 1 == 1) == ((b >> 4u8) & 1 == 1),
                    ((a >> 5u8) & 1 == 1) == ((b >> 5u8) & 1 == 1),
                    ((a >> 6u8) & 1 == 1) == ((b >> 6u8) & 1 == 1),
                    ((a >> 7u8) & 1 == 1) == ((b >> 7u8) & 1 == 1),
            ;
        } else {
            assert(a == 0) by (bit_vector)
                requires
                    !((a >> 0u8) & 1 == 1),
                    !((a >> 1u8) & 1 == 1),
                    !((a >> 2u8) & 1 == 1),
                    !((a >> 3u8) & 1 == 1),
                    !((a >> 4u8) & 1 == 1),
                    !((a >> 5u8) & 1 == 1),
                    !((a >> 6u8) & 1 == 1),
                    !((a >> 7u8) & 1 == 1),
            ;
        }
    }
    assert(decoded_stream(s)->Some_0 =~= target);
}

/// The stream with bit `i` flipped (least-significant-bit first within
/// each byte).
pub open spec fn flip_bit(s: Seq<u8>, i: int) -> Seq<u8>
    recommends
        0 <= i < 8 * s.len(),
{
    s.update(i / 8, s[i / 8] ^ (1u8 << (i % 8)))
}

/// Flipping stream bit `x` flips bit `x % 16` of codeword `x / 16` and
/// leaves every other codeword as it was.
proof fn lemma_word_at_flip(s: Seq<u8>, x: int, c: int)
    requires
        0 <= x < 8 * s.len(),
        0 <= c,
        2 * c + 1 < s.len(),
        x / 16 == c,
    ensures
        flip_bit(s, x).len() == s.len(),
        word_at(flip_bit(s, x), c) == word_at(s, c) ^ (1u16 << ((x % 16) as u16)),
        forall|c2: int|
            0 <= c2 && 2 * c2 + 1 < s.len() && c2 != c ==> #[trigger] word_at(flip_bit(s, x), c2)
                == word_at(s, c2),
{
    let kb = x % 8;
    let p = x % 16;
    lemma_fundamental_div_mod(x, 16);
    lemma_mod_division_less_than_divisor(x, 16);
    lemma_mod_division_less_than_divisor(x, 8);
    let f = flip_bit(s, x);
    let lo = s[2 * c];
    let hi = s[2 * c + 1];
    let k8: u8 = kb as u8;
    let p16: u16 = p as u16;
    if p < 8 {
        lemma_fundamental_div_mod_converse(x, 8, 2 * c, p);
        assert(f[2 * c] == (lo ^ (1u8 << kb)));
        assert((((lo ^ (1u8 << k8)) as u16) | ((hi as u16) << 8)) == (((lo as u16) | ((
        hi as u16) << 8)) ^ (1u16 << p16))) by (bit_vector)
            requires
                k8 < 8,
                p16 == k8 as u16,
        ;
    } else {
        lemma_fundamental_div_mod_converse(x, 8, 2 * c + 1, p - 8);
        assert(f[2 * c + 1] == (hi ^ (1u8 << kb)));
        assert((((lo as u16) | (((hi ^ (1u8 << k8)) as u16) << 8)) == (((lo as u16) | ((
        hi as u16) << 8)) ^ (1u16 << p16)))) by (bit_vector)
            requires
                k8 < 8,
                p16 == (k8 as u16) + 8,
        ;
    }
}

/// Payload bits that agree give recovered-byte prefixes that agree.
proof fn lemma_out_byte_prefix_congruent(s1: Seq<u8>, s2: Seq<u8>, i: int, j: int)
    requires
        0 <= j <= 8,
        forall|t: int| 8 * i <= t < 8 * i + j ==> #[trigger] payload_bit(s1, t) == payload_bit(
            s2, t),
    ensures
        out_byte_prefix(s1, i, j) == out_byte_prefix(s2, i, j),
    decreases j,
{
    if j > 0 {
        lemma_out_byte_prefix_congruent(s1, s2, i, j - 1);
        assert(payload_bit(s1, 8 * i + (j - 1)) == payload_bit(s2, 8 * i + (j - 1)));
    }
}

/// Law: single-bit correction, at stream level. Flipping any one bit of an
/// undisturbed encoded stream does not change what decoding returns.
pub proof fn lemma_stream_single_flip(m: Seq<u8>, i: int)
    requires
        0 <= i < 16 * num_codewords(m.len() as int),
    ensures
        decoded_stream(flip_bit(encoded_stream(m), i)) == decoded_stream(encoded_stream(m)),
{
    let s = encoded_stream(m);
    let n = m.len() as int;
    let ncw = num_codewords(n);
    lemma_num_codewords_bounds(n);
    let f = flip_bit(s, i);
    let c0 = i / 16;
    let p16: u16 = (i % 16) as u16;
    lemma_fundamental_div_mod(i, 16);
    lemma_mod_division_less_than_divisor(i, 16);
    lemma_word_at_flip(s, i, c0);
    lemma_encoded_all_correctable(m);
    lemma_encoded_word_at(m, c0);
    lemma_chunk_word_bound(m, c0);
    crate::word::lemma_single_flip(chunk_word(m, c0), p16);
    assert forall|c: int| 0 <= c < ncw implies #[trigger] decoded_data(word_at(f, c))
        == decoded_data(word_at(s, c)) by {
        if c == c0 {
            assert(word_at(f, c0) == codeword_of(chunk_word(m, c0)) ^ (1u16 << p16));
        }
    }
    lemma_fundamental_div_mod_converse(2 * ncw, 2, ncw, 0);
    assert(all_correctable(f));
    assert forall|t: int| 0 <= t < 11 * ncw implies payload_bit(f, t) == payload_bit(s, t) by {
        lemma_fundamental_div_mod(t, 11);
        lemma_mod_division_less_than_divisor(t, 11);
        assert(decoded_data(word_at(f, t / 11)) == decoded_data(word_at(s, t / 11)));
    }
    let l = 11 * ncw / 8;
    lemma_fundamental_div_mod(11 * ncw, 8);
    lemma_mod_division_less_than_divisor(11 * ncw, 8);
    assert forall|x: int| 0 <= x < l implies out_byte(f, x) == out_byte(s, x) by {
        lemma_out_byte_prefix_congruent(f, s, x, 8);
    }
    assert(decoded_stream(f)->Some_0 =~= decoded_stream(s)->Some_0);
}

/// Law: double-bit detection, at stream level. Flipping two distinct bits
/// that fall in the same codeword of an undisturbed encoded stream makes
/// decoding fail rather than return wrong data.
pub proof fn lemma_stream_double_flip(m: Seq<u8>, i: int, j: int)
    requires
        0 <= i < 16 * num_codewords(m.len() as int),
        0 <= j < 16 * num_codewords(m.len() as int),
        i != j,
        i / 16 == j / 16,
    ensures
        decoded_stream(flip_bit(flip_bit(encoded_stream(m), i), j)) == None::<Seq<u8>>,
{
    let s = encoded_stream(m);
    let n = m.len() as int;
    let ncw = num_codewords(n);
    lemma_num_codewords_bounds(n);
    let c0 = i / 16;
    let p16: u16 = (i % 16) as u16;
    let q16: u16 = (j % 16) as u16;
    lemma_fundamental_div_mod(i, 16);
    lemma_fundamental_div_mod(j, 16);
    lemma_mod_division_less_than_divisor(i, 16);
    lemma_mod_division_less_than_divisor(j, 16);
    let f1 = flip_bit(s, i);
    let f2 = flip_bit(f1, j);
    lemma_word_at_flip(s, i, c0);
    lemma_word_at_flip(f1, j, c0);
    lemma_encoded_word_at(m, c0);
    lemma_chunk_word_bound(m, c0);
    crate::word::lemma_double_flip(chunk_word(m, c0), p16, q16);
    assert(decoded_data(word_at(f2, c0)) is None);
    lemma_fundamental_div_mod_converse(2 * ncw, 2, ncw, 0);
    assert(!all_correctable(f2));
}

/// Law: round-trip identity. Whenever the padding that completes the last
/// data group amounts to less than one whole byte, decoding an undisturbed
/// encoded stream returns exactly the original message.
pub proof fn lemma_round_trip(m: Seq<u8>)
    requires
        11 * num_codewords(m.len() as int) / 8 == m.len() as int,
    ensures
        decoded_stream(encoded_stream(m)) == Some(m),
{
    lemma_round_trip_padded(m);
    assert(m + Seq::new(0, |x: int| 0u8) =~= m);
}

/// Law: the empty message encodes to zero codewords, and decoding an empty
/// stream returns the empty message, not an error.
pub proof fn lemma_empty_round_trip()
    ensures
        encoded_stream(Seq::<u8>::empty()) == Seq::<u8>::empty(),
        decoded_stream(Seq::<u8>::empty()) == Some(Seq::<u8>::empty()),
{
    assert(encoded_stream(Seq::<u8>::empty()) =~= Seq::<u8>::empty());
    lemma_round_trip(Seq::<u8>::empty());
    assert(decoded_stream(Seq::<u8>::empty()) == decoded_stream(encoded_stream(
        Seq::<u8>::empty())));
}

/// Encode a message into its stream of Hamming(16,11) codewords.
///
/// Always succeeds: an empty message yields zero codewords, and a message
/// whose bit count is not a multiple of 11 has its last group zero-padded.
pub fn encode(message: &Vec<u8>, code: &Code) -> (out: Vec<u8>)
    requires
        code.wf(),
        message@.len() <= (usize::MAX - 10) / 8,
    ensures
        out@ == encoded_stream(message@),
        out@.len() == 2 * num_codewords(message@.len() as int),
{
    let n = message.len();
    proof {
        lemma_fundamental_div_mod((usize::MAX - 10) as int, 8);
        lemma_mod_division_less_than_divisor((usize::MAX - 10) as int, 8);
        lemma_num_codewords_bounds(n as int);
    }
    let ncw = (8 * n + 10) / 11;
    let mut out: Vec<u8> = Vec::new();
    let mut c: usize = 0;
    while c < ncw
        invariant
            c <= ncw,
            n == message@.len(),
            8 * n + 10 <= usize::MAX,
            ncw == num_codewords(n as int),
            11 * ncw <= 8 * n + 10,
            out@.len() == 2 * c,
            forall|i: int| 0 <= i < 2 * c ==> out@[i] == encoded_stream(message@)[i],
        decreases ncw - c,
    {
        let mut d: u16 = 0;
        let mut j: usize = 0;
        while j < 11
            invariant
                j <= 11,
                c < ncw,
                n == message@.len(),
                8 * n + 10 <= usize::MAX,
                11 * ncw <= 8 * n + 10,
                d == chunk_prefix(message@, c as int, j as int),
            decreases 11 - j,
        {
            let t = 11 * c + j;
            if t < 8 * n {
                let b = message[t / 8];
                proof {
                    lemma_mod_division_less_than_divisor(t as int, 8);
                }
                if (b >> (t % 8)) & 1 == 1 {
                    d = d | (1u16 << j);
                }
            }
            j += 1;
        }
        proof {
            lemma_chunk_word_bound(message@, c as int);
        }
        let w = encode_codeword(d);
        out.push((w & 0xFF) as u8);
        out.push((w >> 8) as u8);
        proof {
            lemma_fundamental_div_mod_converse(2 * (c as int), 2, c as int, 0);
            lemma_fundamental_div_mod_converse(2 * (c as int) + 1, 2, c as int, 1);
        }
        c += 1;
    }
    proof {
        assert(out@ =~= encoded_stream(message@));
    }
    out
}

/// Decode a received stream of two-byte codewords.
///
/// Returns the recovered message bytes, or `Err(DecodeError::Uncorrectable)`
/// exactly when some codeword shows a detected double-bit error. A stream
/// not aligned to whole codewords is a usage error, excluded by the
/// precondition.
pub fn decode(encoded: &Vec<u8>, code: &Code) -> (r: Result<Vec<u8>, DecodeError>)
    requires
        code.wf(),
        encoded@.len() % 2 == 0,
        11 * (encoded@.len() as int / 2) <= usize::MAX as int,
    ensures
        match r {
            Ok(v) => decoded_stream(encoded@) == Some(v@),
            Err(e) => decoded_stream(encoded@) == None::<Seq<u8>> && e
                == DecodeError::Uncorrectable,
        },
{
    let len = encoded.len();
    let ncw = len / 2;
    proof {
        lemma_fundamental_div_mod(len as int, 2);
    }
    let mut words: Vec<u16> = Vec::new();
    let mut c: usize = 0;
    while c < ncw
        invariant
            c <= ncw,
            len == encoded@.len(),
            len % 2 == 0,
            len == 2 * ncw,
            words@.len() == c,
            forall|i: int| 0 <= i < c ==> Some(words@[i]) == #[trigger] decoded_data(
                word_at(encoded@, i)),
        decreases ncw - c,
    {
        let lo = encoded[2 * c];
        let hi = encoded[2 * c + 1];
        let w: u16 = (lo as u16) | ((hi as u16) << 8);
        assert(w == word_at(encoded@, c as int));
        match decode_codeword(w) {
            Some(d) => {
                words.push(d);
            },
            None => {
                proof {
                    assert(decoded_data(word_at(encoded@, c as int)) is None);
                    assert(!all_correctable(encoded@));
                }
                return Err(DecodeError::Uncorrectable);
            },
        }
        c += 1;
    }
    assert(all_correctable(encoded@));
    let nbits = 11 * ncw;
    let nbytes = nbits / 8;
    proof {
        lemma_fundamental_div_mod(nbits as int, 8);
        lemma_mod_division_less_than_divisor(nbits as int, 8);
    }
    let mut out: Vec<u8> = Vec::new();
    let mut i: usize = 0;
    while i < nbytes
        invariant
            i <= nbytes,
            len == encoded@.len(),
            len == 2 * ncw,
            words@.len() == ncw,
            8 * nbytes <= 11 * ncw,
            11 * ncw <= usize::MAX,
            nbytes == 11 * (encoded@.len() as int / 2) / 8,
            forall|ci: int| 0 <= ci < ncw ==> Some(words@[ci]) == #[trigger] decoded_data(
                word_at(encoded@, ci)),
            out@.len() == i,
            forall|x: int| 0 <= x < i ==> out@[x] == out_byte(encoded@, x),
        decreases nbytes - i,
    {
        let mut b: u8 = 0;
        let mut j: usize = 0;
        while j < 8
            invariant
                j <= 8,
                i < nbytes,
                len == encoded@.len(),
                len == 2 * ncw,
                words@.len() == ncw,
                8 * nbytes <= 11 * ncw,
                11 * ncw <= usize::MAX,
                forall|ci: int| 0 <= ci < ncw ==> Some(words@[ci]) == #[trigger] decoded_data(
                    word_at(encoded@, ci)),
                b == out_byte_prefix(encoded@, i as int, j as int),
            decreases 8 - j,
        {
            let t = 8 * i + j;
            let widx = t / 11;
            let k = t % 11;
            proof {
                lemma_fundamental_div_mod(t as int, 11);
                lemma_mod_division_less_than_divisor(t as int, 11);
            }
            if (words[widx] >> k) & 1 == 1 {
                b = b | (1u8 << j);
            }
            j += 1;
        }
        out.push(b);
        i += 1;
    }
    proof {
        assert(out@ =~= decoded_stream(encoded@)->Some_0);
    }
    Ok(out)
}

} // verus!
