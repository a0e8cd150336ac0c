//! The round-trip pipeline: encode the message, bring the error mask to the
//! encoded stream's length, XOR the two, decode, and try to read the result
//! as text.
//!
//! Every step but mask generation is pure, so a run's artifacts are a
//! function of the message and of the mask it starts from; mask generation
//! happens only on an explicit action, through
//! [`crate::mask::generate_mask`].

use vstd::prelude::*;
use vstd::arithmetic::div_mod::{
    lemma_fundamental_div_mod, lemma_fundamental_div_mod_converse,
    lemma_mod_division_less_than_divisor,
};
use crate::code::Code;
use crate::codec::{
    encode, decode, encoded_stream, decoded_stream, num_codewords, flip_bit,
    lemma_num_codewords_bounds, lemma_stream_single_flip, lemma_stream_double_flip,
};
use crate::mask::{
    xor_stream, resized, one_bit_mask, two_bit_mask, xor_bytes, resize_mask, lemma_xor_zero_mask,
};

verus! {

/// The text that a byte sequence holds under UTF-8, if it is valid UTF-8.
pub uninterp spec fn utf8_text_of(bytes: Seq<u8>) -> Option<Seq<char>>;

/// Relies on core::str::from_utf8 (reached as std::str::from_utf8) and on
/// str::to_string: whether a byte sequence is valid UTF-8, and which text it
/// decodes to, depend on the bytes alone.
#[verifier::external_body]
fn bytes_to_text(bytes: &Vec<u8>) -> (r: Option<String>)
    ensures
        (r is Some) == (utf8_text_of(bytes@) is Some),
        r matches Some(s) ==> utf8_text_of(bytes@) == Some(s@),
{
    match std::str::from_utf8(bytes.as_slice()) {
        Ok(s) => Some(s.to_string()),
        Err(_) => None,
    }
}

/// The corrupted stream of a run: the encoded message, XOR-combined with
/// the mask brought to the encoded stream's length.
pub open spec fn corrupted_stream(m: Seq<u8>, mask: Seq<u8>) -> Seq<u8> {
    xor_stream(encoded_stream(m), resized(mask, encoded_stream(m).len() as int))
}

/// A run's decode outcome: the recovered text, or `None` whether the codec
/// failed on a double-bit error or the recovered bytes are not valid UTF-8
/// (the two causes are surfaced as one "cannot decode" state).
pub open spec fn pipeline_text(m: Seq<u8>, mask: Seq<u8>) -> Option<Seq<char>> {
    match decoded_stream(corrupted_stream(m, mask)) {
        Some(bytes) => utf8_text_of(bytes),
        None => None,
    }
}

/// The observable artifacts of one pipeline run.
pub struct PipelineArtifacts {
    /// The encoded stream, two bytes per codeword.
    pub encoded: Vec<u8>,
    /// The encoded stream with the mask's errors injected.
    pub corrupted: Vec<u8>,
    /// The recovered text, or `None` for the unified "cannot decode" state.
    pub decoded: Option<String>,
}

/// One pipeline run: re-encode the message, resize the mask to the new
/// encoded length (truncate or zero-extend, preserving injected errors
/// rather than regenerating them), XOR, decode, and read the recovered
/// bytes as text.
pub fn run_pipeline(message: &Vec<u8>, mask: &mut Vec<u8>, code: &Code) -> (r: PipelineArtifacts)
    requires
        code.wf(),
        message@.len() <= (usize::MAX - 10) / 8,
    ensures
        final(mask)@ == resized(old(mask)@, encoded_stream(message@).len() as int),
        r.encoded@ == encoded_stream(message@),
        r.corrupted@ == corrupted_stream(message@, old(mask)@),
        (r.decoded is Some) == (pipeline_text(message@, old(mask)@) is Some),
        r.decoded matches Some(t) ==> pipeline_text(message@, old(mask)@) == Some(t@),
{
    let encoded = encode(message, code);
    resize_mask(mask, encoded.len());
    let corrupted = xor_bytes(&encoded, mask);
    proof {
        let n = message@.len() as int;
        lemma_fundamental_div_mod((usize::MAX - 10) as int, 8);
        lemma_mod_division_less_than_divisor((usize::MAX - 10) as int, 8);
        lemma_num_codewords_bounds(n);
        lemma_fundamental_div_mod_converse(2 * num_codewords(n), 2, num_codewords(n), 0);
    }
    let decoded = match decode(&corrupted, code) {
        Ok(bytes) => bytes_to_text(&bytes),
        Err(_) => None,
    };
    PipelineArtifacts { encoded, corrupted, decoded }
}

/// Law: pipeline idempotence. All artifacts of a run are functions of the
/// message and of the mask the run starts from, and one run brings the mask
/// to a fixed point: resizing the resized mask changes nothing. So a second
/// run with the unchanged message and with the mask the first run left
/// behind produces byte-identical artifacts.
pub proof fn lemma_pipeline_idempotent(m: Seq<u8>, mask: Seq<u8>)
    ensures
        resized(resized(mask, encoded_stream(m).len() as int), encoded_stream(m).len() as int)
            == resized(mask, encoded_stream(m).len() as int),
        corrupted_stream(m, resized(mask, encoded_stream(m).len() as int)) == corrupted_stream(
            m, mask),
        pipeline_text(m, resized(mask, encoded_stream(m).len() as int)) == pipeline_text(m, mask),
{
    let l = encoded_stream(m).len() as int;
    assert(resized(resized(mask, l), l) =~= resized(mask, l));
}

/// Law: single-bit correction through the channel model. An error mask
/// whose only set bit is stream bit `i` corrupts the encoded stream into
/// the stream with exactly that bit flipped, and decoding the corrupted
/// stream returns the same result as decoding the undisturbed stream.
pub proof fn lemma_one_bit_mask_corrected(m: Seq<u8>, i: int)
    requires
        0 <= i < 16 * num_codewords(m.len() as int),
    ensures
        corrupted_stream(m, one_bit_mask(encoded_stream(m).len() as int, i)) == flip_bit(
            encoded_stream(m), i),
        decoded_stream(corrupted_stream(m, one_bit_mask(encoded_stream(m).len() as int, i)))
            == decoded_stream(encoded_stream(m)),
{
    let e = encoded_stream(m);
    let mk = one_bit_mask(e.len() as int, i);
    lemma_num_codewords_bounds(m.len() as int);
    lemma_fundamental_div_mod(i, 8);
    lemma_mod_division_less_than_divisor(i, 8);
    assert(resized(mk, e.len() as int) =~= mk);
    assert forall|b: int| 0 <= b < e.len() implies xor_stream(e, mk)[b] == flip_bit(e, i)[b] by {
        let v = e[b];
        if b != i / 8 {
            assert(v ^ 0u8 == v) by (bit_vector);
        }
    }
    assert(xor_stream(e, mk) =~= flip_bit(e, i));
    lemma_stream_single_flip(m, i);
}

/// Law: double-bit detection through the channel model. An error mask
/// whose only set bits are two distinct stream bits of one and the same
/// codeword corrupts the encoded stream into one that decoding rejects as
/// uncorrectable.
pub proof fn lemma_two_bit_mask_detected(m: Seq<u8>, i: int, j: int)
    requires
        0 <= i < 16 * num_codewords(m.len() as int),
        0 <= j < 16 * num_codewords(m.len() as int),
        i != j,
        i / 16 == j / 16,
    ensures
        corrupted_stream(m, two_bit_mask(encoded_stream(m).len() as int, i, j)) == flip_bit(
            flip_bit(encoded_stream(m), i), j),
        decoded_stream(corrupted_stream(m, two_bit_mask(encoded_stream(m).len() as int, i, j)))
            == None::<Seq<u8>>,
{
    let e = encoded_stream(m);
    let mk = two_bit_mask(e.len() as int, i, j);
    lemma_num_codewords_bounds(m.len() as int);
    lemma_fundamental_div_mod(i, 8);
    lemma_mod_division_less_than_divisor(i, 8);
    lemma_fundamental_div_mod(j, 8);
    lemma_mod_division_less_than_divisor(j, 8);
    lemma_fundamental_div_mod(i, 16);
    lemma_mod_division_less_than_divisor(i, 16);
    lemma_fundamental_div_mod(j, 16);
    lemma_mod_division_less_than_divisor(j, 16);
    assert(resized(mk, e.len() as int) =~= mk);
    let f1 = flip_bit(e, i);
    let f2 = flip_bit(f1, j);
    let ki: u8 = (i % 8) as u8;
    let kj: u8 = (j % 8) as u8;
    assert forall|b: int| 0 <= b < e.len() implies xor_stream(e, mk)[b] == f2[b] by {
        let v = e[b];
        if b == i / 8 && b == j / 8 {
            assert((ki != kj && ki < 8 && kj < 8) ==> ((v ^ (1u8 << ki)) ^ (1u8 << kj) == v ^ ((
            1u8 << ki) | (1u8 << kj)))) by (bit_vector);
        } else if b == i / 8 {
            assert((v ^ (1u8 << ki)) == v ^ ((1u8 << ki) | 0u8)) by (bit_vector);
        } else if b == j / 8 {
            assert((v ^ (1u8 << kj)) == v ^ (0u8 | (1u8 << kj))) by (bit_vector);
        } else {
            assert(v ^ (0u8 | 0u8) == v) by (bit_vector);
        }
    }
    assert(xor_stream(e, mk) =~= f2);
    lemma_stream_double_flip(m, i, j);
}

/// Law: with an all-zero error mask the corrupted stream is the encoded
/// stream itself, and (whenever the last group's padding amounts to less
/// than one whole byte) the pipeline's codec recovers exactly the original
/// message.
pub proof fn lemma_zero_mask_round_trip(m: Seq<u8>)
    requires
        11 * num_codewords(m.len() as int) / 8 == m.len() as int,
    ensures
        corrupted_stream(m, Seq::new(encoded_stream(m).len(), |i: int| 0u8)) == encoded_stream(m),
        decoded_stream(corrupted_stream(m, Seq::new(encoded_stream(m).len(), |i: int| 0u8)))
            == Some(m),
{
    let e = encoded_stream(m);
    let z = Seq::new(e.len(), |i: int| 0u8);
    assert(resized(z, e.len() as int) =~= z);
    lemma_xor_zero_mask(e);
    crate::codec::lemma_round_trip(m);
}

} // verus!
