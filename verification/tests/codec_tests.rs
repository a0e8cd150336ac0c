use hamming_secded::code::{Code, DecodeError};
use hamming_secded::codec::{decode, encode};
use hamming_secded::word::{decode_codeword, encode_codeword};

fn round_trip(message: &[u8]) -> Result<Vec<u8>, DecodeError> {
    let code = Code::eh16_11();
    let m: Vec<u8> = message.to_vec();
    let encoded = encode(&m, &code);
    decode(&encoded, &code)
}

#[test]
fn code_descriptor_is_16_11() {
    let code = Code::eh16_11();
    assert_eq!(code.data_bits, 11);
    assert_eq!(code.total_bits, 16);
    // SECDED invariant: total = data + ceil(log2(data + total + 1)) + 1.
    assert_eq!(code.total_bits, code.data_bits + 4 + 1);
}

#[test]
fn empty_message_encodes_to_zero_codewords() {
    let code = Code::eh16_11();
    let m: Vec<u8> = Vec::new();
    let encoded = encode(&m, &code);
    assert_eq!(encoded.len(), 0);
}

#[test]
fn decoding_zero_codewords_returns_empty_message() {
    let code = Code::eh16_11();
    let empty: Vec<u8> = Vec::new();
    assert_eq!(decode(&empty, &code), Ok(Vec::new()));
}

#[test]
fn single_byte_encodes_to_one_codeword() {
    let code = Code::eh16_11();
    let m: Vec<u8> = vec![0x41];
    let encoded = encode(&m, &code);
    // 8 data bits fill one 11-bit group (zero-padded), one 16-bit codeword.
    assert_eq!(encoded.len(), 2);
}

#[test]
fn round_trip_single_byte() {
    assert_eq!(round_trip(&[0x41]), Ok(vec![0x41]));
}

#[test]
fn round_trip_exact_lengths() {
    // Lengths where the padding of the last 11-bit group is below one byte,
    // so decode returns exactly the original message.
    for n in [0usize, 1, 2, 4, 5, 6, 8, 9, 11, 12, 22, 33] {
        let m: Vec<u8> = (0..n).map(|i| (37 * i + 11) as u8).collect();
        assert_eq!(round_trip(&m), Ok(m));
    }
}

#[test]
fn round_trip_padded_lengths_append_zero_byte() {
    // For 3, 7 or 10 bytes (mod 11) the recovered stream carries one whole
    // zero byte of group padding beyond the message.
    for n in [3usize, 7, 10, 14] {
        let m: Vec<u8> = (0..n).map(|i| (53 * i + 1) as u8).collect();
        let mut want = m.clone();
        want.push(0);
        assert_eq!(round_trip(&m), Ok(want));
    }
}

#[test]
fn codeword_round_trip_all_data_values() {
    for d in 0u16..0x800 {
        let w = encode_codeword(d);
        assert_eq!(decode_codeword(w), Some(d));
    }
}

#[test]
fn codeword_single_flip_corrected_all_positions_all_values() {
    for d in [0u16, 1, 0x41, 0x2AB, 0x555, 0x7FF] {
        let w = encode_codeword(d);
        for p in 0..16 {
            assert_eq!(decode_codeword(w ^ (1u16 << p)), Some(d));
        }
    }
}

#[test]
fn codeword_double_flip_detected_all_pairs() {
    // Every pair of distinct positions, exhaustively, for fixed codewords.
    for d in [0x41u16, 0x3A5, 0x7FF] {
        let w = encode_codeword(d);
        for p in 0..16 {
            for q in 0..16 {
                if p != q {
                    assert_eq!(decode_codeword(w ^ (1u16 << p) ^ (1u16 << q)), None);
                }
            }
        }
    }
}

#[test]
fn stream_single_flip_corrected_every_position() {
    let code = Code::eh16_11();
    let m: Vec<u8> = vec![0x41];
    let encoded = encode(&m, &code);
    for i in 0..16 {
        let mut bad = encoded.clone();
        bad[i / 8] ^= 1u8 << (i % 8);
        assert_eq!(decode(&bad, &code), Ok(vec![0x41]));
    }
}

#[test]
fn stream_double_flip_same_codeword_uncorrectable() {
    let code = Code::eh16_11();
    let m: Vec<u8> = vec![0x41];
    let encoded = encode(&m, &code);
    for i in 0..16 {
        for j in 0..16 {
            if i != j {
                let mut bad = encoded.clone();
                bad[i / 8] ^= 1u8 << (i % 8);
                bad[j / 8] ^= 1u8 << (j % 8);
                assert_eq!(decode(&bad, &code), Err(DecodeError::Uncorrectable));
            }
        }
    }
}

#[test]
fn single_flips_in_different_codewords_are_corrected() {
    let code = Code::eh16_11();
    let m: Vec<u8> = vec![0xDE, 0xAD, 0xBE, 0xEF];
    let encoded = encode(&m, &code);
    assert_eq!(encoded.len(), 6);
    let mut bad = encoded.clone();
    // One flipped bit in each of the three codewords.
    bad[0] ^= 0x10;
    bad[3] ^= 0x02;
    bad[5] ^= 0x80;
    assert_eq!(decode(&bad, &code), Ok(vec![0xDE, 0xAD, 0xBE, 0xEF]));
}

#[test]
fn uncorrectable_codeword_fails_whole_message() {
    let code = Code::eh16_11();
    let m: Vec<u8> = vec![1, 2, 3, 4, 5];
    let encoded = encode(&m, &code);
    let mut bad = encoded.clone();
    // Two flipped bits inside the last codeword.
    let base = encoded.len() - 2;
    bad[base] ^= 0x09;
    assert_eq!(decode(&bad, &code), Err(DecodeError::Uncorrectable));
}

#[test]
fn encoded_codewords_have_even_overall_parity() {
    let code = Code::eh16_11();
    let m: Vec<u8> = vec![0x41, 0xFF, 0x00, 0x7C];
    let encoded = encode(&m, &code);
    for pair in encoded.chunks(2) {
        let w = (pair[0] as u16) | ((pair[1] as u16) << 8);
        assert_eq!(w.count_ones() % 2, 0);
    }
}
