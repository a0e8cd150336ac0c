use hamming_secded::code::Code;
use hamming_secded::codec::encode;
use hamming_secded::mask::{generate_mask, resize_mask, xor_bytes};
use hamming_secded::pipeline::run_pipeline;

#[test]
fn zero_probability_mask_is_all_zero() {
    for len in [0usize, 1, 7, 64] {
        let mask = generate_mask(len, 0, 1);
        assert_eq!(mask.len(), len);
        assert!(mask.iter().all(|b| *b == 0x00));
    }
}

#[test]
fn unit_probability_mask_is_all_one() {
    for len in [0usize, 1, 7, 64] {
        let mask = generate_mask(len, 1, 1);
        assert_eq!(mask.len(), len);
        assert!(mask.iter().all(|b| *b == 0xFF));
    }
}

#[test]
fn unit_probability_mask_with_larger_denominator() {
    let mask = generate_mask(16, 1000, 1000);
    assert!(mask.iter().all(|b| *b == 0xFF));
}

#[test]
fn generated_mask_has_requested_length() {
    let mask = generate_mask(23, 1, 2);
    assert_eq!(mask.len(), 23);
}

#[test]
fn resize_mask_truncates_and_zero_extends() {
    let mut mask: Vec<u8> = vec![0xAB, 0xCD, 0xEF];
    resize_mask(&mut mask, 2);
    assert_eq!(mask, vec![0xAB, 0xCD]);
    resize_mask(&mut mask, 5);
    assert_eq!(mask, vec![0xAB, 0xCD, 0, 0, 0]);
    resize_mask(&mut mask, 0);
    assert_eq!(mask, Vec::<u8>::new());
}

#[test]
fn xor_bytes_combines_bitwise() {
    let a: Vec<u8> = vec![0b1010_1010, 0xFF, 0x00];
    let b: Vec<u8> = vec![0b0110_0110, 0x0F, 0x00];
    assert_eq!(xor_bytes(&a, &b), vec![0b1100_1100, 0xF0, 0x00]);
}

#[test]
fn pipeline_recovers_text_with_zero_mask() {
    let code = Code::eh16_11();
    let message: Vec<u8> = b"A".to_vec();
    let mut mask: Vec<u8> = Vec::new();
    let run = run_pipeline(&message, &mut mask, &code);
    assert_eq!(run.encoded.len(), 2);
    assert_eq!(mask.len(), 2);
    assert_eq!(run.corrupted, run.encoded);
    assert_eq!(run.decoded.as_deref(), Some("A"));
}

#[test]
fn pipeline_runs_are_idempotent() {
    let code = Code::eh16_11();
    let message: Vec<u8> = b"idempotent?".to_vec();
    let mut mask = generate_mask(1, 1, 1);
    let first = run_pipeline(&message, &mut mask, &code);
    let mask_after_first = mask.clone();
    let second = run_pipeline(&message, &mut mask, &code);
    assert_eq!(mask, mask_after_first);
    assert_eq!(second.encoded, first.encoded);
    assert_eq!(second.corrupted, first.corrupted);
    assert_eq!(second.decoded, first.decoded);
}

#[test]
fn pipeline_corrects_single_bit_per_codeword() {
    let code = Code::eh16_11();
    let message: Vec<u8> = b"Hello!".to_vec();
    let encoded_len = encode(&message, &code).len();
    // One flipped bit in the first codeword.
    let mut mask: Vec<u8> = vec![0; encoded_len];
    mask[0] = 0x08;
    let run = run_pipeline(&message, &mut mask, &code);
    assert_ne!(run.corrupted, run.encoded);
    assert_eq!(run.decoded.as_deref(), Some("Hello!"));
}

#[test]
fn pipeline_reports_double_bit_error_as_undecodable() {
    let code = Code::eh16_11();
    let message: Vec<u8> = b"Hello!".to_vec();
    let encoded_len = encode(&message, &code).len();
    // Two flipped bits inside the first codeword.
    let mut mask: Vec<u8> = vec![0; encoded_len];
    mask[0] = 0x18;
    let run = run_pipeline(&message, &mut mask, &code);
    assert_eq!(run.decoded, None);
}

#[test]
fn pipeline_reports_invalid_text_as_undecodable() {
    let code = Code::eh16_11();
    // Recovered bytes are not valid UTF-8 even though the codec succeeds.
    let message: Vec<u8> = vec![0xFF];
    let mut mask: Vec<u8> = Vec::new();
    let run = run_pipeline(&message, &mut mask, &code);
    assert_eq!(run.corrupted, run.encoded);
    assert_eq!(run.decoded, None);
}

#[test]
fn pipeline_empty_message_decodes_to_empty_text() {
    let code = Code::eh16_11();
    let message: Vec<u8> = Vec::new();
    let mut mask: Vec<u8> = vec![0xAA, 0xBB];
    let run = run_pipeline(&message, &mut mask, &code);
    assert_eq!(run.encoded, Vec::<u8>::new());
    assert_eq!(mask, Vec::<u8>::new());
    assert_eq!(run.decoded.as_deref(), Some(""));
}

#[test]
fn pipeline_preserves_mask_prefix_when_message_grows() {
    let code = Code::eh16_11();
    let short: Vec<u8> = b"A".to_vec();
    let mut mask = generate_mask(2, 1, 1);
    run_pipeline(&short, &mut mask, &code);
    assert_eq!(mask, vec![0xFF, 0xFF]);
    let longer: Vec<u8> = b"AB".to_vec();
    run_pipeline(&longer, &mut mask, &code);
    // Two codewords now: the kept prefix, then "no error" bytes.
    assert_eq!(mask, vec![0xFF, 0xFF, 0x00, 0x00]);
}
