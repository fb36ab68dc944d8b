use bitcodec::error::CodecError;
use bitcodec::hamming::{correct_errors, decode, decode_block, encode_block, hamming7, reduce};

#[test]
fn syndrome_of_a_codeword_is_zero() {
    assert_eq!(hamming7(0, 0, 0, 0, 0, 0, 0), 0);
    assert_eq!(hamming7(1, 1, 1, 1, 1, 1, 1), 0);
    assert_eq!(hamming7(0, 1, 1, 0, 0, 1, 0), 0);
}

#[test]
fn syndrome_names_each_data_position() {
    // codeword of 0000 with one data bit inverted
    assert_eq!(hamming7(1, 0, 0, 0, 0, 0, 0), 1);
    assert_eq!(hamming7(0, 1, 0, 0, 0, 0, 0), 2);
    assert_eq!(hamming7(0, 0, 1, 0, 0, 0, 0), 3);
    assert_eq!(hamming7(0, 0, 0, 1, 0, 0, 0), 4);
}

#[test]
fn syndrome_ignores_a_damaged_parity_bit() {
    assert_eq!(hamming7(0, 0, 0, 0, 1, 0, 0), 0);
    assert_eq!(hamming7(0, 0, 0, 0, 0, 1, 0), 0);
    assert_eq!(hamming7(0, 0, 0, 0, 0, 0, 1), 0);
}

#[test]
fn encode_block_appends_the_three_parities() {
    assert_eq!(encode_block(0, 1, 1, 0), [0, 1, 1, 0, 0, 1, 0]);
    assert_eq!(encode_block(1, 0, 1, 1), [1, 0, 1, 1, 0, 0, 0]);
    assert_eq!(encode_block(1, 1, 1, 1), [1, 1, 1, 1, 1, 1, 1]);
}

#[test]
fn every_single_flip_is_recovered() {
    for value in 0..16u8 {
        let d = [(value >> 3) & 1, (value >> 2) & 1, (value >> 1) & 1, value & 1];
        let sent = encode_block(d[0], d[1], d[2], d[3]);
        for flip in 0..=7usize {
            let mut received = sent;
            if flip > 0 {
                received[flip - 1] ^= 1;
            }
            let (data, position) = decode_block(&received).unwrap();
            assert_eq!(data, d);
            assert_eq!(position, if flip <= 4 { flip } else { 0 });
        }
    }
}

#[test]
fn block_0101101_keeps_its_data_bits() {
    // The parities of 0101 are 1, 0, 0. Only the third check fails, which
    // names no data bit: the data bits are handed out as they came.
    let (data, position) = decode_block(&[0, 1, 0, 1, 1, 0, 1]).unwrap();
    assert_eq!(position, 0);
    assert_eq!(data, [0, 1, 0, 1]);
}

#[test]
fn damaged_codeword_of_0110_decodes_to_0110() {
    assert_eq!(encode_block(0, 1, 1, 0), [0, 1, 1, 0, 0, 1, 0]);
    let (data, position) = decode_block(&[0, 1, 0, 0, 0, 1, 0]).unwrap();
    assert_eq!(data, [0, 1, 1, 0]);
    assert_eq!(position, 3);
    let (data, position) = decode_block(&[0, 1, 1, 1, 0, 1, 0]).unwrap();
    assert_eq!(data, [0, 1, 1, 0]);
    assert_eq!(position, 4);
}

#[test]
fn decode_block_rejects_other_lengths() {
    assert_eq!(decode_block(&[0, 1, 0, 1, 1, 0]), Err(CodecError::IncompleteBlock));
    assert_eq!(decode_block(&[]), Err(CodecError::IncompleteBlock));
    assert_eq!(decode_block(&[0, 1, 0, 1, 1, 0, 1, 0]), Err(CodecError::IncompleteBlock));
}

#[test]
fn correct_errors_repairs_each_block() {
    // 0110010 with bit 3 inverted, then 1011000 intact
    let input = vec![0, 1, 0, 0, 0, 1, 0, 1, 0, 1, 1, 0, 0, 0];
    let output = correct_errors(input).unwrap();
    assert_eq!(output, vec![0, 1, 1, 0, 0, 1, 0, 1, 0, 1, 1, 0, 0, 0]);
}

#[test]
fn correct_errors_corrects_the_last_block_too() {
    let output = correct_errors(vec![1, 0, 0, 0, 0, 0, 0]).unwrap();
    assert_eq!(output, vec![0, 0, 0, 0, 0, 0, 0]);
}

#[test]
fn correct_errors_leaves_damaged_parity_alone() {
    let output = correct_errors(vec![0, 1, 1, 0, 1, 1, 0]).unwrap();
    assert_eq!(output, vec![0, 1, 1, 0, 1, 1, 0]);
}

#[test]
fn correct_errors_rejects_a_partial_block() {
    assert_eq!(correct_errors(vec![0, 1, 0, 1, 1, 0, 1, 0]), Err(CodecError::IncompleteBlock));
    assert_eq!(correct_errors(vec![1]), Err(CodecError::IncompleteBlock));
}

#[test]
fn correct_errors_of_nothing_is_nothing() {
    assert_eq!(correct_errors(Vec::new()), Ok(Vec::new()));
}

#[test]
fn reduce_keeps_the_data_bits() {
    let input = vec![0, 1, 1, 0, 0, 1, 0, 1, 0, 1, 1, 0, 0, 0];
    assert_eq!(reduce(input), Ok(vec![0, 1, 1, 0, 1, 0, 1, 1]));
}

#[test]
fn reduce_rejects_a_partial_block() {
    assert_eq!(reduce(vec![0, 1, 1, 0, 0, 1]), Err(CodecError::IncompleteBlock));
}

#[test]
fn decode_corrects_and_reduces() {
    let input = vec![0, 1, 0, 0, 0, 1, 0, 1, 0, 1, 1, 0, 0, 0];
    assert_eq!(decode(&input), Ok(vec![0, 1, 1, 0, 1, 0, 1, 1]));
    let corrected = correct_errors(input.clone()).unwrap();
    assert_eq!(decode(&input), reduce(corrected));
}

#[test]
fn decode_rejects_a_partial_block() {
    assert_eq!(decode(&[0, 1, 0]), Err(CodecError::IncompleteBlock));
}
