//! Tests for the repetition codec.

use error_correction::repeat::{decode, encode, panic_decode, wrong_decode};

#[test]
fn duplicate_round_trip() {
    let input = vec![1, 2, 34, 56];
    let encoded = encode(&input, 3);
    println!("{:?}", encoded);
    let output = panic_decode(&encoded, 3);
    assert_eq!(input, output);
}

#[test]
fn large_duplicate_round_trip() {
    let input = vec![1, 2, 34, 56];
    let encoded = encode(&input, 9);
    println!("{:?}", encoded);
    let output = panic_decode(&encoded, 9);
    assert_eq!(input, output);
}

/// Flips the bit at the given flat position, most significant bit of each
/// byte first.
fn flip_bit(buffer: &mut Vec<u8>, bit: usize) {
    buffer[bit / 8] ^= 128u8 >> (bit % 8);
}

/// A deterministic stand-in for a random fault injector: flips exactly one
/// bit in every encoded block, at a position that varies from block to
/// block.
fn flip_one_bit_per_block(buffer: &Vec<u8>, block_bits: usize) -> Vec<u8> {
    let mut out = buffer.clone();
    let total = buffer.len() * 8;
    let mut block = 0;
    while (block + 1) * block_bits <= total {
        flip_bit(&mut out, block * block_bits + (block % block_bits));
        block += 1;
    }
    out
}

#[test]
fn duplicate_errors() {
    let input = vec![1, 2, 34, 56];
    let encoded = encode(&input, 5);
    println!("{:?}", encoded);
    let corrupted = flip_one_bit_per_block(&encoded, 5);
    assert_ne!(encoded, corrupted);
    let output = panic_decode(&corrupted, 5);
    assert_eq!(input, output);
}

#[test]
#[should_panic]
fn unrecoverable() {
    let encoded = vec![0, 0, 0, 0, 0, 0, 0, 15];
    panic_decode(&encoded, 8);
}

#[test]
fn results() {
    let input = vec![1, 2, 34, 56];
    let encoded = encode(&input, 3);
    println!("{:?}", encoded);
    let output = decode(&encoded, 3);
    assert!(output.is_ok());
}

#[test]
fn unrecoverable_result() {
    let encoded = vec![0, 0, 0, 0, 0, 0, 0, 15];
    assert!(decode(&encoded, 8).is_err());
}

#[test]
fn wrong_result() {
    let encoded = vec![0, 0, 0, 0, 0, 0, 0, 15];
    assert_eq!(wrong_decode(&encoded, 8), vec![0]);
}

#[test]
fn tie_reports_corruption_message() {
    let encoded = vec![0, 0, 0, 0, 0, 0, 0, 15];
    assert_eq!(
        decode(&encoded, 8),
        Err("Unrecoverable corruption has occured in this data.")
    );
}

#[test]
fn results_round_trip_value() {
    let input = vec![9, 8, 7];
    let encoded = encode(&input, 7);
    let output = decode(&encoded, 7);
    assert_eq!(output, Ok(input));
}

#[test]
fn single_copy_round_trip() {
    let input = vec![0xF0, 0x0F];
    let encoded = encode(&input, 1);
    assert_eq!(encoded, input);
    let output = panic_decode(&encoded, 1);
    assert_eq!(input, output);
}

#[test]
fn best_effort_matches_majority_without_ties() {
    let input = vec![42];
    let encoded = encode(&input, 3);
    assert_eq!(wrong_decode(&encoded, 3), input);
}
