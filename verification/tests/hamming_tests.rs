//! Tests for the Hamming codec.

use error_correction::hamming::{decode, encode, is_power_of_2, parity_to_data, parity_to_length};

#[test]
fn test_parity_to_data() {
    assert_eq!(parity_to_data(2), 1);
    assert_eq!(parity_to_data(3), 4);
    assert_eq!(parity_to_data(4), 11);
    assert_eq!(parity_to_data(5), 26);
    assert_eq!(parity_to_data(6), 57);
    assert_eq!(parity_to_data(7), 120);
}

#[test]
fn test_parity_to_length() {
    assert_eq!(parity_to_length(2), 3);
    assert_eq!(parity_to_length(3), 7);
    assert_eq!(parity_to_length(4), 15);
    assert_eq!(parity_to_length(5), 31);
    assert_eq!(parity_to_length(6), 63);
    assert_eq!(parity_to_length(7), 127);
}

#[test]
fn test_is_power_of_2() {
    assert!(is_power_of_2(1));
    assert!(is_power_of_2(2));
    assert!(is_power_of_2(4));
    assert!(is_power_of_2(8));
    assert!(is_power_of_2(16));
    assert!(is_power_of_2(32));
    assert!(is_power_of_2(64));

    assert!(!is_power_of_2(11));
    assert!(!is_power_of_2(3));
    assert!(!is_power_of_2(5));
    assert!(!is_power_of_2(17));
    assert!(!is_power_of_2(9));
    assert!(!is_power_of_2(22));
    assert!(!is_power_of_2(24));
}

#[test]
fn hamming_single() {
    println!("");
    let input = vec![1];
    let encoded = encode(&input, 3);
    println!("{:?}", encoded);
    let output = decode(&encoded, 3);
    assert_eq!(input, output);
}

#[test]
fn hamming_round_trip() {
    println!("");
    let input = vec![1, 2, 34, 56];
    let encoded = encode(&input, 3);
    println!("{:?}", encoded);
    let output = decode(&encoded, 3);
    assert_eq!(input, output);
}

/// Flips the bit at the given flat position, most significant bit of each
/// byte first.
fn flip_bit(buffer: &mut Vec<u8>, bit: usize) {
    buffer[bit / 8] ^= 128u8 >> (bit % 8);
}

/// A deterministic stand-in for a random fault injector: flips exactly one
/// bit in every encoded block, at a position that varies from block to
/// block.
fn flip_one_bit_per_block(buffer: &Vec<u8>, block_bits: usize) -> Vec<u8> {
    let mut out = buffer.clone();
    let total = buffer.len() * 8;
    let mut block = 0;
    while (block + 1) * block_bits <= total {
        flip_bit(&mut out, block * block_bits + (block % block_bits));
        block += 1;
    }
    out
}

#[test]
fn hamming_errors() {
    println!("");
    let input = vec![127, 0, 80, 12];
    let encoded = encode(&input, 3);
    println!("{:?}", encoded);
    let corrupted = flip_one_bit_per_block(&encoded, 7);
    assert_ne!(encoded, corrupted);
    let output = decode(&corrupted, 3);
    assert_eq!(input, output);
}

#[test]
fn hamming_corrects_any_single_flip() {
    let input = vec![0xAB];
    let encoded = encode(&input, 3);
    for bit in 0..encoded.len() * 8 {
        let mut corrupted = encoded.clone();
        flip_bit(&mut corrupted, bit);
        let output = decode(&corrupted, 3);
        assert_eq!(input, output);
    }
}

#[test]
fn hamming_round_trip_parity_four() {
    // 11 bytes are 88 bits: exactly 8 blocks of 11 data bits, whose 8
    // encoded blocks of 15 bits fill 15 bytes exactly.
    let input = vec![1, 2, 3, 4, 5, 6, 7, 8, 9, 10, 255];
    let encoded = encode(&input, 4);
    assert_eq!(encoded.len(), 15);
    let output = decode(&encoded, 4);
    assert_eq!(input, output);
}

#[test]
fn hamming_single_block_values() {
    // One data bit per block at parity 2: 0x80 encodes its eight bits into
    // eight blocks of three identical check-dominated bits.
    let input = vec![0x80];
    let encoded = encode(&input, 2);
    let output = decode(&encoded, 2);
    assert_eq!(input, output);
}
