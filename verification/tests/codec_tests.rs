//! Tests for the identity and replicate codecs.

use error_correction::identity;
use error_correction::replicate;

#[test]
fn identity_round_trip() {
    let input = vec![1u8, 2, 3, 250];
    let output = identity::decode(identity::encode(input.clone()));
    assert_eq!(output, input);
}

#[test]
fn replicate_round_trip() {
    let input = vec![0u8, 0x55, 0xAA, 0xFF];
    let encoded = replicate::encode(input.clone());
    assert_eq!(encoded, input);
    let output = replicate::decode(encoded);
    assert_eq!(output, input);
}

#[test]
fn empty_buffers() {
    let empty: Vec<u8> = Vec::new();
    assert_eq!(error_correction::hamming::encode(&empty, 3), empty);
    assert_eq!(error_correction::hamming::decode(&empty, 3), empty);
    assert_eq!(error_correction::repeat::encode(&empty, 5), empty);
    assert_eq!(error_correction::repeat::decode(&empty, 5), Ok(empty.clone()));
    assert_eq!(error_correction::repeat::wrong_decode(&empty, 4), empty);
}
