//! Tests for the packed boolean buffer.

use error_correction::base::Bits;

#[test]
fn to_from_ex() {
    let input = vec![true];
    let tmp = input.clone();
    let output: Vec<bool> = Bits::into(Bits::from(tmp));
    assert_eq!(output, input);
}

#[test]
fn from() {
    let val = vec![false, false, true, false, true, true, true, true];
    assert_eq!(Bits::from(val).finalize(), vec![47]);
}

#[test]
fn into() {
    let mut x = Bits::new();
    x.push_block(47);
    let actual: Vec<bool> = Bits::into(x);
    let expected = vec![false, false, true, false, true, true, true, true];
    assert_eq!(actual, expected);
}

#[test]
fn pushing() {
    let mut x = Bits::new();
    // bit 0
    x.push(false);
    // bit 1
    x.push(true);
    // bit 2
    x.push(false);
    // bits 3-7 of byte 1, bits 0-2 of byte 2
    x.push_block(0b00001111);
    // bit 3
    x.push(false);
    // bit 4
    x.push(false);
    // bit 5
    x.push(false);
    // bit 6
    x.push(true);
    // bit 7
    x.push(true);
    // bits 0-7 of byte 3
    x.push_block(0b11111111);

    assert_eq!(x.finalize(), vec![0b01000001, 0b11100011, 0b11111111])
}

#[test]
fn to_from_longer() {
    let input = vec![true, false, true, true, false, false, true, false, true, true, false];
    let tmp = input.clone();
    let output: Vec<bool> = Bits::into(Bits::from(tmp));
    assert_eq!(output, input);
}

#[test]
fn split_partial() {
    let mut x = Bits::new();
    x.push_block(0xAB);
    x.push(true);
    x.push(false);
    x.push(true);
    let (whole, rest) = x.split();
    assert_eq!(whole, vec![0xAB]);
    assert_eq!(rest.finalize(), vec![0b10100000]);
}

#[test]
fn split_aligned() {
    let mut x = Bits::new();
    x.push_block(0x12);
    x.push_block(0x34);
    let (whole, rest) = x.split();
    assert_eq!(whole, vec![0x12, 0x34]);
    assert_eq!(rest.finalize(), Vec::<u8>::new());
}
