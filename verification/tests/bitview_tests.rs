//! Tests for the bit-stream view, the byte accumulator and the pipelines.

use error_correction::bitview::{
    auto_pipeline, empty_part, n_bits, result_auto_pipeline, to_bytes, to_part_bytes,
};

#[test]
fn identity() {
    let data: [u8; 12] = [1, 2, 3, 4, 5, 6, 7, 8, 9, 10, 11, 12];
    let processed = auto_pipeline(&data, 4, &(|x| x));
    assert_eq!(&data[..], &processed[..]);
}

#[test]
fn identity_weird_stride() {
    let data: [u8; 12] = [1, 3, 5, 7, 9, 11, 13, 15, 17, 19, 21, 23];
    let processed = auto_pipeline(&data, 3, &(|x| x));
    assert_eq!(&data[..], &processed[..]);
}

fn double(input: Vec<bool>) -> Vec<bool> {
    let mut out = Vec::with_capacity(2 * input.len());
    for i in input {
        out.push(i);
        out.push(i);
    }
    return out;
}

#[test]
fn doubled() {
    let data: [u8; 2] = [1, 2];
    let output: [u8; 4] = [0, 3, 0, 12];
    let processed = auto_pipeline(&data, 8, &double);
    assert_eq!(&output[..], &processed[..]);
}

#[test]
fn doubled_weird_stride() {
    let data: [u8; 2] = [1, 2];
    let output: [u8; 4] = [0, 3, 0, 12];
    let processed = auto_pipeline(&data, 3, &double);
    assert_eq!(&output[..], &processed[..]);
}

fn result_double(input: Vec<bool>) -> Result<Vec<bool>, &'static str> {
    let mut out = Vec::with_capacity(2 * input.len());
    for i in input {
        out.push(i);
        out.push(i);
    }
    return Ok(out);
}

#[test]
fn result_doubled() {
    let data: [u8; 2] = [1, 2];
    let output: [u8; 4] = [0, 3, 0, 12];
    let processed = result_auto_pipeline(&data, 3, &result_double).unwrap();
    assert_eq!(&output[..], &processed[..]);
}

fn result_fails(_input: Vec<bool>) -> Result<Vec<bool>, &'static str> {
    Err("This should fail")
}

#[test]
fn result_failed() {
    let data: [u8; 2] = [1, 2];
    let processed = result_auto_pipeline(&data, 3, &result_fails);
    assert!(processed.is_err());
}

fn fold_identity(data: &[u8], stride: usize) -> Vec<u8> {
    let mut view = n_bits(data, stride);
    let mut acc = empty_part(data.len());
    while let Some(group) = view.next() {
        acc = to_part_bytes(acc, group);
    }
    to_bytes(acc)
}

fn fold_mapped(data: &[u8], stride: usize, f: fn(Vec<bool>) -> Vec<bool>) -> Vec<u8> {
    let mut view = n_bits(data, stride);
    let mut acc = empty_part(data.len());
    while let Some(group) = view.next() {
        acc = to_part_bytes(acc, f(group));
    }
    to_bytes(acc)
}

#[test]
fn bitvec_integration_identity() {
    let data: [u8; 12] = [1, 2, 3, 4, 5, 6, 7, 8, 9, 10, 11, 12];
    let processed = fold_identity(&data, 4);
    assert_eq!(&data[..], &processed[..]);
}

#[test]
fn bitvec_integration_identity_weird_stride() {
    let data: [u8; 1] = [1];
    let processed = fold_identity(&data, 5);
    assert_eq!(&data[..], &processed[..]);
}

#[test]
fn bitvec_integration_doubled() {
    let data: [u8; 2] = [1, 2];
    let output: [u8; 4] = [0, 3, 0, 12];
    let processed = fold_mapped(&data, 8, double);
    assert_eq!(&output[..], &processed[..]);
}

#[test]
fn bitvec_integration_doubled_weird_stride() {
    let data: [u8; 2] = [1, 2];
    let output: [u8; 4] = [0, 3, 0, 12];
    let processed = fold_mapped(&data, 3, double);
    assert_eq!(&output[..], &processed[..]);
}

#[test]
fn identity_stride_seven() {
    let data: [u8; 5] = [0xDE, 0xAD, 0xBE, 0xEF, 0x01];
    let processed = auto_pipeline(&data, 7, &(|x| x));
    assert_eq!(&data[..], &processed[..]);
}

#[test]
fn result_first_error_wins() {
    let data: [u8; 2] = [0xFF, 0x00];
    let processed = result_auto_pipeline(
        &data,
        8,
        &(|x: Vec<bool>| if x[0] { Err("high bit") } else { Err("low bit") }),
    );
    assert_eq!(processed, Err("high bit"));
}
