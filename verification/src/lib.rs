//! A byte-oriented forward-error-correction toolkit.
//!
//! A byte buffer is reinterpreted as a stream of fixed-width bit groups, a
//! per-group transform adds or removes redundancy, and the transformed groups
//! are packed back into bytes.  The two codecs built on this pipeline are a
//! Hamming single-error-correcting code and a repetition code with
//! majority-vote decoding.

pub mod base;
pub mod bitmatrix;
pub mod bitspec;
pub mod bitview;
pub mod hamming;
pub mod identity;
pub mod repeat;
pub mod replicate;
