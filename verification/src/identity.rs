//! The identity codec: no redundancy is added, so encoding and decoding
//! both return the buffer unchanged.

use vstd::prelude::*;

verus! {

/// Adds no redundancy: the buffer comes back as it is.
pub fn encode(input: Vec<u8>) -> (r: Vec<u8>)
    ensures
        r == input,
{
    input
}

/// Removes no redundancy: the buffer comes back as it is.
pub fn decode(input: Vec<u8>) -> (r: Vec<u8>)
    ensures
        r == input,
{
    input
}

} // verus!
