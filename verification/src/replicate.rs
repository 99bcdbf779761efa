//! A codec that re-emits every bit of its input through the packed boolean
//! buffer.  The bits come out in the order they went in, so both directions
//! leave the bytes unchanged.

use vstd::prelude::*;

verus! {

use crate::base::Bits;
use crate::bitspec::{bits_of, byte_bits, lemma_bytes_bits_bytes};

/// Streams every bit of each byte, most significant first, through a
/// [`Bits`] buffer and packs the result back into bytes: the same bytes.
pub fn encode(input: Vec<u8>) -> (r: Vec<u8>)
    ensures
        r@ == input@,
{
    let mut output = Bits::new();
    let mut i: usize = 0;
    while i < input.len()
        invariant
            i <= input@.len(),
            output.wf(),
            output.bits() == bits_of(input@.take(i as int)),
        decreases input@.len() - i,
    {
        let byte = input[i];
        output.push_block(byte);
        proof {
            assert(bits_of(input@.take(i as int)) + byte_bits(byte) =~= bits_of(
                input@.take(i + 1),
            ));
        }
        i = i + 1;
    }
    proof {
        assert(input@.take(input@.len() as int) =~= input@);
        lemma_bytes_bits_bytes(input@);
    }
    output.finalize()
}

/// Reverses `encode`.  Encoding emits the bytes unchanged, so decoding has
/// nothing to undo and returns the buffer as it is.
pub fn decode(input: Vec<u8>) -> (r: Vec<u8>)
    ensures
        r@ == input@,
{
    input
}

} // verus!
