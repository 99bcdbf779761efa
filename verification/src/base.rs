//! The packed boolean buffer used when output bits accumulate byte by
//! byte: `n` booleans stored in about `n / 8` bytes, even when `n` is not a
//! multiple of eight.

use vstd::prelude::*;

verus! {

use crate::bitspec::{
    bit_at,
    bit_of,
    bit_weight,
    bits_of,
    byte_bits,
    lemma_bit_mask_test,
    lemma_div8,
    lemma_packs_bits,
    lemma_packs_padded,
    lemma_packs_push,
    lemma_packs_push_byte,
    lemma_packs_tail,
    lemma_packs_whole,
    packs,
    padded_bytes,
    whole_bytes,
};

/// A packed sequence of booleans.  The bits live in `data` most significant
/// bit first; `last_len` says how many bits of the last byte are meaningful
/// (8 for a whole last byte or an empty buffer, never 0), and the unused
/// low bits of the last byte are always zero.
#[derive(PartialEq, Eq, Debug)]
pub struct Bits {
    data: Vec<u8>,
    last_len: u8,
}

impl Bits {
    /// How many booleans are stored.
    pub closed spec fn bit_len(self) -> int {
        if self.data@.len() == 0 {
            0
        } else {
            8 * (self.data@.len() - 1) + self.last_len
        }
    }

    /// The stored booleans, in order.
    pub closed spec fn bits(self) -> Seq<bool> {
        bits_of(self.data@).take(self.bit_len())
    }

    /// Structure invariant: a meaningful-bit count between 1 and 8, 8 for
    /// an empty buffer, and zeroed spare bits in the last byte.
    pub closed spec fn wf(self) -> bool {
        &&& 1 <= self.last_len <= 8
        &&& (self.data@.len() == 0 ==> self.last_len == 8)
        &&& packs(self.data@, self.bits())
    }

    /// Creates an empty buffer.
    pub fn new() -> (r: Bits)
        ensures
            r.wf(),
            r.bits() == Seq::<bool>::empty(),
    {
        let r = Bits { data: Vec::new(), last_len: 8 };
        proof {
            assert(r.bits() =~= Seq::<bool>::empty());
        }
        r
    }

    /// Appends one boolean.
    pub fn push(&mut self, value: bool)
        requires
            old(self).wf(),
        ensures
            final(self).wf(),
            final(self).bits() == old(self).bits().push(value),
    {
        let ghost bits0 = self.bits();
        let ghost data0 = self.data@;
        proof {
            lemma_packs_push(data0, bits0, value);
            if self.data@.len() > 0 {
                lemma_div8(data0.len() - 1, self.last_len as int);
            }
        }
        if self.last_len == 8 {
            self.data.push(if value {
                0b10000000u8
            } else {
                0b00000000u8
            });
            self.last_len = 1;
            proof {
                assert(bits0.len() % 8 == 0);
                assert(128u8 >> 0u8 == 128u8) by (bit_vector);
                assert(self.data@ == data0.push(bit_weight(value, 0)));
            }
        } else {
            let mask = if value {
                1u8 << (7 - self.last_len)
            } else {
                0u8
            };
            let last_index = self.data.len() - 1;
            let cur = self.data[last_index];
            self.data[last_index] = cur | mask;
            self.last_len = self.last_len + 1;
            proof {
                let r = (bits0.len() % 8) as u8;
                assert(r == old(self).last_len);
                assert(1u8 << ((7 - r) as u8) == 128u8 >> r) by (bit_vector)
                    requires
                        0 < r < 8,
                ;
                assert(cur | 0u8 == cur) by (bit_vector);
                assert(self.data@ =~= data0.update(
                    data0.len() - 1,
                    data0.last() | bit_weight(value, r),
                ));
            }
        }
        proof {
            assert(packs(self.data@, bits0.push(value)));
            assert(self.bit_len() == bits0.len() + 1);
            lemma_packs_bits(self.data@, bits0.push(value));
        }
    }

    /// Appends all eight bits of a byte, most significant first.
    pub fn push_block(&mut self, value: u8)
        requires
            old(self).wf(),
        ensures
            final(self).wf(),
            final(self).bits() == old(self).bits() + byte_bits(value),
    {
        let ghost bits0 = self.bits();
        let ghost data0 = self.data@;
        proof {
            lemma_packs_push_byte(data0, bits0, value);
            if self.data@.len() > 0 {
                lemma_div8(data0.len() - 1, self.last_len as int);
            }
        }
        if self.last_len == 8 {
            self.data.push(value);
            proof {
                assert(bits0.len() % 8 == 0);
                assert(self.data@ == data0.push(value));
            }
        } else {
            let first_half = value >> self.last_len;
            let second_half = value << (8 - self.last_len);
            let last_index = self.data.len() - 1;
            let cur = self.data[last_index];
            self.data[last_index] = cur | first_half;
            self.data.push(second_half);
            proof {
                let r = (bits0.len() % 8) as u8;
                assert(r == self.last_len);
                assert(self.data@ =~= data0.update(
                    data0.len() - 1,
                    data0.last() | (value >> r),
                ).push((value << ((8 - r) as u8)) as u8));
            }
        }
        proof {
            assert(packs(self.data@, bits0 + byte_bits(value)));
            assert(self.bit_len() == bits0.len() + 8);
            lemma_packs_bits(self.data@, bits0 + byte_bits(value));
        }
    }

    /// Splits off the whole bytes: returns every byte that ends on a byte
    /// boundary, together with a new buffer holding the remaining partial
    /// byte, if any.
    pub fn split(self) -> (r: (Vec<u8>, Bits))
        requires
            self.wf(),
        ensures
            r.0@ == whole_bytes(self.bits()),
            r.1.wf(),
            r.1.bits() == self.bits().skip(8 * (self.bits().len() as int / 8)),
    {
        let ghost bits0 = self.bits();
        let ghost n = bits0.len() as int;
        proof {
            lemma_packs_whole(self.data@, bits0);
            if self.data@.len() > 0 {
                lemma_div8(self.data@.len() - 1, self.last_len as int);
            }
            lemma_div8(self.data@.len() as int, 0);
        }
        if self.last_len == 8 {
            let r = (self.data, Bits::new());
            proof {
                assert(bits0.len() % 8 == 0);
                assert(bits0.skip(8 * (n / 8)) =~= Seq::<bool>::empty());
            }
            r
        } else {
            proof {
                lemma_packs_tail(self.data@, bits0);
            }
            let mut buf = self.data;
            let last = buf.pop().unwrap();
            let ghost q = buf@.len() as int;
            let rest = Bits { data: vec![last], last_len: self.last_len };
            proof {
                assert(n == 8 * q + self.last_len);
                lemma_div8(q, self.last_len as int);
                assert(n / 8 == q);
                let tail = bits0.skip(8 * q);
                assert(rest.data@ =~= seq![self.data@.last()]);
                assert(packs(rest.data@, tail));
                lemma_packs_bits(rest.data@, tail);
                assert(tail.len() == self.last_len);
                assert(rest.bit_len() == tail.len());
                assert(rest.bits() == tail);
                assert(rest.wf());
            }
            (buf, rest)
        }
    }

    /// Consumes the buffer and returns its bytes, the last one zero padded
    /// past the stored bits.
    pub fn finalize(self) -> (r: Vec<u8>)
        requires
            self.wf(),
        ensures
            r@ == padded_bytes(self.bits()),
    {
        proof {
            lemma_packs_padded(self.data@, self.bits());
        }
        self.data
    }
}

/// Packs a vector of booleans, in order.
impl From<Vec<bool>> for Bits {
    fn from(vec: Vec<bool>) -> (r: Bits)
        ensures
            r.wf(),
            r.bits() == vec@,
    {
        let mut x = Bits::new();
        let mut i: usize = 0;
        while i < vec.len()
            invariant
                i <= vec@.len(),
                x.wf(),
                x.bits() == vec@.take(i as int),
            decreases vec@.len() - i,
        {
            x.push(vec[i]);
            proof {
                assert(vec@.take(i as int).push(vec@[i as int]) =~= vec@.take(i + 1));
            }
            i = i + 1;
        }
        proof {
            assert(vec@.take(vec@.len() as int) =~= vec@);
        }
        x
    }
}

impl vstd::std_specs::convert::FromSpecImpl<Vec<bool>> for Bits {
    open spec fn obeys_from_spec() -> bool {
        false
    }

    open spec fn from_spec(v: Vec<bool>) -> Bits {
        choose|b: Bits| b.wf() && b.bits() == v@
    }
}

/// Unpacks the stored booleans, in order.
impl From<Bits> for Vec<bool> {
    fn from(bits: Bits) -> (r: Vec<bool>)
        ensures
            bits.wf() ==> r@ == bits.bits(),
    {
        let mut out: Vec<bool> = Vec::new();
        let len = bits.data.len();
        let mut block_index: usize = 0;
        while block_index < len
            invariant
                block_index <= len,
                len == bits.data@.len(),
                bits.wf() ==> out@ == bits.bits().take(
                    if block_index < len {
                        8 * block_index
                    } else {
                        bits.bit_len()
                    },
                ),
            decreases len - block_index,
        {
            let block = bits.data[block_index];
            let final_index: u8 = if block_index == len - 1 && bits.last_len >= 1
                && bits.last_len <= 8 {
                bits.last_len - 1
            } else {
                7
            };
            let ghost upto: int = if bits.wf() {
                if block_index < len - 1 {
                    8
                } else {
                    bits.bit_len() - 8 * (len - 1)
                }
            } else {
                final_index + 1
            };
            let mut index: u8 = 0;
            while index <= final_index
                invariant
                    index <= final_index + 1,
                    final_index < 8,
                    block_index < len,
                    len == bits.data@.len(),
                    block == bits.data@[block_index as int],
                    bits.wf() ==> (final_index + 1 == upto && out@ == bits.bits().take(
                        8 * block_index + index,
                    ) && 8 * block_index + upto <= bits.bit_len()),
                decreases final_index + 1 - index,
            {
                let is_set = block & (1u8 << (7 - index)) != 0;
                out.push(is_set);
                proof {
                    if bits.wf() {
                        let kk = index as u8;
                        assert(1u8 << ((7 - kk) as u8) == 128u8 >> kk) by (bit_vector)
                            requires
                                kk < 8,
                        ;
                        lemma_bit_mask_test(block, kk);
                        assert(bit_of(block, kk) == bit_at(
                            bits.bits(),
                            8 * (block_index as int) + kk,
                        ));
                        assert(bits.bits().take(8 * block_index + index).push(
                            bits.bits()[8 * block_index + index],
                        ) =~= bits.bits().take(8 * block_index + index + 1));
                    }
                }
                index = index + 1;
            }
            block_index = block_index + 1;
            proof {
                if bits.wf() {
                    if block_index < len {
                        lemma_div8(block_index as int - 1, 8);
                    }
                }
            }
        }
        proof {
            if bits.wf() {
                assert(bits.bits().take(bits.bit_len()) =~= bits.bits());
            }
        }
        out
    }
}

impl vstd::std_specs::convert::FromSpecImpl<Bits> for Vec<bool> {
    open spec fn obeys_from_spec() -> bool {
        false
    }

    open spec fn from_spec(b: Bits) -> Vec<bool> {
        choose|v: Vec<bool>| v@ == b.bits()
    }
}

} // verus!
