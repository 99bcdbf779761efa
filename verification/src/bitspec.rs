//! The mathematical model shared by the whole crate: a byte buffer seen as a
//! sequence of booleans, most significant bit of each byte first, and the
//! packing of such a sequence back into bytes.

use vstd::prelude::*;

verus! {

/// True when bit `k` (0 = most significant) of byte `b` is set.
pub open spec fn bit_of(b: u8, k: u8) -> bool
    recommends
        k < 8,
{
    (b >> (7 - k) as u8) & 1u8 == 1u8
}

/// The bit at flat position `i` of a byte buffer read most-significant-bit
/// first; positions at or past the end of the buffer read as zero.
pub open spec fn stream_bit(data: Seq<u8>, i: int) -> bool {
    0 <= i < 8 * data.len() && bit_of(data[i / 8], (i % 8) as u8)
}

/// All the bits of a byte buffer, most significant bit of each byte first.
pub open spec fn bits_of(data: Seq<u8>) -> Seq<bool> {
    Seq::new((8 * data.len()) as nat, |i: int| stream_bit(data, i))
}

/// Group `g` of the bit stream over `data`: `stride` consecutive bits
/// starting at flat position `g * stride`, zero padded past the buffer.
pub open spec fn stream_group(data: Seq<u8>, stride: nat, g: int) -> Seq<bool> {
    Seq::new(stride, |j: int| stream_bit(data, g * stride + j))
}

/// How many groups the bit stream over `len` bytes emits.  The cursor stops
/// once its byte index reaches the buffer's length, which happens at the
/// first group boundary at or past the last real bit: `ceil(8 * len / stride)`.
pub open spec fn stream_len(len: nat, stride: nat) -> nat
    recommends
        stride > 0,
{
    ((8 * len + stride - 1) / (stride as int)) as nat
}

/// The bit at position `i` of a boolean sequence; out-of-range positions
/// read as zero.
pub open spec fn bit_at(bits: Seq<bool>, i: int) -> bool {
    0 <= i < bits.len() && bits[i]
}

/// The weight of a set bit at position `k` (0 = most significant) of a byte.
pub open spec fn bit_weight(on: bool, k: u8) -> u8
    recommends
        k < 8,
{
    if on {
        128u8 >> k
    } else {
        0u8
    }
}

/// The byte whose bits are `bits[start .. start + 8]`, most significant
/// first; positions outside the sequence read as zero.
pub open spec fn byte_from(bits: Seq<bool>, start: int) -> u8 {
    (bit_weight(bit_at(bits, start), 0) + bit_weight(bit_at(bits, start + 1), 1) + bit_weight(
        bit_at(bits, start + 2),
        2,
    ) + bit_weight(bit_at(bits, start + 3), 3) + bit_weight(bit_at(bits, start + 4), 4)
        + bit_weight(bit_at(bits, start + 5), 5) + bit_weight(bit_at(bits, start + 6), 6)
        + bit_weight(bit_at(bits, start + 7), 7)) as u8
}

/// The bits packed into whole bytes only: a trailing fragment of fewer than
/// 8 bits is dropped.
pub open spec fn whole_bytes(bits: Seq<bool>) -> Seq<u8> {
    Seq::new((bits.len() / 8) as nat, |i: int| byte_from(bits, 8 * i))
}

/// The bits packed into bytes, a trailing fragment zero padded into one
/// final byte.
pub open spec fn padded_bytes(bits: Seq<bool>) -> Seq<u8> {
    Seq::new(((bits.len() + 7) / 8) as nat, |i: int| byte_from(bits, 8 * i))
}

/// `data` holds exactly the bits of `bits`, zero padded to a whole number of
/// bytes.  This is the shape the byte accumulator maintains while folding.
pub open spec fn packs(data: Seq<u8>, bits: Seq<bool>) -> bool {
    &&& data.len() == (bits.len() + 7) / 8
    &&& forall|i: int, k: u8|
        0 <= i < data.len() && k < 8 ==> #[trigger] bit_of(data[i], k) == bit_at(bits, 8 * i + k)
}

/// All the groups of a sequence of bit groups, laid end to end.
pub open spec fn concat_all(groups: Seq<Seq<bool>>) -> Seq<bool>
    decreases groups.len(),
{
    if groups.len() == 0 {
        Seq::empty()
    } else {
        concat_all(groups.drop_last()) + groups.last()
    }
}

/// Dividing a flat bit position by the byte width: quotient and remainder
/// distribute over the byte index and the offset within the byte.
pub proof fn lemma_div8(a: int, r: int)
    requires
        a >= 0,
        0 <= r,
    ensures
        (8 * a + r) / 8 == a + r / 8,
        (8 * a + r) % 8 == r % 8,
{
    assert((8 * a + r) / 8 == a + r / 8 && (8 * a + r) % 8 == r % 8) by (nonlinear_arith)
        requires
            a >= 0,
            0 <= r,
    ;
}

/// The byte built from eight bits exposes exactly those bits.
pub proof fn lemma_byte_from_bit(bits: Seq<bool>, start: int, k: u8)
    requires
        k < 8,
    ensures
        bit_of(byte_from(bits, start), k) == bit_at(bits, start + k),
{
    let b0 = bit_at(bits, start);
    let b1 = bit_at(bits, start + 1);
    let b2 = bit_at(bits, start + 2);
    let b3 = bit_at(bits, start + 3);
    let b4 = bit_at(bits, start + 4);
    let b5 = bit_at(bits, start + 5);
    let b6 = bit_at(bits, start + 6);
    let b7 = bit_at(bits, start + 7);
    let v = byte_from(bits, start);
    assert(128u8 >> 0u8 == 128u8 && 128u8 >> 1u8 == 64u8 && 128u8 >> 2u8 == 32u8 && 128u8 >> 3u8
        == 16u8 && 128u8 >> 4u8 == 8u8 && 128u8 >> 5u8 == 4u8 && 128u8 >> 6u8 == 2u8 && 128u8
        >> 7u8 == 1u8) by (bit_vector);
    assert(((v >> (7 - k) as u8) & 1u8 == 1u8) == (if k == 0 {
        b0
    } else if k == 1 {
        b1
    } else if k == 2 {
        b2
    } else if k == 3 {
        b3
    } else if k == 4 {
        b4
    } else if k == 5 {
        b5
    } else if k == 6 {
        b6
    } else {
        b7
    })) by (bit_vector)
        requires
            k < 8,
            v == ((if b0 { 128u8 } else { 0u8 }) + (if b1 { 64u8 } else { 0u8 }) + (if b2 {
                32u8
            } else {
                0u8
            }) + (if b3 { 16u8 } else { 0u8 }) + (if b4 { 8u8 } else { 0u8 }) + (if b5 {
                4u8
            } else {
                0u8
            }) + (if b6 { 2u8 } else { 0u8 }) + (if b7 { 1u8 } else { 0u8 })) as u8,
    ;
}

/// A byte is determined by its eight bits.
pub proof fn lemma_byte_eq(a: u8, b: u8)
    requires
        forall|k: u8| k < 8 ==> bit_of(a, k) == bit_of(b, k),
    ensures
        a == b,
{
    assert(a == b) by (bit_vector)
        requires
            bit_of(a, 0) == bit_of(b, 0),
            bit_of(a, 1) == bit_of(b, 1),
            bit_of(a, 2) == bit_of(b, 2),
            bit_of(a, 3) == bit_of(b, 3),
            bit_of(a, 4) == bit_of(b, 4),
            bit_of(a, 5) == bit_of(b, 5),
            bit_of(a, 6) == bit_of(b, 6),
            bit_of(a, 7) == bit_of(b, 7),
    ;
}

/// Packing is unique: a buffer that holds the bits of `bits` is exactly the
/// zero-padded packing of `bits`.
pub proof fn lemma_packs_padded(data: Seq<u8>, bits: Seq<bool>)
    requires
        packs(data, bits),
    ensures
        data == padded_bytes(bits),
{
    let p = padded_bytes(bits);
    assert forall|i: int| 0 <= i < data.len() implies data[i] == p[i] by {
        assert forall|k: u8| k < 8 implies bit_of(data[i], k) == bit_of(p[i], k) by {
            lemma_byte_from_bit(bits, 8 * i, k);
        }
        lemma_byte_eq(data[i], p[i]);
    }
    assert(data =~= p);
}

/// Packing the bits of a byte buffer gives the buffer back.
pub proof fn lemma_bytes_bits_bytes(data: Seq<u8>)
    ensures
        whole_bytes(bits_of(data)) == data,
        padded_bytes(bits_of(data)) == data,
{
    let bits = bits_of(data);
    let w = whole_bytes(bits);
    assert(bits.len() == 8 * data.len());
    assert(bits.len() / 8 == data.len()) by {
        lemma_div8(data.len() as int, 0);
    }
    assert((bits.len() + 7) / 8 == data.len()) by {
        lemma_div8(data.len() as int, 7);
    }
    assert forall|i: int| 0 <= i < data.len() implies w[i] == data[i] by {
        assert forall|k: u8| k < 8 implies bit_of(w[i], k) == bit_of(data[i], k) by {
            lemma_byte_from_bit(bits, 8 * i, k);
            lemma_div8(i, k as int);
            assert(bit_at(bits, 8 * i + k) == stream_bit(data, 8 * i + k));
            assert((8 * i + k) / 8 == i && (8 * i + k) % 8 == k);
        }
        lemma_byte_eq(w[i], data[i]);
    }
    assert(w =~= data);
    assert(padded_bytes(bits) =~= data);
}

/// Appending one group extends the concatenation by that group.
pub proof fn lemma_concat_push(groups: Seq<Seq<bool>>, g: Seq<bool>)
    ensures
        concat_all(groups.push(g)) == concat_all(groups) + g,
{
    assert(groups.push(g).drop_last() =~= groups);
    assert(groups.push(g).last() == g);
}

/// A byte holding at most one set bit shows exactly that bit.
pub proof fn lemma_single_bit(on: bool, k: u8, j: u8)
    requires
        k < 8,
        j < 8,
    ensures
        bit_of(bit_weight(on, k), j) == (on && j == k),
{
    let v = bit_weight(on, k);
    assert(((v >> (7 - j) as u8) & 1u8 == 1u8) == (on && j == k)) by (bit_vector)
        requires
            k < 8,
            j < 8,
            v == (if on {
                128u8 >> k
            } else {
                0u8
            }),
    ;
}

/// OR-ing a single-bit mask into a byte sets that bit and leaves every other
/// bit alone.
pub proof fn lemma_bit_or(b: u8, k: u8, j: u8)
    requires
        k < 8,
        j < 8,
    ensures
        bit_of(b | (128u8 >> k), j) == (j == k || bit_of(b, j)),
{
    assert((((b | (128u8 >> k)) >> (7 - j) as u8) & 1u8 == 1u8) == (j == k || ((b >> (7 - j) as u8)
        & 1u8 == 1u8))) by (bit_vector)
        requires
            k < 8,
            j < 8,
    ;
}

/// Testing a byte against a single-bit mask reads exactly that bit.
pub proof fn lemma_bit_mask_test(b: u8, k: u8)
    requires
        k < 8,
    ensures
        (b & (128u8 >> k) != 0) == bit_of(b, k),
{
    assert((b & (128u8 >> k) != 0) == ((b >> (7 - k) as u8) & 1u8 == 1u8)) by (bit_vector)
        requires
            k < 8,
    ;
}

/// Folding one more bit into a zero-padded packing: on a byte boundary a
/// fresh byte carries the bit; otherwise it is OR-ed into the last byte.
pub proof fn lemma_packs_push(data: Seq<u8>, bits: Seq<bool>, b: bool)
    requires
        packs(data, bits),
    ensures
        bits.len() % 8 == 0 ==> packs(data.push(bit_weight(b, 0)), bits.push(b)),
        bits.len() % 8 != 0 ==> packs(
            data.update(
                data.len() - 1,
                data.last() | bit_weight(b, (bits.len() % 8) as u8),
            ),
            bits.push(b),
        ),
{
    let n = bits.len() as int;
    let q = n / 8;
    let r = n % 8;
    vstd::arithmetic::div_mod::lemma_fundamental_div_mod(n, 8);
    assert(n == 8 * q + r);
    lemma_div8(q, 7);
    lemma_div8(q, r + 7);
    lemma_div8(q, r + 8);
    if r == 0 {
        let data2 = data.push(bit_weight(b, 0));
        let bits2 = bits.push(b);
        assert(data.len() == q);
        assert(data2.len() == (bits2.len() + 7) / 8) by {
            lemma_div8(q + 1, 0);
        }
        assert forall|i: int, k: u8| 0 <= i < data2.len() && k < 8 implies #[trigger] bit_of(
            data2[i],
            k,
        ) == bit_at(bits2, 8 * i + k) by {
            if i < q {
                assert(bit_of(data[i], k) == bit_at(bits, 8 * i + k));
                assert(8 * i + k < n);
            } else {
                lemma_single_bit(b, 0, k);
            }
        }
    } else {
        let v2 = data.last() | bit_weight(b, r as u8);
        let data2 = data.update(data.len() - 1, v2);
        let bits2 = bits.push(b);
        assert(data.len() == q + 1);
        assert(data2.len() == (bits2.len() + 7) / 8);
        if !b {
            assert(v2 == data.last() | 0u8);
            assert forall|x: u8| x | 0u8 == x by {
                assert(forall|x: u8| #[trigger] (x | 0u8) == x) by (bit_vector);
            }
        }
        assert forall|i: int, k: u8| 0 <= i < data2.len() && k < 8 implies #[trigger] bit_of(
            data2[i],
            k,
        ) == bit_at(bits2, 8 * i + k) by {
            if i < q {
                assert(bit_of(data[i], k) == bit_at(bits, 8 * i + k));
                assert(8 * i + k < 8 * q);
            } else {
                assert(i == q);
                assert(bit_of(data[q], k) == bit_at(bits, 8 * q + k));
                if b {
                    lemma_bit_or(data.last(), r as u8, k);
                } else {
                    assert(v2 == data.last());
                }
                if k < r {
                    assert(8 * q + k < n);
                } else if k == r {
                    assert(!bit_at(bits, n));
                } else {
                    assert(8 * q + k > n);
                }
            }
        }
    }
}

/// The eight bits of one byte, most significant first.
pub open spec fn byte_bits(b: u8) -> Seq<bool> {
    Seq::new(8, |k: int| bit_of(b, k as u8))
}

/// Folding a whole byte into a zero-padded packing: on a byte boundary the
/// byte is appended as it is; otherwise its high bits fill the last byte
/// and its low bits start a fresh one.
pub proof fn lemma_packs_push_byte(data: Seq<u8>, bits: Seq<bool>, v: u8)
    requires
        packs(data, bits),
    ensures
        bits.len() % 8 == 0 ==> packs(data.push(v), bits + byte_bits(v)),
        bits.len() % 8 != 0 ==> packs(
            data.update(
                data.len() - 1,
                data.last() | (v >> ((bits.len() % 8) as u8)),
            ).push((v << ((8 - bits.len() % 8) as u8)) as u8),
            bits + byte_bits(v),
        ),
{
    let n = bits.len() as int;
    let q = n / 8;
    let r = n % 8;
    vstd::arithmetic::div_mod::lemma_fundamental_div_mod(n, 8);
    assert(n == 8 * q + r);
    lemma_div8(q, 7);
    lemma_div8(q + 1, 7);
    lemma_div8(q + 1, r + 7);
    let bits2 = bits + byte_bits(v);
    if r == 0 {
        let data2 = data.push(v);
        assert(data.len() == q);
        assert(data2.len() == (bits2.len() + 7) / 8);
        assert forall|i: int, k: u8| 0 <= i < data2.len() && k < 8 implies #[trigger] bit_of(
            data2[i],
            k,
        ) == bit_at(bits2, 8 * i + k) by {
            if i < q {
                assert(bit_of(data[i], k) == bit_at(bits, 8 * i + k));
                assert(8 * i + k < n);
            } else {
                assert(bit_at(bits2, 8 * q + k) == byte_bits(v)[k as int]);
            }
        }
    } else {
        let rr = r as u8;
        let first = v >> rr;
        let second = (v << ((8 - r) as u8)) as u8;
        let merged = data.last() | first;
        let data2 = data.update(data.len() - 1, merged).push(second);
        assert(data.len() == q + 1);
        assert(data2.len() == q + 2);
        assert(data2.len() == (bits2.len() + 7) / 8);
        assert forall|j: u8| j < 8 implies bit_of(first, j) == (j >= rr && bit_of(
            v,
            (j - rr) as u8,
        )) by {
            assert(((v >> rr) >> (7 - j) as u8) & 1u8 == 1u8 <==> (j >= rr && ((v >> (7 - ((j
                - rr) as u8)) as u8) & 1u8 == 1u8))) by (bit_vector)
                requires
                    0 < rr < 8,
                    j < 8,
            ;
        }
        assert forall|j: u8| j < 8 implies bit_of(second, j) == (j < rr && bit_of(
            v,
            (j + 8 - rr) as u8,
        )) by {
            assert((((v << ((8 - rr) as u8)) as u8) >> (7 - j) as u8) & 1u8 == 1u8 <==> (j < rr
                && ((v >> (7 - ((j + 8 - rr) as u8)) as u8) & 1u8 == 1u8))) by (bit_vector)
                requires
                    0 < rr < 8,
                    j < 8,
            ;
        }
        assert forall|i: int, k: u8| 0 <= i < data2.len() && k < 8 implies #[trigger] bit_of(
            data2[i],
            k,
        ) == bit_at(bits2, 8 * i + k) by {
            if i < q {
                assert(bit_of(data[i], k) == bit_at(bits, 8 * i + k));
                assert(8 * i + k < 8 * q);
            } else if i == q {
                assert(bit_of(data[q], k) == bit_at(bits, 8 * q + k));
                lemma_bit_or_general(data.last(), first, k);
                if k < rr {
                    assert(8 * q + k < n);
                    assert(bit_at(bits2, 8 * q + k) == bit_at(bits, 8 * q + k));
                } else {
                    assert(!bit_at(bits, 8 * q + k));
                    assert(bit_at(bits2, 8 * q + k) == byte_bits(v)[k - rr]);
                }
            } else {
                assert(i == q + 1);
                if k < rr {
                    assert(bit_at(bits2, 8 * (q + 1) + k) == byte_bits(v)[k + 8 - rr]);
                } else {
                    assert(8 * (q + 1) + k >= n + 8);
                    assert(!bit_at(bits2, 8 * (q + 1) + k));
                }
            }
        }
    }
}

/// OR combines the bits of both operands.
pub proof fn lemma_bit_or_general(a: u8, b: u8, k: u8)
    requires
        k < 8,
    ensures
        bit_of(a | b, k) == (bit_of(a, k) || bit_of(b, k)),
{
    assert((((a | b) >> (7 - k) as u8) & 1u8 == 1u8) == (((a >> (7 - k) as u8) & 1u8 == 1u8) || ((
    b >> (7 - k) as u8) & 1u8 == 1u8))) by (bit_vector)
        requires
            k < 8,
    ;
}

/// A packing determines the bits it holds: reading the packed bytes back
/// bit by bit recovers the packed sequence.
pub proof fn lemma_packs_bits(data: Seq<u8>, bits: Seq<bool>)
    requires
        packs(data, bits),
    ensures
        bits_of(data).take(bits.len() as int) == bits,
{
    let n = bits.len() as int;
    let len = data.len() as int;
    assert(n <= 8 * len) by {
        vstd::arithmetic::div_mod::lemma_fundamental_div_mod(n + 7, 8);
        vstd::arithmetic::div_mod::lemma_mod_division_less_than_divisor(n + 7, 8);
    }
    assert forall|j: int| 0 <= j < bits.len() implies bits_of(data)[j] == bits[j] by {
        vstd::arithmetic::div_mod::lemma_fundamental_div_mod(j, 8);
        vstd::arithmetic::div_mod::lemma_mod_division_less_than_divisor(j, 8);
        vstd::arithmetic::div_mod::lemma_div_pos_is_pos(j, 8);
        let i = j / 8;
        let k = j % 8;
        assert(i < len) by {
            vstd::arithmetic::div_mod::lemma_div_is_ordered(j, 8 * len - 1, 8);
            lemma_div8(len - 1, 7);
        }
        assert(bit_of(data[i], k as u8) == bit_at(bits, 8 * i + k));
        assert(8 * i + k == j);
    }
    assert(bits_of(data).take(bits.len() as int) =~= bits);
}

/// Concatenating groups of one common width: the result has one slot per
/// group and bit, and position `i` reads group `i / width`.
pub proof fn lemma_concat_uniform(groups: Seq<Seq<bool>>, s: nat)
    requires
        s >= 1,
        forall|i: int| 0 <= i < groups.len() ==> (#[trigger] groups[i]).len() == s,
    ensures
        concat_all(groups).len() == groups.len() * s,
        forall|i: int|
            0 <= i < groups.len() * s ==> #[trigger] concat_all(groups)[i] == groups[i / (
            s as int)][i % (s as int)],
    decreases groups.len(),
{
    if groups.len() == 0 {
    } else {
        let head = groups.drop_last();
        lemma_concat_uniform(head, s);
        assert(head.len() * s + s == groups.len() * s) by (nonlinear_arith)
            requires
                head.len() + 1 == groups.len(),
        ;
        let m = head.len() as int;
        assert forall|i: int| 0 <= i < groups.len() * s implies #[trigger] concat_all(groups)[i]
            == groups[i / (s as int)][i % (s as int)] by {
            if i < m * s {
                assert(concat_all(groups)[i] == concat_all(head)[i]);
                vstd::arithmetic::div_mod::lemma_fundamental_div_mod(i, s as int);
                vstd::arithmetic::div_mod::lemma_mod_division_less_than_divisor(i, s as int);
                vstd::arithmetic::div_mod::lemma_div_pos_is_pos(i, s as int);
                assert(i / (s as int) < m) by (nonlinear_arith)
                    requires
                        s >= 1,
                        0 <= i < m * s,
                        i == (s as int) * (i / (s as int)) + i % (s as int),
                        0 <= i % (s as int) < s,
                        i / (s as int) >= 0,
                ;
                assert(head[i / (s as int)] == groups[i / (s as int)]);
            } else {
                assert(concat_all(groups)[i] == groups.last()[i - m * s]);
                assert(i / (s as int) == m && i % (s as int) == i - m * s) by (nonlinear_arith)
                    requires
                        s >= 1,
                        m * s <= i < m * s + s,
                ;
            }
        }
    }
}

/// Reading the zero-padded packing of a bit sequence back bit by bit gives
/// the sequence, with zeros past its end.
pub proof fn lemma_padded_bits(bs: Seq<bool>, j: int)
    requires
        j >= 0,
    ensures
        stream_bit(padded_bytes(bs), j) == bit_at(bs, j),
{
    let p = padded_bytes(bs);
    vstd::arithmetic::div_mod::lemma_fundamental_div_mod(j, 8);
    vstd::arithmetic::div_mod::lemma_mod_division_less_than_divisor(j, 8);
    vstd::arithmetic::div_mod::lemma_div_pos_is_pos(j, 8);
    let i = j / 8;
    let k = j % 8;
    if j < 8 * p.len() {
        assert(i < p.len()) by {
            vstd::arithmetic::div_mod::lemma_div_is_ordered(j, 8 * p.len() - 1, 8);
            lemma_div8(p.len() as int - 1, 7);
        }
        lemma_byte_from_bit(bs, 8 * i, k as u8);
        assert(stream_bit(p, j) == bit_at(bs, 8 * i + k));
    } else {
        assert(!stream_bit(p, j));
        assert(bs.len() <= 8 * p.len()) by {
            vstd::arithmetic::div_mod::lemma_fundamental_div_mod(bs.len() as int + 7, 8);
            vstd::arithmetic::div_mod::lemma_mod_division_less_than_divisor(bs.len() as int + 7, 8);
        }
        assert(!bit_at(bs, j));
    }
}

/// On a byte boundary, dropping and padding the trailing fragment agree.
pub proof fn lemma_whole_padded_aligned(bs: Seq<bool>)
    requires
        bs.len() % 8 == 0,
    ensures
        whole_bytes(bs) == padded_bytes(bs),
{
    let n = bs.len() as int;
    vstd::arithmetic::div_mod::lemma_fundamental_div_mod(n, 8);
    lemma_div8(n / 8, 7);
    assert(whole_bytes(bs) =~= padded_bytes(bs));
}

/// A stream whose stride divides the bit total emits exactly that many
/// groups.
pub proof fn lemma_stream_len_exact(len: nat, s: nat)
    requires
        s >= 1,
        (8 * len as int) % (s as int) == 0,
    ensures
        stream_len(len, s) * s == 8 * len,
{
    let m = 8 * len as int;
    let q = m / (s as int);
    vstd::arithmetic::div_mod::lemma_fundamental_div_mod(m, s as int);
    vstd::arithmetic::div_mod::lemma_div_pos_is_pos(m, s as int);
    assert(m == (s as int) * q);
    assert(q * s == m) by (nonlinear_arith)
        requires
            m == (s as int) * q,
    ;
    assert(q >= 1 ==> (q - 1) * (s as int) < m) by (nonlinear_arith)
        requires
            s >= 1,
            m == (s as int) * q,
    ;
    lemma_stream_len_unique(len, s, q as nat);
}

/// A bit sequence that starts with every bit of a byte buffer, and runs
/// out before the next byte boundary, packs back to that buffer.
pub proof fn lemma_whole_bytes_of_stream(data: Seq<u8>, bs: Seq<bool>)
    requires
        8 * data.len() <= bs.len() < 8 * data.len() + 8,
        forall|j: int| 0 <= j < 8 * data.len() ==> bs[j] == stream_bit(data, j),
    ensures
        whole_bytes(bs) == data,
{
    let n = bs.len() as int;
    let l = data.len() as int;
    assert(n / 8 == l) by {
        vstd::arithmetic::div_mod::lemma_fundamental_div_mod(n, 8);
        lemma_div8(l, n - 8 * l);
    }
    lemma_bytes_bits_bytes(data);
    let w = whole_bytes(bs);
    let wd = whole_bytes(bits_of(data));
    assert forall|i: int| 0 <= i < l implies w[i] == wd[i] by {
        assert forall|k: u8| k < 8 implies bit_of(w[i], k) == bit_of(wd[i], k) by {
            lemma_byte_from_bit(bs, 8 * i, k);
            lemma_byte_from_bit(bits_of(data), 8 * i, k);
            assert(bit_at(bs, 8 * i + k) == bit_at(bits_of(data), 8 * i + k));
        }
        lemma_byte_eq(w[i], wd[i]);
    }
    assert(w =~= wd);
}

/// The whole-byte prefix of a packing: with the bit count on a byte
/// boundary the packing itself, otherwise everything but its last byte.
pub proof fn lemma_packs_whole(data: Seq<u8>, bits: Seq<bool>)
    requires
        packs(data, bits),
    ensures
        bits.len() % 8 == 0 ==> data == whole_bytes(bits),
        bits.len() % 8 != 0 ==> data.len() >= 1 && data.drop_last() == whole_bytes(bits),
{
    lemma_packs_padded(data, bits);
    let n = bits.len() as int;
    vstd::arithmetic::div_mod::lemma_fundamental_div_mod(n, 8);
    let q = n / 8;
    let r = n % 8;
    lemma_div8(q, 7);
    lemma_div8(q, r + 7);
    if r == 0 {
        assert(whole_bytes(bits) =~= padded_bytes(bits));
    } else {
        assert(data.len() == q + 1);
        assert(data.drop_last() =~= whole_bytes(bits));
    }
}

/// The trailing partial byte of a packing packs exactly the trailing bits.
pub proof fn lemma_packs_tail(data: Seq<u8>, bits: Seq<bool>)
    requires
        packs(data, bits),
        bits.len() % 8 != 0,
    ensures
        packs(seq![data.last()], bits.skip(8 * (bits.len() as int / 8))),
{
    let n = bits.len() as int;
    vstd::arithmetic::div_mod::lemma_fundamental_div_mod(n, 8);
    let q = n / 8;
    let r = n % 8;
    lemma_div8(q, r);
    lemma_div8(q, r + 7);
    assert(data.len() == q + 1);
    let tail = bits.skip(8 * q);
    let single = seq![data.last()];
    assert(tail.len() == r);
    assert(single.len() == (tail.len() + 7) / 8);
    assert forall|i: int, k: u8| 0 <= i < single.len() && k < 8 implies #[trigger] bit_of(
        single[i],
        k,
    ) == bit_at(tail, 8 * i + k) by {
        assert(single[0] == data[q]);
        assert(bit_of(data[q], k) == bit_at(bits, 8 * q + k));
        if k < r {
            assert(bit_at(tail, k as int) == bits[8 * q + k]);
        }
    }
}

/// The number of groups the stream emits is the least `g` with
/// `g * stride >= 8 * len`.
pub proof fn lemma_stream_len_unique(len: nat, stride: nat, g: nat)
    requires
        stride >= 1,
        g * stride >= 8 * len,
        g >= 1 ==> (g - 1) * stride < 8 * len,
    ensures
        g == stream_len(len, stride),
{
    let m = 8 * len as int;
    let s = stride as int;
    let n = (m + s - 1) / s;
    vstd::arithmetic::div_mod::lemma_fundamental_div_mod(m + s - 1, s);
    let rem = (m + s - 1) % s;
    assert(m + s - 1 == s * n + rem);
    assert(n * s >= m && n * s < m + s) by (nonlinear_arith)
        requires
            s >= 1,
            0 <= rem < s,
            m + s - 1 == s * n + rem,
    ;
    if g > n {
        assert((g - 1) * s >= n * s) by (nonlinear_arith)
            requires
                s >= 1,
                g >= n + 1,
        ;
        assert(false);
    }
    if g < n {
        assert(g * s <= (n - 1) * s) by (nonlinear_arith)
            requires
                s >= 1,
                g <= n - 1,
        ;
        assert((n - 1) * s < m) by (nonlinear_arith)
            requires
                s >= 1,
                n * s < m + s,
        ;
        assert(false);
    }
}

/// The emitted groups cover every real bit of the buffer.
pub proof fn lemma_stream_len_cover(len: nat, stride: nat)
    requires
        stride >= 1,
    ensures
        stream_len(len, stride) * stride >= 8 * len,
{
    let m = 8 * len as int;
    let s = stride as int;
    let n = (m + s - 1) / s;
    vstd::arithmetic::div_mod::lemma_fundamental_div_mod(m + s - 1, s);
    vstd::arithmetic::div_mod::lemma_mod_division_less_than_divisor(m + s - 1, s);
    let rem = (m + s - 1) % s;
    assert(n * s >= m) by (nonlinear_arith)
        requires
            s >= 1,
            0 <= rem < s,
            m + s - 1 == s * n + rem,
    ;
}

/// Multiplying by the same nonnegative stride preserves order.
pub proof fn lemma_mul_mono(a: int, b: int, s: int)
    requires
        a <= b,
        s >= 0,
    ensures
        a * s <= b * s,
{
    assert(a * s <= b * s) by (nonlinear_arith)
        requires
            a <= b,
            s >= 0,
    ;
}

/// Multiplying and then dividing by the stride cancels.
pub proof fn lemma_mul_div_cancel(g: int, s: int)
    requires
        s >= 1,
        g >= 0,
    ensures
        (g * s) / s == g,
        (g * s) % s == 0,
    {
    assert((g * s) / s == g && (g * s) % s == 0) by (nonlinear_arith)
        requires
            s >= 1,
            g >= 0,
    ;
}

} // verus!
