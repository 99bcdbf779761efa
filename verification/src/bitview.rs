//! The bit-stream view over a byte buffer, the byte accumulator that folds
//! bit groups back into bytes, and the pipeline drivers that compose the two
//! around a per-group transform.

use vstd::prelude::*;

verus! {

use crate::bitspec::{
    bits_of,
    concat_all,
    lemma_bit_mask_test,
    lemma_concat_push,
    lemma_div8,
    lemma_mul_div_cancel,
    lemma_mul_mono,
    lemma_packs_padded,
    lemma_packs_push,
    lemma_stream_len_cover,
    lemma_stream_len_unique,
    packs,
    padded_bytes,
    stream_bit,
    stream_group,
    stream_len,
    whole_bytes,
    bit_weight,
};

/// A forward-only cursor over the bits of a byte buffer.  Each step yields
/// `stride` bits, most significant bit of each byte first, reading zero for
/// every position at or past the buffer's end.
pub struct BitView<'a> {
    stride: usize,
    index: usize,
    offset: usize,
    data: &'a [u8],
}

impl<'a> BitView<'a> {
    /// The buffer the view reads.
    pub closed spec fn data(self) -> Seq<u8> {
        self.data@
    }

    /// The configured group width in bits.
    pub closed spec fn stride(self) -> nat {
        self.stride as nat
    }

    /// The flat bit position of the cursor.
    pub closed spec fn pos(self) -> int {
        8 * self.index + self.offset
    }

    /// Cursor invariant: the offset stays below one byte and the position
    /// advances in whole strides.
    pub closed spec fn wf(self) -> bool {
        &&& self.offset < 8
        &&& self.stride >= 1
        &&& self.pos() % (self.stride as int) == 0
    }

    /// Produce the next group of `stride` bits, or nothing once the cursor's
    /// byte index has reached the end of the buffer.
    pub fn next(&mut self) -> (r: Option<Vec<bool>>)
        requires
            old(self).wf(),
            8 * old(self).data().len() + old(self).stride() + 8 <= usize::MAX,
        ensures
            final(self).wf(),
            final(self).stride() == old(self).stride(),
            final(self).data() == old(self).data(),
            old(self).pos() >= 8 * old(self).data().len() ==> r is None && final(self).pos()
                == old(self).pos(),
            old(self).pos() < 8 * old(self).data().len() ==> (r matches Some(v) && v@ == Seq::new(
                old(self).stride(),
                |j: int| stream_bit(old(self).data(), old(self).pos() + j),
            ) && final(self).pos() == old(self).pos() + old(self).stride()),
    {
        proof {
            assert(8 * self.index <= self.pos() < 8 * self.index + 8);
        }
        if self.index >= self.data.len() {
            None
        } else {
            let ghost data_seq = self.data@;
            let ghost p = self.pos();
            let base_index = self.index;
            let base_offset = self.offset;
            let stride = self.stride;
            let mut buffer: Vec<bool> = Vec::new();
            let mut i: usize = 0;
            while i < stride
                invariant
                    i <= stride,
                    stride >= 1,
                    base_offset < 8,
                    base_index < data_seq.len(),
                    data_seq == self.data@,
                    8 * data_seq.len() + stride + 8 <= usize::MAX,
                    p == 8 * base_index + base_offset,
                    buffer@.len() == i,
                    forall|j: int| 0 <= j < i ==> buffer@[j] == stream_bit(data_seq, p + j),
                decreases stride - i,
            {
                let index = base_index + (base_offset + i) / 8;
                let offset = (base_offset + i) % 8;
                proof {
                    lemma_div8(base_index as int, base_offset + i);
                    assert((p + i) / 8 == index && (p + i) % 8 == offset);
                }
                if index >= self.data.len() {
                    buffer.push(false);
                    proof {
                        assert(p + i >= 8 * data_seq.len()) by {
                            assert((p + i) / 8 >= data_seq.len());
                        }
                        assert(!stream_bit(data_seq, p + i));
                    }
                } else {
                    let byte = self.data[index];
                    let bit = byte & (128u8 >> (offset as u8)) != 0;
                    buffer.push(bit);
                    proof {
                        lemma_bit_mask_test(byte, offset as u8);
                        assert(p + i < 8 * data_seq.len()) by {
                            assert((p + i) / 8 < data_seq.len());
                        }
                        assert(stream_bit(data_seq, p + i) == bit);
                    }
                }
                i = i + 1;
            }
            self.index = base_index + (base_offset + stride) / 8;
            self.offset = (base_offset + stride) % 8;
            proof {
                lemma_div8(base_index as int, base_offset + stride);
                vstd::arithmetic::div_mod::lemma_fundamental_div_mod(
                    (base_offset + stride) as int,
                    8,
                );
                assert(self.pos() == p + stride);
                assert(self.pos() % (self.stride as int) == 0) by {
                    let s = stride as int;
                    let q = p / s;
                    vstd::arithmetic::div_mod::lemma_fundamental_div_mod(p, s);
                    vstd::arithmetic::div_mod::lemma_div_pos_is_pos(p, s);
                    assert(p == s * q);
                    lemma_mul_div_cancel(q + 1, s);
                    assert((q + 1) * s == s * q + s) by (nonlinear_arith);
                    assert(self.pos() == (q + 1) * s);
                }
                assert(buffer@ =~= Seq::new(
                    stride as nat,
                    |j: int| stream_bit(data_seq, p + j),
                ));
            }
            Some(buffer)
        }
    }
}

/// Creates a [`BitView`] over `buffer` that yields `n` bits per step.
pub fn n_bits<'a>(buffer: &'a [u8], n: usize) -> (r: BitView<'a>)
    requires
        n >= 1,
    ensures
        r.wf(),
        r.stride() == n,
        r.data() == buffer@,
        r.pos() == 0,
{
    proof {
        lemma_mul_div_cancel(0, n as int);
    }
    BitView { stride: n, index: 0, offset: 0, data: buffer }
}

/// A growable byte buffer that may end in a partial byte: `offset` bits of
/// the last byte are meaningful, the rest are zero.
pub struct PartBytes {
    data: Vec<u8>,
    offset: u8,
}

impl PartBytes {
    /// How many bits have been folded in so far.
    pub closed spec fn bit_len(self) -> int {
        if self.offset == 0 {
            8 * self.data@.len() as int
        } else {
            8 * (self.data@.len() - 1) + self.offset
        }
    }

    /// The bits folded in so far.
    pub closed spec fn bits(self) -> Seq<bool> {
        bits_of(self.data@).take(self.bit_len())
    }

    /// Accumulator invariant: the write offset stays below one byte and the
    /// byte buffer is exactly the zero-padded packing of the folded bits.
    pub closed spec fn wf(self) -> bool {
        &&& self.offset < 8
        &&& (self.offset != 0 ==> self.data@.len() >= 1)
        &&& packs(self.data@, self.bits())
    }
}

/// Creates an empty [`PartBytes`] with room reserved for `capacity` bytes.
pub fn empty_part(capacity: usize) -> (r: PartBytes)
    ensures
        r.wf(),
        r.bits() == Seq::<bool>::empty(),
{
    let r = PartBytes { data: Vec::with_capacity(capacity), offset: 0 };
    proof {
        assert(r.bits() =~= Seq::<bool>::empty());
    }
    r
}

/// Folds one bit group into the accumulator, appending its bits most
/// significant first.  Usable as a fold step over a [`BitView`].
pub fn to_part_bytes(acc: PartBytes, element: Vec<bool>) -> (r: PartBytes)
    requires
        acc.wf(),
    ensures
        r.wf(),
        r.bits() == acc.bits() + element@,
{
    let mut acc = acc;
    let ghost base = acc.bits();
    let mut i: usize = 0;
    while i < element.len()
        invariant
            i <= element@.len(),
            acc.wf(),
            acc.bits() == base + element@.take(i as int),
        decreases element@.len() - i,
    {
        let b = element[i];
        let ghost bits_before = acc.bits();
        let ghost data_before = acc.data@;
        proof {
            lemma_packs_push(data_before, bits_before, b);
            if acc.offset != 0 {
                lemma_div8(data_before.len() - 1, acc.offset as int);
                assert(bits_before.len() % 8 == acc.offset);
            } else {
                lemma_div8(data_before.len() as int, 0);
                assert(bits_before.len() % 8 == 0);
            }
        }
        if acc.offset == 0 {
            acc.data.push(if b {
                128u8
            } else {
                0u8
            });
            proof {
                assert(128u8 >> 0u8 == 128u8) by (bit_vector);
                assert(acc.data@ == data_before.push(bit_weight(b, 0)));
            }
        } else if b {
            let last = acc.data.len() - 1;
            let cur = acc.data[last];
            acc.data[last] = cur | (128u8 >> acc.offset);
            proof {
                assert(acc.data@ == data_before.update(
                    data_before.len() - 1,
                    data_before.last() | bit_weight(b, (bits_before.len() % 8) as u8),
                ));
            }
        } else {
            proof {
                let r = (bits_before.len() % 8) as u8;
                assert(bit_weight(false, r) == 0u8);
                assert(data_before.last() | 0u8 == data_before.last()) by (bit_vector);
                assert(acc.data@ =~= data_before.update(
                    data_before.len() - 1,
                    data_before.last() | bit_weight(b, r),
                ));
            }
        }
        acc.offset = (acc.offset + 1) % 8;
        proof {
            assert(packs(acc.data@, bits_before.push(b)));
            assert(acc.bit_len() == bits_before.len() + 1);
            crate::bitspec::lemma_packs_bits(acc.data@, bits_before.push(b));
            assert(acc.bits() == bits_before.push(b));
            assert(bits_before.push(b) =~= base + element@.take(i + 1));
        }
        i = i + 1;
    }
    proof {
        assert(element@.take(element@.len() as int) =~= element@);
    }
    acc
}

/// Folds one transform result into the accumulator when both are intact, and
/// otherwise keeps or raises the first failure.  Usable as a fold step over
/// an iteration that can fail per group.
pub fn result_to_part_bytes(
    accumulator: Result<PartBytes, &'static str>,
    element: Result<Vec<bool>, &'static str>,
) -> (r: Result<PartBytes, &'static str>)
    requires
        accumulator matches Ok(acc) ==> acc.wf(),
    ensures
        match accumulator {
            Ok(acc) => match element {
                Ok(elem) => (r matches Ok(p) && p.wf() && p.bits() == acc.bits() + elem@),
                Err(e) => r == Result::<PartBytes, &'static str>::Err(e),
            },
            Err(e) => r == Result::<PartBytes, &'static str>::Err(e),
        },
{
    match accumulator {
        Ok(acc) => match element {
            Ok(elem) => Ok(to_part_bytes(acc, elem)),
            Err(e) => Err(e),
        },
        Err(e) => Err(e),
    }
}

/// Extracts the accumulated bytes, dropping a trailing partial byte: only
/// whole bytes ever carry data for a well-formed codec, so a leftover
/// fragment is padding, never payload.
pub fn to_bytes(pb: PartBytes) -> (r: Vec<u8>)
    requires
        pb.wf(),
    ensures
        r@ == whole_bytes(pb.bits()),
{
    proof {
        lemma_packs_padded(pb.data@, pb.bits());
    }
    let ghost n = pb.bits().len() as int;
    if pb.offset == 0 {
        proof {
            lemma_div8(pb.data@.len() as int, 0);
            lemma_div8(pb.data@.len() as int, 7);
            assert(whole_bytes(pb.bits()) =~= padded_bytes(pb.bits()));
        }
        pb.data
    } else {
        let mut buf = pb.data;
        let end = buf.len() - 1;
        buf.remove(end);
        proof {
            lemma_div8(end as int, pb.offset as int);
            lemma_div8(end as int, pb.offset + 7);
            assert(n / 8 == end);
            assert(buf@ =~= whole_bytes(pb.bits()));
        }
        buf
    }
}

/// Extracts the accumulated bytes with a trailing partial byte kept, its
/// unused low bits zero.
pub fn to_padded_bytes(pb: PartBytes) -> (r: Vec<u8>)
    requires
        pb.wf(),
    ensures
        r@ == padded_bytes(pb.bits()),
{
    proof {
        lemma_packs_padded(pb.data@, pb.bits());
    }
    pb.data
}

/// Streaming a buffer and folding the groups straight back together
/// recovers the buffer: every real bit appears in exactly one group, in
/// order, and the final byte trim drops only synthetic padding.  The
/// padding must stay under one byte: a stride so much wider than the
/// buffer that a whole padding byte survives the trim appends zero bytes
/// instead.
pub proof fn lemma_stream_accumulate_round_trip(data: Seq<u8>, stride: nat)
    requires
        stride >= 1,
        stream_len(data.len(), stride) * stride < 8 * data.len() + 8,
    ensures
        whole_bytes(
            concat_all(
                Seq::new(
                    stream_len(data.len(), stride),
                    |g: int| stream_group(data, stride, g),
                ),
            ),
        ) == data,
{
    let n = stream_len(data.len(), stride);
    let groups = Seq::new(n, |g: int| stream_group(data, stride, g));
    crate::bitspec::lemma_concat_uniform(groups, stride);
    let bs = concat_all(groups);
    lemma_stream_len_cover(data.len(), stride);
    assert(bs.len() == n * stride);
    let s = stride as int;
    assert forall|j: int| 0 <= j < 8 * data.len() implies bs[j] == stream_bit(data, j) by {
        vstd::arithmetic::div_mod::lemma_fundamental_div_mod(j, s);
        vstd::arithmetic::div_mod::lemma_mod_division_less_than_divisor(j, s);
        vstd::arithmetic::div_mod::lemma_div_pos_is_pos(j, s);
        let g = j / s;
        let r = j % s;
        assert(g < n) by (nonlinear_arith)
            requires
                s >= 1,
                0 <= j < n * s,
                j == s * g + r,
                0 <= r < s,
                g >= 0,
        ;
        assert(bs[j] == groups[g][r]);
        assert(groups[g][r] == stream_bit(data, g * s + r));
        assert(g * s + r == j) by (nonlinear_arith)
            requires
                j == s * g + r,
        ;
    }
    crate::bitspec::lemma_whole_bytes_of_stream(data, bs);
}

/// One possible result of the transform on group `i` of the stream over
/// `data`.
pub open spec fn group_output<F: Fn(Vec<bool>) -> Vec<bool>>(
    f: F,
    data: Seq<u8>,
    stride: nat,
    i: int,
    out: Seq<bool>,
) -> bool {
    exists|gv: Vec<bool>, rv: Vec<bool>|
        gv@ == stream_group(data, stride, i) && rv@ == out && call_ensures(f, (gv,), rv)
}

/// One possible successful result of a fallible transform on group `i`.
pub open spec fn group_ok_output<F: Fn(Vec<bool>) -> Result<Vec<bool>, &'static str>>(
    f: F,
    data: Seq<u8>,
    stride: nat,
    i: int,
    out: Seq<bool>,
) -> bool {
    exists|gv: Vec<bool>, rv: Vec<bool>|
        gv@ == stream_group(data, stride, i) && rv@ == out && call_ensures(
            f,
            (gv,),
            Result::<Vec<bool>, &'static str>::Ok(rv),
        )
}

/// One possible failure of a fallible transform on group `i`.
pub open spec fn group_err_output<F: Fn(Vec<bool>) -> Result<Vec<bool>, &'static str>>(
    f: F,
    data: Seq<u8>,
    stride: nat,
    i: int,
    e: &'static str,
) -> bool {
    exists|gv: Vec<bool>|
        gv@ == stream_group(data, stride, i) && call_ensures(
            f,
            (gv,),
            Result::<Vec<bool>, &'static str>::Err(e),
        )
}

/// The pipeline over `data` can produce exactly `bytes`: some choice of
/// per-group transform results, one per emitted group, packs to these bytes
/// once a trailing partial byte is dropped.
pub open spec fn pipeline_output<F: Fn(Vec<bool>) -> Vec<bool>>(
    f: F,
    data: Seq<u8>,
    stride: nat,
    bytes: Seq<u8>,
) -> bool {
    exists|outs: Seq<Seq<bool>>|
        {
            &&& outs.len() == stream_len(data.len(), stride)
            &&& (forall|i: int|
                0 <= i < outs.len() ==> group_output(f, data, stride, i, #[trigger] outs[i]))
            &&& bytes == whole_bytes(concat_all(outs))
        }
}

/// The fallible pipeline over `data` can succeed with exactly `bytes`.
pub open spec fn result_pipeline_output<F: Fn(Vec<bool>) -> Result<Vec<bool>, &'static str>>(
    f: F,
    data: Seq<u8>,
    stride: nat,
    bytes: Seq<u8>,
) -> bool {
    exists|outs: Seq<Seq<bool>>|
        {
            &&& outs.len() == stream_len(data.len(), stride)
            &&& (forall|i: int|
                0 <= i < outs.len() ==> group_ok_output(f, data, stride, i, #[trigger] outs[i]))
            &&& bytes == whole_bytes(concat_all(outs))
        }
}

/// The fallible pipeline over `data` can fail with `e`: some emitted group's
/// transform can return this failure.
pub open spec fn result_pipeline_failure<F: Fn(Vec<bool>) -> Result<Vec<bool>, &'static str>>(
    f: F,
    data: Seq<u8>,
    stride: nat,
    e: &'static str,
) -> bool {
    exists|k: int|
        #![trigger group_err_output(f, data, stride, k, e)]
        {
            &&& 0 <= k < stream_len(data.len(), stride)
            &&& group_err_output(f, data, stride, k, e)
        }
}

/// Streams `input` in groups of `stride` bits, applies the transform to each
/// group, and folds every result into one accumulator.
pub(crate) fn fold_pipeline<F: Fn(Vec<bool>) -> Vec<bool>>(
    input: &[u8],
    stride: usize,
    function: &F,
) -> (r: (PartBytes, Ghost<Seq<Seq<bool>>>))
    requires
        stride >= 1,
        8 * input@.len() + stride + 8 <= usize::MAX,
        forall|i: int, gv: Vec<bool>|
            #![trigger call_requires(*function, (gv,)), stream_group(input@, stride as nat, i)]
            0 <= i < stream_len(input@.len(), stride as nat) && gv@ == stream_group(
                input@,
                stride as nat,
                i,
            ) ==> call_requires(*function, (gv,)),
    ensures
        r.0.wf(),
        r.1@.len() == stream_len(input@.len(), stride as nat),
        forall|i: int|
            0 <= i < r.1@.len() ==> group_output(
                *function,
                input@,
                stride as nat,
                i,
                #[trigger] r.1@[i],
            ),
        r.0.bits() == concat_all(r.1@),
{
    let ghost data_seq = input@;
    let ghost n = stream_len(input@.len(), stride as nat);
    let mut view = n_bits(input, stride);
    let mut pb = empty_part(input.len());
    let ghost mut outs: Seq<Seq<bool>> = Seq::empty();
    loop
        invariant
            stride >= 1,
            8 * data_seq.len() + stride + 8 <= usize::MAX,
            data_seq == input@,
            n == stream_len(data_seq.len(), stride as nat),
            forall|i: int, gv: Vec<bool>|
                #![trigger call_requires(*function, (gv,)), stream_group(data_seq, stride as nat, i)]
                0 <= i < stream_len(data_seq.len(), stride as nat) && gv@ == stream_group(
                    data_seq,
                    stride as nat,
                    i,
                ) ==> call_requires(*function, (gv,)),
            view.wf(),
            view.stride() == stride as nat,
            view.data() == data_seq,
            pb.wf(),
            view.pos() == outs.len() * (stride as int),
            outs.len() >= 1 ==> (outs.len() - 1) * (stride as int) < 8 * data_seq.len(),
            pb.bits() == concat_all(outs),
            forall|i: int|
                0 <= i < outs.len() ==> group_output(
                    *function,
                    data_seq,
                    stride as nat,
                    i,
                    #[trigger] outs[i],
                ),
        ensures
            outs.len() == n,
        decreases 8 * data_seq.len() + stride - view.pos(),
    {
        let ghost cnt = outs.len() as int;
        match view.next() {
            None => {
                proof {
                    lemma_stream_len_unique(data_seq.len(), stride as nat, outs.len());
                }
                break ;
            },
            Some(g) => {
                proof {
                    assert(view.pos() - stride == cnt * (stride as int));
                    assert(g@ =~= stream_group(data_seq, stride as nat, cnt));
                    assert(cnt < n) by {
                        lemma_stream_len_cover(data_seq.len(), stride as nat);
                        if cnt >= n {
                            lemma_mul_mono(n as int, cnt, stride as int);
                        }
                    }
                }
                let out = function(g);
                pb = to_part_bytes(pb, out);
                proof {
                    lemma_concat_push(outs, out@);
                    assert(call_ensures(*function, (g,), out));
                    outs = outs.push(out@);
                    assert(group_output(*function, data_seq, stride as nat, cnt, out@));
                    assert(view.pos() == outs.len() * (stride as int)) by {
                        assert((cnt + 1) * (stride as int) == cnt * (stride as int) + stride)
                            by (nonlinear_arith);
                    }
                }
            },
        }
    }
    (pb, Ghost(outs))
}

/// Streams `input` in groups of `stride` bits, transforms every group, and
/// packs the results back into bytes, dropping any trailing partial byte.
pub fn auto_pipeline<F: Fn(Vec<bool>) -> Vec<bool>>(
    input: &[u8],
    stride: usize,
    function: &F,
) -> (out: Vec<u8>)
    requires
        stride >= 1,
        8 * input@.len() + stride + 8 <= usize::MAX,
        forall|i: int, gv: Vec<bool>|
            #![trigger call_requires(*function, (gv,)), stream_group(input@, stride as nat, i)]
            0 <= i < stream_len(input@.len(), stride as nat) && gv@ == stream_group(
                input@,
                stride as nat,
                i,
            ) ==> call_requires(*function, (gv,)),
    ensures
        pipeline_output(*function, input@, stride as nat, out@),
{
    let (pb, g_outs) = fold_pipeline(input, stride, function);
    let r = to_bytes(pb);
    proof {
        let outs = g_outs@;
        assert(outs.len() == stream_len(input@.len(), stride as nat) && (forall|i: int|
            0 <= i < outs.len() ==> group_output(
                *function,
                input@,
                stride as nat,
                i,
                #[trigger] outs[i],
            )) && r@ == whole_bytes(concat_all(outs)));
        assert(pipeline_output(*function, input@, stride as nat, r@));
    }
    r
}

/// Streams `input` in groups of `stride` bits through a transform that can
/// fail.  The first failing group stops processing, every accumulated byte
/// is discarded, and that failure is the overall result; on full success the
/// packed bytes come back, a trailing partial byte dropped.
pub fn result_auto_pipeline<F: Fn(Vec<bool>) -> Result<Vec<bool>, &'static str>>(
    input: &[u8],
    stride: usize,
    function: &F,
) -> (out: Result<Vec<u8>, &'static str>)
    requires
        stride >= 1,
        8 * input@.len() + stride + 8 <= usize::MAX,
        forall|i: int, gv: Vec<bool>|
            #![trigger call_requires(*function, (gv,)), stream_group(input@, stride as nat, i)]
            0 <= i < stream_len(input@.len(), stride as nat) && gv@ == stream_group(
                input@,
                stride as nat,
                i,
            ) ==> call_requires(*function, (gv,)),
    ensures
        out matches Ok(bytes) ==> result_pipeline_output(*function, input@, stride as nat, bytes@),
        out matches Err(e) ==> result_pipeline_failure(*function, input@, stride as nat, e),
{
    let ghost data_seq = input@;
    let ghost n = stream_len(input@.len(), stride as nat);
    let mut view = n_bits(input, stride);
    let mut pb = empty_part(input.len());
    let ghost mut outs: Seq<Seq<bool>> = Seq::empty();
    loop
        invariant
            stride >= 1,
            8 * data_seq.len() + stride + 8 <= usize::MAX,
            data_seq == input@,
            n == stream_len(data_seq.len(), stride as nat),
            forall|i: int, gv: Vec<bool>|
                #![trigger call_requires(*function, (gv,)), stream_group(data_seq, stride as nat, i)]
                0 <= i < stream_len(data_seq.len(), stride as nat) && gv@ == stream_group(
                    data_seq,
                    stride as nat,
                    i,
                ) ==> call_requires(*function, (gv,)),
            view.wf(),
            view.stride() == stride as nat,
            view.data() == data_seq,
            pb.wf(),
            view.pos() == outs.len() * (stride as int),
            outs.len() >= 1 ==> (outs.len() - 1) * (stride as int) < 8 * data_seq.len(),
            pb.bits() == concat_all(outs),
            forall|i: int|
                0 <= i < outs.len() ==> group_ok_output(
                    *function,
                    data_seq,
                    stride as nat,
                    i,
                    #[trigger] outs[i],
                ),
        ensures
            outs.len() == n,
        decreases 8 * data_seq.len() + stride - view.pos(),
    {
        let ghost cnt = outs.len() as int;
        match view.next() {
            None => {
                proof {
                    lemma_stream_len_unique(data_seq.len(), stride as nat, outs.len());
                }
                break ;
            },
            Some(g) => {
                proof {
                    assert(view.pos() - stride == cnt * (stride as int));
                    assert(g@ =~= stream_group(data_seq, stride as nat, cnt));
                    assert(cnt < n) by {
                        lemma_stream_len_cover(data_seq.len(), stride as nat);
                        if cnt >= n {
                            lemma_mul_mono(n as int, cnt, stride as int);
                        }
                    }
                }
                match function(g) {
                    Ok(o) => {
                        proof {
                            assert(call_ensures(
                                *function,
                                (g,),
                                Result::<Vec<bool>, &'static str>::Ok(o),
                            ));
                        }
                        pb = to_part_bytes(pb, o);
                        proof {
                            lemma_concat_push(outs, o@);
                            outs = outs.push(o@);
                            assert(group_ok_output(*function, data_seq, stride as nat, cnt, o@));
                            assert(view.pos() == outs.len() * (stride as int)) by {
                                assert((cnt + 1) * (stride as int) == cnt * (stride as int)
                                    + stride) by (nonlinear_arith);
                            }
                        }
                    },
                    Err(e) => {
                        proof {
                            assert(group_err_output(*function, input@, stride as nat, cnt, e));
                            assert(0 <= cnt < stream_len(input@.len(), stride as nat));
                            assert(result_pipeline_failure(*function, input@, stride as nat, e));
                        }
                        return Err(e);
                    },
                }
            },
        }
    }
    let bytes = to_bytes(pb);
    proof {
        assert(outs.len() == stream_len(input@.len(), stride as nat) && (forall|i: int|
            0 <= i < outs.len() ==> group_ok_output(
                *function,
                input@,
                stride as nat,
                i,
                #[trigger] outs[i],
            )) && bytes@ == whole_bytes(concat_all(outs)));
        assert(result_pipeline_output(*function, input@, stride as nat, bytes@));
    }
    Ok(bytes)
}

} // verus!
