//! A repetition code over the bit-stream pipeline.
//!
//! Encoding replaces every bit of the buffer with `number` identical bits.
//! Decoding takes each group of `number` received bits back to one bit by
//! majority vote.  An even `number` admits a tie, which has three
//! severities: the recoverable decoder reports the corruption, the fatal
//! decoder refuses such input outright, and the best-effort decoder
//! silently resolves the tie to a zero bit.

use vstd::prelude::*;

verus! {

use crate::bitspec::{concat_all, stream_bit, stream_group, stream_len, whole_bytes};
use crate::bitview::{auto_pipeline, result_auto_pipeline, result_pipeline_failure};

/// The message reported when a block's vote ties.
pub open spec fn tie_message() -> Seq<char> {
    "Unrecoverable corruption has occured in this data."@
}

/// How many bits of a group are set.
pub open spec fn weight(s: Seq<bool>) -> nat
    decreases s.len(),
{
    if s.len() == 0 {
        0
    } else {
        weight(s.drop_last()) + if s.last() {
            1nat
        } else {
            0nat
        }
    }
}

/// One source bit encoded: `n` copies of it.
pub open spec fn rep_encode_block(b: bool, n: nat) -> Seq<bool> {
    Seq::new(n, |j: int| b)
}

/// A received group's majority vote: true when more than half the bits are
/// set, false when fewer than half are.
pub open spec fn vote(s: Seq<bool>) -> bool {
    2 * weight(s) > s.len()
}

/// A received group with exactly half its bits set, possible only for an
/// even group width: no majority exists.
pub open spec fn tie(s: Seq<bool>) -> bool {
    2 * weight(s) == s.len()
}

/// Whether any group of the stream over `data` ties at `n` bits per group.
pub open spec fn has_tie(data: Seq<u8>, n: nat) -> bool {
    exists|g: int|
        0 <= g < stream_len(data.len(), n) && tie(#[trigger] stream_group(data, n, g))
}

/// The whole encoded buffer: every stream bit repeated `n` times, packed
/// into bytes.  The total is always a whole number of bytes.
pub open spec fn rep_encode_bytes(data: Seq<u8>, n: nat) -> Seq<u8> {
    whole_bytes(
        concat_all(
            Seq::new(
                stream_len(data.len(), 1),
                |g: int| rep_encode_block(stream_group(data, 1, g)[0], n),
            ),
        ),
    )
}

/// The whole decoded buffer under majority vote, ties resolved to zero
/// bits: one bit per group of `n`, packed into whole bytes.
pub open spec fn rep_decode_bytes(data: Seq<u8>, n: nat) -> Seq<u8> {
    whole_bytes(
        concat_all(
            Seq::new(
                stream_len(data.len(), n),
                |g: int| seq![vote(stream_group(data, n, g))],
            ),
        ),
    )
}

/// How many bits of a received group disagree with the bit that was sent.
pub open spec fn count_diff(s: Seq<bool>, b: bool) -> nat
    decreases s.len(),
{
    if s.len() == 0 {
        0
    } else {
        count_diff(s.drop_last(), b) + if s.last() != b {
            1nat
        } else {
            0nat
        }
    }
}

/// Weight and disagreement count determine each other against a reference
/// bit.
proof fn lemma_weight_diff(s: Seq<bool>, b: bool)
    ensures
        b ==> weight(s) + count_diff(s, b) == s.len(),
        !b ==> weight(s) == count_diff(s, b),
    decreases s.len(),
{
    if s.len() > 0 {
        lemma_weight_diff(s.drop_last(), b);
    }
}

/// A repeated block of one bit has weight all or nothing.
proof fn lemma_weight_const(b: bool, n: nat)
    ensures
        weight(rep_encode_block(b, n)) == if b {
            n
        } else {
            0nat
        },
    decreases n,
{
    if n == 0 {
        assert(rep_encode_block(b, 0) =~= Seq::<bool>::empty());
    } else {
        lemma_weight_const(b, (n - 1) as nat);
        assert(rep_encode_block(b, n).drop_last() =~= rep_encode_block(b, (n - 1) as nat));
    }
}

/// Majority survives bounded corruption: a block sent as `n` copies of one
/// bit and received with fewer than half its positions flipped cannot tie
/// and still votes the sent bit.
pub proof fn lemma_rep_block_majority(received: Seq<bool>, b: bool, n: nat)
    requires
        n >= 1,
        received.len() == n,
        2 * count_diff(received, b) < n,
    ensures
        !tie(received),
        vote(received) == b,
{
    lemma_weight_diff(received, b);
}

/// The no-corruption round trip: an encoded buffer has no tied group, and
/// majority-vote decoding recovers the original buffer exactly, whatever
/// the redundancy.
pub proof fn lemma_rep_round_trip(data: Seq<u8>, n: nat)
    requires
        n >= 1,
    ensures
        !has_tie(rep_encode_bytes(data, n), n),
        rep_decode_bytes(rep_encode_bytes(data, n), n) == data,
{
    let len = data.len();
    let s = n as int;
    let n_src = stream_len(len, 1);
    assert(n_src == 8 * len);
    let eblocks = Seq::new(n_src, |g: int| rep_encode_block(stream_group(data, 1, g)[0], n));
    crate::bitspec::lemma_concat_uniform(eblocks, n);
    let ebits = concat_all(eblocks);
    assert(ebits.len() == n_src * s);
    let e = rep_encode_bytes(data, n);
    assert(ebits.len() % 8 == 0) by {
        assert(8 * len * s == 8 * (len * s)) by (nonlinear_arith);
        vstd::arithmetic::div_mod::lemma_mod_multiples_basic(len as int * s, 8);
    }
    crate::bitspec::lemma_whole_padded_aligned(ebits);
    assert(e == crate::bitspec::padded_bytes(ebits));
    assert(8 * e.len() == ebits.len()) by {
        vstd::arithmetic::div_mod::lemma_fundamental_div_mod(ebits.len() as int + 7, 8);
        vstd::arithmetic::div_mod::lemma_fundamental_div_mod(ebits.len() as int, 8);
        crate::bitspec::lemma_div8(ebits.len() as int / 8, 7);
    }
    let n_dec = stream_len(e.len(), n);
    assert(n_dec == n_src) by {
        assert((8 * e.len() as int) % s == 0) by {
            vstd::arithmetic::div_mod::lemma_mod_multiples_basic(n_src as int, s);
        }
        crate::bitspec::lemma_stream_len_exact(e.len(), n);
        assert(n_dec * s == n_src * s);
        assert(n_dec == n_src) by (nonlinear_arith)
            requires
                s >= 1,
                n_dec * s == n_src * s,
        ;
    }
    assert forall|g: int| 0 <= g < n_dec implies stream_group(e, n, g) =~= rep_encode_block(
        stream_bit(data, g),
        n,
    ) by {
        assert forall|j: int| 0 <= j < s implies stream_group(e, n, g)[j] == stream_bit(
            data,
            g,
        ) by {
            let pos = g * s + j;
            crate::bitspec::lemma_padded_bits(ebits, pos);
            assert(stream_bit(e, pos) == crate::bitspec::bit_at(ebits, pos));
            assert(0 <= pos < n_src * s) by (nonlinear_arith)
                requires
                    s >= 1,
                    0 <= g < n_src,
                    0 <= j < s,
                    pos == g * s + j,
            ;
            assert(ebits[pos] == eblocks[pos / s][pos % s]);
            assert(pos / s == g && pos % s == j) by (nonlinear_arith)
                requires
                    s >= 1,
                    0 <= j < s,
                    pos == g * s + j,
            ;
            assert(eblocks[g][j] == stream_group(data, 1, g)[0]);
            assert(stream_group(data, 1, g)[0] == stream_bit(data, g * 1 + 0));
        }
    }
    assert forall|g: int| 0 <= g < n_dec implies !tie(
        #[trigger] stream_group(e, n, g),
    ) && vote(stream_group(e, n, g)) == stream_bit(data, g) by {
        lemma_weight_const(stream_bit(data, g), n);
    }
    assert(!has_tie(e, n));
    let dblocks = Seq::new(n_dec, |g: int| seq![vote(stream_group(e, n, g))]);
    crate::bitspec::lemma_concat_uniform(dblocks, 1);
    let dbits = concat_all(dblocks);
    assert(dbits.len() == n_dec * 1);
    assert forall|j: int| 0 <= j < 8 * len implies dbits[j] == stream_bit(data, j) by {
        assert(dbits[j] == dblocks[j / 1][j % 1]);
        assert(j / 1 == j && j % 1 == 0);
        assert(dblocks[j][0] == vote(stream_group(e, n, j)));
    }
    crate::bitspec::lemma_whole_bytes_of_stream(data, dbits);
}

/// Counting set bits one position at a time.
proof fn lemma_weight_step(s: Seq<bool>, i: int)
    requires
        0 <= i < s.len(),
    ensures
        weight(s.take(i + 1)) == weight(s.take(i)) + if s[i] {
            1nat
        } else {
            0nat
        },
{
    assert(s.take(i + 1).drop_last() =~= s.take(i));
    assert(s.take(i + 1).last() == s[i]);
}

/// Counts the set bits of a group.
fn group_weight(x: &Vec<bool>) -> (w: usize)
    ensures
        w == weight(x@),
        w <= x@.len(),
{
    let n = x.len();
    let mut w: usize = 0;
    let mut i: usize = 0;
    while i < n
        invariant
            i <= n,
            n == x@.len(),
            w == weight(x@.take(i as int)),
            w <= i,
        decreases n - i,
    {
        proof {
            lemma_weight_step(x@, i as int);
        }
        if x[i] {
            w = w + 1;
        }
        i = i + 1;
    }
    proof {
        assert(x@.take(n as int) =~= x@);
    }
    w
}

/// Repeats each bit of the buffer `number` times.  Each source bit becomes
/// one block of `number` identical bits, and the blocks are packed into
/// bytes; the total is always a whole number of bytes.
pub fn encode(buffer: &[u8], number: usize) -> (out: Vec<u8>)
    requires
        number >= 1,
        8 * buffer@.len() + 9 <= usize::MAX,
    ensures
        out@ == rep_encode_bytes(buffer@, number as nat),
{
    let f = |x: Vec<bool>| -> (r: Vec<bool>)
        requires
            x@.len() == 1,
        ensures
            r@ == rep_encode_block(x@[0], number as nat),
        {
            let b = x[0];
            let mut output: Vec<bool> = Vec::new();
            let mut i: usize = 0;
            while i < number
                invariant
                    i <= number,
                    output@.len() == i,
                    forall|j: int| 0 <= j < i ==> output@[j] == b,
                decreases number - i,
            {
                output.push(b);
                i = i + 1;
            }
            proof {
                assert(output@ =~= rep_encode_block(x@[0], number as nat));
            }
            output
        };
    let out = auto_pipeline(buffer, 1, &f);
    proof {
        let outs = choose|outs: Seq<Seq<bool>>|
            {
                &&& outs.len() == stream_len(buffer@.len(), 1)
                &&& (forall|i: int|
                    0 <= i < outs.len() ==> crate::bitview::group_output(
                        f,
                        buffer@,
                        1,
                        i,
                        #[trigger] outs[i],
                    ))
                &&& out@ == whole_bytes(concat_all(outs))
            };
        let target = Seq::new(
            stream_len(buffer@.len(), 1),
            |g: int| rep_encode_block(stream_group(buffer@, 1, g)[0], number as nat),
        );
        assert forall|i: int| 0 <= i < outs.len() implies outs[i] == target[i] by {
            let (gv, rv) = choose|gv: Vec<bool>, rv: Vec<bool>|
                gv@ == stream_group(buffer@, 1, i) && rv@ == outs[i] && call_ensures(
                    f,
                    (gv,),
                    rv,
                );
            assert(rv@ == rep_encode_block(gv@[0], number as nat));
        }
        assert(outs =~= target);
    }
    out
}

/// Reverses `encode` by majority vote over each group of `number` received
/// bits.  A tie, possible only for even `number`, is unrecoverable
/// corruption: the whole decode reports it and every accumulated byte is
/// discarded.
pub fn decode(buffer: &[u8], number: usize) -> (out: Result<Vec<u8>, &'static str>)
    requires
        number >= 1,
        8 * buffer@.len() + number + 8 <= usize::MAX,
    ensures
        (out is Err) == has_tie(buffer@, number as nat),
        out matches Ok(bytes) ==> bytes@ == rep_decode_bytes(buffer@, number as nat),
        out matches Err(e) ==> e@ == tie_message(),
{
    let f = |x: Vec<bool>| -> (r: Result<Vec<bool>, &'static str>)
        requires
            x@.len() == number,
        ensures
            r matches Ok(v) ==> !tie(x@) && v@ == seq![vote(x@)],
            r matches Err(e) ==> tie(x@) && e@ == tie_message(),
        {
            let n = x.len();
            let w = group_weight(&x);
            let rest = n - w;
            if w > rest {
                let v = vec![true];
                proof {
                    assert(v@ =~= seq![vote(x@)]);
                }
                Ok(v)
            } else if w < rest {
                let v = vec![false];
                proof {
                    assert(v@ =~= seq![vote(x@)]);
                }
                Ok(v)
            } else {
                Err("Unrecoverable corruption has occured in this data.")
            }
        };
    let out = result_auto_pipeline(buffer, number, &f);
    proof {
        let nn = number as nat;
        if out is Ok {
            let bytes = out->Ok_0;
            {
                let outs = choose|outs: Seq<Seq<bool>>|
                    {
                        &&& outs.len() == stream_len(buffer@.len(), nn)
                        &&& (forall|i: int|
                            0 <= i < outs.len() ==> crate::bitview::group_ok_output(
                                f,
                                buffer@,
                                nn,
                                i,
                                #[trigger] outs[i],
                            ))
                        &&& bytes@ == whole_bytes(concat_all(outs))
                    };
                let target = Seq::new(
                    stream_len(buffer@.len(), nn),
                    |g: int| seq![vote(stream_group(buffer@, nn, g))],
                );
                assert forall|i: int| 0 <= i < outs.len() implies outs[i] == target[i] by {
                    let (gv, rv) = choose|gv: Vec<bool>, rv: Vec<bool>|
                        gv@ == stream_group(buffer@, nn, i) && rv@ == outs[i] && call_ensures(
                            f,
                            (gv,),
                            Result::<Vec<bool>, &'static str>::Ok(rv),
                        );
                    assert(rv@ == seq![vote(gv@)]);
                }
                assert(outs =~= target);
                assert forall|g: int| 0 <= g < stream_len(buffer@.len(), nn) implies !tie(
                    #[trigger] stream_group(buffer@, nn, g),
                ) by {
                    assert(crate::bitview::group_ok_output(f, buffer@, nn, g, outs[g]));
                    let (gv, rv) = choose|gv: Vec<bool>, rv: Vec<bool>|
                        gv@ == stream_group(buffer@, nn, g) && rv@ == outs[g] && call_ensures(
                            f,
                            (gv,),
                            Result::<Vec<bool>, &'static str>::Ok(rv),
                        );
                    assert(!tie(gv@));
                }
                assert(!has_tie(buffer@, nn));
            }
        } else {
            let e = out->Err_0;
            {
                assert(result_pipeline_failure(f, buffer@, nn, e));
                let k = choose|k: int|
                    #![trigger crate::bitview::group_err_output(f, buffer@, nn, k, e)]
                    {
                        &&& 0 <= k < stream_len(buffer@.len(), nn)
                        &&& crate::bitview::group_err_output(f, buffer@, nn, k, e)
                    };
                let gv = choose|gv: Vec<bool>|
                    gv@ == stream_group(buffer@, nn, k) && call_ensures(
                        f,
                        (gv,),
                        Result::<Vec<bool>, &'static str>::Err(e),
                    );
                assert(tie(stream_group(buffer@, nn, k)));
                assert(has_tie(buffer@, nn));
            }
        }
    }
    out
}

/// Reverses `encode` by majority vote, refusing outright any input with a
/// tied group: on such input the decode would abort rather than guess.
pub fn panic_decode(buffer: &[u8], number: usize) -> (out: Vec<u8>)
    requires
        number >= 1,
        8 * buffer@.len() + number + 8 <= usize::MAX,
        !has_tie(buffer@, number as nat),
    ensures
        out@ == rep_decode_bytes(buffer@, number as nat),
{
    let f = |x: Vec<bool>| -> (r: Vec<bool>)
        requires
            x@.len() == number,
            !tie(x@),
        ensures
            r@ == seq![vote(x@)],
        {
            let n = x.len();
            let w = group_weight(&x);
            let rest = n - w;
            if w > rest {
                let v = vec![true];
                proof {
                    assert(v@ =~= seq![vote(x@)]);
                }
                v
            } else if w < rest {
                let v = vec![false];
                proof {
                    assert(v@ =~= seq![vote(x@)]);
                }
                v
            } else {
                vstd::pervasive::unreached()
            }
        };
    let out = auto_pipeline(buffer, number, &f);
    proof {
        let nn = number as nat;
        let outs = choose|outs: Seq<Seq<bool>>|
            {
                &&& outs.len() == stream_len(buffer@.len(), nn)
                &&& (forall|i: int|
                    0 <= i < outs.len() ==> crate::bitview::group_output(
                        f,
                        buffer@,
                        nn,
                        i,
                        #[trigger] outs[i],
                    ))
                &&& out@ == whole_bytes(concat_all(outs))
            };
        let target = Seq::new(
            stream_len(buffer@.len(), nn),
            |g: int| seq![vote(stream_group(buffer@, nn, g))],
        );
        assert forall|i: int| 0 <= i < outs.len() implies outs[i] == target[i] by {
            let (gv, rv) = choose|gv: Vec<bool>, rv: Vec<bool>|
                gv@ == stream_group(buffer@, nn, i) && rv@ == outs[i] && call_ensures(
                    f,
                    (gv,),
                    rv,
                );
            assert(rv@ == seq![vote(gv@)]);
        }
        assert(outs =~= target);
    }
    out
}

/// Reverses `encode` by majority vote, resolving any tied group silently
/// to a zero bit: a possibly wrong but always available answer.
pub fn wrong_decode(buffer: &[u8], number: usize) -> (out: Vec<u8>)
    requires
        number >= 1,
        8 * buffer@.len() + number + 8 <= usize::MAX,
    ensures
        out@ == rep_decode_bytes(buffer@, number as nat),
{
    let f = |x: Vec<bool>| -> (r: Vec<bool>)
        requires
            x@.len() == number,
        ensures
            r@ == seq![vote(x@)],
        {
            let n = x.len();
            let w = group_weight(&x);
            let rest = n - w;
            if w > rest {
                let v = vec![true];
                proof {
                    assert(v@ =~= seq![vote(x@)]);
                }
                v
            } else {
                let v = vec![false];
                proof {
                    assert(v@ =~= seq![vote(x@)]);
                }
                v
            }
        };
    let out = auto_pipeline(buffer, number, &f);
    proof {
        let nn = number as nat;
        let outs = choose|outs: Seq<Seq<bool>>|
            {
                &&& outs.len() == stream_len(buffer@.len(), nn)
                &&& (forall|i: int|
                    0 <= i < outs.len() ==> crate::bitview::group_output(
                        f,
                        buffer@,
                        nn,
                        i,
                        #[trigger] outs[i],
                    ))
                &&& out@ == whole_bytes(concat_all(outs))
            };
        let target = Seq::new(
            stream_len(buffer@.len(), nn),
            |g: int| seq![vote(stream_group(buffer@, nn, g))],
        );
        assert forall|i: int| 0 <= i < outs.len() implies outs[i] == target[i] by {
            let (gv, rv) = choose|gv: Vec<bool>, rv: Vec<bool>|
                gv@ == stream_group(buffer@, nn, i) && rv@ == outs[i] && call_ensures(
                    f,
                    (gv,),
                    rv,
                );
            assert(rv@ == seq![vote(gv@)]);
        }
        assert(outs =~= target);
    }
    out
}

} // verus!
