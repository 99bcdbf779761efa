//! A Hamming single-error-correcting code over the bit-stream pipeline.
//!
//! A block has `2^p - 1` positions, 1-indexed; every position that is a
//! power of two is a parity slot and every other position carries a data
//! bit.  Parity slot `2^k` stores the XOR of all positions whose binary
//! form has bit `k` set, itself excluded.  Decoding recomputes each check
//! bit; when two or more disagree, the disagreeing slot positions add up to
//! the 1-indexed position of a single flipped bit, which is corrected
//! before the data slots are extracted.

use vstd::prelude::*;

verus! {

use vstd::arithmetic::power2::{
    pow2,
    is_pow2,
    is_pow2_equiv,
    lemma_pow2_subtracts,
    lemma_pow2_strictly_increases,
    lemma_pow2_pos,
    lemma_pow2_unfold,
};
use crate::bitspec::{concat_all, padded_bytes, stream_group, stream_len, whole_bytes};

/// Total block length for parity count `p`: `2^p - 1`.
pub open spec fn block_length(p: nat) -> int {
    pow2(p) - 1
}

/// Data bits per block for parity count `p`: `2^p - 1 - p`.
pub open spec fn block_data(p: nat) -> int {
    pow2(p) - 1 - p
}

/// Whether parity `k` checks the 1-indexed block position `pos`: bit `k`
/// of the position's binary form is set.
pub open spec fn covered(pos: int, k: nat) -> bool {
    (pos / pow2(k) as int) % 2 == 1
}

/// The exponent of a power of two.
pub open spec fn pow2_exp(n: int) -> nat {
    choose|k: nat| pow2(k) == n
}

/// How many powers of two lie among the 1-indexed positions `1..=n`.
pub open spec fn pow2_count(n: int) -> nat
    decreases n,
{
    if n <= 0 {
        0
    } else {
        pow2_count(n - 1) + if is_pow2(n) {
            1nat
        } else {
            0nat
        }
    }
}

/// The block before the parity fill: data bits in the data slots, zero in
/// every parity slot.
pub open spec fn placed(data: Seq<bool>, p: nat) -> Seq<bool> {
    Seq::new(
        (pow2(p) - 1) as nat,
        |i: int|
            if is_pow2(i + 1) {
                false
            } else {
                data[i - pow2_count(i)]
            },
    )
}

/// XOR of the bits among the first `n` positions (1-indexed) that parity
/// `k` covers, the parity slot itself excluded.
pub open spec fn parity_fold(blk: Seq<bool>, k: nat, n: int) -> bool
    decreases n,
{
    if n <= 0 {
        false
    } else {
        parity_fold(blk, k, n - 1) != (covered(n, k) && n != pow2(k) && 0 <= n - 1 < blk.len()
            && blk[n - 1])
    }
}

/// The encoded block: data bits in the data slots, each parity slot holding
/// the XOR over the positions it covers.
pub open spec fn ham_encode_block(data: Seq<bool>, p: nat) -> Seq<bool> {
    let blk = placed(data, p);
    Seq::new(
        (pow2(p) - 1) as nat,
        |i: int|
            if is_pow2(i + 1) {
                parity_fold(blk, pow2_exp(i + 1), pow2(p) - 1)
            } else {
                blk[i]
            },
    )
}

/// Parity `k`'s stored check bit disagrees with the recomputed one.
pub open spec fn mismatch(blk: Seq<bool>, k: nat) -> bool {
    blk[pow2(k) - 1] != parity_fold(blk, k, blk.len() as int)
}

/// How many of the parities below `p` disagree.
pub open spec fn err_count(blk: Seq<bool>, p: nat) -> nat
    decreases p,
{
    if p == 0 {
        0
    } else {
        err_count(blk, (p - 1) as nat) + if mismatch(blk, (p - 1) as nat) {
            1nat
        } else {
            0nat
        }
    }
}

/// The sum of the 1-indexed positions of the disagreeing parity slots.
pub open spec fn err_sum(blk: Seq<bool>, p: nat) -> int
    decreases p,
{
    if p == 0 {
        0
    } else {
        err_sum(blk, (p - 1) as nat) + if mismatch(blk, (p - 1) as nat) {
            pow2((p - 1) as nat) as int
        } else {
            0
        }
    }
}

/// The received block after single-error correction: with two or more
/// disagreeing parities, the bit at 0-indexed position `err_sum - 1` is
/// flipped; with fewer, the block is left alone.
pub open spec fn ham_correct(blk: Seq<bool>, p: nat) -> Seq<bool> {
    if err_count(blk, p) >= 2 {
        blk.update(err_sum(blk, p) - 1, !blk[err_sum(blk, p) - 1])
    } else {
        blk
    }
}

/// The data slots of the first `n` positions of a block, in order.
pub open spec fn extract(blk: Seq<bool>, n: int) -> Seq<bool>
    decreases n,
{
    if n <= 0 {
        Seq::empty()
    } else if is_pow2(n) {
        extract(blk, n - 1)
    } else {
        extract(blk, n - 1).push(blk[n - 1])
    }
}

/// The decoded data of one received block: correct a located single error,
/// then strip the parity slots.
pub open spec fn ham_decode_block(blk: Seq<bool>, p: nat) -> Seq<bool> {
    extract(ham_correct(blk, p), pow2(p) - 1)
}

/// The whole encoded buffer: every group of `block_data(p)` stream bits
/// becomes one block, and the blocks are packed into bytes with a trailing
/// fragment zero padded into one final byte.
pub open spec fn ham_encode_bytes(data: Seq<u8>, p: nat) -> Seq<u8> {
    let d = block_data(p) as nat;
    padded_bytes(
        concat_all(
            Seq::new(
                stream_len(data.len(), d),
                |g: int| ham_encode_block(stream_group(data, d, g), p),
            ),
        ),
    )
}

/// The whole decoded buffer: every group of `block_length(p)` stream bits
/// is decoded as one block, and the data bits are packed into whole bytes,
/// a trailing fragment dropped.
pub open spec fn ham_decode_bytes(data: Seq<u8>, p: nat) -> Seq<u8> {
    let l = block_length(p) as nat;
    whole_bytes(
        concat_all(
            Seq::new(
                stream_len(data.len(), l),
                |g: int| ham_decode_block(stream_group(data, l, g), p),
            ),
        ),
    )
}

/// Powers of two are recognized by the recursive predicate.
proof fn lemma_is_pow2_pow2(k: nat)
    ensures
        is_pow2(pow2(k) as int),
{
    vstd::arithmetic::power::lemma_pow_positive(2, k);
    assert(vstd::arithmetic::power::pow(2, k) == pow2(k) as int);
    assert(vstd::arithmetic::power2::is_pow2_exists(pow2(k) as int));
    is_pow2_equiv(pow2(k) as int);
}

/// The exponent read back from a power of two.
proof fn lemma_pow2_exp_of(k: nat)
    ensures
        pow2_exp(pow2(k) as int) == k,
{
    let n = pow2(k) as int;
    assert(exists|j: nat| pow2(j) == n) by {
        assert(pow2(k) == n);
    }
    let j = pow2_exp(n);
    assert(pow2(j) == n);
    if j < k {
        lemma_pow2_strictly_increases(j, k);
    } else if k < j {
        lemma_pow2_strictly_increases(k, j);
    }
}

/// A power of two stands for its exponent.
proof fn lemma_is_pow2_exp(n: int)
    requires
        is_pow2(n),
    ensures
        pow2(pow2_exp(n)) == n,
{
    is_pow2_equiv(n);
    let i = choose|i: nat| vstd::arithmetic::power::pow(2, i) == n;
    vstd::arithmetic::power::lemma_pow_positive(2, i);
    assert(pow2(i) == n);
    assert(exists|j: nat| pow2(j) == n);
    assert(pow2(pow2_exp(n)) == n);
}

/// Which parities check a position that is itself a power of two: only the
/// parity with the same exponent.
proof fn lemma_pow2_covered(j: nat, k: nat)
    ensures
        covered(pow2(j) as int, k) == (j == k),
{
    lemma_pow2_pos(j);
    lemma_pow2_pos(k);
    if j == k {
        vstd::arithmetic::div_mod::lemma_div_by_self(pow2(k) as int);
    } else if j > k {
        lemma_pow2_subtracts(k, j);
        assert(pow2(j) as int / pow2(k) as int == pow2((j - k) as nat) as int);
        lemma_pow2_unfold((j - k) as nat);
        assert(pow2((j - k) as nat) == 2 * pow2((j - k - 1) as nat));
        vstd::arithmetic::div_mod::lemma_mod_multiples_basic(
            pow2((j - k - 1) as nat) as int,
            2,
        );
    } else {
        lemma_pow2_strictly_increases(j, k);
        vstd::arithmetic::div_mod::lemma_basic_div(pow2(j) as int, pow2(k) as int);
    }
}

/// A covered position is at least as large as its parity slot.
proof fn lemma_covered_ge(pos: int, k: nat)
    requires
        0 <= pos,
        covered(pos, k),
    ensures
        pos >= pow2(k),
{
    lemma_pow2_pos(k);
    if pos < pow2(k) {
        vstd::arithmetic::div_mod::lemma_basic_div(pos, pow2(k) as int);
    }
}

/// No position at or below the parity slot contributes to its check bit.
proof fn lemma_parity_fold_low(blk: Seq<bool>, k: nat, n: int)
    requires
        n <= pow2(k),
    ensures
        parity_fold(blk, k, n) == false,
    decreases n,
{
    if n > 0 {
        lemma_parity_fold_low(blk, k, n - 1);
        if covered(n, k) {
            lemma_covered_ge(n, k);
        }
    }
}

/// The check bit reads only data slots, so two blocks that agree outside
/// the parity slots have the same recomputed parities.
proof fn lemma_parity_fold_congruence(a: Seq<bool>, b: Seq<bool>, k: nat, n: int)
    requires
        a.len() == b.len(),
        forall|i: int| 0 <= i < a.len() && !is_pow2(i + 1) ==> a[i] == b[i],
    ensures
        parity_fold(a, k, n) == parity_fold(b, k, n),
    decreases n,
{
    if n > 0 {
        lemma_parity_fold_congruence(a, b, k, n - 1);
        if covered(n, k) && n != pow2(k) && 0 <= n - 1 < a.len() {
            if is_pow2(n) {
                lemma_is_pow2_exp(n);
                lemma_pow2_covered(pow2_exp(n), k);
                assert(pow2_exp(n) == k);
                assert(false);
            }
            assert(a[n - 1] == b[n - 1]);
        }
    }
}

/// Flipping one bit toggles exactly the check bits of the parities that
/// cover its position.
proof fn lemma_parity_fold_toggle(blk: Seq<bool>, x: int, k: nat, n: int)
    requires
        0 <= x < blk.len(),
    ensures
        parity_fold(blk.update(x, !blk[x]), k, n) == (parity_fold(blk, k, n) != (x + 1 <= n
            && covered(x + 1, k) && x + 1 != pow2(k))),
    decreases n,
{
    if n > 0 {
        lemma_parity_fold_toggle(blk, x, k, n - 1);
    }
}

/// A block whose parities all agree has no counted errors.
proof fn lemma_no_mismatch_count(blk: Seq<bool>, p: nat)
    requires
        forall|k: nat| k < p ==> !mismatch(blk, k),
    ensures
        err_count(blk, p) == 0,
    decreases p,
{
    if p > 0 {
        lemma_no_mismatch_count(blk, (p - 1) as nat);
    }
}

/// The number of data slots among the first `n` positions.
proof fn lemma_extract_len(blk: Seq<bool>, n: int)
    requires
        n >= 0,
    ensures
        pow2_count(n) <= n,
        extract(blk, n).len() == n - pow2_count(n),
    decreases n,
{
    if n > 0 {
        lemma_extract_len(blk, n - 1);
    }
}

/// Counting data slots is monotone in the position.
proof fn lemma_count_mono(a: int, b: int)
    requires
        0 <= a <= b,
    ensures
        pow2_count(a) <= pow2_count(b),
        a - pow2_count(a) <= b - pow2_count(b),
    decreases b,
{
    if a < b {
        lemma_count_mono(a, b - 1);
        lemma_extract_len(Seq::empty(), b);
        lemma_extract_len(Seq::empty(), b - 1);
    }
}

/// The exact count of parity slots up to any position: `k + 1` powers of
/// two lie in `1..=n` when `pow2(k) <= n < pow2(k + 1)`.
proof fn lemma_pow2_count_val(n: int, k: nat)
    requires
        pow2(k) <= n < pow2(k + 1),
    ensures
        pow2_count(n) == k + 1,
    decreases n,
{
    lemma_pow2_pos(k);
    vstd::arithmetic::power2::lemma2_to64();
    if n == pow2(k) {
        lemma_is_pow2_pow2(k);
        if k == 0 {
            assert(pow2_count(0) == 0);
        } else {
            lemma_pow2_unfold(k);
            assert(pow2(k) == 2 * pow2((k - 1) as nat));
            lemma_pow2_count_val(n - 1, (k - 1) as nat);
        }
    } else {
        lemma_pow2_count_val(n - 1, k);
        if is_pow2(n) {
            lemma_is_pow2_exp(n);
            let j = pow2_exp(n);
            if j <= k {
                if j < k {
                    lemma_pow2_strictly_increases(j, k);
                }
                assert(false);
            } else {
                lemma_pow2_strictly_increases(k + 1, j + 1);
                if j > k + 1 {
                    lemma_pow2_strictly_increases(k + 1, j);
                }
                assert(false);
            }
        }
    }
}

/// A full block holds exactly `p` parity slots.
proof fn lemma_pow2_count_full(p: nat)
    requires
        p >= 1,
    ensures
        pow2_count(pow2(p) - 1) == p,
{
    vstd::arithmetic::power2::lemma2_to64();
    if p == 1 {
        assert(pow2_count(1) == pow2_count(0) + if is_pow2(1) {
            1nat
        } else {
            0nat
        });
        lemma_is_pow2_pow2(0);
    } else {
        lemma_pow2_unfold(p);
        lemma_pow2_pos((p - 1) as nat);
        lemma_pow2_count_val(pow2(p) - 1, (p - 1) as nat);
    }
}

/// The sum of the parity-slot positions, over parities below `p`, whose
/// parity covers position `x`.
spec fn cov_sum(x: int, p: nat) -> int
    decreases p,
{
    if p == 0 {
        0
    } else {
        cov_sum(x, (p - 1) as nat) + if covered(x, (p - 1) as nat) {
            pow2((p - 1) as nat) as int
        } else {
            0
        }
    }
}

/// How many parities below `p` cover position `x`.
spec fn cov_count(x: int, p: nat) -> nat
    decreases p,
{
    if p == 0 {
        0
    } else {
        cov_count(x, (p - 1) as nat) + if covered(x, (p - 1) as nat) {
            1nat
        } else {
            0nat
        }
    }
}

/// Binary expansion: the positions of the covering parities add back up to
/// the covered position.
proof fn lemma_cov_sum(x: int, p: nat)
    requires
        0 <= x,
    ensures
        cov_sum(x, p) == x % pow2(p) as int,
    decreases p,
{
    lemma_pow2_pos(p);
    if p == 0 {
        assert(pow2(0) == 1) by {
            vstd::arithmetic::power2::lemma2_to64();
        }
    } else {
        let q = (p - 1) as nat;
        lemma_cov_sum(x, q);
        lemma_pow2_pos(q);
        let y = pow2(q) as int;
        vstd::arithmetic::div_mod::lemma_breakdown(x, y, 2);
        lemma_pow2_unfold(p);
        assert(y * 2 == pow2(p));
        vstd::arithmetic::div_mod::lemma_mod_division_less_than_divisor(x / y, 2);
        vstd::arithmetic::div_mod::lemma_div_pos_is_pos(x, y);
        vstd::arithmetic::div_mod::lemma_mod_division_less_than_divisor(x, y);
        if covered(x, q) {
            assert(x % (y * 2) == y * 1 + x % y);
        } else {
            assert((x / y) % 2 == 0) by {
                vstd::arithmetic::div_mod::lemma_mod_division_less_than_divisor(x / y, 2);
                assert((x / y) % 2 != 1);
                assert(x / y >= 0);
                assert((x / y) % 2 >= 0);
            }
            assert(x % (y * 2) == y * 0 + x % y);
        }
    }
}

/// A position covered by no parity below `p` contributes nothing.
proof fn lemma_cov_count_zero(x: int, p: nat)
    requires
        cov_count(x, p) == 0,
    ensures
        cov_sum(x, p) == 0,
    decreases p,
{
    if p > 0 {
        lemma_cov_count_zero(x, (p - 1) as nat);
    }
}

/// A position covered by exactly one parity sums to that slot's position.
proof fn lemma_cov_count_one(x: int, p: nat)
    requires
        cov_count(x, p) == 1,
    ensures
        is_pow2(cov_sum(x, p)),
    decreases p,
{
    let q = (p - 1) as nat;
    if covered(x, q) {
        lemma_cov_count_zero(x, q);
        lemma_is_pow2_pow2(q);
    } else {
        lemma_cov_count_one(x, q);
    }
}

/// A position that is neither zero nor a power of two is covered by at
/// least two parities.
proof fn lemma_cov_count_ge2(x: int, p: nat)
    requires
        1 <= x < pow2(p),
        !is_pow2(x),
    ensures
        cov_count(x, p) >= 2,
{
    lemma_cov_sum(x, p);
    vstd::arithmetic::div_mod::lemma_small_mod(x as nat, pow2(p));
    assert(cov_sum(x, p) == x);
    if cov_count(x, p) == 0 {
        lemma_cov_count_zero(x, p);
        assert(false);
    }
    if cov_count(x, p) == 1 {
        lemma_cov_count_one(x, p);
        assert(false);
    }
}

/// Error bookkeeping follows the coverage pattern when every parity's
/// disagreement matches it.
proof fn lemma_err_cov(blk: Seq<bool>, x: int, p: nat)
    requires
        forall|k: nat| k < p ==> mismatch(blk, k) == covered(x, k),
    ensures
        err_sum(blk, p) == cov_sum(x, p),
        err_count(blk, p) == cov_count(x, p),
    decreases p,
{
    if p > 0 {
        lemma_err_cov(blk, x, (p - 1) as nat);
    }
}

/// A lone disagreeing parity is counted exactly once.
proof fn lemma_err_indicator(blk: Seq<bool>, j: nat, p: nat)
    requires
        j < p,
        forall|k: nat| k < p ==> mismatch(blk, k) == (k == j),
    ensures
        err_count(blk, p) == 1,
    decreases p,
{
    let q = (p - 1) as nat;
    if j == q {
        lemma_no_mismatch_count(blk, q);
    } else {
        lemma_err_indicator(blk, j, q);
    }
}

/// Extraction reads only the data slots.
proof fn lemma_extract_congruence(a: Seq<bool>, b: Seq<bool>, n: int)
    requires
        forall|i: int| 0 <= i < n && !is_pow2(i + 1) ==> a[i] == b[i],
    ensures
        extract(a, n) == extract(b, n),
    decreases n,
{
    if n > 0 {
        lemma_extract_congruence(a, b, n - 1);
    }
}

/// Extracting from a block whose data slots hold `data` in order gives a
/// prefix of `data` back.
proof fn lemma_extract_data(blk: Seq<bool>, data: Seq<bool>, n: int)
    requires
        0 <= n,
        n - pow2_count(n) <= data.len(),
        forall|i: int| 0 <= i < n && !is_pow2(i + 1) ==> blk[i] == data[i - pow2_count(i)],
    ensures
        extract(blk, n) == data.take(n - pow2_count(n)),
    decreases n,
{
    lemma_extract_len(blk, n);
    if n == 0 {
        assert(extract(blk, 0) =~= data.take(0));
    } else {
        lemma_extract_len(blk, n - 1);
        lemma_extract_data(blk, data, n - 1);
        let m = n - pow2_count(n);
        if is_pow2(n) {
            assert(pow2_count(n) == pow2_count(n - 1) + 1);
        } else {
            assert(pow2_count(n) == pow2_count(n - 1));
            assert(blk[n - 1] == data[n - 1 - pow2_count(n - 1)]);
            assert(data.take(m - 1).push(data[m - 1]) =~= data.take(m));
        }
    }
}

/// A freshly encoded block passes every parity check.
proof fn lemma_ham_no_mismatch(data: Seq<bool>, p: nat)
    requires
        p >= 1,
        data.len() == block_data(p),
    ensures
        forall|k: nat| k < p ==> !mismatch(ham_encode_block(data, p), k),
{
    let blk = placed(data, p);
    let e = ham_encode_block(data, p);
    lemma_pow2_pos(p);
    assert forall|k: nat| k < p implies !mismatch(e, k) by {
        lemma_pow2_pos(k);
        lemma_pow2_strictly_increases(k, p);
        let i = pow2(k) - 1;
        lemma_is_pow2_pow2(k);
        lemma_pow2_exp_of(k);
        assert(e[i] == parity_fold(blk, k, pow2(p) - 1));
        lemma_parity_fold_congruence(e, blk, k, pow2(p) - 1);
        assert(parity_fold(e, k, e.len() as int) == parity_fold(blk, k, pow2(p) - 1));
    }
}

/// An uncorrupted block decodes to exactly the data it was built from.
pub proof fn lemma_ham_block_round_trip(data: Seq<bool>, p: nat)
    requires
        p >= 1,
        data.len() == block_data(p),
    ensures
        ham_decode_block(ham_encode_block(data, p), p) == data,
{
    let e = ham_encode_block(data, p);
    let l = pow2(p) - 1;
    lemma_pow2_pos(p);
    lemma_ham_no_mismatch(data, p);
    lemma_no_mismatch_count(e, p);
    assert(ham_correct(e, p) == e);
    lemma_pow2_count_full(p);
    lemma_extract_data(e, data, l);
    assert(data.take(l - pow2_count(l)) =~= data);
}

/// A block with a single flipped bit, in any position, still decodes to
/// the data it was built from.
pub proof fn lemma_ham_block_correct(data: Seq<bool>, p: nat, x: int)
    requires
        p >= 1,
        data.len() == block_data(p),
        0 <= x < block_length(p),
    ensures
        ham_decode_block(
            ham_encode_block(data, p).update(x, !ham_encode_block(data, p)[x]),
            p,
        ) == data,
{
    let e = ham_encode_block(data, p);
    let f = e.update(x, !e[x]);
    let l = pow2(p) - 1;
    lemma_pow2_pos(p);
    lemma_ham_no_mismatch(data, p);
    lemma_pow2_count_full(p);
    assert forall|k: nat| k < p implies mismatch(f, k) == ((x + 1 == pow2(k)) || (covered(
        x + 1,
        k,
    ) && x + 1 != pow2(k))) by {
        lemma_pow2_pos(k);
        lemma_pow2_strictly_increases(k, p);
        lemma_parity_fold_toggle(e, x, k, l);
        assert(f[pow2(k) - 1] == (e[pow2(k) - 1] != (x == pow2(k) - 1)));
        assert(!mismatch(e, k));
        assert(f.len() == l);
    }
    if is_pow2(x + 1) {
        lemma_is_pow2_exp(x + 1);
        let j = pow2_exp(x + 1);
        assert(pow2(j) == x + 1);
        assert(j < p) by {
            if j >= p {
                if j > p {
                    lemma_pow2_strictly_increases(p, j);
                }
                assert(false);
            }
        }
        assert forall|k: nat| k < p implies mismatch(f, k) == (k == j) by {
            lemma_pow2_covered(j, k);
            if k != j && x + 1 == pow2(k) {
                lemma_pow2_exp_of(k);
                lemma_pow2_exp_of(j);
                assert(false);
            }
        }
        lemma_err_indicator(f, j, p);
        assert(ham_correct(f, p) == f);
        assert forall|i: int| 0 <= i < l && !is_pow2(i + 1) implies f[i] == e[i] by {}
        lemma_extract_congruence(f, e, l);
        lemma_extract_data(e, data, l);
        assert(data.take(l - pow2_count(l)) =~= data);
    } else {
        assert forall|k: nat| k < p implies mismatch(f, k) == covered(x + 1, k) by {
            if x + 1 == pow2(k) {
                lemma_is_pow2_pow2(k);
                assert(false);
            }
        }
        lemma_err_cov(f, x + 1, p);
        lemma_cov_sum(x + 1, p);
        vstd::arithmetic::div_mod::lemma_small_mod((x + 1) as nat, pow2(p));
        lemma_cov_count_ge2(x + 1, p);
        assert(err_sum(f, p) == x + 1);
        assert(err_count(f, p) >= 2);
        let g = ham_correct(f, p);
        assert(g == f.update(x, !f[x]));
        assert(g =~= e);
        lemma_no_mismatch_count(e, p);
        assert(ham_correct(e, p) == e);
        lemma_extract_congruence(g, e, l);
        lemma_extract_data(e, data, l);
        assert(data.take(l - pow2_count(l)) =~= data);
        assert(extract(g, l) == data);
    }
}

/// Two to a power outgrows its exponent.
proof fn lemma_pow2_gt(p: nat)
    ensures
        pow2(p) > p,
    decreases p,
{
    if p == 0 {
        vstd::arithmetic::power2::lemma2_to64();
    } else {
        lemma_pow2_unfold(p);
        lemma_pow2_gt((p - 1) as nat);
    }
}

/// With at least two parity bits a block holds at least one data bit.
proof fn lemma_pow2_ge_p2(p: nat)
    requires
        p >= 2,
    ensures
        pow2(p) >= p + 2,
    decreases p,
{
    if p == 2 {
        vstd::arithmetic::power2::lemma2_to64();
    } else {
        lemma_pow2_unfold(p);
        lemma_pow2_ge_p2((p - 1) as nat);
    }
}

/// Clearing the lowest set bit leaves zero exactly for powers of two.
proof fn lemma_pow2_trick(x: usize)
    requires
        x >= 1,
    ensures
        (x & ((x - 1) as usize) == 0) == is_pow2(x as int),
    decreases x,
{
    reveal(vstd::arithmetic::power2::is_pow2);
    if x == 1 {
        assert(1usize & 0usize == 0) by (bit_vector);
    } else if x % 2 == 1 {
        assert(x & ((x - 1) as usize) != 0) by (bit_vector)
            requires
                x % 2 == 1 && x > 1,
        ;
    } else {
        let h = x / 2;
        assert((h & ((h - 1) as usize) == 0) == (x & ((x - 1) as usize) == 0)) by (bit_vector)
            requires
                x % 2 == 0 && x >= 2 && h == x / 2,
        ;
        lemma_pow2_trick(h);
    }
}

/// Testing a value against a one-bit mask reads that binary digit.
proof fn lemma_u64_bit_test(x: u64, k: nat)
    requires
        k < 64,
    ensures
        ((x & (1u64 << (k as u64))) != 0) == covered(x as int, k),
{
    let kk = k as u64;
    assert(((x & (1u64 << kk)) != 0) == ((x >> kk) & 1u64 == 1u64)) by (bit_vector)
        requires
            kk < 64,
    ;
    vstd::bits::lemma_u64_shr_is_div(x, kk);
    assert((x >> kk) as int == x as int / pow2(k) as int);
    let y = x >> kk;
    assert((y & 1u64 == 1u64) == (y % 2 == 1)) by (bit_vector);
    assert((y as int % 2 == 1) == covered(x as int, k));
}

/// A one-bit mask is the power of two it stands for.
proof fn lemma_u64_shift_pow2(k: nat)
    requires
        k < 64,
    ensures
        (1u64 << (k as u64)) == pow2(k),
{
    vstd::bits::lemma_u64_pow2_no_overflow(k);
    vstd::bits::lemma_u64_shl_is_mul(1u64, k as u64);
}

/// The 0-indexed positions of the disagreeing parity slots, in increasing
/// parity order.
spec fn err_slots(blk: Seq<bool>, p: nat) -> Seq<int>
    decreases p,
{
    if p == 0 {
        Seq::empty()
    } else {
        err_slots(blk, (p - 1) as nat) + if mismatch(blk, (p - 1) as nat) {
            seq![pow2((p - 1) as nat) - 1]
        } else {
            Seq::<int>::empty()
        }
    }
}

/// The decoder's running total over the first `m` recorded slots: each
/// contributes its 1-indexed position.
spec fn slots_sum(s: Seq<int>, m: int) -> int
    decreases m,
{
    if m <= 0 {
        0
    } else {
        slots_sum(s, m - 1) + s[m - 1] + 1
    }
}

/// The running total reads only the prefix it covers.
proof fn lemma_slots_sum_congruence(s: Seq<int>, t: Seq<int>, m: int)
    requires
        forall|i: int| 0 <= i < m ==> s[i] == t[i],
    ensures
        slots_sum(s, m) == slots_sum(t, m),
    decreases m,
{
    if m > 0 {
        lemma_slots_sum_congruence(s, t, m - 1);
    }
}

/// What the recorded error slots carry: one entry per disagreeing parity,
/// each a parity-slot position, their 1-indexed positions summing to the
/// error sum, with every partial sum bounded by it.
proof fn lemma_err_slots_props(blk: Seq<bool>, p: nat)
    ensures
        err_slots(blk, p).len() == err_count(blk, p),
        slots_sum(err_slots(blk, p), err_slots(blk, p).len() as int) == err_sum(blk, p),
        forall|m: int| 0 <= m < err_slots(blk, p).len() ==> 0 <= #[trigger] err_slots(blk, p)[m]
            < pow2(p) - 1,
        forall|m: int|
            0 <= m <= err_slots(blk, p).len() ==> m <= #[trigger] slots_sum(err_slots(blk, p), m)
                <= err_sum(blk, p),
        err_sum(blk, p) <= pow2(p) - 1,
    decreases p,
{
    lemma_pow2_pos(p);
    if p == 0 {
        assert(pow2(0) == 1) by {
            vstd::arithmetic::power2::lemma2_to64();
        }
    } else {
        let q = (p - 1) as nat;
        lemma_err_slots_props(blk, q);
        lemma_pow2_unfold(p);
        lemma_pow2_pos(q);
        let prev = err_slots(blk, q);
        let cur = err_slots(blk, p);
        assert forall|m: int| 0 <= m <= prev.len() implies slots_sum(cur, m) == slots_sum(
            prev,
            m,
        ) by {
            lemma_slots_sum_congruence(cur, prev, m);
        }
        if mismatch(blk, q) {
            assert(cur == prev + seq![pow2(q) - 1]);
            assert(cur.len() == prev.len() + 1);
            assert(cur[cur.len() - 1] == pow2(q) - 1);
        } else {
            assert(cur == prev + Seq::<int>::empty());
            assert(cur =~= prev);
        }
    }
}

/// An all-zero block has every check bit clear.
proof fn lemma_parity_fold_false(blk: Seq<bool>, k: nat, n: int)
    requires
        forall|i: int| 0 <= i < blk.len() ==> !blk[i],
    ensures
        !parity_fold(blk, k, n),
    decreases n,
{
    if n > 0 {
        lemma_parity_fold_false(blk, k, n - 1);
    }
}

/// An all-zero block decodes to all-zero data: its parities agree, nothing
/// is corrected, and the stripped data slots are zero.
proof fn lemma_ham_zero_block(p: nat, blk: Seq<bool>, zdata: Seq<bool>)
    requires
        p >= 1,
        blk.len() == pow2(p) - 1,
        forall|i: int| 0 <= i < blk.len() ==> !blk[i],
        zdata.len() == pow2(p) - 1 - p,
        forall|i: int| 0 <= i < zdata.len() ==> !zdata[i],
    ensures
        ham_decode_block(blk, p) == zdata,
{
    let l = pow2(p) - 1;
    lemma_pow2_pos(p);
    lemma_pow2_gt(p);
    assert forall|k: nat| k < p implies !mismatch(blk, k) by {
        lemma_pow2_pos(k);
        lemma_pow2_strictly_increases(k, p);
        lemma_parity_fold_false(blk, k, blk.len() as int);
        assert(!blk[pow2(k) - 1]);
    }
    lemma_no_mismatch_count(blk, p);
    assert(ham_correct(blk, p) == blk);
    lemma_pow2_count_full(p);
    assert forall|i: int| 0 <= i < l && !is_pow2(i + 1) implies blk[i] == zdata[i - pow2_count(
        i,
    )] by {
        lemma_extract_len(blk, i);
        lemma_extract_len(blk, i + 1);
        lemma_count_mono(i + 1, l);
        assert(pow2_count(i + 1) == pow2_count(i));
        assert(0 <= i - pow2_count(i) < l - p);
        assert(!zdata[i - pow2_count(i)]);
    }
    lemma_extract_data(blk, zdata, l);
    assert(zdata.take(l - pow2_count(l)) =~= zdata);
}

/// The byte-level round trip: encoding a buffer whose bit count fills its
/// blocks exactly and decoding the result recovers the buffer.  The block
/// shape must also keep the decoder's trailing padding below one byte:
/// either a data width under eight bits, whose phantom zero block is
/// trimmed away, or an encoded bit total already on a byte boundary, which
/// has no phantom block at all.
pub proof fn lemma_ham_round_trip(data: Seq<u8>, p: nat)
    requires
        p >= 2,
        (8 * data.len() as int) % block_data(p) == 0,
        block_data(p) < 8 || (stream_len(data.len(), block_data(p) as nat) * block_length(p))
            % 8 == 0,
    ensures
        ham_decode_bytes(ham_encode_bytes(data, p), p) == data,
{
    let len = data.len();
    lemma_pow2_ge_p2(p);
    let d = block_data(p) as nat;
    let l = block_length(p) as nat;
    let di = d as int;
    let li = l as int;
    assert(1 <= di < li);
    let n_enc = stream_len(len, d);
    crate::bitspec::lemma_stream_len_exact(len, d);
    assert(n_enc * di == 8 * len);
    let eblocks = Seq::new(n_enc, |g: int| ham_encode_block(stream_group(data, d, g), p));
    assert(forall|g: int| 0 <= g < n_enc ==> (#[trigger] eblocks[g]).len() == l);
    crate::bitspec::lemma_concat_uniform(eblocks, l);
    let ebits = concat_all(eblocks);
    let total = n_enc as int * li;
    assert(ebits.len() == total);
    let e = crate::bitspec::padded_bytes(ebits);
    assert(e == ham_encode_bytes(data, p));
    vstd::arithmetic::div_mod::lemma_fundamental_div_mod(total + 7, 8);
    vstd::arithmetic::div_mod::lemma_mod_division_less_than_divisor(total + 7, 8);
    assert(e.len() == (total + 7) / 8);
    let rpad = 8 * e.len() as int - total;
    assert(0 <= rpad < 8) by {
        vstd::arithmetic::div_mod::lemma_fundamental_div_mod(total, 8);
        vstd::arithmetic::div_mod::lemma_mod_division_less_than_divisor(total, 8);
        crate::bitspec::lemma_div8(total / 8, total % 8 + 7);
    }
    assert(rpad == 0 <==> total % 8 == 0) by {
        vstd::arithmetic::div_mod::lemma_fundamental_div_mod(total, 8);
        vstd::arithmetic::div_mod::lemma_mod_division_less_than_divisor(total, 8);
        crate::bitspec::lemma_div8(total / 8, total % 8 + 7);
    }
    let n_dec = stream_len(e.len(), l);
    if rpad == 0 {
        lemma_stream_len_unique_wrap(e.len() as int, l, n_enc as int, total);
    } else {
        assert(rpad <= li) by {
            if p == 2 {
                vstd::arithmetic::power2::lemma2_to64();
                assert(di == 1 && li == 3);
                assert(n_enc as int * 3 == 8 * len * 3) by (nonlinear_arith)
                    requires
                        n_enc as int * 1 == 8 * len,
                ;
                assert(total == 8 * (3 * len as int)) by (nonlinear_arith)
                    requires
                        total == 8 * len as int * 3,
                ;
                vstd::arithmetic::div_mod::lemma_mod_multiples_basic(3 * len as int, 8);
                assert(false);
            } else {
                assert(pow2(p) >= pow2(3)) by {
                    if p > 3 {
                        lemma_pow2_strictly_increases(3, p);
                    }
                }
                vstd::arithmetic::power2::lemma2_to64();
            }
        }
        assert((n_enc as int + 1) * li == total + li) by (nonlinear_arith)
            requires
                total == n_enc as int * li,
        ;
        lemma_stream_len_unique_wrap(e.len() as int, l, n_enc as int + 1, total + li);
    }
    assert forall|g: int| 0 <= g < n_enc implies stream_group(e, l, g) =~= eblocks[g] by {
        assert forall|j: int| 0 <= j < li implies stream_group(e, l, g)[j] == eblocks[g][j] by {
            let pos = g * li + j;
            crate::bitspec::lemma_padded_bits(ebits, pos);
            assert(0 <= pos < n_enc as int * li) by (nonlinear_arith)
                requires
                    li >= 1,
                    0 <= g < n_enc,
                    0 <= j < li,
                    pos == g * li + j,
            ;
            assert(ebits[pos] == eblocks[pos / li][pos % li]);
            assert(pos / li == g && pos % li == j) by (nonlinear_arith)
                requires
                    li >= 1,
                    0 <= j < li,
                    pos == g * li + j,
            ;
        }
    }
    let dblocks = Seq::new(n_dec, |g: int| ham_decode_block(stream_group(e, l, g), p));
    let zdata = Seq::new(d, |j: int| false);
    assert forall|g: int| 0 <= g < n_dec implies #[trigger] dblocks[g] == (if g < n_enc {
        stream_group(data, d, g)
    } else {
        zdata
    }) by {
        if g < n_enc {
            assert(stream_group(e, l, g) == eblocks[g]);
            assert(eblocks[g] == ham_encode_block(stream_group(data, d, g), p));
            lemma_ham_block_round_trip(stream_group(data, d, g), p);
            assert(dblocks[g] == ham_decode_block(eblocks[g], p));
        } else {
            let blk = stream_group(e, l, g);
            assert forall|j: int| 0 <= j < li implies !blk[j] by {
                let pos = g * li + j;
                crate::bitspec::lemma_padded_bits(ebits, pos);
                assert(pos >= total) by (nonlinear_arith)
                    requires
                        li >= 1,
                        g >= n_enc,
                        0 <= j,
                        pos == g * li + j,
                        total == n_enc as int * li,
                ;
                assert(!crate::bitspec::bit_at(ebits, pos));
            }
            lemma_ham_zero_block(p, blk, zdata);
        }
    }
    assert(forall|g: int| 0 <= g < n_dec ==> (#[trigger] dblocks[g]).len() == d);
    crate::bitspec::lemma_concat_uniform(dblocks, d);
    let dbits = concat_all(dblocks);
    assert(dbits.len() == n_dec as int * di);
    assert(8 * len <= dbits.len() < 8 * len + 8) by {
        if rpad == 0 {
            assert(n_dec as int * di == 8 * len);
        } else {
            assert((n_enc as int + 1) * di == 8 * len + di) by (nonlinear_arith)
                requires
                    n_enc as int * di == 8 * len as int,
            ;
            assert(di < 8);
        }
    }
    assert forall|j: int| 0 <= j < 8 * len implies dbits[j] == crate::bitspec::stream_bit(
        data,
        j,
    ) by {
        vstd::arithmetic::div_mod::lemma_fundamental_div_mod(j, di);
        vstd::arithmetic::div_mod::lemma_mod_division_less_than_divisor(j, di);
        vstd::arithmetic::div_mod::lemma_div_pos_is_pos(j, di);
        let g = j / di;
        let r = j % di;
        assert(g < n_enc) by (nonlinear_arith)
            requires
                di >= 1,
                0 <= j < n_enc as int * di,
                j == di * g + r,
                0 <= r < di,
                g >= 0,
        ;
        assert(dbits[j] == dblocks[g][r]);
        assert(dblocks[g][r] == stream_group(data, d, g)[r]);
        assert(g * di + r == j) by (nonlinear_arith)
            requires
                j == di * g + r,
        ;
    }
    crate::bitspec::lemma_whole_bytes_of_stream(data, dbits);
}

/// The decoder's group count, by the least-cover characterization.
proof fn lemma_stream_len_unique_wrap(elen: int, l: nat, g: int, cover: int)
    requires
        elen >= 0,
        l >= 1,
        g >= 0,
        cover == g * l,
        cover >= 8 * elen,
        cover - l < 8 * elen,
    ensures
        stream_len(elen as nat, l) == g,
{
    if g >= 1 {
        assert((g - 1) * (l as int) == cover - l) by (nonlinear_arith)
            requires
                cover == g * (l as int),
        ;
    }
    crate::bitspec::lemma_stream_len_unique(elen as nat, l, g as nat);
}

/// How many data bits one block carries for this parity count.
pub fn parity_to_data(parity: usize) -> (r: usize)
    requires
        parity < 64,
        block_length(parity as nat) <= usize::MAX,
    ensures
        r == block_data(parity as nat),
{
    proof {
        lemma_u64_shift_pow2(parity as nat);
        lemma_pow2_gt(parity as nat);
    }
    ((1u64 << parity) - 1 - (parity as u64)) as usize
}

/// The total block length for this parity count.
pub fn parity_to_length(parity: usize) -> (r: usize)
    requires
        parity < 64,
        block_length(parity as nat) <= usize::MAX,
    ensures
        r == block_length(parity as nat),
{
    proof {
        lemma_u64_shift_pow2(parity as nat);
        lemma_pow2_pos(parity as nat);
    }
    ((1u64 << parity) - 1) as usize
}

/// Whether a 1-indexed block position is a parity slot.  Clearing the
/// lowest set bit leaves zero exactly for the powers of two; zero itself is
/// ruled out by the precondition.
pub fn is_power_of_2(number: usize) -> (r: bool)
    requires
        number >= 1,
    ensures
        r == is_pow2(number as int),
{
    proof {
        lemma_pow2_trick(number);
    }
    number & (number - 1) == 0
}

/// Fills every parity slot of a placed block with the XOR over the
/// positions its parity covers.  The data slots are left untouched, and
/// each check bit is computed as if from the untouched block, because no
/// parity slot covers another.
fn set_parity(encoded: Vec<bool>, parity: usize) -> (r: Vec<bool>)
    requires
        parity < 64,
        encoded@.len() == block_length(parity as nat),
        block_length(parity as nat) <= usize::MAX,
    ensures
        r@.len() == encoded@.len(),
        forall|i: int| 0 <= i < encoded@.len() && !is_pow2(i + 1) ==> r@[i] == encoded@[i],
        forall|k: nat|
            k < parity ==> r@[pow2(k) - 1] == parity_fold(encoded@, k, encoded@.len() as int),
{
    let ghost orig = encoded@;
    let mut encoded = encoded;
    let len = encoded.len();
    let mut k: usize = 0;
    while k < parity
        invariant
            k <= parity,
            parity < 64,
            len == encoded@.len(),
            orig.len() == len,
            len == block_length(parity as nat),
            len <= usize::MAX,
            forall|i: int| 0 <= i < len && !is_pow2(i + 1) ==> encoded@[i] == orig[i],
            forall|j: nat| j < k ==> encoded@[pow2(j) - 1] == parity_fold(orig, j, len as int),
        decreases parity - k,
    {
        proof {
            lemma_u64_shift_pow2(k as nat);
            lemma_pow2_pos(k as nat);
            lemma_pow2_strictly_increases(k as nat, parity as nat);
        }
        let index = ((1u64 << k) - 1) as usize;
        let mask = (1u64 << k);
        let mut par = false;
        let mut e = index + 1;
        proof {
            lemma_parity_fold_low(encoded@, k as nat, e as int);
        }
        while e < len
            invariant
                index + 1 <= e <= len,
                parity < 64,
                k < parity,
                len == encoded@.len(),
                mask == pow2(k as nat),
                index == pow2(k as nat) - 1,
                par == parity_fold(encoded@, k as nat, e as int),
            decreases len - e,
        {
            let pos = (e as u64) + 1;
            let ghost par0 = par;
            proof {
                lemma_u64_bit_test(pos, k as nat);
                lemma_u64_shift_pow2(k as nat);
                lemma_pow2_pos(k as nat);
            }
            if pos & mask != 0 {
                par = par != encoded[e];
            }
            proof {
                assert(pos as int == e + 1);
                assert((pos & mask != 0) == covered(e + 1, k as nat));
                assert(e + 1 != pow2(k as nat));
                assert(parity_fold(encoded@, k as nat, e + 1) == (parity_fold(
                    encoded@,
                    k as nat,
                    e as int,
                ) != (covered(e + 1, k as nat) && e + 1 != pow2(k as nat) && 0 <= e
                    < encoded@.len() && encoded@[e as int])));
                assert(par == parity_fold(encoded@, k as nat, e + 1));
            }
            e = e + 1;
        }
        let ghost before = encoded@;
        encoded[index] = par;
        k = k + 1;
        proof {
            lemma_is_pow2_pow2((k - 1) as nat);
            lemma_parity_fold_congruence(encoded@, orig, (k - 1) as nat, len as int);
            lemma_parity_fold_congruence(before, orig, (k - 1) as nat, len as int);
            assert forall|j: nat| j < k implies encoded@[pow2(j) - 1] == parity_fold(
                orig,
                j,
                len as int,
            ) by {
                if j < k - 1 {
                    if pow2(j) == pow2((k - 1) as nat) {
                        lemma_pow2_exp_of(j);
                        lemma_pow2_exp_of((k - 1) as nat);
                    }
                    lemma_pow2_pos(j);
                    lemma_pow2_strictly_increases(j, parity as nat);
                    assert(before[pow2(j) - 1] == parity_fold(orig, j, len as int));
                }
            }
        }
    }
    encoded
}

/// Builds one encoded block: the data bits fill the non-power-of-two
/// positions in order, and the parity slots are then computed over them.
fn encode_vec(buffer: Vec<bool>, parity: usize) -> (r: Vec<bool>)
    requires
        2 <= parity < 64,
        block_length(parity as nat) <= usize::MAX,
        buffer@.len() == block_data(parity as nat),
    ensures
        r@ == ham_encode_block(buffer@, parity as nat),
{
    let ghost pn = parity as nat;
    let length = parity_to_length(parity);
    let mut encoded: Vec<bool> = Vec::with_capacity(length);
    let mut buffer_index: usize = 0;
    let mut index: usize = 0;
    proof {
        lemma_pow2_count_full(pn);
    }
    while index < length
        invariant
            index <= length,
            2 <= parity < 64,
            length == block_length(pn),
            length <= usize::MAX,
            pn == parity as nat,
            buffer@.len() == block_data(pn),
            pow2_count(length as int) == parity,
            buffer_index == index - pow2_count(index as int),
            encoded@.len() == index,
            forall|i: int| 0 <= i < index ==> encoded@[i] == placed(buffer@, pn)[i],
        decreases length - index,
    {
        proof {
            lemma_extract_len(Seq::empty(), index as int);
            lemma_extract_len(Seq::empty(), index + 1);
            lemma_count_mono(index + 1, length as int);
        }
        if is_power_of_2(index + 1) {
            encoded.push(false);
        } else {
            encoded.push(buffer[buffer_index]);
            buffer_index = buffer_index + 1;
        }
        index = index + 1;
    }
    proof {
        assert(encoded@ =~= placed(buffer@, pn));
    }
    let r = set_parity(encoded, parity);
    proof {
        let e = ham_encode_block(buffer@, pn);
        assert forall|i: int| 0 <= i < length implies r@[i] == e[i] by {
            if is_pow2(i + 1) {
                lemma_is_pow2_exp(i + 1);
                let j = pow2_exp(i + 1);
                assert(pow2(j) == i + 1);
                assert(j < pn) by {
                    if j >= pn {
                        if j > pn {
                            lemma_pow2_strictly_increases(pn, j);
                        }
                        assert(false);
                    }
                }
                assert(r@[pow2(j) - 1] == parity_fold(placed(buffer@, pn), j, length as int));
            }
        }
        assert(r@ =~= e);
    }
    r
}

/// Recomputes every check bit and records the 0-indexed position of every
/// parity slot that disagrees with its stored bit.
fn check_parity(encoded: &Vec<bool>, parity: usize) -> (r: Vec<usize>)
    requires
        parity < 64,
        encoded@.len() == block_length(parity as nat),
        block_length(parity as nat) <= usize::MAX,
    ensures
        r@.len() == err_slots(encoded@, parity as nat).len(),
        forall|m: int| 0 <= m < r@.len() ==> r@[m] == err_slots(encoded@, parity as nat)[m],
{
    let len = encoded.len();
    let mut errors: Vec<usize> = Vec::new();
    let mut k: usize = 0;
    while k < parity
        invariant
            k <= parity,
            parity < 64,
            len == encoded@.len(),
            len == block_length(parity as nat),
            len <= usize::MAX,
            errors@.len() == err_slots(encoded@, k as nat).len(),
            forall|m: int|
                0 <= m < errors@.len() ==> errors@[m] == err_slots(encoded@, k as nat)[m],
        decreases parity - k,
    {
        proof {
            lemma_u64_shift_pow2(k as nat);
            lemma_pow2_pos(k as nat);
            lemma_pow2_strictly_increases(k as nat, parity as nat);
        }
        let index = ((1u64 << k) - 1) as usize;
        let mask = (1u64 << k);
        let mut par = false;
        let mut e = index + 1;
        proof {
            lemma_parity_fold_low(encoded@, k as nat, e as int);
        }
        while e < len
            invariant
                index + 1 <= e <= len,
                parity < 64,
                k < parity,
                len == encoded@.len(),
                mask == pow2(k as nat),
                index == pow2(k as nat) - 1,
                par == parity_fold(encoded@, k as nat, e as int),
            decreases len - e,
        {
            let pos = (e as u64) + 1;
            let ghost par0 = par;
            proof {
                lemma_u64_bit_test(pos, k as nat);
                lemma_u64_shift_pow2(k as nat);
                lemma_pow2_pos(k as nat);
            }
            if pos & mask != 0 {
                par = par != encoded[e];
            }
            proof {
                assert(pos as int == e + 1);
                assert((pos & mask != 0) == covered(e + 1, k as nat));
                assert(e + 1 != pow2(k as nat));
                assert(parity_fold(encoded@, k as nat, e + 1) == (parity_fold(
                    encoded@,
                    k as nat,
                    e as int,
                ) != (covered(e + 1, k as nat) && e + 1 != pow2(k as nat) && 0 <= e
                    < encoded@.len() && encoded@[e as int])));
                assert(par == parity_fold(encoded@, k as nat, e + 1));
            }
            e = e + 1;
        }
        if encoded[index] != par {
            errors.push(index);
        }
        proof {
            assert(mismatch(encoded@, k as nat) == (encoded@[index as int] != par));
            assert(err_slots(encoded@, (k + 1) as nat) == err_slots(encoded@, k as nat)
                + if mismatch(encoded@, k as nat) {
                seq![pow2(k as nat) - 1]
            } else {
                Seq::<int>::empty()
            });
        }
        k = k + 1;
    }
    errors
}

/// Decodes one received block: find the disagreeing parities, correct a
/// located single-bit error, and extract the data slots in order.  With
/// fewer than two disagreeing parities no correction is applied, so a lone
/// corrupted check bit is left as it is.
fn decode_vec(encoded: Vec<bool>, parity: usize) -> (r: Vec<bool>)
    requires
        2 <= parity < 64,
        block_length(parity as nat) <= usize::MAX,
        encoded@.len() == block_length(parity as nat),
    ensures
        r@ == ham_decode_block(encoded@, parity as nat),
{
    let ghost pn = parity as nat;
    let ghost orig = encoded@;
    let length = parity_to_length(parity);
    let mut encoded = encoded;
    let errors = check_parity(&encoded, parity);
    proof {
        lemma_err_slots_props(orig, pn);
    }
    if errors.len() > 1 {
        let ghost slots = err_slots(orig, pn);
        let mut total: usize = 0;
        let mut m: usize = 0;
        while m < errors.len()
            invariant
                m <= errors@.len(),
                errors@.len() == slots.len(),
                slots == err_slots(orig, pn),
                forall|i: int| 0 <= i < errors@.len() ==> errors@[i] == slots[i],
                forall|i: int| 0 <= i <= slots.len() ==> i <= #[trigger] slots_sum(slots, i)
                    <= err_sum(orig, pn),
                err_sum(orig, pn) <= block_length(pn) <= usize::MAX,
                total == slots_sum(slots, m as int),
            decreases errors@.len() - m,
        {
            proof {
                assert(slots_sum(slots, m + 1) == slots_sum(slots, m as int) + slots[m as int]
                    + 1);
                assert(m + 1 <= slots_sum(slots, m + 1) <= err_sum(orig, pn));
                assert(slots[m as int] >= 0);
            }
            total = total + errors[m] + 1;
            m = m + 1;
        }
        let error_index = total - 1;
        let cur = encoded[error_index];
        encoded[error_index] = !cur;
        proof {
            assert(total == err_sum(orig, pn));
            assert(err_count(orig, pn) >= 2);
            assert(encoded@ =~= ham_correct(orig, pn));
        }
    } else {
        proof {
            assert(err_count(orig, pn) < 2);
            assert(encoded@ == ham_correct(orig, pn));
        }
    }
    let ghost corrected = encoded@;
    let mut decoded: Vec<bool> = Vec::new();
    let mut index: usize = 0;
    while index < length
        invariant
            index <= length,
            length == block_length(pn),
            length <= usize::MAX,
            encoded@ == corrected,
            corrected.len() == length,
            decoded@ == extract(corrected, index as int),
        decreases length - index,
    {
        if is_power_of_2(index + 1) {
        } else {
            decoded.push(encoded[index]);
        }
        index = index + 1;
    }
    decoded
}

/// Adds Hamming parity bits to a buffer: every `block_data(parity)` bits
/// of the stream become one encoded block of `block_length(parity)` bits,
/// and the blocks are packed into bytes with the trailing fragment zero
/// padded into one final byte.
pub fn encode(buffer: &[u8], parity: usize) -> (out: Vec<u8>)
    requires
        2 <= parity < 64,
        block_length(parity as nat) <= usize::MAX,
        8 * buffer@.len() + block_data(parity as nat) + 8 <= usize::MAX,
    ensures
        out@ == ham_encode_bytes(buffer@, parity as nat),
{
    let ghost pn = parity as nat;
    proof {
        lemma_pow2_ge_p2(pn);
    }
    let stride = parity_to_data(parity);
    let f = |x: Vec<bool>| -> (r: Vec<bool>)
        requires
            x@.len() == block_data(parity as nat),
        ensures
            r@ == ham_encode_block(x@, parity as nat),
        { encode_vec(x, parity) };
    let (pb, g_outs) = crate::bitview::fold_pipeline(buffer, stride, &f);
    let out = crate::bitview::to_padded_bytes(pb);
    proof {
        let d = block_data(pn) as nat;
        let outs = g_outs@;
        let target = Seq::new(
            stream_len(buffer@.len(), d),
            |g: int| ham_encode_block(stream_group(buffer@, d, g), pn),
        );
        assert forall|i: int| 0 <= i < outs.len() implies outs[i] == target[i] by {
            let (gv, rv) = choose|gv: Vec<bool>, rv: Vec<bool>|
                gv@ == stream_group(buffer@, d, i) && rv@ == outs[i] && call_ensures(
                    f,
                    (gv,),
                    rv,
                );
            assert(rv@ == ham_encode_block(gv@, pn));
        }
        assert(outs =~= target);
    }
    out
}

/// Reverses `encode`: every `block_length(parity)` bits of the stream are
/// decoded as one block, with a located single-bit error corrected, and the
/// recovered data bits are packed into whole bytes.  Decoding never fails;
/// corruption beyond one flipped bit per block silently yields a best-guess
/// result.
pub fn decode(buffer: &[u8], parity: usize) -> (out: Vec<u8>)
    requires
        2 <= parity < 64,
        block_length(parity as nat) <= usize::MAX,
        8 * buffer@.len() + block_length(parity as nat) + 8 <= usize::MAX,
    ensures
        out@ == ham_decode_bytes(buffer@, parity as nat),
{
    let ghost pn = parity as nat;
    proof {
        lemma_pow2_ge_p2(pn);
    }
    let stride = parity_to_length(parity);
    let f = |x: Vec<bool>| -> (r: Vec<bool>)
        requires
            x@.len() == block_length(parity as nat),
        ensures
            r@ == ham_decode_block(x@, parity as nat),
        { decode_vec(x, parity) };
    let (pb, g_outs) = crate::bitview::fold_pipeline(buffer, stride, &f);
    let out = crate::bitview::to_bytes(pb);
    proof {
        let l = block_length(pn) as nat;
        let outs = g_outs@;
        let target = Seq::new(
            stream_len(buffer@.len(), l),
            |g: int| ham_decode_block(stream_group(buffer@, l, g), pn),
        );
        assert forall|i: int| 0 <= i < outs.len() implies outs[i] == target[i] by {
            let (gv, rv) = choose|gv: Vec<bool>, rv: Vec<bool>|
                gv@ == stream_group(buffer@, l, i) && rv@ == outs[i] && call_ensures(
                    f,
                    (gv,),
                    rv,
                );
            assert(rv@ == ham_decode_block(gv@, pn));
        }
        assert(outs =~= target);
    }
    out
}

} // verus!
