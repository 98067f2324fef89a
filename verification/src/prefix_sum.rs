//! The hierarchical scan engine: an inclusive prefix sum, modulo `2^32`, over
//! a device buffer of `u32` elements of arbitrary length.
//!
//! The algorithm is the work-efficient two-phase scan described by the
//! kernels' contracts: a block-scan kernel turns every block of
//! [`SCAN_BLOCK_SIZE`](crate::plan::SCAN_BLOCK_SIZE) elements into its
//! block-local inclusive scan and emits the block totals into a next-level
//! buffer; the engine scans that buffer recursively; a propagate kernel then
//! adds, to every element of block `b > 0`, the inclusive total of the first
//! `b` blocks.  Each kernel invocation is issued as one or more physical
//! dispatches of at most
//! [`MAX_DISPATCH_WORKGROUPS`](crate::plan::MAX_DISPATCH_WORKGROUPS)
//! workgroups; the dispatch functions' contracts state the combined effect
//! over the whole range, so the chunking is invisible to callers.

use vstd::arithmetic::div_mod::{
    lemma_add_mod_noop, lemma_mod_add_multiples_vanish, lemma_mod_twice, lemma_small_mod,
};
use vstd::prelude::*;

use crate::plan::{
    block_count, block_end, block_first, block_of, chunk_done, dispatch_chunks,
    lemma_block_count_bounds, lemma_block_of_bounds, lemma_block_of_range, lemma_block_range_iff,
    lemma_chunk_count_bounds, workgroup_count, MAX_DISPATCH_WORKGROUPS, SCAN_BLOCK_SIZE,
};

verus! {

/// Addition in the engine is unsigned 32-bit arithmetic: sums wrap modulo
/// this constant.
pub const WORD_MODULUS: u64 = 0x1_0000_0000;

/// Sum, as an unbounded integer, of the elements `s[lo..hi)`.
pub open spec fn sum_range(s: Seq<u32>, lo: int, hi: int) -> int
    decreases hi - lo,
{
    if hi <= lo {
        0
    } else {
        sum_range(s, lo, hi - 1) + s[hi - 1]
    }
}

/// The `i`-th element of the inclusive prefix sum of `s`, modulo `2^32`.
pub open spec fn scan_val(s: Seq<u32>, i: int) -> u32 {
    (sum_range(s, 0, i + 1) % (WORD_MODULUS as int)) as u32
}

/// `output` is the inclusive prefix sum of `input`, modulo `2^32`:
/// `output[i] = input[0] + ... + input[i]`.
pub open spec fn is_inclusive_scan(input: Seq<u32>, output: Seq<u32>) -> bool {
    &&& output.len() == input.len()
    &&& forall|i: int| 0 <= i < input.len() ==> output[i] == scan_val(input, i)
}

/// A sum of `u32` elements is non-negative.
pub proof fn lemma_sum_range_nonneg(s: Seq<u32>, lo: int, hi: int)
    ensures
        sum_range(s, lo, hi) >= 0,
    decreases hi - lo,
{
    if hi > lo {
        lemma_sum_range_nonneg(s, lo, hi - 1);
    }
}

/// A sum over `[lo, hi)` splits at any point `mid` between the bounds.
pub proof fn lemma_sum_range_split(s: Seq<u32>, lo: int, mid: int, hi: int)
    requires
        lo <= mid <= hi,
    ensures
        sum_range(s, lo, hi) == sum_range(s, lo, mid) + sum_range(s, mid, hi),
    decreases hi - mid,
{
    if hi > mid {
        lemma_sum_range_split(s, lo, mid, hi - 1);
    }
}

/// Two sequences that agree on `[lo, hi)` have the same sum over `[lo, hi)`.
pub proof fn lemma_sum_range_congruence(s1: Seq<u32>, s2: Seq<u32>, lo: int, hi: int)
    requires
        forall|k: int| lo <= k < hi ==> s1[k] == s2[k],
    ensures
        sum_range(s1, lo, hi) == sum_range(s2, lo, hi),
    decreases hi - lo,
{
    if hi > lo {
        lemma_sum_range_congruence(s1, s2, lo, hi - 1);
    }
}

/// Adding `x` to a running total that is kept reduced modulo `2^32` with a
/// wrapping addition yields the reduced value of the extended total.
pub proof fn lemma_wrapping_add_mod(s: int, x: u32)
    requires
        s >= 0,
    ensures
        vstd::wrapping::u32_specs::wrapping_add((s % (WORD_MODULUS as int)) as u32, x) as int == (s
            + x) % (WORD_MODULUS as int),
{
    let m = WORD_MODULUS as int;
    let a = s % m;
    assert(0 <= a < m);
    lemma_add_mod_noop(s, x as int, m);
    lemma_mod_twice(s, m);
    lemma_small_mod(x as nat, m as nat);
    // now (s + x) % m == (a + x) % m
    if a + x <= u32::MAX {
        lemma_small_mod((a + x) as nat, m as nat);
    } else {
        lemma_mod_add_multiples_vanish(a + x - m, m);
        lemma_small_mod((a + x - m) as nat, m as nat);
    }
}

/// Model of one physical dispatch of the block-scan kernel over the blocks
/// `[first_block, first_block + workgroups)` of `data`: every touched block
/// is replaced in place by its block-local inclusive scan (modulo `2^32`),
/// and slot `b` of the next-level buffer receives block `b`'s total.
/// Elements and slots outside the dispatched range are untouched.
#[verifier::loop_isolation(false)]
pub fn kernel_block_scan(
    data: &mut Vec<u32>,
    next: &mut Vec<u32>,
    first_block: usize,
    workgroups: usize,
)
    requires
        old(next).len() == block_count(old(data).len() as int),
        first_block + workgroups <= old(next).len(),
    ensures
        final(data).len() == old(data).len(),
        final(next).len() == old(next).len(),
        forall|i: int|
            0 <= i < old(data).len() && first_block <= block_of(i) < first_block + workgroups
                ==> (#[trigger] final(data)@[i]) as int == sum_range(old(data)@, block_first(i), i + 1)
                % (WORD_MODULUS as int),
        forall|i: int|
            0 <= i < old(data).len() && !(first_block <= block_of(i) < first_block + workgroups)
                ==> #[trigger] final(data)@[i] == old(data)@[i],
        forall|b: int|
            first_block <= b < first_block + workgroups ==> (#[trigger] final(next)@[b]) as int
                == sum_range(
                old(data)@,
                b * (SCAN_BLOCK_SIZE as int),
                block_end(old(data).len() as int, b),
            ) % (WORD_MODULUS as int),
        forall|b: int|
            0 <= b < old(next).len() && !(first_block <= b < first_block + workgroups)
                ==> #[trigger] final(next)@[b] == old(next)@[b],
{
    let n = data.len();
    let ghost orig = data@;
    let ghost next0 = next@;
    let mut b = first_block;
    while b < first_block + workgroups
        invariant
            first_block <= b <= first_block + workgroups,
            data.len() == n,
            next.len() == block_count(n as int),
            forall|i: int|
                0 <= i < n && first_block <= block_of(i) < b ==> (#[trigger] data@[i]) as int
                    == sum_range(orig, block_first(i), i + 1) % (WORD_MODULUS as int),
            forall|i: int|
                0 <= i < n && !(first_block <= block_of(i) < b) ==> #[trigger] data@[i] == orig[i],
            forall|bb: int|
                first_block <= bb < b ==> (#[trigger] next@[bb]) as int == sum_range(
                    orig,
                    bb * (SCAN_BLOCK_SIZE as int),
                    block_end(n as int, bb),
                ) % (WORD_MODULUS as int),
            forall|bb: int|
                0 <= bb < next.len() && !(first_block <= bb < b) ==> #[trigger] next@[bb]
                    == next0[bb],
        decreases first_block + workgroups - b,
    {
        proof {
            lemma_block_count_bounds(n as int);
            assert((SCAN_BLOCK_SIZE as int) * (b as int) < n) by (nonlinear_arith)
                requires
                    (SCAN_BLOCK_SIZE as int) * (block_count(n as int) - 1) < n,
                    b < block_count(n as int),
                    b >= 0,
            ;
        }
        let base = b * SCAN_BLOCK_SIZE;
        let blen = if n - base >= SCAN_BLOCK_SIZE {
            SCAN_BLOCK_SIZE
        } else {
            n - base
        };
        proof {
            assert(base + blen == block_end(n as int, b as int)) by {
                assert((b as int + 1) * (SCAN_BLOCK_SIZE as int) == base + SCAN_BLOCK_SIZE)
                    by (nonlinear_arith)
                    requires
                        base == (b as int) * (SCAN_BLOCK_SIZE as int),
                ;
            }
        }
        let ghost data_mid = data@;
        let mut acc: u32 = 0;
        let mut j: usize = 0;
        while j < blen
            invariant
                0 <= j <= blen,
                data.len() == n,
                acc as int == sum_range(orig, base as int, base + j) % (WORD_MODULUS as int),
                forall|i: int|
                    base <= i < base + j ==> (#[trigger] data@[i]) as int == sum_range(
                        orig,
                        base as int,
                        i + 1,
                    ) % (WORD_MODULUS as int),
                forall|i: int| 0 <= i < n && !(base <= i < base + j) ==> #[trigger] data@[i]
                    == data_mid[i],
            decreases blen - j,
        {
            proof {
                lemma_block_of_range(b as int, base + j);
            }
            let x = data[base + j];
            proof {
                lemma_sum_range_nonneg(orig, base as int, base + j);
                lemma_wrapping_add_mod(sum_range(orig, base as int, base + j), x);
            }
            acc = acc.wrapping_add(x);
            data.set(base + j, acc);
            j += 1;
        }
        proof {
            assert forall|i: int| 0 <= i < n && block_of(i) != b implies !(base <= i < base
                + blen) by {
                lemma_block_range_iff(n as int, i, b as int);
            }
            assert forall|i: int|
                0 <= i < n && first_block <= block_of(i) < b + 1 implies (#[trigger] data@[i]) as int
                == sum_range(orig, block_first(i), i + 1) % (WORD_MODULUS as int) by {
                lemma_block_of_bounds(n as int, i);
                if block_of(i) == b {
                    lemma_block_range_iff(n as int, i, b as int);
                    assert(block_first(i) == base) by {
                        assert((b as int) * (SCAN_BLOCK_SIZE as int) == (SCAN_BLOCK_SIZE as int) * (
                        b as int)) by (nonlinear_arith);
                    }
                }
            }
        }
        next.set(b, acc);
        b += 1;
    }
}

/// A wrapping 32-bit addition computes the sum modulo `2^32`.
pub proof fn lemma_wrapping_add_u32(x: u32, y: u32)
    ensures
        vstd::wrapping::u32_specs::wrapping_add(x, y) as int == (x + y) % (WORD_MODULUS as int),
{
    lemma_small_mod(x as nat, WORD_MODULUS as nat);
    lemma_wrapping_add_mod(x as int, y);
}

/// Model of one physical dispatch of the propagate kernel over the blocks
/// `[first_block, first_block + workgroups)` of `data`, with
/// `first_block >= 1`: every element of a touched block `b` has
/// `next[b - 1]` — by then the inclusive total of all blocks before `b` —
/// added to it, modulo `2^32`.  Block `0` is never touched: it needs no
/// addend.
#[verifier::loop_isolation(false)]
pub fn kernel_propagate(
    data: &mut Vec<u32>,
    next: &Vec<u32>,
    first_block: usize,
    workgroups: usize,
)
    requires
        next.len() == block_count(old(data).len() as int),
        1 <= first_block,
        first_block + workgroups <= next.len(),
    ensures
        final(data).len() == old(data).len(),
        forall|i: int|
            0 <= i < old(data).len() && first_block <= block_of(i) < first_block + workgroups
                ==> (#[trigger] final(data)@[i]) as int == (old(data)@[i] + next@[block_of(i) - 1])
                % (WORD_MODULUS as int),
        forall|i: int|
            0 <= i < old(data).len() && !(first_block <= block_of(i) < first_block + workgroups)
                ==> #[trigger] final(data)@[i] == old(data)@[i],
{
    let n = data.len();
    let ghost orig = data@;
    let mut b = first_block;
    while b < first_block + workgroups
        invariant
            first_block <= b <= first_block + workgroups,
            data.len() == n,
            forall|i: int|
                0 <= i < n && first_block <= block_of(i) < b ==> (#[trigger] data@[i]) as int == (
                orig[i] + next@[block_of(i) - 1]) % (WORD_MODULUS as int),
            forall|i: int|
                0 <= i < n && !(first_block <= block_of(i) < b) ==> #[trigger] data@[i] == orig[i],
        decreases first_block + workgroups - b,
    {
        proof {
            lemma_block_count_bounds(n as int);
            assert((SCAN_BLOCK_SIZE as int) * (b as int) < n) by (nonlinear_arith)
                requires
                    (SCAN_BLOCK_SIZE as int) * (block_count(n as int) - 1) < n,
                    b < block_count(n as int),
                    b >= 0,
            ;
        }
        let base = b * SCAN_BLOCK_SIZE;
        let blen = if n - base >= SCAN_BLOCK_SIZE {
            SCAN_BLOCK_SIZE
        } else {
            n - base
        };
        proof {
            assert(base + blen == block_end(n as int, b as int)) by {
                assert((b as int + 1) * (SCAN_BLOCK_SIZE as int) == base + SCAN_BLOCK_SIZE)
                    by (nonlinear_arith)
                    requires
                        base == (b as int) * (SCAN_BLOCK_SIZE as int),
                ;
            }
        }
        let addend = next[b - 1];
        let ghost data_mid = data@;
        let mut j: usize = 0;
        while j < blen
            invariant
                0 <= j <= blen,
                data.len() == n,
                forall|i: int|
                    base <= i < base + j ==> (#[trigger] data@[i]) as int == (orig[i] + addend) % (
                    WORD_MODULUS as int),
                forall|i: int| 0 <= i < n && !(base <= i < base + j) ==> #[trigger] data@[i]
                    == data_mid[i],
            decreases blen - j,
        {
            proof {
                lemma_block_of_range(b as int, base + j);
            }
            let x = data[base + j];
            proof {
                lemma_wrapping_add_u32(x, addend);
            }
            data.set(base + j, x.wrapping_add(addend));
            j += 1;
        }
        proof {
            assert forall|i: int| 0 <= i < n && block_of(i) != b implies !(base <= i < base
                + blen) by {
                lemma_block_range_iff(n as int, i, b as int);
            }
            assert forall|i: int|
                0 <= i < n && first_block <= block_of(i) < b + 1 implies (#[trigger] data@[i]) as int
                == (orig[i] + next@[block_of(i) - 1]) % (WORD_MODULUS as int) by {
                if block_of(i) == b {
                    lemma_block_range_iff(n as int, i, b as int);
                }
            }
        }
        b += 1;
    }
}

/// A sum over a range inside element `i`'s block only depends on that
/// block's elements.
proof fn lemma_sum_block_congruent(orig: Seq<u32>, cur: Seq<u32>, i: int)
    requires
        orig.len() == cur.len(),
        0 <= i < orig.len(),
        forall|j: int| 0 <= j < orig.len() && block_of(j) == block_of(i) ==> cur[j] == orig[j],
    ensures
        sum_range(cur, block_first(i), i + 1) == sum_range(orig, block_first(i), i + 1),
        sum_range(cur, block_first(i), block_end(orig.len() as int, block_of(i))) == sum_range(
            orig,
            block_first(i),
            block_end(orig.len() as int, block_of(i)),
        ),
{
    let n = orig.len() as int;
    let b = block_of(i);
    lemma_block_of_bounds(n, i);
    assert forall|j: int| block_first(i) <= j < block_end(n, b) implies cur[j] == orig[j] by {
        assert(b * (SCAN_BLOCK_SIZE as int) == (SCAN_BLOCK_SIZE as int) * b) by (nonlinear_arith);
        lemma_block_range_iff(n, j, b);
    }
    lemma_sum_range_congruence(cur, orig, block_first(i), i + 1);
    lemma_sum_range_congruence(cur, orig, block_first(i), block_end(n, b));
}

/// Progress predicate of the chunked block-scan invocation: the first `done`
/// blocks of `data` hold their block-local scans and their totals sit in
/// `next`; everything else still holds its initial value.
spec fn block_scan_done(
    orig: Seq<u32>,
    data: Seq<u32>,
    next0: Seq<u32>,
    next: Seq<u32>,
    done: int,
) -> bool {
    &&& data.len() == orig.len()
    &&& next.len() == next0.len()
    &&& forall|i: int|
        0 <= i < orig.len() && block_of(i) < done ==> (#[trigger] data[i]) as int == sum_range(
            orig,
            block_first(i),
            i + 1,
        ) % (WORD_MODULUS as int)
    &&& forall|i: int| 0 <= i < orig.len() && block_of(i) >= done ==> #[trigger] data[i] == orig[i]
    &&& forall|b: int|
        0 <= b < done ==> (#[trigger] next[b]) as int == sum_range(
            orig,
            b * (SCAN_BLOCK_SIZE as int),
            block_end(orig.len() as int, b),
        ) % (WORD_MODULUS as int)
    &&& forall|b: int| done <= b < next.len() ==> #[trigger] next[b] == next0[b]
}

/// Runs the block-scan kernel over every block of `data`, issuing as many
/// physical dispatches as the hardware workgroup ceiling demands.  The
/// combined effect — stated here over the whole buffer — is identical to a
/// single unchunked dispatch, whatever the number of chunks.
#[verifier::loop_isolation(false)]
pub fn dispatch_block_scan(data: &mut Vec<u32>, next: &mut Vec<u32>)
    requires
        old(next).len() == block_count(old(data).len() as int),
        old(data).len() <= 0xFFFF_FFFF,
    ensures
        final(data).len() == old(data).len(),
        final(next).len() == old(next).len(),
        forall|i: int|
            0 <= i < old(data).len() ==> (#[trigger] final(data)@[i]) as int == sum_range(
                old(data)@,
                block_first(i),
                i + 1,
            ) % (WORD_MODULUS as int),
        forall|b: int|
            0 <= b < old(next).len() ==> (#[trigger] final(next)@[b]) as int == sum_range(
                old(data)@,
                b * (SCAN_BLOCK_SIZE as int),
                block_end(old(data).len() as int, b),
            ) % (WORD_MODULUS as int),
{
    let n = data.len();
    let ghost orig = data@;
    let ghost next0 = next@;
    let nb = next.len();
    proof {
        lemma_block_count_bounds(n as int);
    }
    let chunks = dispatch_chunks(0, nb as u32);
    let mut k: usize = 0;
    while k < chunks.len()
        invariant
            0 <= k <= chunks.len(),
            block_scan_done(orig, data@, next0, next@, chunk_done(k as int, nb as int)),
        decreases chunks.len() - k,
    {
        proof {
            lemma_chunk_count_bounds(nb as int);
        }
        let first = chunks[k].first_workgroup;
        let count = chunks[k].workgroup_count;
        let ghost data_mid = data@;
        let ghost next_mid = next@;
        let ghost done = chunk_done(k as int, nb as int);
        kernel_block_scan(data, next, first as usize, count as usize);
        proof {
            let m = MAX_DISPATCH_WORKGROUPS as int;
            assert(done == first);
            assert(done + count == chunk_done(k as int + 1, nb as int));
            assert forall|i: int|
                0 <= i < n && block_of(i) < done + count implies (#[trigger] data@[i]) as int
                == sum_range(orig, block_first(i), i + 1) % (WORD_MODULUS as int) by {
                lemma_block_of_bounds(n as int, i);
                if block_of(i) >= done {
                    lemma_sum_block_congruent(orig, data_mid, i);
                }
            }
            assert forall|b: int|
                0 <= b < done + count implies (#[trigger] next@[b]) as int == sum_range(
                orig,
                b * (SCAN_BLOCK_SIZE as int),
                block_end(n as int, b),
            ) % (WORD_MODULUS as int) by {
                if b >= done {
                    lemma_block_count_bounds(n as int);
                    assert((SCAN_BLOCK_SIZE as int) * b < n) by (nonlinear_arith)
                        requires
                            (SCAN_BLOCK_SIZE as int) * (block_count(n as int) - 1) < n,
                            b < block_count(n as int),
                            b >= 0,
                    ;
                    let i = b * (SCAN_BLOCK_SIZE as int);
                    assert(i == (SCAN_BLOCK_SIZE as int) * b) by (nonlinear_arith)
                        requires
                            i == b * (SCAN_BLOCK_SIZE as int),
                    ;
                    lemma_block_of_range(b, i);
                    lemma_sum_block_congruent(orig, data_mid, i);
                }
            }
        }
        k += 1;
    }
    proof {
        lemma_chunk_count_bounds(nb as int);
        assert forall|i: int| 0 <= i < n implies block_of(i) < nb as int by {
            lemma_block_of_bounds(n as int, i);
        }
    }
}

/// Runs the propagate kernel over every block of `data` except block `0`,
/// issuing as many physical dispatches as the hardware workgroup ceiling
/// demands.  The combined effect — stated over the whole buffer — is
/// identical to a single unchunked dispatch, whatever the number of chunks.
#[verifier::loop_isolation(false)]
pub fn dispatch_propagate(data: &mut Vec<u32>, next: &Vec<u32>)
    requires
        next.len() == block_count(old(data).len() as int),
        old(data).len() <= 0xFFFF_FFFF,
        next.len() >= 1,
    ensures
        final(data).len() == old(data).len(),
        forall|i: int|
            0 <= i < old(data).len() && block_of(i) >= 1 ==> (#[trigger] final(data)@[i]) as int == (
            old(data)@[i] + next@[block_of(i) - 1]) % (WORD_MODULUS as int),
        forall|i: int|
            0 <= i < old(data).len() && block_of(i) == 0 ==> #[trigger] final(data)@[i] == old(
                data,
            )@[i],
{
    let n = data.len();
    let ghost orig = data@;
    let nb = next.len();
    let chunks = dispatch_chunks(1, (nb - 1) as u32);
    let mut k: usize = 0;
    while k < chunks.len()
        invariant
            0 <= k <= chunks.len(),
            data.len() == n,
            forall|i: int|
                0 <= i < n && 1 <= block_of(i) < 1 + chunk_done(k as int, nb as int - 1) ==> (
                #[trigger] data@[i]) as int == (orig[i] + next@[block_of(i) - 1]) % (
                WORD_MODULUS as int),
            forall|i: int|
                0 <= i < n && !(1 <= block_of(i) < 1 + chunk_done(k as int, nb as int - 1))
                    ==> #[trigger] data@[i] == orig[i],
        decreases chunks.len() - k,
    {
        proof {
            lemma_chunk_count_bounds(nb as int - 1);
        }
        let first = chunks[k].first_workgroup;
        let count = chunks[k].workgroup_count;
        kernel_propagate(data, next, first as usize, count as usize);
        proof {
            assert(first == 1 + chunk_done(k as int, nb as int - 1));
            assert(first + count == 1 + chunk_done(k as int + 1, nb as int - 1));
        }
        k += 1;
    }
    proof {
        lemma_chunk_count_bounds(nb as int - 1);
        assert forall|i: int| 0 <= i < n implies block_of(i) < nb as int by {
            lemma_block_of_bounds(n as int, i);
        }
    }
}

/// The inclusive scan of the block totals, taken modulo `2^32`, equals the
/// reduced sum of the underlying elements up to the end of each block: this
/// is what lets the next level's scan supply the cross-block addends.
proof fn lemma_level_sums(orig: Seq<u32>, totals: Seq<u32>, b: int)
    requires
        totals.len() == block_count(orig.len() as int),
        0 <= b < totals.len(),
        forall|bb: int|
            0 <= bb < totals.len() ==> (#[trigger] totals[bb]) as int == sum_range(
                orig,
                bb * (SCAN_BLOCK_SIZE as int),
                block_end(orig.len() as int, bb),
            ) % (WORD_MODULUS as int),
    ensures
        sum_range(totals, 0, b + 1) % (WORD_MODULUS as int) == sum_range(
            orig,
            0,
            block_end(orig.len() as int, b),
        ) % (WORD_MODULUS as int),
    decreases b,
{
    let m = WORD_MODULUS as int;
    let sz = SCAN_BLOCK_SIZE as int;
    let n = orig.len() as int;
    if b == 0 {
        reveal_with_fuel(sum_range, 2);
        assert(0 * sz == 0) by (nonlinear_arith);
        lemma_mod_twice(sum_range(orig, 0, block_end(n, 0)), m);
    } else {
        lemma_level_sums(orig, totals, b - 1);
        lemma_block_count_bounds(n);
        assert(b * sz <= (totals.len() - 1) * sz) by (nonlinear_arith)
            requires
                b <= totals.len() - 1,
                sz >= 0,
        ;
        assert((totals.len() - 1) * sz == sz * (totals.len() - 1)) by (nonlinear_arith);
        assert(block_end(n, b - 1) == b * sz);
        let a = sum_range(totals, 0, b);
        let x = totals[b];
        let s1 = sum_range(orig, 0, b * sz);
        let s2 = sum_range(orig, b * sz, block_end(n, b));
        lemma_sum_range_split(orig, 0, b * sz, block_end(n, b));
        lemma_mod_twice(s2, m);
        lemma_add_mod_noop(a, x as int, m);
        lemma_add_mod_noop(s1, s2, m);
        lemma_mod_twice(s1, m);
        lemma_small_mod(x as nat, m as nat);
        assert(sum_range(totals, 0, b + 1) == a + x);
        assert(a % m == s1 % m);
        assert(x as int % m == s2 % m);
        assert((a + x) % m == ((a % m) + (x as int % m)) % m);
        assert(((s1 % m) + (s2 % m)) % m == (s1 + s2) % m);
        assert(s1 + s2 == sum_range(orig, 0, block_end(n, b)));
    }
}

/// Scans `data` in place: afterwards `data[i]` holds the inclusive prefix
/// sum `data[0] + ... + data[i]`, modulo `2^32`.  One block-scan dispatch
/// computes the block-local scans and the block totals; for more than one
/// block the totals are scanned recursively — at most five levels for any
/// 32-bit-addressable length — and a propagate dispatch folds them back in.
#[verifier::loop_isolation(false)]
pub fn prefix_sum_inner(data: &mut Vec<u32>)
    requires
        old(data).len() <= 0xFFFF_FFFF,
    ensures
        is_inclusive_scan(old(data)@, final(data)@),
    decreases old(data).len(),
{
    let n = data.len();
    if n == 0 {
        return ;
    }
    let ghost orig = data@;
    proof {
        lemma_block_count_bounds(n as int);
    }
    let nb = workgroup_count(n, SCAN_BLOCK_SIZE);
    let mut next: Vec<u32> = vec![0u32; nb];
    dispatch_block_scan(data, &mut next);
    let ghost scanned = data@;
    let ghost totals = next@;
    if n > SCAN_BLOCK_SIZE {
        proof {
            assert(nb < n) by (nonlinear_arith)
                requires
                    (SCAN_BLOCK_SIZE as int) * (nb - 1) < n,
                    n > SCAN_BLOCK_SIZE,
                    (SCAN_BLOCK_SIZE as int) >= 2,
                    nb >= 1,
            ;
        }
        prefix_sum_inner(&mut next);
        dispatch_propagate(data, &next);
        proof {
            let m = WORD_MODULUS as int;
            let sz = SCAN_BLOCK_SIZE as int;
            assert forall|i: int| 0 <= i < n implies #[trigger] data@[i] == scan_val(orig, i) by {
                lemma_block_of_bounds(n as int, i);
                let b = block_of(i);
                if b == 0 {
                    assert(block_first(i) == sz * 0);
                    assert(sz * 0 == 0) by (nonlinear_arith);
                } else {
                    lemma_level_sums(orig, totals, b - 1);
                    lemma_block_count_bounds(n as int);
                    assert(b * sz <= (nb - 1) * sz) by (nonlinear_arith)
                        requires
                            b <= nb - 1,
                            sz >= 0,
                    ;
                    assert((nb - 1) * sz == sz * (nb as int - 1)) by (nonlinear_arith);
                    assert(block_end(n as int, b - 1) == b * sz);
                    assert(block_first(i) == b * sz) by {
                        assert(sz * b == b * sz) by (nonlinear_arith);
                    }
                    let s1 = sum_range(orig, 0, b * sz);
                    let s2 = sum_range(orig, b * sz, i + 1);
                    lemma_sum_range_split(orig, 0, b * sz, i + 1);
                    lemma_add_mod_noop(s2, s1, m);
                    lemma_mod_twice(s1, m);
                    lemma_mod_twice(s2, m);
                }
            }
        }
    } else {
        proof {
            assert forall|i: int| 0 <= i < n implies #[trigger] data@[i] == scan_val(orig, i) by {
                vstd::arithmetic::div_mod::lemma_basic_div(i, SCAN_BLOCK_SIZE as int);
                assert(block_of(i) == 0);
                assert(block_first(i) == (SCAN_BLOCK_SIZE as int) * 0);
                assert((SCAN_BLOCK_SIZE as int) * 0 == 0) by (nonlinear_arith);
            }
        }
    }
}

/// Host-convenience scan: returns the inclusive prefix sum of `input`,
/// modulo `2^32`, leaving `input` untouched.  The contents are staged into a
/// working buffer, scanned in place by the engine, and handed back; inputs
/// of length `0` or `1` are returned unchanged without engine work.
pub fn prefix_sum(input: &Vec<u32>) -> (out: Vec<u32>)
    requires
        input.len() <= 0xFFFF_FFFF,
    ensures
        is_inclusive_scan(input@, out@),
{
    if input.len() <= 1 {
        let mut out: Vec<u32> = Vec::new();
        if input.len() == 1 {
            out.push(input[0]);
            proof {
                reveal_with_fuel(sum_range, 2);
                lemma_small_mod(input@[0] as nat, WORD_MODULUS as nat);
                assert(sum_range(input@, 0, 1) == input@[0]);
                assert(out@[0] == scan_val(input@, 0));
            }
        }
        return out;
    }
    let mut data: Vec<u32> = Vec::new();
    let mut i: usize = 0;
    while i < input.len()
        invariant
            0 <= i <= input.len(),
            data@ =~= input@.take(i as int),
        decreases input.len() - i,
    {
        data.push(input[i]);
        i += 1;
    }
    proof {
        assert(data@ =~= input@);
    }
    prefix_sum_inner(&mut data);
    data
}

/// Sums over a stretch of zeros vanish.
proof fn lemma_sum_range_zeros(s: Seq<u32>, lo: int, hi: int)
    requires
        forall|k: int| lo <= k < hi ==> s[k] == 0u32,
    ensures
        sum_range(s, lo, hi) == 0,
    decreases hi - lo,
{
    if hi > lo {
        lemma_sum_range_zeros(s, lo, hi - 1);
    }
}

/// The scan's value is pinned by its input alone: two outputs that both
/// satisfy the scan relation for the same input are equal.  In particular
/// the numeric result does not depend on how the engine decomposed the work
/// into levels and physical dispatches.
pub proof fn lemma_scan_deterministic(input: Seq<u32>, out1: Seq<u32>, out2: Seq<u32>)
    requires
        is_inclusive_scan(input, out1),
        is_inclusive_scan(input, out2),
    ensures
        out1 =~= out2,
{
}

/// An all-zero input of any length scans to itself: the inclusive prefix
/// sum of zeros is zero everywhere.
pub proof fn lemma_scan_of_zeros(input: Seq<u32>, output: Seq<u32>)
    requires
        is_inclusive_scan(input, output),
        forall|i: int| 0 <= i < input.len() ==> input[i] == 0u32,
    ensures
        output =~= input,
{
    assert forall|i: int| 0 <= i < output.len() implies output[i] == input[i] by {
        lemma_sum_range_zeros(input, 0, i + 1);
    }
}

} // verus!

