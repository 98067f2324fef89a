//! Dispatch geometry: how the engine decomposes work into kernel dispatches.
//!
//! A dispatch runs one kernel over a row of workgroups, and the hardware caps
//! the number of workgroups in a single dispatch at
//! [`MAX_DISPATCH_WORKGROUPS`].  When a kernel invocation needs more
//! workgroups than that, the engine issues several physical dispatches, each
//! described by a [`ChunkDesc`] giving its base workgroup and its workgroup
//! count.  The functions here compute those descriptors, the per-dispatch
//! workgroup counts, and the sizes of the levels of the scan's reduction
//! tree; their contracts pin the geometry exactly, so that the semantic
//! layers can prove chunking is invisible in the numeric result.

use vstd::prelude::*;

verus! {

/// Hardware ceiling on workgroups per dispatch along one axis.
pub const MAX_DISPATCH_WORKGROUPS: u32 = 65535;

/// Workgroups of the scan kernels cover this many elements each.
pub const SCAN_BLOCK_SIZE: usize = 256;

/// Workgroups of the counting-sort kernels cover this many points each.
pub const SORT_GROUP_SIZE: usize = 64;

/// The closed set of compute kernels the engine dispatches.  Resolving a
/// kernel at startup is a lookup in this enumeration, so an unknown kernel
/// is impossible once an execution context is built.
#[derive(Clone, Copy, PartialEq, Eq, Structural, Debug)]
pub enum KernelId {
    /// Block-local inclusive scan; also emits each block's total.
    BlockScan,
    /// Adds the preceding blocks' total to every element of a block.
    Propagate,
    /// Counts the points falling in each grid cell.
    BucketCount,
    /// Turns an inclusive scan of the counts into the offset/cursor table.
    BucketShift,
    /// Scatters each point to a slot inside its cell's offset range.
    BucketScatter,
}

/// One physical dispatch of a chunked kernel invocation: the index of its
/// first workgroup and how many workgroups it runs.
pub struct ChunkDesc {
    /// Index (within the whole invocation) of this dispatch's first workgroup.
    pub first_workgroup: u32,
    /// Number of workgroups this dispatch runs; at most
    /// [`MAX_DISPATCH_WORKGROUPS`].
    pub workgroup_count: u32,
}

/// Number of blocks of `SCAN_BLOCK_SIZE` elements needed to cover `n`
/// elements.
pub open spec fn block_count(n: int) -> int {
    (n + (SCAN_BLOCK_SIZE as int) - 1) / (SCAN_BLOCK_SIZE as int)
}

/// Index of the block that element `i` belongs to.
pub open spec fn block_of(i: int) -> int {
    i / (SCAN_BLOCK_SIZE as int)
}

/// Index of the first element of the block that element `i` belongs to.
pub open spec fn block_first(i: int) -> int {
    block_of(i) * (SCAN_BLOCK_SIZE as int)
}

/// One past the last element of block `b` in a buffer of `n` elements; the
/// last block may be partial.
pub open spec fn block_end(n: int, b: int) -> int {
    if (b + 1) * (SCAN_BLOCK_SIZE as int) <= n {
        (b + 1) * (SCAN_BLOCK_SIZE as int)
    } else {
        n
    }
}

/// Number of physical dispatches needed to run `total` workgroups.
pub open spec fn chunk_count(total: int) -> int {
    (total + (MAX_DISPATCH_WORKGROUPS as int) - 1) / (MAX_DISPATCH_WORKGROUPS as int)
}

/// Bounds of the ceiling division `(n + d - 1) / d`: the groups cover all
/// `n` items, and every group but possibly the last is full.
pub proof fn lemma_ceil_div_bounds(n: int, d: int)
    requires
        n >= 0,
        d >= 1,
    ensures
        (n + d - 1) / d >= 0,
        d * ((n + d - 1) / d) >= n,
        n >= 1 ==> d * ((n + d - 1) / d - 1) < n,
        n >= 1 ==> (n + d - 1) / d >= 1,
        (n + d - 1) / d <= n,
{
    vstd::arithmetic::div_mod::lemma_fundamental_div_mod(n + d - 1, d);
    vstd::arithmetic::div_mod::lemma_mod_pos_bound(n + d - 1, d);
    let c = (n + d - 1) / d;
    let r = (n + d - 1) % d;
    assert(n + d - 1 == d * c + r);
    if c < 0 {
        assert(d * c <= -d) by (nonlinear_arith)
            requires
                c <= -1,
                d >= 1,
        ;
    }
    if n >= 1 && c == 0 {
        assert(d * c == 0) by (nonlinear_arith)
            requires
                c == 0,
        ;
        assert(false);
    }
    assert(d * (c - 1) == d * c - d) by (nonlinear_arith);
    if c > n {
        assert(d * c >= d * (n + 1)) by (nonlinear_arith)
            requires
                c >= n + 1,
                d >= 1,
        ;
        assert(d * (n + 1) > n + d - 1) by (nonlinear_arith)
            requires
                d >= 1,
                n >= 0,
        ;
    }
}

/// Bounds tying `block_count(n)` to `n`: the blocks cover all `n` elements,
/// and every block but possibly the last is full.
pub proof fn lemma_block_count_bounds(n: int)
    requires
        n >= 0,
    ensures
        block_count(n) >= 0,
        (SCAN_BLOCK_SIZE as int) * block_count(n) >= n,
        n >= 1 ==> (SCAN_BLOCK_SIZE as int) * (block_count(n) - 1) < n,
        n >= 1 ==> block_count(n) >= 1,
        block_count(n) <= n,
{
    lemma_ceil_div_bounds(n, SCAN_BLOCK_SIZE as int);
}

/// Element `i` lies in block `block_of(i)`, whose bounds sit inside the
/// buffer.
pub proof fn lemma_block_of_bounds(n: int, i: int)
    requires
        0 <= i < n,
    ensures
        0 <= block_of(i) < block_count(n),
        block_first(i) == (SCAN_BLOCK_SIZE as int) * block_of(i),
        block_first(i) <= i < block_end(n, block_of(i)),
        block_end(n, block_of(i)) <= n,
        block_end(n, block_of(i)) - block_first(i) <= SCAN_BLOCK_SIZE as int,
        i < (block_of(i) + 1) * (SCAN_BLOCK_SIZE as int),
{
    let sz = SCAN_BLOCK_SIZE as int;
    vstd::arithmetic::div_mod::lemma_fundamental_div_mod(i, sz);
    vstd::arithmetic::div_mod::lemma_mod_pos_bound(i, sz);
    let q = block_of(i);
    let r = i % sz;
    assert(i == sz * q + r);
    lemma_block_count_bounds(n);
    if q >= block_count(n) {
        assert(sz * q >= sz * block_count(n)) by (nonlinear_arith)
            requires
                q >= block_count(n),
                sz >= 1,
        ;
    }
    assert((q + 1) * sz == sz * q + sz) by (nonlinear_arith);
    assert(q * sz == sz * q) by (nonlinear_arith);
}

/// Element `i` of a buffer of `n` elements lies in block `b` exactly when
/// `i` sits between block `b`'s bounds.
pub proof fn lemma_block_range_iff(n: int, i: int, b: int)
    requires
        0 <= i < n,
        0 <= b,
    ensures
        block_of(i) == b <==> (b * (SCAN_BLOCK_SIZE as int) <= i < block_end(n, b)),
{
    let sz = SCAN_BLOCK_SIZE as int;
    lemma_block_of_bounds(n, i);
    let q = block_of(i);
    if q == b {
        assert(b * sz == sz * q) by (nonlinear_arith)
            requires
                q == b,
        ;
    } else if q < b {
        assert((q + 1) * sz <= b * sz) by (nonlinear_arith)
            requires
                q + 1 <= b,
                sz >= 0,
        ;
    } else {
        assert((b + 1) * sz <= q * sz) by (nonlinear_arith)
            requires
                b + 1 <= q,
                sz >= 0,
        ;
        assert(q * sz == sz * q) by (nonlinear_arith);
    }
}

/// A block index `b` with `b * SCAN_BLOCK_SIZE <= i < (b + 1) * SCAN_BLOCK_SIZE`
/// is the block of `i`.
pub proof fn lemma_block_of_range(b: int, i: int)
    requires
        b * (SCAN_BLOCK_SIZE as int) <= i < (b + 1) * (SCAN_BLOCK_SIZE as int),
    ensures
        block_of(i) == b,
        block_first(i) == b * (SCAN_BLOCK_SIZE as int),
{
    let sz = SCAN_BLOCK_SIZE as int;
    assert((b + 1) * sz == b * sz + sz) by (nonlinear_arith);
    vstd::arithmetic::div_mod::lemma_fundamental_div_mod_converse(i, sz, b, i - b * sz);
}

/// Number of workgroups covered by the first `k` physical dispatches of a
/// chunked invocation of `total` workgroups.
pub open spec fn chunk_done(k: int, total: int) -> int {
    if k * (MAX_DISPATCH_WORKGROUPS as int) <= total {
        k * (MAX_DISPATCH_WORKGROUPS as int)
    } else {
        total
    }
}

/// The physical dispatches of a chunked invocation cover all its workgroups.
pub proof fn lemma_chunk_count_bounds(total: int)
    requires
        total >= 0,
    ensures
        chunk_count(total) >= 0,
        forall|k: int| 0 <= k < chunk_count(total) ==> #[trigger] chunk_done(k, total) == k * (
        MAX_DISPATCH_WORKGROUPS as int) && k * (MAX_DISPATCH_WORKGROUPS as int) < total,
        chunk_done(chunk_count(total), total) == total,
{
    let m = MAX_DISPATCH_WORKGROUPS as int;
    lemma_ceil_div_bounds(total, m);
    let cc = chunk_count(total);
    assert(cc * m == m * cc) by (nonlinear_arith);
    assert forall|k: int| 0 <= k < cc implies #[trigger] chunk_done(k, total) == k * m && k * m
        < total by {
        assert(m * (cc - 1) < total);
        assert(k * m <= (cc - 1) * m) by (nonlinear_arith)
            requires
                k <= cc - 1,
                m >= 0,
        ;
        assert((cc - 1) * m == m * (cc - 1)) by (nonlinear_arith);
    }
}

/// Ceiling division: the number of groups of `group_size` needed to cover
/// `items` items.
pub fn workgroup_count(items: usize, group_size: usize) -> (wgs: usize)
    requires
        group_size >= 1,
    ensures
        wgs == (items + group_size - 1) / (group_size as int),
{
    let q = items / group_size;
    let r = items % group_size;
    proof {
        vstd::arithmetic::div_mod::lemma_fundamental_div_mod(items as int, group_size as int);
    }
    if r == 0 {
        proof {
            assert(items as int + group_size - 1 == (q as int) * group_size + (
            group_size as int - 1)) by (nonlinear_arith)
                requires
                    items == group_size * q,
            ;
            vstd::arithmetic::div_mod::lemma_fundamental_div_mod_converse(
                items as int + group_size - 1,
                group_size as int,
                q as int,
                group_size as int - 1,
            );
        }
        q
    } else {
        proof {
            assert(items >= q + 1) by (nonlinear_arith)
                requires
                    items == group_size * q + r,
                    r >= 1,
                    group_size >= 1,
                    q >= 0,
            ;
            assert(items as int + group_size - 1 == (q as int + 1) * group_size + (r - 1))
                by (nonlinear_arith)
                requires
                    items == group_size * q + r,
            ;
            vstd::arithmetic::div_mod::lemma_fundamental_div_mod_converse(
                items as int + group_size - 1,
                group_size as int,
                q as int + 1,
                r as int - 1,
            );
        }
        q + 1
    }
}

/// Sizes of the levels of the scan's reduction tree for an input of `n`
/// elements: level `0` is the input itself, and each further level holds
/// one block total per block of the level before it, until a level fits in
/// a single block.  An executor allocates one buffer per level.
pub fn scan_levels(n: usize) -> (lens: Vec<usize>)
    requires
        1 <= n <= 0xFFFF_FFFF,
    ensures
        lens.len() >= 1,
        lens@[0] == n,
        forall|k: int|
            0 < k < lens.len() ==> (#[trigger] lens@[k]) as int == block_count(lens@[k - 1] as int)
                && lens@[k - 1] > SCAN_BLOCK_SIZE,
        lens@[lens.len() - 1] <= SCAN_BLOCK_SIZE,
{
    let mut lens: Vec<usize> = Vec::new();
    lens.push(n);
    let mut cur = n;
    while cur > SCAN_BLOCK_SIZE
        invariant
            lens.len() >= 1,
            lens@[0] == n,
            cur == lens@[lens.len() - 1],
            1 <= cur <= 0xFFFF_FFFF,
            forall|k: int|
                0 < k < lens.len() ==> (#[trigger] lens@[k]) as int == block_count(
                    lens@[k - 1] as int,
                ) && lens@[k - 1] > SCAN_BLOCK_SIZE,
        decreases cur,
    {
        proof {
            lemma_block_count_bounds(cur as int);
            assert(block_count(cur as int) < cur) by (nonlinear_arith)
                requires
                    (SCAN_BLOCK_SIZE as int) * (block_count(cur as int) - 1) < cur,
                    cur > SCAN_BLOCK_SIZE,
                    (SCAN_BLOCK_SIZE as int) >= 2,
                    block_count(cur as int) >= 1,
            ;
        }
        let nxt = workgroup_count(cur, SCAN_BLOCK_SIZE);
        lens.push(nxt);
        cur = nxt;
    }
    lens
}

/// Splits an invocation of `count` workgroups, whose first workgroup sits at
/// index `first` of the underlying buffers' block grid, into physical
/// dispatches of at most [`MAX_DISPATCH_WORKGROUPS`] workgroups each.  The
/// descriptors cover `[first, first + count)` in order and without gaps, so
/// issuing them one after another within a single submission has the same
/// effect as the single oversized dispatch the hardware refuses.
pub fn dispatch_chunks(first: u32, count: u32) -> (chunks: Vec<ChunkDesc>)
    requires
        first + count <= 0xFFFF_FFFF,
    ensures
        chunks.len() == chunk_count(count as int),
        forall|k: int|
            0 <= k < chunks.len() ==> (#[trigger] chunks@[k]).first_workgroup
                == first + k * (MAX_DISPATCH_WORKGROUPS as int),
        forall|k: int|
            0 <= k < chunks.len() ==> (#[trigger] chunks@[k]).workgroup_count == (if (k + 1) * (
            MAX_DISPATCH_WORKGROUPS as int) <= count {
                MAX_DISPATCH_WORKGROUPS as int
            } else {
                count - k * (MAX_DISPATCH_WORKGROUPS as int)
            }),
{
    let mut chunks: Vec<ChunkDesc> = Vec::new();
    let mut done: u32 = 0;
    while done < count
        invariant
            first + count <= 0xFFFF_FFFF,
            done <= count,
            done == (if chunks.len() * (MAX_DISPATCH_WORKGROUPS as int) <= count {
                chunks.len() * (MAX_DISPATCH_WORKGROUPS as int)
            } else {
                count as int
            }),
            chunks.len() * (MAX_DISPATCH_WORKGROUPS as int) < count + (
            MAX_DISPATCH_WORKGROUPS as int),
            forall|k: int|
                0 <= k < chunks.len() ==> (#[trigger] chunks@[k]).first_workgroup == first + k * (
                MAX_DISPATCH_WORKGROUPS as int),
            forall|k: int|
                0 <= k < chunks.len() ==> (#[trigger] chunks@[k]).workgroup_count == (if (k + 1) * (
                MAX_DISPATCH_WORKGROUPS as int) <= count {
                    MAX_DISPATCH_WORKGROUPS as int
                } else {
                    count - k * (MAX_DISPATCH_WORKGROUPS as int)
                }),
        decreases count - done,
    {
        let remaining = count - done;
        let wgs = if remaining > MAX_DISPATCH_WORKGROUPS {
            MAX_DISPATCH_WORKGROUPS
        } else {
            remaining
        };
        chunks.push(ChunkDesc { first_workgroup: first + done, workgroup_count: wgs });
        done = done + wgs;
    }
    proof {
        assert(chunks.len() == chunk_count(count as int)) by {
            vstd::arithmetic::div_mod::lemma_fundamental_div_mod_converse(
                count as int + (MAX_DISPATCH_WORKGROUPS as int) - 1,
                MAX_DISPATCH_WORKGROUPS as int,
                chunks.len() as int,
                count as int + (MAX_DISPATCH_WORKGROUPS as int) - 1 - chunks.len() * (
                MAX_DISPATCH_WORKGROUPS as int),
            );
        }
    }
    chunks
}

} // verus!
