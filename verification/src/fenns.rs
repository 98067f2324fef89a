//! The spatial counting-sort pipeline: buckets points into the cells of a
//! uniform grid, producing a per-cell offset table and a point order in
//! which every cell's points are contiguous.
//!
//! A point enters the pipeline as the index of the grid cell it falls in;
//! computing that index from a raw position is the cell-index arithmetic of
//! the kernels and of the host layer around the engine.  Three stages share
//! it: a count kernel tallies the points of every cell; the scan engine and
//! a shift kernel turn the tallies into the offset/cursor table (exclusive
//! offsets, a zero sentinel, and a mutable cursor half seeded with the same
//! offsets, so the scatter's atomic traffic never touches the offsets the
//! readers use); a scatter kernel hands each point a unique slot inside its
//! cell's range by bumping the cell's cursor.

use vstd::prelude::*;

use crate::prefix_sum::{prefix_sum_inner, scan_val, sum_range, WORD_MODULUS};
use vstd::arithmetic::div_mod::lemma_small_mod;

verus! {

/// Number of points among `cells` that fall in cell `c`.
pub open spec fn count_eq(cells: Seq<u32>, c: int) -> int
    decreases cells.len(),
{
    if cells.len() == 0 {
        0
    } else {
        count_eq(cells.drop_last(), c) + if cells.last() as int == c {
            1int
        } else {
            0int
        }
    }
}

/// Number of points among `cells` that fall in a cell below `c`.
pub open spec fn count_lt(cells: Seq<u32>, c: int) -> int
    decreases cells.len(),
{
    if cells.len() == 0 {
        0
    } else {
        count_lt(cells.drop_last(), c) + if (cells.last() as int) < c {
            1int
        } else {
            0int
        }
    }
}

/// Destination slot the scatter assigns to point `k`: its cell's exclusive
/// offset plus the number of earlier points of the same cell.
pub open spec fn dest_of(cells: Seq<u32>, k: int) -> int {
    count_lt(cells, cells[k] as int) + count_eq(cells.take(k), cells[k] as int)
}

/// Counts lie between `0` and the number of points.
pub proof fn lemma_count_bounds(cells: Seq<u32>, c: int)
    ensures
        0 <= count_eq(cells, c) <= cells.len(),
        0 <= count_lt(cells, c) <= cells.len(),
    decreases cells.len(),
{
    if cells.len() > 0 {
        lemma_count_bounds(cells.drop_last(), c);
    }
}

/// Extending a prefix by one point raises exactly the counters of that
/// point's cell.
pub proof fn lemma_count_take_step(cells: Seq<u32>, k: int)
    requires
        0 <= k < cells.len(),
    ensures
        forall|c: int|
            #[trigger] count_eq(cells.take(k + 1), c) == count_eq(cells.take(k), c) + (
            if cells[k] as int == c {
                1int
            } else {
                0int
            }),
        forall|c: int|
            #[trigger] count_lt(cells.take(k + 1), c) == count_lt(cells.take(k), c) + (
            if (cells[k] as int) < c {
                1int
            } else {
                0int
            }),
{
    assert(cells.take(k + 1).drop_last() =~= cells.take(k));
    assert(cells.take(k + 1).last() == cells[k]);
}

/// The whole sequence is its own length-`n` prefix.
pub proof fn lemma_take_all(cells: Seq<u32>)
    ensures
        cells.take(cells.len() as int) =~= cells,
{
}

/// Counting below `c + 1` is counting below `c` plus counting `c` itself.
pub proof fn lemma_count_lt_step(cells: Seq<u32>, c: int)
    ensures
        count_lt(cells, c + 1) == count_lt(cells, c) + count_eq(cells, c),
    decreases cells.len(),
{
    if cells.len() > 0 {
        lemma_count_lt_step(cells.drop_last(), c);
    }
}

/// No point sits below cell `0`; if every point sits below `cc`, counting
/// below `cc` counts them all.
pub proof fn lemma_count_lt_extremes(cells: Seq<u32>, cc: int)
    requires
        forall|k: int| 0 <= k < cells.len() ==> (#[trigger] cells[k]) < cc,
    ensures
        count_lt(cells, 0) == 0,
        count_lt(cells, cc) == cells.len(),
    decreases cells.len(),
{
    if cells.len() > 0 {
        assert(forall|k: int|
            0 <= k < cells.drop_last().len() ==> (#[trigger] cells.drop_last()[k]) < cc);
        lemma_count_lt_extremes(cells.drop_last(), cc);
    }
}

/// Counting below a higher cell never counts fewer points.
pub proof fn lemma_count_lt_mono(cells: Seq<u32>, c1: int, c2: int)
    requires
        c1 <= c2,
    ensures
        count_lt(cells, c1) <= count_lt(cells, c2),
    decreases cells.len(),
{
    if cells.len() > 0 {
        lemma_count_lt_mono(cells.drop_last(), c1, c2);
    }
}

/// A longer prefix never counts fewer points of a cell.
pub proof fn lemma_count_eq_prefix_mono(cells: Seq<u32>, c: int, j1: int, j2: int)
    requires
        0 <= j1 <= j2 <= cells.len(),
    ensures
        count_eq(cells.take(j1), c) <= count_eq(cells.take(j2), c),
    decreases j2 - j1,
{
    if j1 < j2 {
        lemma_count_eq_prefix_mono(cells, c, j1 + 1, j2);
        lemma_count_take_step(cells, j1);
    }
}

/// Every point's destination lies inside its cell's slot range, which lies
/// inside the output.
pub proof fn lemma_dest_in_range(cells: Seq<u32>, cc: int, k: int)
    requires
        0 <= k < cells.len(),
        forall|j: int| 0 <= j < cells.len() ==> (#[trigger] cells[j]) < cc,
    ensures
        count_lt(cells, cells[k] as int) <= dest_of(cells, k) < count_lt(
            cells,
            cells[k] as int + 1,
        ),
        0 <= dest_of(cells, k) < cells.len(),
{
    let c = cells[k] as int;
    lemma_count_bounds(cells.take(k), c);
    lemma_count_bounds(cells, c);
    lemma_count_lt_step(cells, c);
    lemma_count_take_step(cells, k);
    lemma_count_eq_prefix_mono(cells, c, k + 1, cells.len() as int);
    lemma_take_all(cells);
    lemma_count_lt_extremes(cells, cc);
    lemma_count_lt_mono(cells, c + 1, cc);
    lemma_count_bounds(cells, 0);
    lemma_count_lt_mono(cells, 0, c);
}

/// Distinct points get distinct destinations: within one cell the earlier
/// point counts fewer predecessors, and different cells own disjoint slot
/// ranges.
pub proof fn lemma_dest_injective(cells: Seq<u32>, cc: int, k1: int, k2: int)
    requires
        0 <= k1 < cells.len(),
        0 <= k2 < cells.len(),
        k1 != k2,
        forall|j: int| 0 <= j < cells.len() ==> (#[trigger] cells[j]) < cc,
    ensures
        dest_of(cells, k1) != dest_of(cells, k2),
{
    let c1 = cells[k1] as int;
    let c2 = cells[k2] as int;
    if c1 == c2 {
        if k1 < k2 {
            lemma_count_take_step(cells, k1);
            lemma_count_eq_prefix_mono(cells, c1, k1 + 1, k2);
        } else {
            lemma_count_take_step(cells, k2);
            lemma_count_eq_prefix_mono(cells, c1, k2 + 1, k1);
        }
    } else {
        lemma_dest_in_range(cells, cc, k1);
        lemma_dest_in_range(cells, cc, k2);
        if c1 < c2 {
            lemma_count_lt_mono(cells, c1 + 1, c2);
        } else {
            lemma_count_lt_mono(cells, c2 + 1, c1);
        }
    }
}

/// No point sits below cell `0`.
pub proof fn lemma_count_lt_zero(cells: Seq<u32>)
    ensures
        count_lt(cells, 0) == 0,
    decreases cells.len(),
{
    if cells.len() > 0 {
        lemma_count_lt_zero(cells.drop_last());
    }
}

/// Every slot below `count_lt(cells, c)` belongs to the range of some cell
/// below `c`.
pub proof fn lemma_slot_cell(cells: Seq<u32>, c: int, j: int)
    requires
        0 <= j < count_lt(cells, c),
    ensures
        exists|c2: int|
            0 <= c2 < c && #[trigger] count_lt(cells, c2) <= j < count_lt(cells, c2 + 1),
    decreases c,
{
    lemma_count_lt_zero(cells);
    if c >= 1 {
        if count_lt(cells, c - 1) <= j {
            assert(0 <= c - 1 < c && #[trigger] count_lt(cells, c - 1) <= j < count_lt(
                cells,
                (c - 1) + 1,
            ));
        } else {
            lemma_slot_cell(cells, c - 1, j);
            let c2 = choose|c2: int|
                0 <= c2 < c - 1 && #[trigger] count_lt(cells, c2) <= j < count_lt(cells, c2 + 1);
            assert(0 <= c2 < c && #[trigger] count_lt(cells, c2) <= j < count_lt(cells, c2 + 1));
        }
    } else {
        lemma_count_lt_mono(cells, c, 0);
    }
}

/// For every rank `m` below a cell's count there is a point of that cell
/// with exactly `m` earlier points of the same cell.
pub proof fn lemma_nth_occurrence(cells: Seq<u32>, c: int, m: int)
    requires
        0 <= m < count_eq(cells, c),
    ensures
        exists|k: int|
            0 <= k < cells.len() && (#[trigger] cells[k]) as int == c && count_eq(
                cells.take(k),
                c,
            ) == m,
    decreases cells.len(),
{
    let n = cells.len() as int;
    if m == count_eq(cells.drop_last(), c) {
        assert(cells.take(n - 1) =~= cells.drop_last());
        assert(0 <= n - 1 < n && cells[n - 1] as int == c && count_eq(cells.take(n - 1), c) == m);
    } else {
        lemma_count_bounds(cells.drop_last(), c);
        lemma_nth_occurrence(cells.drop_last(), c, m);
        let k = choose|k: int|
            0 <= k < cells.drop_last().len() && (#[trigger] cells.drop_last()[k]) as int == c
                && count_eq(cells.drop_last().take(k), c) == m;
        assert(cells.drop_last().take(k) =~= cells.take(k));
        assert(0 <= k < n && cells[k] as int == c && count_eq(cells.take(k), c) == m);
    }
}

/// A destination inside cell `c`'s slot range belongs to a point of cell
/// `c`: the cells' ranges are disjoint.
pub proof fn lemma_dest_slot_cell(cells: Seq<u32>, cc: int, c: int, r: int)
    requires
        forall|j: int| 0 <= j < cells.len() ==> (#[trigger] cells[j]) < cc,
        0 <= r < cells.len(),
        count_lt(cells, c) <= dest_of(cells, r) < count_lt(cells, c + 1),
    ensures
        cells[r] as int == c,
{
    let cr = cells[r] as int;
    lemma_dest_in_range(cells, cc, r);
    if cr < c {
        lemma_count_lt_mono(cells, cr + 1, c);
    }
    if cr > c {
        lemma_count_lt_mono(cells, c + 1, cr);
    }
}

/// Model of the bucket-count kernel: one invocation per point computes the
/// point's cell index and atomically increments that cell's counter.  Every
/// increment lands exactly once whatever the arrival order, so the result
/// is the per-cell point count.
#[verifier::loop_isolation(false)]
pub fn fenns_sort1(cells: &Vec<u32>, cell_count: u32) -> (counts: Vec<u32>)
    requires
        cells.len() <= 0xFFFF_FFFF,
        forall|k: int| 0 <= k < cells.len() ==> (#[trigger] cells@[k]) < cell_count,
    ensures
        counts.len() == cell_count,
        forall|c: int| 0 <= c < cell_count ==> (#[trigger] counts@[c]) as int == count_eq(cells@, c),
{
    let n = cells.len();
    let mut counts: Vec<u32> = Vec::new();
    let mut c: usize = 0;
    while c < cell_count as usize
        invariant
            counts.len() == c,
            c <= cell_count,
            forall|j: int| 0 <= j < c ==> (#[trigger] counts@[j]) == 0u32,
        decreases cell_count - c,
    {
        counts.push(0);
        c += 1;
    }
    let mut k: usize = 0;
    while k < n
        invariant
            counts.len() == cell_count,
            0 <= k <= n,
            forall|c: int|
                0 <= c < cell_count ==> (#[trigger] counts@[c]) as int == count_eq(
                    cells@.take(k as int),
                    c,
                ),
        decreases n - k,
    {
        let cell = cells[k] as usize;
        let cur = counts[cell];
        proof {
            lemma_count_bounds(cells@.take(k as int), cell as int);
            lemma_count_take_step(cells@, k as int);
        }
        counts.set(cell, cur + 1);
        k += 1;
    }
    proof {
        lemma_take_all(cells@);
    }
    counts
}

/// Model of the bucket-shift kernel, run after the scan engine has turned
/// the first half of the offset/cursor table into the inclusive scan of the
/// counts: it writes the exclusive prefix sums into `[0, cell_count)` —
/// every inclusive value moves one slot right and slot `0` becomes `0` —
/// puts the zero sentinel at `cell_count`, and seeds the cursor half
/// `(cell_count, 2 * cell_count]` with the same exclusive values.
#[verifier::loop_isolation(false)]
pub fn fenns_sort_shift(table: &mut Vec<u32>, cell_count: u32)
    requires
        old(table).len() == 2 * cell_count + 1,
        cell_count >= 1,
    ensures
        final(table).len() == old(table).len(),
        final(table)@[cell_count as int] == 0u32,
        forall|c: int|
            0 <= c < cell_count ==> (#[trigger] final(table)@[c]) == (if c == 0 {
                0u32
            } else {
                old(table)@[c - 1]
            }),
        forall|c: int|
            0 <= c < cell_count ==> (#[trigger] final(table)@[cell_count + 1 + c])
                == final(table)@[c],
{
    let cc = cell_count as usize;
    let ghost orig = table@;
    let mut c: usize = 0;
    while c < cc
        invariant
            table.len() == 2 * cell_count + 1,
            0 <= c <= cc,
            cc == cell_count,
            forall|j: int| 0 <= j < cc ==> (#[trigger] table@[j]) == orig[j],
            forall|j: int|
                0 <= j < c ==> (#[trigger] table@[cc + 1 + j]) == (if j == 0 {
                    0u32
                } else {
                    orig[j - 1]
                }),
        decreases cc - c,
    {
        let v = if c == 0 {
            0
        } else {
            table[c - 1]
        };
        table.set(cc + 1 + c, v);
        c += 1;
    }
    table.set(cc, 0);
    let mut idx: usize = cc;
    while idx > 1
        invariant
            table.len() == 2 * cell_count + 1,
            1 <= idx <= cc,
            cc == cell_count,
            forall|j: int| 0 <= j < idx ==> (#[trigger] table@[j]) == orig[j],
            forall|j: int| idx <= j < cc ==> (#[trigger] table@[j]) == orig[j - 1],
            table@[cc as int] == 0u32,
            forall|j: int|
                0 <= j < cc ==> (#[trigger] table@[cc + 1 + j]) == (if j == 0 {
                    0u32
                } else {
                    orig[j - 1]
                }),
        decreases idx,
    {
        idx -= 1;
        let v = table[idx - 1];
        table.set(idx, v);
    }
    table.set(0, 0);
}

/// Model of the bucket-scatter kernel: one invocation per point recomputes
/// the point's cell, obtains a unique destination slot by atomically
/// bumping the cell's cursor, and stores the point's index there.  The
/// model hands out cursor values in point order, so `dest_of` names each
/// point's slot exactly; under concurrent execution the order within one
/// cell follows atomic arrival instead, but every admissible outcome fills
/// exactly the cells' slot ranges, which is what the pipeline's contract
/// uses.
#[verifier::loop_isolation(false)]
pub fn fenns_sort2(cells: &Vec<u32>, table: &mut Vec<u32>, cell_count: u32) -> (reordered: Vec<
    u32,
>)
    requires
        cells.len() <= 0xFFFF_FFFF,
        forall|k: int| 0 <= k < cells.len() ==> (#[trigger] cells@[k]) < cell_count,
        old(table).len() == 2 * cell_count + 1,
        forall|c: int|
            0 <= c < cell_count ==> (#[trigger] old(table)@[c]) as int == count_lt(cells@, c),
        forall|c: int|
            0 <= c < cell_count ==> (#[trigger] old(table)@[cell_count + 1 + c]) == old(table)@[c],
    ensures
        final(table).len() == old(table).len(),
        forall|j: int| 0 <= j <= cell_count ==> #[trigger] final(table)@[j] == old(table)@[j],
        forall|c: int|
            0 <= c < cell_count ==> (#[trigger] final(table)@[cell_count + 1 + c]) as int
                == count_lt(cells@, c + 1),
        reordered.len() == cells.len(),
        forall|k: int|
            0 <= k < cells.len() ==> (#[trigger] reordered@[dest_of(cells@, k)]) as int == k,
        forall|j: int|
            0 <= j < cells.len() ==> ((#[trigger] reordered@[j]) as int) < cells.len() && dest_of(
                cells@,
                reordered@[j] as int,
            ) == j,
{
    let n = cells.len();
    let cc = cell_count as usize;
    let ghost table0 = table@;
    let mut reordered: Vec<u32> = Vec::new();
    let mut i: usize = 0;
    while i < n
        invariant
            reordered.len() == i,
            0 <= i <= n,
        decreases n - i,
    {
        reordered.push(0);
        i += 1;
    }
    let mut k: usize = 0;
    while k < n
        invariant
            reordered.len() == n,
            table.len() == 2 * cell_count + 1,
            0 <= k <= n,
            forall|j: int| 0 <= j <= cell_count ==> #[trigger] table@[j] == table0[j],
            forall|c: int|
                0 <= c < cell_count ==> (#[trigger] table@[cell_count + 1 + c]) as int == count_lt(
                    cells@,
                    c,
                ) + count_eq(cells@.take(k as int), c),
            forall|kk: int|
                0 <= kk < k ==> (#[trigger] reordered@[dest_of(cells@, kk)]) as int == kk,
        decreases n - k,
    {
        let cell = cells[k] as usize;
        let cur_idx = cc + 1 + cell;
        let d = table[cur_idx];
        proof {
            lemma_dest_in_range(cells@, cell_count as int, k as int);
            lemma_count_take_step(cells@, k as int);
            assert(d as int == dest_of(cells@, k as int));
        }
        table.set(cur_idx, d + 1);
        reordered.set(d as usize, k as u32);
        proof {
            assert forall|kk: int|
                0 <= kk < k + 1 implies (#[trigger] reordered@[dest_of(cells@, kk)]) as int
                == kk by {
                lemma_dest_in_range(cells@, cell_count as int, kk);
                if kk < k {
                    lemma_dest_injective(cells@, cell_count as int, kk, k as int);
                }
            }
        }
        k += 1;
    }
    proof {
        lemma_take_all(cells@);
        assert forall|c: int|
            0 <= c < cell_count implies (#[trigger] table@[cell_count + 1 + c]) as int == count_lt(
            cells@,
            c + 1,
        ) by {
            lemma_count_lt_step(cells@, c);
        }
        assert forall|j: int|
            0 <= j < n implies ((#[trigger] reordered@[j]) as int) < n && dest_of(
            cells@,
            reordered@[j] as int,
        ) == j by {
            lemma_count_lt_extremes(cells@, cell_count as int);
            lemma_slot_cell(cells@, cell_count as int, j);
            let c = choose|c: int|
                0 <= c < cell_count as int && #[trigger] count_lt(cells@, c) <= j < count_lt(
                    cells@,
                    c + 1,
                );
            lemma_count_lt_step(cells@, c);
            lemma_nth_occurrence(cells@, c, j - count_lt(cells@, c));
            let w = choose|w: int|
                0 <= w < cells@.len() && (#[trigger] cells@[w]) as int == c && count_eq(
                    cells@.take(w),
                    c,
                ) == j - count_lt(cells@, c);
            assert(dest_of(cells@, w) == j);
            assert(reordered@[dest_of(cells@, w)] as int == w);
        }
    }
    reordered
}

/// Summing the per-cell counts of the cells below `hi` counts the points
/// below `hi`.
proof fn lemma_sum_counts(cells: Seq<u32>, tab: Seq<u32>, hi: int)
    requires
        0 <= hi <= tab.len(),
        forall|c: int| 0 <= c < hi ==> (#[trigger] tab[c]) as int == count_eq(cells, c),
    ensures
        sum_range(tab, 0, hi) == count_lt(cells, hi),
    decreases hi,
{
    if hi > 0 {
        lemma_sum_counts(cells, tab, hi - 1);
        lemma_count_lt_step(cells, hi - 1);
    } else {
        lemma_count_lt_zero(cells);
    }
}

/// The full counting-sort pipeline over one point set: `cells[k]` is the
/// grid cell of point `k`, and the grid has `cell_count` cells.  Returns
/// `(offsets, reordered)`: `offsets[c]` is the number of points in cells
/// below `c` — so `offsets[0] == 0`, the entries never decrease, and
/// `offsets[cell_count]` is the point count — and `reordered[j]` is the
/// index of the point occupying slot `j`, a permutation of the points in
/// which cell `c`'s points occupy exactly the slots
/// `[offsets[c], offsets[c + 1])`.
///
/// The three stages run in order: the count kernel tallies the cells, the
/// scan engine and the shift kernel build the offset/cursor table, and the
/// scatter kernel places the points.
#[verifier::loop_isolation(false)]
pub fn counting_sort(cells: &Vec<u32>, cell_count: u32) -> (out: (Vec<u32>, Vec<u32>))
    requires
        cells.len() <= 0xFFFF_FFFF,
        1 <= cell_count <= 0x7FFF_FFFF,
        forall|k: int| 0 <= k < cells.len() ==> (#[trigger] cells@[k]) < cell_count,
    ensures
        out.0.len() == cell_count + 1,
        forall|c: int| 0 <= c <= cell_count ==> (#[trigger] out.0@[c]) as int == count_lt(cells@, c),
        out.0@[0] == 0u32,
        forall|c: int| 0 <= c < cell_count ==> (#[trigger] out.0@[c]) <= out.0@[c + 1],
        out.0@[cell_count as int] as int == cells.len(),
        out.1.len() == cells.len(),
        forall|k: int| 0 <= k < cells.len() ==> (#[trigger] out.1@[dest_of(cells@, k)]) as int == k,
        forall|j: int|
            0 <= j < cells.len() ==> ((#[trigger] out.1@[j]) as int) < cells.len() && dest_of(
                cells@,
                out.1@[j] as int,
            ) == j,
        forall|c: int, j: int|
            #![trigger count_lt(cells@, c), out.1@[j]]
            0 <= c < cell_count && count_lt(cells@, c) <= j < count_lt(cells@, c + 1)
                ==> cells@[out.1@[j] as int] as int == c,
        forall|j1: int, j2: int|
            0 <= j1 < j2 < cells.len() ==> (#[trigger] out.1@[j1]) != (#[trigger] out.1@[j2]),
{
    let n = cells.len();
    let cc = cell_count as usize;
    let counts = fenns_sort1(cells, cell_count);
    let mut table: Vec<u32> = Vec::new();
    let mut c: usize = 0;
    while c < cc
        invariant
            table.len() == c,
            0 <= c <= cc,
            forall|j: int| 0 <= j < c ==> #[trigger] table@[j] == counts@[j],
        decreases cc - c,
    {
        table.push(counts[c]);
        c += 1;
    }
    let mut z: usize = 0;
    while z < cc + 1
        invariant
            table.len() == cc + z,
            0 <= z <= cc + 1,
            forall|j: int| 0 <= j < cc ==> #[trigger] table@[j] == counts@[j],
        decreases cc + 1 - z,
    {
        table.push(0);
        z += 1;
    }
    let ghost filled = table@;
    prefix_sum_inner(&mut table);
    let ghost scanned = table@;
    proof {
        assert forall|c2: int| 0 <= c2 < cc implies (#[trigger] scanned[c2]) as int == count_lt(
            cells@,
            c2 + 1,
        ) by {
            lemma_sum_counts(cells@, filled, c2 + 1);
            lemma_count_bounds(cells@, c2 + 1);
            lemma_count_lt_mono(cells@, c2 + 1, cell_count as int);
            lemma_count_lt_extremes(cells@, cell_count as int);
            lemma_small_mod(count_lt(cells@, c2 + 1) as nat, WORD_MODULUS as nat);
            assert(scanned[c2] == scan_val(filled, c2));
        }
    }
    fenns_sort_shift(&mut table, cell_count);
    proof {
        lemma_count_lt_zero(cells@);
        assert forall|c2: int| 0 <= c2 < cc implies (#[trigger] table@[c2]) as int == count_lt(
            cells@,
            c2,
        ) by {
            if c2 > 0 {
                assert(table@[c2] == scanned[c2 - 1]);
            }
        }
    }
    let reordered = fenns_sort2(cells, &mut table, cell_count);
    let mut offsets: Vec<u32> = Vec::new();
    let mut c3: usize = 0;
    while c3 < cc
        invariant
            offsets.len() == c3,
            0 <= c3 <= cc,
            forall|j: int| 0 <= j < c3 ==> #[trigger] offsets@[j] == table@[j],
            table.len() == 2 * cell_count + 1,
            forall|c2: int|
                0 <= c2 < cc ==> (#[trigger] table@[c2]) as int == count_lt(cells@, c2),
        decreases cc - c3,
    {
        offsets.push(table[c3]);
        c3 += 1;
    }
    offsets.push(n as u32);
    proof {
        lemma_count_lt_extremes(cells@, cell_count as int);
        assert forall|c2: int| 0 <= c2 <= cell_count implies (#[trigger] offsets@[c2]) as int
            == count_lt(cells@, c2) by {}
        assert forall|c2: int| 0 <= c2 < cell_count implies (#[trigger] offsets@[c2]) <= offsets@[c2
            + 1] by {
            lemma_count_lt_mono(cells@, c2, c2 + 1);
        }
        assert forall|c2: int, j: int|
            #![trigger count_lt(cells@, c2), reordered@[j]]
            0 <= c2 < cell_count && count_lt(cells@, c2) <= j < count_lt(cells@, c2 + 1) implies
            cells@[reordered@[j] as int] as int == c2 by {
            lemma_count_bounds(cells@, c2);
            lemma_count_lt_mono(cells@, c2 + 1, cell_count as int);
            lemma_dest_slot_cell(cells@, cell_count as int, c2, reordered@[j] as int);
        }
        assert forall|j1: int, j2: int| 0 <= j1 < j2 < n implies (#[trigger] reordered@[j1]) != (
        #[trigger] reordered@[j2]) by {}
    }
    (offsets, reordered)
}

} // verus!

