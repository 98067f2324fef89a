use rand::Rng;
use rand_xoshiro::rand_core::SeedableRng;
use rand_xoshiro::Xoshiro256PlusPlus;

use pashmina::fenns::{counting_sort, fenns_sort1, fenns_sort_shift, fenns_sort2};
use pashmina::prefix_sum::prefix_sum_inner;

/// Cell population of a seeded grid: every cell of an `grid_dim`-cubed grid
/// receives 1 to 10 points.  Returns the per-point cell indices (points of
/// one cell are consecutive, as when cell `i`'s points are generated inside
/// cell `i`'s bounds) and the per-cell counts.
fn gen_cells(seed: u64, grid_dim: usize) -> (Vec<u32>, Vec<u32>) {
    let mut rng = Xoshiro256PlusPlus::seed_from_u64(seed);
    let grid_size = grid_dim * grid_dim * grid_dim;
    let counts: Vec<u32> = (0..grid_size).map(|_| rng.gen_range(1..=10)).collect();
    let mut cells: Vec<u32> = Vec::new();
    for (i, n) in counts.iter().enumerate() {
        for _ in 0..*n {
            cells.push(i as u32);
        }
    }
    (cells, counts)
}

#[test]
fn check_fenns_sort1() {
    const SEED: u64 = 0;
    const GRID_DIM: usize = 18;
    const GRID_SIZE: usize = GRID_DIM * GRID_DIM * GRID_DIM;
    let (cells, counts) = gen_cells(SEED, GRID_DIM);

    let total: u32 = counts.iter().sum();
    assert_eq!(cells.len() as u32, total);

    let result = fenns_sort1(&cells, GRID_SIZE as u32);
    assert_eq!(result, counts);
}

#[test]
fn check_fenns_sort2() {
    const SEED: u64 = 0;
    const GRID_DIM: usize = 18;
    const GRID_SIZE: usize = GRID_DIM * GRID_DIM * GRID_DIM;
    let (cells, counts) = gen_cells(SEED, GRID_DIM);

    let total: u32 = counts.iter().sum();
    assert_eq!(cells.len() as u32, total);

    // Build the offset/cursor table by the pipeline's stages and check the
    // shift kernel's layout: a zero sentinel in the middle, and the cursor
    // half seeded equal to the offset half.
    let counted = fenns_sort1(&cells, GRID_SIZE as u32);
    let mut table: Vec<u32> = Vec::with_capacity(2 * GRID_SIZE + 1);
    table.extend_from_slice(&counted);
    table.resize(2 * GRID_SIZE + 1, 0);
    prefix_sum_inner(&mut table);
    fenns_sort_shift(&mut table, GRID_SIZE as u32);
    assert_eq!(table[GRID_SIZE], 0);
    for c in 0..GRID_SIZE {
        assert_eq!(table[c], table[GRID_SIZE + 1 + c]);
    }

    let reordered = fenns_sort2(&cells, &mut table, GRID_SIZE as u32);
    assert_eq!(reordered.len(), cells.len());

    // Every point must reappear, inside its own cell's offset range.
    let mut offset = 0usize;
    for (c, count) in counts.iter().enumerate() {
        let end = offset + *count as usize;
        for j in offset..end {
            let point = reordered[j] as usize;
            assert!(
                cells[point] as usize == c,
                "point {} landed in cell {}'s range but belongs to cell {}",
                point,
                c,
                cells[point]
            );
        }
        offset = end;
    }
    assert_eq!(offset, cells.len());

    // And the reorder is a permutation: each point index exactly once.
    let mut seen = vec![false; cells.len()];
    for r in &reordered {
        assert!(!seen[*r as usize]);
        seen[*r as usize] = true;
    }
}

#[test]
fn counting_sort_small() {
    let cells: Vec<u32> = vec![2, 0, 1, 0, 2, 2];
    let (offsets, reordered) = counting_sort(&cells, 3);
    assert_eq!(offsets, vec![0, 2, 3, 6]);
    // The model's cursors hand out slots in point order, so each cell keeps
    // its points' relative order.
    assert_eq!(reordered, vec![1, 3, 2, 0, 4, 5]);
}

#[test]
fn counting_sort_no_points() {
    let cells: Vec<u32> = vec![];
    let (offsets, reordered) = counting_sort(&cells, 5);
    assert_eq!(offsets, vec![0, 0, 0, 0, 0, 0]);
    assert_eq!(reordered, Vec::<u32>::new());
}

#[test]
fn counting_sort_single_cell() {
    let cells: Vec<u32> = vec![0, 0, 0, 0];
    let (offsets, reordered) = counting_sort(&cells, 1);
    assert_eq!(offsets, vec![0, 4]);
    assert_eq!(reordered, vec![0, 1, 2, 3]);
}

#[test]
fn counting_sort_empty_cells_between() {
    // Cells 1 and 3 hold no points: their offset ranges are empty.
    let cells: Vec<u32> = vec![4, 0, 4, 2];
    let (offsets, reordered) = counting_sort(&cells, 5);
    assert_eq!(offsets, vec![0, 1, 1, 2, 2, 4]);
    assert_eq!(reordered, vec![1, 3, 0, 2]);
}

#[test]
fn counting_sort_offsets_properties() {
    // The offset table's stated properties on an arbitrary seeded set.
    let (cells, _) = gen_cells(7, 6);
    let cc = 6 * 6 * 6;
    let (offsets, reordered) = counting_sort(&cells, cc as u32);
    assert_eq!(offsets.len(), cc + 1);
    assert_eq!(offsets[0], 0);
    for c in 0..cc {
        assert!(offsets[c] <= offsets[c + 1]);
    }
    assert_eq!(offsets[cc] as usize, cells.len());
    for c in 0..cc {
        for j in offsets[c]..offsets[c + 1] {
            assert_eq!(cells[reordered[j as usize] as usize], c as u32);
        }
    }
}
