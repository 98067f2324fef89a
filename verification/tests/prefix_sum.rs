use pashmina::prefix_sum::prefix_sum;

fn prefix_sum_cpu(input: &[u32]) -> Vec<u32> {
    input
        .iter()
        .scan(0u32, |acc, x| {
            *acc = acc.wrapping_add(*x);
            Some(*acc)
        })
        .collect()
}

fn assert_slices_eq(left: &[u32], right: &[u32]) {
    assert_eq!(left.len(), right.len());
    for (i, (a, b)) in left.iter().zip(right.iter()).enumerate() {
        if a != b {
            panic!("vec mismatch at index {}: {} vs {}", i, a, b);
        }
    }
}

#[test]
fn trivial_input_works() {
    assert_slices_eq(&prefix_sum(&vec![]), &[]);
    assert_slices_eq(&prefix_sum(&vec![3]), &[3]);
    let input = vec![0; 1 << 20];
    assert_slices_eq(&prefix_sum(&input), &input);
}

#[test]
fn short_sum_works() {
    for n in 1..=256u32 {
        let input: Vec<u32> = (1..=n).collect();
        let expected = prefix_sum_cpu(&input);
        let result = prefix_sum(&input);
        assert_slices_eq(&result, &expected);
    }
}

#[test]
fn long_sum_works() {
    let input: Vec<u32> = (1..=(1u32 << 11)).collect();
    let expected = prefix_sum_cpu(&input);
    let result = prefix_sum(&input);
    assert_slices_eq(&result, &expected);
}

#[test]
fn very_long_sum_works() {
    let input: Vec<u32> = (1..=16u32).cycle().take(1 << 23).collect();
    assert_slices_eq(&prefix_sum(&input), &prefix_sum_cpu(&input));
}

#[test]
fn very_very_long_sum_works() {
    let input: Vec<u32> = (1..=16u32).cycle().take(1 << 25).collect();
    let expected = prefix_sum_cpu(&input);
    let result = prefix_sum(&input);
    assert_slices_eq(&result, &expected);
}

#[test]
fn sequential_inputs_match_reference() {
    for n in [0u32, 1, 2, 255, 256, 257, 4096, 65536 * 256 + 1] {
        let input: Vec<u32> = (1..=n).collect();
        let expected = prefix_sum_cpu(&input);
        let result = prefix_sum(&input);
        assert_slices_eq(&result, &expected);
    }
}

#[test]
fn zeros_scan_to_zeros() {
    for n in [5usize, 256, 4096, 100_000] {
        let input = vec![0u32; n];
        assert_slices_eq(&prefix_sum(&input), &input);
    }
}

#[test]
fn triangular_numbers() {
    let input: Vec<u32> = (1..=256u32).collect();
    let result = prefix_sum(&input);
    assert_eq!(result.len(), 256);
    for i in 0..256u32 {
        assert_eq!(result[i as usize], (i + 1) * (i + 2) / 2);
    }
    assert_eq!(result[0], 1);
    assert_eq!(result[1], 3);
    assert_eq!(result[2], 6);
    assert_eq!(result[255], 32896);
}

#[test]
fn block_boundaries_match_reference() {
    for n in [255u32, 256, 257] {
        let input: Vec<u32> = (1..=n).collect();
        let expected = prefix_sum_cpu(&input);
        let result = prefix_sum(&input);
        assert_slices_eq(&result, &expected);
    }
}

#[test]
fn chunked_dispatch_matches_reference() {
    // More elements than one physical dispatch covers (65535 workgroups of
    // 256 elements), so the engine must split the kernel invocation; the
    // result must be the same as the sequential reference regardless.
    let n: usize = 65535 * 256 + 123;
    let input: Vec<u32> = (1..=64u32).cycle().take(n).collect();
    let expected = prefix_sum_cpu(&input);
    let result = prefix_sum(&input);
    assert_slices_eq(&result, &expected);
}
