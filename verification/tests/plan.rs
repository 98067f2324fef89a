use pashmina::plan::{dispatch_chunks, scan_levels, workgroup_count};

#[test]
fn workgroup_count_rounds_up() {
    assert_eq!(workgroup_count(0, 256), 0);
    assert_eq!(workgroup_count(1, 256), 1);
    assert_eq!(workgroup_count(256, 256), 1);
    assert_eq!(workgroup_count(257, 256), 2);
    assert_eq!(workgroup_count(1000, 64), 16);
    assert_eq!(workgroup_count(1024, 64), 16);
}

#[test]
fn dispatch_chunks_cover_the_row() {
    let chunks = dispatch_chunks(0, 200_000);
    assert_eq!(chunks.len(), 4);
    let mut expected_first = 0u32;
    let mut covered = 0u32;
    for c in &chunks {
        assert_eq!(c.first_workgroup, expected_first);
        assert!(c.workgroup_count >= 1);
        assert!(c.workgroup_count <= 65535);
        expected_first += c.workgroup_count;
        covered += c.workgroup_count;
    }
    assert_eq!(covered, 200_000);

    let one = dispatch_chunks(1, 64);
    assert_eq!(one.len(), 1);
    assert_eq!(one[0].first_workgroup, 1);
    assert_eq!(one[0].workgroup_count, 64);

    let none = dispatch_chunks(0, 0);
    assert_eq!(none.len(), 0);
}

#[test]
fn scan_levels_shrink_by_block_size() {
    assert_eq!(scan_levels(1), vec![1]);
    assert_eq!(scan_levels(256), vec![256]);
    assert_eq!(scan_levels(257), vec![257, 2]);
    assert_eq!(scan_levels(65536), vec![65536, 256]);
    assert_eq!(scan_levels(65536 * 256 + 1), vec![65536 * 256 + 1, 65537, 257, 2]);
}
