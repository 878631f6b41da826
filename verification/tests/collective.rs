use massively::collective::{block_exclusive_sum, row_exclusive_sum};

#[test]
fn block_sum_crosses_planes() {
    let values: Vec<u32> = (1..=100).collect();
    for plane_dim in [1, 7, 32, 64, 256] {
        let (prefixes, total) = block_exclusive_sum(&values, plane_dim);
        assert_eq!(total, 5050);
        assert_eq!(prefixes[0], 0);
        assert_eq!(prefixes[10], 55);
        assert_eq!(prefixes[99], 4950);
    }
}

#[test]
fn row_sum_with_uneven_lane_chunks() {
    let row: Vec<u32> = (0..1000).map(|i| i % 13).collect();
    let (prefixes, total) = row_exclusive_sum(&row, 256, 32);
    let mut expected = 0u32;
    for (index, &value) in row.iter().enumerate() {
        assert_eq!(prefixes[index], expected);
        expected += value;
    }
    assert_eq!(total, expected);
    let (empty, zero) = row_exclusive_sum(&Vec::new(), 3, 32);
    assert!(empty.is_empty());
    assert_eq!(zero, 0);
}

#[test]
fn device_sums_wrap() {
    let (prefixes, total) = block_exclusive_sum(&vec![u32::MAX, 3, 4], 2);
    assert_eq!(prefixes, vec![0, u32::MAX, 2]);
    assert_eq!(total, 6);
}
