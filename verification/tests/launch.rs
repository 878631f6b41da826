use massively::launch::{cube_count_1d, logical_block_count, plane_count_bound, CubeCount};
use massively::error::Error;

#[test]
fn dispatch_padding_stays_within_the_index_domain() {
    for blocks in [1u32, 65_535, 65_537, 524_287, 524_288, 16_777_213, u32::MAX] {
        let CubeCount::Static(x, y, z) = cube_count_1d(blocks as usize).unwrap();
        assert!([x, y, z].iter().all(|&axis| axis <= 65_535));
        let actual = u64::from(x) * u64::from(y) * u64::from(z);
        assert!(actual >= u64::from(blocks));
        assert!(actual <= u64::from(blocks).next_power_of_two());
    }
}

#[test]
fn dispatch_of_small_grids_is_one_axis() {
    assert_eq!(cube_count_1d(1).unwrap(), CubeCount::Static(1, 1, 1));
    assert_eq!(cube_count_1d(65_535).unwrap(), CubeCount::Static(65_535, 1, 1));
}

#[test]
fn dispatch_beyond_the_index_domain_is_refused() {
    let blocks = u32::MAX as usize + 1;
    assert_eq!(cube_count_1d(blocks), Err(Error::LengthTooLarge { len: blocks }));
}

#[test]
fn logical_block_count_rounds_up_without_overflow() {
    assert_eq!(logical_block_count(0, 256), 0);
    assert_eq!(logical_block_count(1, 256), 1);
    assert_eq!(logical_block_count(256, 256), 1);
    assert_eq!(logical_block_count(257, 256), 2);
    assert_eq!(logical_block_count(usize::MAX, 256), usize::MAX / 256 + 1);
}

#[test]
fn plane_count_bound_covers_the_smallest_planes() {
    assert_eq!(plane_count_bound(256, 32), 8);
    assert_eq!(plane_count_bound(256, 0), 256);
    assert_eq!(plane_count_bound(100, 32), 4);
}
