use massively::radix::{
    float_key_bits32, float_key_bits64, add_histogram_chunk_prefix, bucket_offsets, histogram_chunk_prefix, histogram_chunk_scan,
    histogram_prefix, permutation, radix_digit, radix_items_per_unit, RadixControl, RadixStorage,
    Zip, BLOCK_SIZE, RADIX_BUCKETS,
};
use massively::error::Error;

const RADIX_BLOCK_ITEMS: usize = BLOCK_SIZE * 4;

fn nested(flat: &[u32], blocks: usize) -> Vec<Vec<u32>> {
    (0..RADIX_BUCKETS)
        .map(|bucket| flat[bucket * blocks..(bucket + 1) * blocks].to_vec())
        .collect()
}

fn flatten(rows: &[Vec<u32>]) -> Vec<u32> {
    rows.iter().flatten().copied().collect()
}

#[test]
fn radix_tiles_preserve_stability_across_partial_blocks() {
    for items_per_unit in [4, 8] {
        let len = BLOCK_SIZE * items_per_unit * 3 + 19;
        let keys: Vec<u32> = (0..len)
            .map(|i| ((i * 37 % 23) as u32) | (((i % 19) as u32) << 24))
            .collect();
        let mut expected: Vec<u32> = (0..len as u32).collect();
        expected.sort_by_key(|&index| keys[index as usize]);
        let mut control = RadixControl::new(len, items_per_unit, 32).unwrap();
        keys.radix_passes(&mut control).unwrap();
        assert_eq!(control.current(), &expected);
    }
}

#[test]
fn histogram_prefix_and_bucket_offsets_are_independent_controls() {
    let blocks = 2usize;
    let logical_len = RADIX_BLOCK_ITEMS + 4usize;
    let mut input_histograms = vec![0u32; RADIX_BUCKETS * blocks];
    input_histograms[0] = 100;
    input_histograms[1] = 2;
    input_histograms[2 * blocks + 1] = 2;
    input_histograms[3 * blocks] = (RADIX_BLOCK_ITEMS - 100usize) as u32;

    let histograms = nested(&input_histograms, blocks);
    let (prefixes, totals) = histogram_prefix(&histograms, blocks, 32);
    let offsets = bucket_offsets(&totals, 32);

    assert_eq!(flatten(&histograms), input_histograms);

    let mut expected_prefixes = vec![0u32; RADIX_BUCKETS * blocks];
    expected_prefixes[1] = 100;
    expected_prefixes[3 * blocks + 1] = (RADIX_BLOCK_ITEMS - 100usize) as u32;
    assert_eq!(flatten(&prefixes), expected_prefixes);

    let mut expected_totals = vec![0u32; RADIX_BUCKETS];
    expected_totals[0] = 102;
    expected_totals[2] = 2;
    expected_totals[3] = (RADIX_BLOCK_ITEMS - 100usize) as u32;
    assert_eq!(totals, expected_totals);

    let mut expected_offsets = vec![logical_len as u32; RADIX_BUCKETS];
    expected_offsets[0] = 0;
    expected_offsets[1] = 102;
    expected_offsets[2] = 102;
    expected_offsets[3] = 104;
    assert_eq!(offsets, expected_offsets);
}

#[test]
fn hierarchical_histogram_prefix_matches_serial_exclusive_scan() {
    let blocks = BLOCK_SIZE + 17usize;
    let chunks = blocks.div_ceil(BLOCK_SIZE);
    let flat: Vec<u32> = (0..RADIX_BUCKETS)
        .flat_map(|bucket| {
            (0..blocks).map(move |block| ((bucket * 3usize + block * 5usize) % 7usize) as u32)
        })
        .collect();
    let histograms = nested(&flat, blocks);
    let (local, chunk_totals) = histogram_chunk_scan(&histograms, blocks, 32);
    let (chunk_prefixes, totals) = histogram_chunk_prefix(&chunk_totals, chunks, 32);
    let prefixes = add_histogram_chunk_prefix(&chunk_prefixes, &local, blocks);

    let actual = flatten(&prefixes);
    for bucket in 0..RADIX_BUCKETS {
        let mut expected = 0u32;
        for block in 0..blocks {
            let index = bucket * blocks + block;
            assert_eq!(actual[index], expected, "bucket {bucket}, block {block}");
            expected += flat[index];
        }
        assert_eq!(totals[bucket], expected, "bucket {bucket}");
    }
}

#[test]
fn radix_digits_order_signed_keys_by_value() {
    assert_eq!(radix_digit(-1i32, 24), 0x7f);
    assert_eq!(radix_digit(0i32, 24), 0x80);
    assert_eq!(radix_digit(0x1234_5678u32, 8), 0x56);
    assert_eq!(radix_digit(i64::MIN, 56), 0);
    assert_eq!(radix_digit(-2i8, 0), 0x7e);
}

#[test]
fn permutation_sorts_signed_keys_stably() {
    let keys: Vec<i32> = vec![3, -1, 2, -1, 0, i32::MIN, i32::MAX, 2];
    let order = permutation(&keys, keys.len(), 4, 32).unwrap();
    assert_eq!(order, vec![5, 1, 3, 4, 2, 7, 0, 6]);
}

#[test]
fn permutation_orders_zipped_columns_with_the_first_primary() {
    let first: Vec<u8> = vec![1, 0, 1, 0, 1];
    let second: Vec<u16> = vec![5, 9, 1, 9, 1];
    let keys = Zip(first, second);
    let order = permutation(&keys, 5, 8, 16).unwrap();
    assert_eq!(order, vec![1, 3, 2, 4, 0]);
}

#[test]
fn permutation_of_no_rows_is_empty() {
    let keys: Vec<u64> = Vec::new();
    assert_eq!(permutation(&keys, 0, 4, 32).unwrap(), Vec::<u32>::new());
}

#[test]
fn radix_control_refuses_rows_beyond_the_index_domain() {
    let len = u32::MAX as usize + 1;
    assert!(matches!(
        RadixControl::new(len, 4, 32),
        Err(Error::LengthTooLarge { len: l }) if l == len
    ));
}

#[test]
fn shared_memory_picks_rows_per_lane() {
    assert_eq!(radix_items_per_unit(28 * 1024), 8);
    assert_eq!(radix_items_per_unit(16 * 1024), 4);
}

#[test]
fn long_keys_across_chunked_histograms_sort_stably() {
    let len = BLOCK_SIZE * 4 * 300 + 5;
    let keys: Vec<u64> = (0..len as u64).map(|i| (i * 2_654_435_761) % 1000).collect();
    let mut expected: Vec<u32> = (0..len as u32).collect();
    expected.sort_by_key(|&index| keys[index as usize]);
    assert_eq!(permutation(&keys, len, 4, 32).unwrap(), expected);
}

#[test]
fn float_bit_keys_order_by_sign_and_magnitude() {
    let values = [-1.5_f32, 0.0, -0.0, 2.0, -3.0, 1.0, f32::INFINITY, f32::NEG_INFINITY];
    let keys: Vec<u32> = values.iter().map(|v| float_key_bits32(v.to_bits())).collect();
    let order = permutation(&keys, keys.len(), 4, 32).unwrap();
    let sorted: Vec<u32> = order.iter().map(|&i| values[i as usize].to_bits()).collect();
    let expected: Vec<u32> =
        [f32::NEG_INFINITY, -3.0, -1.5, -0.0, 0.0, 1.0, 2.0, f32::INFINITY].iter().map(|v| v.to_bits()).collect();
    assert_eq!(sorted, expected);
    assert!(float_key_bits64((-2.0_f64).to_bits()) < float_key_bits64((-1.0_f64).to_bits()));
    assert!(float_key_bits64((-0.0_f64).to_bits()) < float_key_bits64(0.0_f64.to_bits()));
    assert!(float_key_bits64(1.0_f64.to_bits()) < float_key_bits64(1.5_f64.to_bits()));
}
