use massively::eval::{Count, Direct, PermuteExpr, Slot, ZipExpr};
use massively::materialize::exact;
use massively::ops::{ComposeAffine, Seven, Sum, SumPair, SumSeven, TakeLeft};
use std::marker::PhantomData;
use massively::reduce::{reduce, reduce_planes};
use massively::scan::{
    block_tails_u32, exclusive_scan, inclusive_scan, inclusive_scan_u32, last_u32,
    local_inclusive_scan_u32,
};

#[test]
fn inclusive_u32_scan_crosses_block_and_recursive_boundaries() {
    let input = vec![1_u32; 70_001];
    let actual = inclusive_scan_u32(&input);
    assert_eq!(actual[0], 1);
    assert_eq!(actual[255], 256);
    assert_eq!(actual[256], 257);
    assert_eq!(actual[65_535], 65_536);
    assert_eq!(actual[70_000], 70_001);
    assert_eq!(last_u32(&actual), vec![70_001]);
}

#[test]
fn local_u32_scan_and_block_tails_are_independent_controls() {
    let input = vec![1_u32; 300];
    let actual = local_inclusive_scan_u32(&input);
    assert_eq!(actual[0], 1);
    assert_eq!(actual[255], 256);
    assert_eq!(actual[256], 1);
    assert_eq!(actual[299], 44);
    assert_eq!(block_tails_u32(&actual), vec![256, 44]);
}

#[test]
fn split_scan_preserves_in_place_input_before_block_reduction() {
    let mut values = vec![1u32; 600];
    let input = values.clone();
    inclusive_scan(&input, Sum, &mut values).unwrap();
    assert_eq!(values[255], 256);
    assert_eq!(values[256], 257);
    assert_eq!(values[599], 600);
}

#[test]
fn exclusive_scan_preserves_in_place_rows_and_slice_sentinels() {
    for len in [1usize, 255, 256, 257, 1_025, 70_001] {
        let input: Vec<_> = (0..len).map(|i| i as u32 % 17 + 1).collect();
        let mut padded = vec![91u32];
        padded.extend(&input);
        padded.push(93);
        let mut values = padded.clone();
        let mut middle = values[1..len + 1].to_vec();
        exclusive_scan(&input, 19u32, Sum, &mut middle).unwrap();
        values[1..len + 1].copy_from_slice(&middle);
        let mut sum = 19u32;
        for (destination, value) in padded[1..len + 1].iter_mut().zip(input) {
            *destination = sum;
            sum += value;
        }
        assert_eq!(values, padded, "length {len}");
    }
}

#[test]
fn inclusive_pair_scan_crosses_recursive_block_boundary() {
    let len = 70_001;
    let input: Vec<(u32, u32)> = vec![(1_u32, 2_u32); len];
    let mut output = vec![(0u32, 0u32); len];
    inclusive_scan(&input, SumPair, &mut output).unwrap();
    for &index in &[0, 255, 256, 65_535, 70_000] {
        assert_eq!(output[index].0, index as u32 + 1);
        assert_eq!(output[index].1, 2 * (index as u32 + 1));
    }
}

#[test]
fn inclusive_scalar_scan_uses_padded_fixed_evaluator() {
    let input = vec![7_u32; 600];
    let mut output = vec![0_u32; 600];
    inclusive_scan(&input, Sum, &mut output).unwrap();
    assert_eq!(output[0], 7);
    assert_eq!(output[255], 7 * 256);
    assert_eq!(output[256], 7 * 257);
    assert_eq!(output[599], 7 * 600);
}

#[test]
fn exclusive_scalar_scan_applies_init_once() {
    let input = vec![1_u32, 2, 3, 4];
    let mut output = vec![99_u32; 6];
    let mut middle = output[1..5].to_vec();
    exclusive_scan(&input, 10_u32, Sum, &mut middle).unwrap();
    output[1..5].copy_from_slice(&middle);
    assert_eq!(output, vec![99, 10, 11, 13, 16, 99]);
}

#[test]
fn exclusive_scan_crosses_recursive_boundaries_in_operand_order() {
    let len = 70_001usize;
    let input = vec![1_u32; len];
    let mut output = vec![0_u32; len];
    exclusive_scan(&input, 10_u32, Sum, &mut output).unwrap();
    for &index in &[0, 255, 256, 65_535, 70_000] {
        assert_eq!(output[index], 10 + index as u32);
    }

    let mut ordered = vec![0_u32; 600];
    exclusive_scan(&input[..600].to_vec(), 42_u32, TakeLeft, &mut ordered).unwrap();
    assert_eq!(ordered, vec![42; 600]);
}

#[test]
fn inclusive_scan_takes_left_across_blocks() {
    let input: Vec<u32> = (5..605).collect();
    let mut output = vec![0u32; 600];
    inclusive_scan(&input, TakeLeft, &mut output).unwrap();
    assert_eq!(output, vec![5; 600]);
}

#[test]
fn scan_output_must_match_the_input_length() {
    let input: Vec<u32> = Vec::new();
    let mut output: Vec<u32> = Vec::new();
    inclusive_scan(&input, Sum, &mut output).unwrap();
    exclusive_scan(&input, 1, Sum, &mut output).unwrap();
    let mut longer = vec![3u32; 2];
    assert_eq!(
        inclusive_scan(&input, Sum, &mut longer),
        Err(massively::error::Error::LengthMismatch { left: 0, right: 2 })
    );
    assert_eq!(longer, vec![3, 3]);
}

#[test]
fn one_read_slot_storage1_fuses_column_transform_reduce() {
    let len = 4097;
    let values = vec![1_u32; len];
    let doubled: Vec<u32> = values.iter().map(|value| value * 2).collect();
    assert_eq!(reduce(&doubled, 7, Sum), 7 + 2 * len as u32);
}

#[test]
fn two_read_slots_storage1_fuse_binary_zip_transform_reduce() {
    let len = 4097;
    let left = vec![1_u32; len];
    let right = vec![2_u32; len];
    let added: Vec<u32> = left.iter().zip(&right).map(|(a, b)| a + b).collect();
    assert_eq!(reduce(&added, 0, Sum), 3 * len as u32);
}

#[test]
fn three_read_slots_storage1_use_flat_zip_semantics() {
    let len = 4097;
    let added: Vec<u32> = (0..len).map(|_| 1 + 2 + 3).collect();
    assert_eq!(reduce(&added, 0, Sum), 6 * len as u32);
}

#[test]
fn empty_reduce_returns_init_without_launching_or_staging() {
    let input: Vec<u32> = Vec::new();
    assert_eq!(reduce(&input, 42, Sum), 42);
}

#[test]
fn four_read_slots_storage1_use_the_fixed_evaluator_path() {
    let added: Vec<u32> = (0..513).map(|_| 1 + 2 + 3 + 4).collect();
    assert_eq!(reduce(&added, 5, Sum), 5 + 10 * 513);
}

#[test]
fn reduce_keeps_operand_order_across_tiles() {
    let len = 8192 * 2 + 17;
    let input: Vec<u32> = (0..len as u32).collect();
    assert_eq!(reduce(&input, 77, TakeLeft), 77);
    assert_eq!(reduce(&input, 1, Sum), 1 + (len as u32 - 1) * len as u32 / 2);
    let pairs: Vec<(u32, u32)> = (0..len as u32).map(|i| (1, i % 3)).collect();
    let expected = (10 + len as u32, 20 + pairs.iter().map(|p| p.1).sum::<u32>());
    assert_eq!(reduce(&pairs, (10, 20), SumPair), expected);
}

#[test]
fn wrapping_sums_wrap_like_device_arithmetic() {
    let input = vec![u32::MAX, 2];
    assert_eq!(reduce(&input, 0, Sum), 1);
    let mut output = vec![0u32; 2];
    inclusive_scan(&input, Sum, &mut output).unwrap();
    assert_eq!(output, vec![u32::MAX, 1]);
}

#[test]
fn block_reduction_preserves_non_commutative_scan_order() {
    const MODULUS: u32 = 65_521;
    let len = 600usize;
    let multipliers: Vec<_> = (0..len).map(|index| index as u32 % 5 + 1).collect();
    let offsets: Vec<_> = (0..len).map(|index| index as u32 * 7 % 13).collect();
    let input: Vec<(u32, u32)> = multipliers.iter().copied().zip(offsets.iter().copied()).collect();
    let mut output = vec![(0_u32, 0_u32); len];

    inclusive_scan(&input, ComposeAffine, &mut output).unwrap();

    let mut expected = (1u32, 0u32);
    for index in 0..len {
        let rhs = (multipliers[index], offsets[index]);
        expected = (
            (rhs.0 * expected.0) % MODULUS,
            (rhs.0 * expected.1 + rhs.1) % MODULUS,
        );
        assert_eq!(output[index], expected);
    }
}

#[test]
fn exclusive_scan_preserves_non_commutative_block_totals_in_order() {
    const MODULUS: u32 = 65_521;
    let len = 600usize;
    let multipliers: Vec<_> = (0..len).map(|index| index as u32 % 5 + 1).collect();
    let offsets: Vec<_> = (0..len).map(|index| index as u32 * 7 % 13).collect();
    let input: Vec<(u32, u32)> = multipliers.iter().copied().zip(offsets.iter().copied()).collect();
    let mut output = vec![(0_u32, 0_u32); len];
    let init_value = (3u32, 5u32);

    exclusive_scan(&input, init_value, ComposeAffine, &mut output).unwrap();

    let mut expected = init_value;
    for index in 0..len {
        assert_eq!(output[index], expected);
        let rhs = (multipliers[index], offsets[index]);
        expected = (
            (rhs.0 * expected.0) % MODULUS,
            (rhs.0 * expected.1 + rhs.1) % MODULUS,
        );
    }
}

#[test]
fn affine_composition_reduces_large_operands_exactly() {
    let lhs = (u32::MAX, u32::MAX);
    let rhs = (u32::MAX, 7);
    let mut output = vec![(0_u32, 0_u32); 2];
    inclusive_scan(&vec![lhs, rhs], ComposeAffine, &mut output).unwrap();
    let m = 65_521_u64;
    let expected = (
        ((u32::MAX as u64 * u32::MAX as u64) % m) as u32,
        ((u32::MAX as u64 * u32::MAX as u64 + 7) % m) as u32,
    );
    assert_eq!(output, vec![lhs, expected]);
}

#[test]
fn exclusive_rows_close_to_seeded_inclusive_rows_and_the_reduction() {
    let input: Vec<u32> = (0..1000).map(|i| i * 13 + 7).collect();
    let mut inclusive = vec![0_u32; 1000];
    let mut exclusive = vec![0_u32; 1000];
    inclusive_scan(&input, Sum, &mut inclusive).unwrap();
    exclusive_scan(&input, 11, Sum, &mut exclusive).unwrap();
    for i in 0..1000 {
        assert_eq!(exclusive[i].wrapping_add(input[i]), 11_u32.wrapping_add(inclusive[i]));
    }
    assert_eq!(reduce(&input, 11, Sum), exclusive[999].wrapping_add(input[999]));
}

#[test]
fn commutative_reductions_agree_across_plane_widths_and_passes() {
    let len = 100_003usize;
    let input: Vec<u32> = (0..len as u32).map(|i| i.wrapping_mul(2_654_435_761) >> 3).collect();
    let serial = input.iter().fold(9_u32, |acc, &x| acc.wrapping_add(x));
    for plane_dim in [1_usize, 4, 32, 64, 256] {
        assert_eq!(reduce_planes(&input, 9, Sum, plane_dim), serial);
    }
    let pairs: Vec<(u32, u32)> = input.iter().map(|&x| (x, x ^ 0x5555)).collect();
    let expected = pairs
        .iter()
        .fold((1_u32, 2_u32), |acc, &(a, b)| (acc.0.wrapping_add(a), acc.1.wrapping_add(b)));
    assert_eq!(reduce_planes(&pairs, (1, 2), SumPair, 8), expected);
}

#[test]
fn non_commutative_reduction_keeps_the_initial_value_in_front() {
    // Whatever order the lanes meet the rows in, `init` is combined first.
    let input: Vec<u32> = (1..=20_000).collect();
    for plane_dim in [1_usize, 32] {
        assert_eq!(reduce_planes(&input, 77, TakeLeft, plane_dim), 77);
    }
}

fn direct(values: &[u32]) -> Slot<'_, u32, Direct> {
    Slot { slot: values, offset: 0, mode: PhantomData }
}

fn zip<L, R, A, B>(left: L, right: R) -> ZipExpr<L, R, A, B> {
    ZipExpr { left, right, items: PhantomData }
}

fn counting(start: &[u32]) -> Slot<'_, u32, Count> {
    Slot { slot: start, offset: 0, mode: PhantomData }
}

/// The rows `Permute(zip(columns...), Counting(0, len))` read.
fn seven_rows(columns: &[Vec<u32>], len: usize) -> Vec<Seven> {
    let column = |k: usize| direct(&columns[k]);
    let seven = zip(
        column(0),
        zip(column(1), zip(column(2), zip(column(3), zip(column(4), zip(column(5), column(6)))))),
    );
    let input = PermuteExpr { values: seven, indices: counting(&[0]) };
    exact(&input, len)
}

fn flat(row: Seven) -> [u32; 7] {
    let (a, (b, (c, (d, (e, (f, g)))))) = row;
    [a, b, c, d, e, f, g]
}

fn seven(values: [u32; 7]) -> Seven {
    let [a, b, c, d, e, f, g] = values;
    (a, (b, (c, (d, (e, (f, g))))))
}

#[test]
fn eight_read_slots_storage7_reduce_with_physical_leaf_partials() {
    let len = massively::reduce::TILE_SIZE * 2 + 17;
    let columns: Vec<Vec<u32>> = (1_u32..=7).map(|value| vec![value; len]).collect();
    let rows = seven_rows(&columns, len);
    let init = seven([10, 20, 30, 40, 50, 60, 70]);
    let output = reduce(&rows, init, SumSeven);
    let n = len as u32;
    assert_eq!(
        flat(output),
        [10 + n, 20 + 2 * n, 30 + 3 * n, 40 + 4 * n, 50 + 5 * n, 60 + 6 * n, 70 + 7 * n]
    );
}

#[test]
fn inclusive_storage7_scan_accepts_eight_read_slots() {
    let columns: Vec<Vec<u32>> = (1_u32..=7).map(|value| vec![value; 600]).collect();
    let rows = seven_rows(&columns, 600);
    let mut output = vec![seven([0; 7]); 600];
    inclusive_scan(&rows, SumSeven, &mut output).unwrap();
    assert_eq!(flat(output[599]), [600, 1_200, 1_800, 2_400, 3_000, 3_600, 4_200]);
}

#[test]
fn exclusive_storage7_accepts_eight_read_slots_and_preserves_semantic_init() {
    let columns: Vec<Vec<u32>> = (1_u32..=7).map(|value| vec![value; 4]).collect();
    let rows = seven_rows(&columns, 4);
    let mut output = vec![seven([0; 7]); 4];
    let init = seven([10, 20, 30, 40, 50, 60, 70]);
    exclusive_scan(&rows, init, SumSeven, &mut output).unwrap();
    let first: Vec<u32> = output.iter().map(|row| flat(*row)[0]).collect();
    let last: Vec<u32> = output.iter().map(|row| flat(*row)[6]).collect();
    assert_eq!(first, vec![10, 11, 12, 13]);
    assert_eq!(last, vec![70, 77, 84, 91]);
}

#[test]
fn non_commutative_reduction_follows_the_lane_tree() {
    // Lanes 0, 1 and 2 hold one row each; the shuffle tree combines lane 2
    // into lane 0 before lane 1, so the affine maps compose as rows 0, 2, 1.
    let input = vec![(2_u32, 0_u32), (1, 1), (3, 0)];
    assert_eq!(reduce_planes(&input, (1, 0), ComposeAffine, 32), (6, 1));
    let mut serial = vec![(0_u32, 0_u32); 3];
    exclusive_scan(&input, (1, 0), ComposeAffine, &mut serial).unwrap();
    let last = serial[2];
    assert_eq!(((3 * last.0) % 65_521, (3 * last.1) % 65_521), (6, 3));
}
