use massively::error::Error;
use massively::eval::{Count, Direct, PermuteExpr, Slot, ZipExpr};
use massively::materialize::exact;
use massively::ops::{Increment, IncrementSeven, IsEven, Seven};
use std::marker::PhantomData;
use massively::selection::{
    copy_where, fill_output, partition, remove_where, replace_where, transform_where,
    SelectionControl,
};

#[test]
fn block_route_reconstructs_binary_positions() {
    let flags = vec![0_u32, 7, 3, 0];
    let control = SelectionControl::from_stencil(&flags, false).unwrap();
    assert_eq!(control.materialize_positions(), vec![0, 1, 2, 2]);
    assert_eq!(control.count(), &vec![2]);
}

#[test]
fn block_route_crosses_multiple_control_blocks() {
    let len = 256 * 3 + 17;
    let values: Vec<u32> = (0..len as u32).collect();
    let flags: Vec<u32> = (0..len)
        .map(|index| u32::from(index % 7usize == 0usize || index % 31usize == 3usize))
        .collect();
    let expected: Vec<u32> = values
        .iter()
        .copied()
        .zip(flags.iter().copied())
        .filter_map(|(value, flag)| (flag != 0).then_some(value))
        .collect();
    let mut output = vec![0u32; len];
    let count = copy_where(&values, &flags, &mut output).unwrap();
    assert_eq!(count, vec![expected.len() as u32]);
    assert_eq!(output[..expected.len()].to_vec(), expected);
}

#[test]
fn copy_where_preserves_flat_three_column_rows() {
    let input = vec![(1_u32, 10_i32, 100_u64), (2, 20, 200), (3, 30, 300), (4, 40, 400)];
    let flags = vec![0_u32, 1, 1, 0];
    let mut output = vec![(0_u32, 0_i32, 0_u64); 4];
    let count = copy_where(&input, &flags, &mut output).unwrap()[0] as usize;
    assert_eq!(count, 2);
    assert_eq!(output[..count].to_vec(), vec![(2, 20, 200), (3, 30, 300)]);
}

#[test]
fn copy_where_on_seven_leaves_accepts_an_eighth_permutation_slot() {
    let input: Vec<[u32; 7]> = (0..3u32)
        .map(|row| core::array::from_fn(|column| column as u32 * 10 + row + 1))
        .collect();
    let flags = vec![1_u32, 0, 1];
    let mut output = vec![[0_u32; 7]; 3];
    let count = copy_where(&input, &flags, &mut output).unwrap();
    assert_eq!(count, vec![2]);
    for column in 0..7 {
        let copied: Vec<u32> = output[..2].iter().map(|row| row[column]).collect();
        assert_eq!(copied, vec![column as u32 * 10 + 1, column as u32 * 10 + 3]);
    }
}

#[test]
fn remove_where_inverts_nonzero_stencil() {
    let input = vec![10_u32, 20, 30, 40];
    let flags = vec![0_u32, 1, 0, 1];
    let mut output = vec![0_u32; 4];
    let count = remove_where(&input, &flags, &mut output).unwrap()[0];
    assert_eq!(count, 2);
    assert_eq!(output[..2].to_vec(), vec![10, 30]);
}

#[test]
fn partition_is_stable_on_both_sides() {
    let input = vec![3_u32, 2, 4, 1, 6, 5];
    let mut output = vec![0_u32; 6];
    let split = partition(&input, IsEven, &mut output).unwrap()[0];
    assert_eq!(split, 3);
    assert_eq!(output, vec![2, 4, 6, 3, 1, 5]);
}

#[test]
fn fill_and_replace_where_recurse_over_binary_output_tree() {
    let mut output = vec![((0_u32, 0_i64), 0_i32); 4];
    fill_output(&mut output, ((7_u32, 25_i64), -3_i32));
    assert_eq!(output, vec![((7, 25), -3); 4]);
    let flags = vec![0_u32, 1, 0, 1];
    replace_where(((9_u32, 45_i64), -8_i32), &flags, &mut output).unwrap();
    assert_eq!(
        output,
        vec![((7, 25), -3), ((9, 45), -8), ((7, 25), -3), ((9, 45), -8)]
    );
}

#[test]
fn transform_where_writes_only_selected_rows() {
    let input = vec![1_u32, 2, 3, u32::MAX];
    let flags = vec![1_u32, 0, 1, 1];
    let mut output = vec![50_u32; 4];
    transform_where(&input, Increment, &flags, &mut output).unwrap();
    assert_eq!(output, vec![2, 50, 4, 0]);
}

#[test]
fn selection_errors_name_the_mismatched_lengths() {
    let input = vec![1_u32, 2, 3];
    let flags = vec![1_u32, 0];
    let mut output = vec![0u32; 3];
    assert_eq!(
        copy_where(&input, &flags, &mut output),
        Err(Error::LengthMismatch { left: 3, right: 2 })
    );
    assert_eq!(
        replace_where(9u32, &flags, &mut output),
        Err(Error::LengthMismatch { left: 2, right: 3 })
    );
    assert_eq!(output, vec![0, 0, 0]);
}

#[test]
fn positions_control_recovers_the_selection() {
    let control = SelectionControl::from_positions(vec![0, 1, 1, 2, 2]).unwrap();
    assert_eq!(control.materialize_indices(), vec![1, 3, 0, 0, 0]);
    assert_eq!(control.count(), &vec![2]);
}

fn direct(values: &[u32]) -> Slot<'_, u32, Direct> {
    Slot { slot: values, offset: 0, mode: PhantomData }
}

fn zip<L, R, A, B>(left: L, right: R) -> ZipExpr<L, R, A, B> {
    ZipExpr { left, right, items: PhantomData }
}

fn flat(row: Seven) -> [u32; 7] {
    let (a, (b, (c, (d, (e, (f, g)))))) = row;
    [a, b, c, d, e, f, g]
}

#[test]
fn transform_where_separates_eight_slot_input_from_storage7_copy() {
    let inputs: Vec<Vec<u32>> =
        (0_u32..7).map(|base| vec![base * 10 + 1, base * 10 + 2, base * 10 + 3]).collect();
    let column = |k: usize| direct(&inputs[k]);
    let seven = zip(
        column(0),
        zip(column(1), zip(column(2), zip(column(3), zip(column(4), zip(column(5), column(6)))))),
    );
    let counting: Slot<'_, u32, Count> = Slot { slot: &[0], offset: 0, mode: PhantomData };
    let input = exact(&PermuteExpr { values: seven, indices: counting }, 3);
    let hundred: Seven = (100, (100, (100, (100, (100, (100, 100))))));
    let mut output = vec![hundred; 3];
    let stencil = vec![1_u32, 0, 1];
    transform_where(&input, IncrementSeven, &stencil, &mut output).unwrap();
    for column in 0..7 {
        let values: Vec<u32> = output.iter().map(|row| flat(*row)[column]).collect();
        assert_eq!(values, vec![column as u32 * 10 + 2, 100, column as u32 * 10 + 4]);
    }
}
