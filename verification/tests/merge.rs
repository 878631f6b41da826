use massively::error::Error;
use massively::merge::{apply_fixed, merge_control, merge_direct, merge_direct_selected_right};
use massively::ops::{LessByFirst, LessU32};

#[test]
fn merge_is_stable_and_payloads_reuse_one_control() {
    let left = vec![1_u32, 2, 2, 5];
    let right = vec![2_u32, 3, 4];
    let mut output = vec![0_u32; 7];
    merge_direct(&left, &right, LessU32, &mut output).unwrap();
    assert_eq!(output, vec![1, 2, 2, 2, 3, 4, 5]);

    let left_values = vec![10_u32, 20, 21, 50];
    let right_values = vec![200_u32, 300, 400];
    let mut out_keys = vec![0_u32; 7];
    let mut out_values = vec![0_u32; 7];
    let control = merge_control(&left, &right, LessU32).unwrap();
    apply_fixed(&left, &right, &control, &mut out_keys).unwrap();
    apply_fixed(&left_values, &right_values, &control, &mut out_values).unwrap();
    assert_eq!(out_keys, vec![1, 2, 2, 2, 3, 4, 5]);
    assert_eq!(out_values, vec![10, 20, 21, 200, 300, 400, 50]);

    let pair_left: Vec<(u32, u32)> = left.iter().copied().zip(left_values.iter().copied()).collect();
    let pair_right: Vec<(u32, u32)> = right.iter().copied().zip(right_values.iter().copied()).collect();
    let mut pair_out = vec![(0_u32, 0_u32); 7];
    merge_direct(&pair_left, &pair_right, LessByFirst, &mut pair_out).unwrap();
    assert_eq!(
        pair_out,
        vec![(1, 10), (2, 20), (2, 21), (2, 200), (3, 300), (4, 400), (5, 50)]
    );
}

#[test]
fn merge_crosses_tiles_and_lanes() {
    let left: Vec<u32> = (0..700).map(|i| i * 3).collect();
    let right: Vec<u32> = (0..500).map(|i| i * 4 + 1).collect();
    let mut expected: Vec<u32> = left.iter().chain(right.iter()).copied().collect();
    expected.sort();
    let mut output = vec![0_u32; 1200];
    merge_direct(&left, &right, LessU32, &mut output).unwrap();
    assert_eq!(output, expected);
    let control = merge_control(&left, &right, LessU32).unwrap();
    assert_eq!(control.permutation().len(), 1200);
    assert_eq!(control.left_capacity(), 700);
    assert_eq!(control.right_capacity(), 500);
}

#[test]
fn merge_with_an_empty_side_copies_the_other() {
    let left: Vec<u32> = Vec::new();
    let right = vec![4_u32, 4, 9];
    let mut output = vec![0_u32; 4];
    merge_direct(&left, &right, LessU32, &mut output).unwrap();
    assert_eq!(output, vec![4, 4, 9, 0]);
}

#[test]
fn merge_checks_output_and_payload_lengths() {
    let left = vec![1_u32, 3];
    let right = vec![2_u32];
    let mut short = vec![0_u32; 2];
    assert_eq!(
        merge_direct(&left, &right, LessU32, &mut short),
        Err(Error::OutputTooShort { input: 3, output: 2 })
    );
    let control = merge_control(&left, &right, LessU32).unwrap();
    let mut output = vec![0_u32; 3];
    assert_eq!(
        apply_fixed(&vec![1_u32], &right, &control, &mut output),
        Err(Error::LengthMismatch { left: 2, right: 3 })
    );
}

#[test]
fn merge_with_selected_right_rows() {
    let left = vec![2_u32, 6];
    let right = vec![9_u32, 1, 5, 7];
    let positions = vec![1_u32, 2, 3];
    let mut output = vec![0_u32; 5];
    merge_direct_selected_right(&left, &right, &positions, LessU32, &mut output).unwrap();
    assert_eq!(output, vec![1, 2, 5, 6, 7]);
}
