use massively::scan::{exclusive_scan, inclusive_scan};
use massively::ops::Sum;
use massively::segmented::{
    segment_continuation, segmented_exclusive, segmented_inclusive, segmented_reduce,
};

#[test]
fn segment_continuation_is_derived_without_mutating_head_control() {
    let len = 260usize;
    let mut heads = vec![0u32; len + 1usize];
    heads[2] = 1u32;
    heads[255] = 2u32;
    heads[258] = 4u32;
    heads[len] = len as u32;
    let actual = segment_continuation(&heads);
    assert_eq!(&actual[..2], &[0, 0]);
    assert!(actual[2..255].iter().all(|&value| value == 1));
    assert_eq!(actual[255], 3);
    assert_eq!(&actual[256..258], &[0, 0]);
    assert_eq!(&actual[258..260], &[4, 4]);
    assert_eq!(actual[len], len as u32);
    assert_eq!(heads[255], 2u32);
}

#[test]
fn segmented_algorithms_preserve_boundaries_across_blocks() {
    let len = 600usize;
    let heads = [0usize, 17, 255, 256, 300, 511];
    let values: Vec<u32> = (0..len).map(|index| index as u32 % 7 + 1).collect();
    let mut flags = vec![0u32; len];
    for &head in &heads {
        flags[head] = 1;
    }

    let mut inclusive_output = vec![0u32; len];
    segmented_inclusive::<u32, Sum>(&values, &flags, &mut inclusive_output).unwrap();
    let mut expected_inclusive = Vec::with_capacity(len);
    let mut running = 0u32;
    for (index, &value) in values.iter().enumerate() {
        if flags[index] != 0 {
            running = value;
        } else {
            running += value;
        }
        expected_inclusive.push(running);
    }
    assert_eq!(inclusive_output, expected_inclusive);

    let initial = 10u32;
    let mut exclusive_output = vec![0u32; len];
    segmented_exclusive::<u32, Sum>(&values, &flags, initial, &mut exclusive_output).unwrap();
    let expected_exclusive: Vec<_> = (0..len)
        .map(|index| {
            if index == 0 || flags[index] != 0 {
                initial
            } else {
                initial + expected_inclusive[index - 1]
            }
        })
        .collect();
    assert_eq!(exclusive_output, expected_exclusive);

    let mut rank = 0u32;
    let positions: Vec<_> = flags
        .iter()
        .map(|&head| {
            rank += u32::from(head != 0);
            rank
        })
        .collect();
    let count = vec![heads.len() as u32];
    let mut reduced_output = vec![0u32; heads.len()];
    segmented_reduce(&values, &flags, &positions, &count, initial, Sum, &mut reduced_output)
        .unwrap();
    let expected_reduced: Vec<_> = heads
        .iter()
        .enumerate()
        .map(|(rank, &head)| {
            let tail = heads.get(rank + 1).copied().unwrap_or(len);
            initial + values[head..tail].iter().sum::<u32>()
        })
        .collect();
    assert_eq!(reduced_output, expected_reduced);
}

#[test]
fn a_first_row_without_a_head_still_starts_a_segment() {
    let values = vec![1u32, 2, 3, 4];
    let flags = vec![0u32, 0, 1, 0];
    let mut output = vec![0u32; 4];
    segmented_inclusive::<u32, Sum>(&values, &flags, &mut output).unwrap();
    assert_eq!(output, vec![1, 3, 3, 7]);
}

#[test]
fn segmented_scans_without_heads_are_plain_scans() {
    let input: Vec<u32> = (0..700).map(|i| i * 3 + 1).collect();
    let flags = vec![0_u32; 700];
    let mut segmented = vec![0_u32; 700];
    let mut plain = vec![0_u32; 700];
    segmented_inclusive::<u32, Sum>(&input, &flags, &mut segmented).unwrap();
    inclusive_scan(&input, Sum, &mut plain).unwrap();
    assert_eq!(segmented, plain);
    segmented_exclusive::<u32, Sum>(&input, &flags, 5, &mut segmented).unwrap();
    exclusive_scan(&input, 5, Sum, &mut plain).unwrap();
    assert_eq!(segmented, plain);
}

#[test]
fn every_row_its_own_segment_keeps_rows_and_seeds() {
    let input: Vec<u32> = (0..300).map(|i| i * 7).collect();
    let flags = vec![1_u32; 300];
    let mut output = vec![0_u32; 300];
    segmented_inclusive::<u32, Sum>(&input, &flags, &mut output).unwrap();
    assert_eq!(output, input);
    segmented_exclusive::<u32, Sum>(&input, &flags, 9, &mut output).unwrap();
    assert_eq!(output, vec![9_u32; 300]);
}
