use massively::error::Error;
use massively::expansion::{flat_map, generate, resolve_expansion};
use massively::ops::{ExpandPair, Repeat, RepeatValue};
use massively::selection::copy_where;

#[test]
fn expansion_generates_each_run_in_input_order() {
    let input = vec![2_u32, 0, 3];
    let offsets = vec![0_u32, 2, 2, 5];
    let owners = vec![1_u32, 1, 3, 3, 3];
    let mut output = vec![0_u32; 5];
    generate::<u32, Repeat>(&input, &offsets, &owners, &mut output).unwrap();
    assert_eq!(output, vec![2, 3, 3, 4, 5]);
    assert_eq!(resolve_expansion(&offsets, &owners, 3), vec![(0, 0), (0, 1), (2, 0), (2, 1), (2, 2)]);
}

#[test]
fn expansion_checks_offsets_and_owner_lengths() {
    let input = vec![1_u32];
    let mut output = vec![0_u32; 1];
    assert_eq!(
        generate::<u32, Repeat>(&input, &vec![0], &vec![1], &mut output),
        Err(Error::LengthMismatch { left: 1, right: 2 })
    );
    assert_eq!(
        generate::<u32, Repeat>(&input, &vec![0, 1], &vec![1, 1], &mut output),
        Err(Error::LengthMismatch { left: 2, right: 1 })
    );
    let mut empty: Vec<u32> = Vec::new();
    generate::<u32, Repeat>(&input, &vec![0, 0], &Vec::new(), &mut empty).unwrap();
}

#[test]
fn flat_map_expands_in_stable_input_order() {
    let input = vec![2_u32, 0, 3];
    let output = flat_map(&input, RepeatValue).unwrap();
    assert_eq!(output, vec![20, 21, 30, 31, 32]);
}

#[test]
fn flat_map_handles_empty_input() {
    let input: Vec<u32> = Vec::new();
    let output = flat_map(&input, RepeatValue).unwrap();
    assert_eq!(output, Vec::<u32>::new());
}

#[test]
fn flat_map_handles_nonempty_input_with_no_outputs() {
    let input = vec![0_u32, 0, 0];
    let output = flat_map(&input, RepeatValue).unwrap();
    assert_eq!(output, Vec::<u32>::new());
}

#[test]
fn flat_map_supports_multi_column_inputs_and_outputs() {
    let counts = [2_u32, 0, 1];
    let values = [10_u32, 20, 30];
    let input: Vec<(u32, u32)> = counts.iter().copied().zip(values.iter().copied()).collect();
    let output = flat_map(&input, ExpandPair).unwrap();
    let (left, right): (Vec<u32>, Vec<u64>) = output.into_iter().unzip();
    assert_eq!(left, vec![2, 3, 1]);
    assert_eq!(right, vec![10_u64, 11, 30]);
}

#[test]
fn flat_map_resolves_only_the_selected_parent_prefix() {
    let counts = [2u32, 0, 1, 3];
    let values = [10u32, 20, 30, 40];
    let rows: Vec<(u32, u32)> = counts.iter().copied().zip(values.iter().copied()).collect();
    for count in [0usize, 2, 3] {
        let flags: Vec<u32> = (0..4).map(|i| u32::from(i < count)).collect();
        let mut selected = vec![(0_u32, 0_u32); 4];
        let selected_len = copy_where(&rows, &flags, &mut selected).unwrap();
        let prefix = selected[..selected_len[0] as usize].to_vec();
        let expanded = flat_map(&prefix, ExpandPair).unwrap();
        let (left, right): (Vec<u32>, Vec<u64>) = expanded.into_iter().unzip();
        let len = if count == 0 { 0 } else { count };
        assert_eq!(left, [2u32, 3, 1][..len]);
        assert_eq!(right, [10u64, 11, 30][..len]);
    }
}

#[test]
fn flat_map_rejects_expansions_past_u32_indices() {
    let input = vec![u32::MAX, 1];
    assert_eq!(flat_map(&input, Repeat), Err(Error::LengthTooLarge { len: 2 }));
}
