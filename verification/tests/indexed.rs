use massively::eval::{Count, Direct, PermuteExpr, ReverseCount, Slot, ZipExpr};
use massively::materialize::exact;
use std::marker::PhantomData;
use massively::error::Error;
use massively::indexed::{
    gather, gather_direct, indexed_copy, indexed_copy_selected, permutation_copy, IndexSelection,
};
use massively::selection::SelectionControl;

#[test]
fn gather_seven_columns_uses_independent_index_expression() {
    // Seven columns of three rows, column `c` holding `c * 10 + 1..=3`.
    let inputs: Vec<Vec<u32>> =
        (0_u32..7).map(|base| vec![base * 10 + 1, base * 10 + 2, base * 10 + 3]).collect();
    let values: Vec<[u32; 7]> =
        (0..3).map(|row| core::array::from_fn(|column| inputs[column][row])).collect();
    let indices = vec![2_u32, 0];
    let mut output = vec![[0_u32; 7]; 2];
    gather_direct(&values, &indices, &mut output).unwrap();
    for column in 0..7 {
        let gathered: Vec<u32> = output.iter().map(|row| row[column]).collect();
        assert_eq!(gathered, vec![column as u32 * 10 + 3, column as u32 * 10 + 1]);
    }
}

#[test]
fn gather_accepts_logical_usize_indices() {
    let values = vec![10_u32, 20, 30];
    let indices = vec![2_u32, 0];
    let mut output = vec![0_u32; 2];
    gather_direct(&values, &indices, &mut output).unwrap();
    assert_eq!(output, vec![30, 10]);
}

#[test]
fn reverse_counting_remains_a_valid_internal_index() {
    let values = vec![10_u32, 20, 30];
    let mut output = vec![0_u32; 3];
    // Reverse counting over three rows stages its final index, 2.
    let reverse: Slot<'_, u32, ReverseCount> = Slot { slot: &[2], offset: 0, mode: PhantomData };
    let indices = exact(&reverse, 3);
    gather_direct(&values, &indices, &mut output).unwrap();
    assert_eq!(output, vec![30, 20, 10]);
}

fn direct(values: &[u32]) -> Slot<'_, u32, Direct> {
    Slot { slot: values, offset: 0, mode: PhantomData }
}

fn zip<L, R, A, B>(left: L, right: R) -> ZipExpr<L, R, A, B> {
    ZipExpr { left, right, items: PhantomData }
}

#[test]
fn gather_accepts_lazy_indices_independently() {
    let columns: Vec<Vec<u32>> =
        (0_u32..7).map(|base| vec![base * 10 + 1, base * 10 + 2, base * 10 + 3]).collect();
    let column = |k: usize| direct(&columns[k]);
    let seven = zip(
        column(0),
        zip(column(1), zip(column(2), zip(column(3), zip(column(4), zip(column(5), column(6)))))),
    );
    let values = PermuteExpr {
        values: seven,
        indices: Slot::<'_, u32, Count> { slot: &[0], offset: 0, mode: PhantomData },
    };
    let raw_indices = [2_u32, 0];
    let indices = PermuteExpr {
        values: Slot::<'_, u32, Direct> { slot: &raw_indices, offset: 0, mode: PhantomData },
        indices: Slot::<'_, u32, Count> { slot: &[0], offset: 0, mode: PhantomData },
    };
    let values = exact(&values, 3);
    let indices = exact(&indices, 2);
    let mut output = vec![values[0]; 2];
    gather_direct(&values, &indices, &mut output).unwrap();
    let first: Vec<u32> = output.iter().map(|row| row.0).collect();
    let last: Vec<u32> = output.iter().map(|row| (((((row.1).1).1).1).1).1).collect();
    assert_eq!(first, vec![3, 1]);
    assert_eq!(last, vec![63, 61]);
}

#[test]
fn gather_into_a_short_output_is_refused() {
    let values = vec![1_u32, 2, 3];
    let indices = vec![0_u32, 1, 2];
    let mut output = vec![7_u32; 2];
    assert_eq!(
        gather(&values, &indices, &mut output),
        Err(Error::OutputTooShort { input: 3, output: 2 })
    );
    assert_eq!(output, vec![7, 7]);
}

#[test]
fn scatter_writes_each_row_to_its_index() {
    let values = vec![1_u32, 2, 3];
    let indices = vec![4_u32, 0, 2];
    let mut output = vec![9_u32; 5];
    indexed_copy(&values, &indices, false, &mut output).unwrap();
    assert_eq!(output, vec![2, 9, 3, 9, 1]);
    assert_eq!(
        indexed_copy(&values, &vec![0_u32, 1], false, &mut output),
        Err(Error::LengthMismatch { left: 3, right: 2 })
    );
}

#[test]
fn routed_gathers_compact_or_retain_positions() {
    let values = vec![10_u32, 20, 30, 40];
    let indices = vec![3_u32, 2, 1, 0];
    let control = SelectionControl::from_stencil(&vec![1_u32, 0, 1, 0], false).unwrap();

    let mut compact = vec![0_u32; 4];
    indexed_copy_selected(
        &values,
        &indices,
        Some(IndexSelection::Routing { control: &control, retain_output_position: false }),
        Some(2),
        true,
        &mut compact,
    )
    .unwrap();
    assert_eq!(compact, vec![40, 20, 0, 0]);

    let mut retained = vec![0_u32; 4];
    indexed_copy_selected(
        &values,
        &indices,
        Some(IndexSelection::Routing { control: &control, retain_output_position: true }),
        Some(2),
        true,
        &mut retained,
    )
    .unwrap();
    assert_eq!(retained, vec![40, 0, 20, 0]);

    let mut scattered = vec![0_u32; 4];
    indexed_copy_selected(
        &values,
        &indices,
        Some(IndexSelection::Routing { control: &control, retain_output_position: false }),
        Some(2),
        false,
        &mut scattered,
    )
    .unwrap();
    assert_eq!(scattered, vec![0, 30, 0, 10]);
}

#[test]
fn active_length_limits_the_copies() {
    let values = vec![10_u32, 20, 30];
    let indices = vec![2_u32, 1, 0];
    let mut output = vec![0_u32; 3];
    indexed_copy_selected(&values, &indices, None, Some(1), true, &mut output).unwrap();
    assert_eq!(output, vec![30, 0, 0]);
}

#[test]
fn permutation_copy_applies_a_materialized_order() {
    let values = vec![5_u32, 6, 7];
    let order = vec![2_u32, 2, 0];
    let mut output = vec![0_u32; 4];
    permutation_copy(&values, &order, None, &mut output).unwrap();
    assert_eq!(output, vec![7, 7, 5, 0]);
    let mut short = vec![0_u32; 2];
    assert_eq!(
        permutation_copy(&values, &order, None, &mut short),
        Err(Error::OutputTooShort { input: 3, output: 2 })
    );
    permutation_copy(&values, &order, Some(5), &mut short).unwrap();
    assert_eq!(short, vec![7, 7]);
}

#[test]
fn routing_control_of_another_length_is_a_mismatch() {
    let values = vec![10_u32, 20, 30];
    let indices = vec![2_u32, 1, 0];
    let control = SelectionControl::from_stencil(&vec![1_u32, 0, 1, 1, 0], false).unwrap();
    let mut output = vec![0_u32; 3];
    assert_eq!(
        indexed_copy_selected(
            &values,
            &indices,
            Some(IndexSelection::Routing { control: &control, retain_output_position: false }),
            None,
            true,
            &mut output,
        ),
        Err(Error::LengthMismatch { left: 3, right: 5 })
    );
    assert_eq!(
        indexed_copy_selected(
            &values,
            &indices,
            Some(IndexSelection::Routing { control: &control, retain_output_position: true }),
            Some(7),
            true,
            &mut output,
        ),
        Err(Error::LengthMismatch { left: 3, right: 5 })
    );
    assert_eq!(output, vec![0, 0, 0]);
}

#[test]
fn routed_copies_without_an_active_length_check_the_host_side_first() {
    let indices = vec![2_u32, 1, 0];
    let control = SelectionControl::from_stencil(&vec![1_u32, 0, 1], false).unwrap();
    let routed = || Some(IndexSelection::Routing { control: &control, retain_output_position: false });

    let mut scattered = vec![0_u32; 3];
    assert_eq!(
        indexed_copy_selected(&vec![10_u32, 20], &indices, routed(), None, false, &mut scattered),
        Err(Error::LengthMismatch { left: 2, right: 3 })
    );
    assert_eq!(scattered, vec![0, 0, 0]);

    let mut short = vec![0_u32; 2];
    assert_eq!(
        indexed_copy_selected(&vec![10_u32, 20, 30], &indices, routed(), None, true, &mut short),
        Err(Error::OutputTooShort { input: 3, output: 2 })
    );
    assert_eq!(short, vec![0, 0]);

    let every_row = SelectionControl::from_stencil(&vec![1_u32, 1, 1], false).unwrap();
    let mut gathered = vec![0_u32; 3];
    indexed_copy_selected(
        &vec![10_u32, 20, 30],
        &indices,
        Some(IndexSelection::Routing { control: &every_row, retain_output_position: false }),
        None,
        true,
        &mut gathered,
    )
    .unwrap();
    assert_eq!(gathered, vec![30, 20, 10]);
}
