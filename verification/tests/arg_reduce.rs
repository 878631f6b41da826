use massively::arg_reduce::{arg_reduce, arg_reduce_planes, LastMaxIndex, MinIndex};
use massively::eval::{Direct, Slot, TransformExpr};
use massively::ops::Increment;
use std::marker::PhantomData;

fn column(values: &[u32]) -> Slot<'_, u32, Direct> {
    Slot { slot: values, offset: 0, mode: PhantomData }
}

#[test]
fn arg_reduce_finds_the_first_minimum() {
    let values = [3_u32, 1, 4, 1, 5, 9, 2, 6];
    assert_eq!(arg_reduce(&column(&values), values.len(), MinIndex), 1);
}

#[test]
fn arg_reduce_finds_the_last_maximum() {
    let values = [5_u32, 9, 9, 1];
    assert_eq!(arg_reduce(&column(&values), values.len(), LastMaxIndex), 2);
    let values = [3_u32, 1, 4, 1, 5, 9, 2, 6];
    assert_eq!(arg_reduce(&column(&values), values.len(), LastMaxIndex), 5);
}

#[test]
fn arg_reduce_of_nothing_is_the_sentinel() {
    let values: [u32; 0] = [];
    assert_eq!(arg_reduce(&column(&values), 0, MinIndex), u32::MAX);
}

#[test]
fn arg_reduce_reads_through_expressions() {
    // Increment wraps u32::MAX to zero, which becomes the minimum.
    let values = [7_u32, u32::MAX, 3, u32::MAX];
    let bumped: TransformExpr<_, u32, Increment> =
        TransformExpr { input: column(&values), items: PhantomData };
    assert_eq!(arg_reduce(&bumped, values.len(), MinIndex), 1);
}

#[test]
fn arg_reduce_across_blocks_matches_a_serial_scan_for_every_plane_width() {
    let len = 200_003_usize;
    let values: Vec<u32> = (0..len as u32).map(|i| (i.wrapping_mul(2_654_435_761) >> 7) % 1000 + 5).collect();
    let mut values = values;
    // Two equal minima in different blocks: the earlier one wins.
    values[70_000] = 1;
    values[150_000] = 1;
    values[190_000] = 2000;
    values[10] = 2000;
    for plane_dim in [1_usize, 2, 8, 32, 64, 256] {
        assert_eq!(
            arg_reduce_planes(&column(&values), len, MinIndex, plane_dim),
            70_000,
        );
        assert_eq!(
            arg_reduce_planes(&column(&values), len, LastMaxIndex, plane_dim),
            190_000,
        );
    }
}
