use massively::error::Error;
use massively::eval::{
    adjacent_difference, materialize, AdjacentIndexedTransformExpr, Broadcast, Count, DeviceExpr,
    Direct, DivModCount, IndexedTransformExpr, PermuteExpr, ReadMode, RepeatExpr, ReverseCount,
    SegmentIteratorExpr, Slot, StrideCount, TransformExpr, ZipExpr,
};
use massively::ops::{AddIndex, Increment, Step, Sum};
use std::marker::PhantomData;

fn column<'a, Mode>(values: &'a [u32], offset: u32) -> Slot<'a, u32, Mode> {
    Slot { slot: values, offset, mode: PhantomData }
}

#[test]
fn adjacent_difference_is_a_regular_fused_read_expression() {
    let input = vec![1_u32, 3, 6, 10];
    let mut output = vec![0_u32; 4];
    adjacent_difference(&input, Sum, &mut output).unwrap();
    assert_eq!(output, vec![1, 4, 9, 16]);
}

#[test]
fn adjacent_difference_rejects_a_short_output() {
    let input = vec![1_u32, 3, 6, 10];
    let mut output = vec![7_u32; 3];
    assert_eq!(
        adjacent_difference(&input, Sum, &mut output),
        Err(Error::LengthMismatch { left: 4, right: 3 })
    );
    assert_eq!(output, vec![7, 7, 7]);
}

#[test]
fn read_modes_follow_their_formulas() {
    let values = [5_u32, 6, 7, 8];
    assert_eq!(<Direct as ReadMode<u32>>::read(&values, 1, 2), 8);
    assert_eq!(<Broadcast as ReadMode<u32>>::read(&values, 3, 100), 5);
    assert_eq!(<Count as ReadMode<u32>>::read(&[10], 2, 3), 15);
    assert_eq!(<StrideCount as ReadMode<u32>>::read(&[10, 3], 1, 2), 19);
    assert_eq!(<DivModCount as ReadMode<u32>>::read(&[1, 2, 3], 0, 7), 1);
    assert_eq!(<ReverseCount as ReadMode<u32>>::read(&[9], 1, 2), 6);
}

#[test]
fn counting_reads_wrap_like_device_arithmetic() {
    assert_eq!(<Count as ReadMode<u32>>::read(&[u32::MAX], 0, 2), 1);
    assert_eq!(<ReverseCount as ReadMode<u32>>::read(&[0], 0, 1), u32::MAX);
    assert_eq!(<StrideCount as ReadMode<u32>>::read(&[0, 0x8000_0000], 0, 3), 0x8000_0000);
}

#[test]
fn expressions_compose_rows() {
    let left = [1_u32, 2, 3];
    let right = [10_u32, 20, 30];
    let zip = ZipExpr {
        left: column::<Direct>(&left, 0),
        right: column::<Direct>(&right, 0),
        items: PhantomData,
    };
    assert_eq!(zip.eval(2), (3, 30));

    let incremented: TransformExpr<_, u32, Increment> =
        TransformExpr { input: column::<Direct>(&left, 0), items: PhantomData };
    let mut out = vec![0_u32; 3];
    materialize(&incremented, 3, &mut out).unwrap();
    assert_eq!(out, vec![2, 3, 4]);

    let indexed: IndexedTransformExpr<_, u32, AddIndex> =
        IndexedTransformExpr { input: column::<Direct>(&right, 0), items: PhantomData };
    materialize(&indexed, 3, &mut out).unwrap();
    assert_eq!(out, vec![10, 21, 32]);

    let steps: AdjacentIndexedTransformExpr<_, u32, Step> =
        AdjacentIndexedTransformExpr { input: column::<Direct>(&right, 0), items: PhantomData };
    materialize(&steps, 3, &mut out).unwrap();
    assert_eq!(out, vec![10, 10, 10]);
}

#[test]
fn permute_and_repeat_read_through_indices() {
    let values = [4_u32, 5, 6, 7];
    let reversed = PermuteExpr {
        values: column::<Direct>(&values, 0),
        indices: column::<ReverseCount>(&[3], 0),
    };
    let mut out = vec![0_u32; 4];
    materialize(&reversed, 4, &mut out).unwrap();
    assert_eq!(out, vec![7, 6, 5, 4]);

    let repeated = RepeatExpr { input: column::<Direct>(&values, 2) };
    materialize(&repeated, 4, &mut out).unwrap();
    assert_eq!(out, vec![6, 6, 6, 6]);
}

#[test]
fn segments_span_consecutive_offsets() {
    let values = [1_u32, 2, 3, 4, 5];
    let offsets = [0_u32, 2, 2, 5];
    let segments = SegmentIteratorExpr {
        values: column::<Direct>(&values, 0),
        offsets: column::<Direct>(&offsets, 0),
    };
    let first = segments.eval(0);
    assert_eq!((first.start, first.end), (0, 2));
    let empty = segments.eval(1);
    assert_eq!((empty.start, empty.end), (2, 2));
    let last = segments.eval(2);
    assert_eq!((last.start, last.end), (2, 5));
    assert_eq!(segments.read_segment(&last, 2), 5);
}
