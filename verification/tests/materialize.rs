use massively::error::Error;
use massively::eval::{Direct, Slot};
use massively::materialize::{exact, into_exact_prefix};
use massively::selection::copy_where;
use std::marker::PhantomData;

#[test]
fn exact_copies_the_logical_slice_of_every_column() {
    let left = [10_u32, 20, 30, 40, 50];
    let right = [100_u32, 200, 300, 400, 500];
    let flags = vec![1_u32, 0, 1, 0, 1];
    let rows: Vec<(u32, u32)> = left.iter().copied().zip(right.iter().copied()).collect();
    let mut selected = vec![(0_u32, 0_u32); 5];
    let count = copy_where(&rows, &flags, &mut selected).unwrap();
    // The slice 1..5 of a result whose initialized prefix has `count` rows.
    let logical = (count[0] as usize).min(5) - 1;
    let slice: Slot<'_, (u32, u32), Direct> = Slot { slot: &selected, offset: 1, mode: PhantomData };
    let output = exact(&slice, logical);

    assert_eq!(output.len(), 2);
    let (left, right): (Vec<u32>, Vec<u32>) = output.into_iter().unzip();
    assert_eq!(left, vec![30, 50]);
    assert_eq!(right, vec![300, 500]);
}

#[test]
fn into_exact_prefix_trims_keeps_or_rejects() {
    assert_eq!(into_exact_prefix(vec![1_u32, 2, 3, 4], 2), Ok(vec![1, 2]));
    assert_eq!(into_exact_prefix(vec![1_u32, 2, 3], 3), Ok(vec![1, 2, 3]));
    assert_eq!(into_exact_prefix(Vec::<u32>::new(), 0), Ok(vec![]));
    assert_eq!(
        into_exact_prefix(vec![1_u32, 2], 3),
        Err(Error::OutputTooShort { input: 3, output: 2 })
    );
}
