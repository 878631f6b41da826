use std::marker::PhantomData;

use massively::eval::{materialize, Direct, Slot};
use massively::ops::{EqualU32, LessU32};
use massively::search::{
    equal, find_first_of, lexicographical_codes, lexicographical_compare, lower_bounds,
    mismatch, upper_bounds,
};

#[test]
fn range_queries_cover_empty_needles_and_batched_bounds() {
    let source = vec![1_u32, 2, 2, 4];
    let needles = vec![9_u32, 2];
    let empty: Vec<u32> = Vec::new();
    assert_eq!(find_first_of(&source, &needles, EqualU32).unwrap(), Some(1));
    assert_eq!(find_first_of(&source, &empty, EqualU32).unwrap(), None);

    let values = vec![0_u32, 2, 3, 5];
    let lower = lower_bounds(&source, &values, LessU32).unwrap();
    let upper = upper_bounds(&source, &values, LessU32).unwrap();
    assert_eq!(lower, vec![0, 1, 3, 4]);
    assert_eq!(upper, vec![0, 3, 3, 4]);
}

#[test]
fn lexicographical_direction_code_distinguishes_greater_left_item() {
    let left = vec![93_u32];
    let right = vec![43_u32];
    let (codes, _) = lexicographical_codes::<u32, LessU32>(&left, &right).unwrap();
    assert_eq!(codes, vec![2]);
    assert!(!lexicographical_compare(&left, &right, LessU32).unwrap());
}

#[test]
fn pair_queries_compare_two_independent_storage7_inputs() {
    let left = vec![1_u32, 2, 3];
    let right = vec![1_u32, 4, 3];
    assert!(!equal(&left, &right, EqualU32).unwrap());
    assert_eq!(mismatch(&left, &right, EqualU32).unwrap(), Some(1));
    assert!(lexicographical_compare(&left, &right, LessU32).unwrap());
}

#[test]
fn mismatch_reports_the_shared_end_when_lengths_differ() {
    let left = vec![1_u32, 2];
    let right = vec![1_u32, 2, 3];
    assert_eq!(mismatch(&left, &right, EqualU32).unwrap(), Some(2));
    assert_eq!(mismatch(&left, &left, EqualU32).unwrap(), None);
    assert!(equal(&left, &left.clone(), EqualU32).unwrap());
    assert!(!equal(&left, &right, EqualU32).unwrap());
    assert!(lexicographical_compare(&left, &right, LessU32).unwrap());
    assert!(!lexicographical_compare(&right, &left, LessU32).unwrap());
    assert!(!lexicographical_compare(&left, &left, LessU32).unwrap());
}

#[test]
fn find_first_of_without_a_match_is_none() {
    let source = vec![5_u32, 6, 7];
    assert_eq!(find_first_of(&source, &vec![1, 2], EqualU32).unwrap(), None);
    assert_eq!(find_first_of(&source, &vec![7, 6], EqualU32).unwrap(), Some(1));
}

fn offset_slice(storage: &[u32], offset: u32, len: usize) -> Vec<u32> {
    let slot: Slot<'_, u32, Direct> = Slot { slot: storage, offset, mode: PhantomData };
    let mut rows = vec![0_u32; len];
    materialize(&slot, len, &mut rows).unwrap();
    rows
}

#[test]
fn shared_offset_binding_preserves_each_input_slice() {
    let left = vec![90_u32, 1, 2, 3, 91];
    let right = vec![80_u32, 81, 1, 4, 3, 82];
    let needles = vec![70_u32, 71, 3, 72];
    let left_slice = offset_slice(&left, 1, 3);
    let right_slice = offset_slice(&right, 2, 3);
    let needle_slice = offset_slice(&needles, 2, 1);
    assert_eq!(left_slice, vec![1, 2, 3]);
    assert_eq!(right_slice, vec![1, 4, 3]);
    assert_eq!(mismatch(&left_slice, &right_slice, EqualU32).unwrap(), Some(1));
    assert_eq!(find_first_of(&left_slice, &needle_slice, EqualU32).unwrap(), Some(2));
}
