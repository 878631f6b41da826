use massively::indexed::gather;
use massively::merge::merge_direct;
use massively::ops::{LessByFirst, SumWide, Wide};
use massively::radix::permutation;
use massively::reduce::reduce;
use massively::scan::{exclusive_scan, inclusive_scan};
use massively::selection::copy_where;

type Triple = (u32, u32, u32);

type Twelve = (u32, u32, u32, u32, u32, u32, u32, u32, u32, u32, u32, u32);

fn columns(rows: &[Triple]) -> (Vec<u32>, Vec<u32>, Vec<u32>) {
    (
        rows.iter().map(|row| row.0).collect(),
        rows.iter().map(|row| row.1).collect(),
        rows.iter().map(|row| row.2).collect(),
    )
}

fn triples(a: &[u32], b: &[u32], c: &[u32]) -> Vec<Triple> {
    a.iter().zip(b).zip(c).map(|((a, b), c)| (*a, *b, *c)).collect()
}

/// Stable sort of rows by their first column: the radix order of that
/// column, then a gather of the whole rows through it.
fn sort_by_first<T: Copy>(rows: &Vec<T>, first: &Vec<u32>, fill: T) -> Vec<T> {
    let order = permutation(first, first.len(), 8, 32).unwrap();
    let mut output = vec![fill; rows.len()];
    gather(rows, &order, &mut output).unwrap();
    output
}

#[test]
fn sort_returns_flat_owned_columns() {
    let rows = triples(&[3, 1, 2], &[30, 10, 20], &[300, 100, 200]);
    let first: Vec<u32> = rows.iter().map(|row| row.0).collect();
    let (a, b, c) = columns(&sort_by_first(&rows, &first, (0, 0, 0)));
    assert_eq!(a, vec![1, 2, 3]);
    assert_eq!(b, vec![10, 20, 30]);
    assert_eq!(c, vec![100, 200, 300]);
}

#[test]
fn copy_where_returns_flat_owned_columns() {
    let rows = triples(&[1, 2, 3, 4], &[10, 20, 30, 40], &[100, 200, 300, 400]);
    let flags = vec![0_u32, 1, 1, 0];
    let mut output = vec![(0, 0, 0); 4];
    let count = copy_where(&rows, &flags, &mut output).unwrap();
    assert_eq!(count, vec![2]);
    let (a, b, c) = columns(&output[..2]);
    assert_eq!(a, vec![2, 3]);
    assert_eq!(b, vec![20, 30]);
    assert_eq!(c, vec![200, 300]);
}

#[test]
fn gather_returns_flat_owned_columns() {
    let rows = triples(&[1, 2, 3], &[10, 20, 30], &[100, 200, 300]);
    let indices = vec![2_u32, 0];
    let mut output = vec![(0, 0, 0); 2];
    gather(&rows, &indices, &mut output).unwrap();
    let (a, b, c) = columns(&output);
    assert_eq!(a, vec![3, 1]);
    assert_eq!(b, vec![30, 10]);
    assert_eq!(c, vec![300, 100]);
}

#[test]
fn merge_returns_flat_owned_columns() {
    let left = triples(&[1, 3], &[10, 30], &[100, 300]);
    let right = triples(&[2, 4], &[20, 40], &[200, 400]);
    let mut output = vec![(0, 0, 0); 4];
    merge_direct(&left, &right, LessByFirst, &mut output).unwrap();
    let (a, b, c) = columns(&output);
    assert_eq!(a, vec![1, 2, 3, 4]);
    assert_eq!(b, vec![10, 20, 30, 40]);
    assert_eq!(c, vec![100, 200, 300, 400]);
}

fn wide_columns(input: u32) -> Wide {
    let value = u64::from(input);
    (
        value,
        value * 2,
        value * 3,
        value * 4,
        value * 5,
        value * 6,
        value * 7,
        value * 8,
        value * 9,
        value * 10,
        value * 11,
        value * 12,
    )
}

fn wide_to_array(row: Wide) -> [u64; 12] {
    [row.0, row.1, row.2, row.3, row.4, row.5, row.6, row.7, row.8, row.9, row.10, row.11]
}

#[test]
fn scans_and_reduction_preserve_twelve_wide_columns_across_blocks() {
    let len = 17_003u32;
    let input: Vec<Wide> = (1..=len).map(wide_columns).collect();
    let initial: Wide = (1, 2, 3, 4, 5, 6, 7, 8, 9, 10, 11, 12);
    let reduced = reduce(&input, initial, SumWide);
    for (column, actual) in wide_to_array(reduced).into_iter().enumerate() {
        assert_eq!(
            actual,
            (column as u64 + 1) * (1 + u64::from(len) * (u64::from(len) + 1) / 2)
        );
    }
    for exclusive in [false, true] {
        let mut output = vec![(0, 0, 0, 0, 0, 0, 0, 0, 0, 0, 0, 0); len as usize];
        if exclusive {
            exclusive_scan(&input, initial, SumWide, &mut output).unwrap();
        } else {
            inclusive_scan(&input, SumWide, &mut output).unwrap();
        }
        for column in 0..12 {
            let actual: Vec<u64> = output.iter().map(|row| wide_to_array(*row)[column]).collect();
            let expected: Vec<u64> = (0..u64::from(len))
                .map(|index| {
                    let terms = if exclusive { index } else { index + 1 };
                    (column as u64 + 1) * (u64::from(exclusive) + terms * (terms + 1) / 2)
                })
                .collect();
            assert_eq!(actual, expected, "column {column}, exclusive {exclusive}");
        }
    }
}

fn ascending_tuple(input: u32) -> Twelve {
    (
        input,
        input + 1,
        input + 2,
        input + 3,
        input + 4,
        input + 5,
        input + 6,
        input + 7,
        input + 8,
        input + 9,
        input + 10,
        input + 11,
    )
}

fn twelve_to_array(row: Twelve) -> [u32; 12] {
    [row.0, row.1, row.2, row.3, row.4, row.5, row.6, row.7, row.8, row.9, row.10, row.11]
}

#[test]
fn sort_composes_ordering_and_gather_for_twelve_columns() {
    let input = vec![30_u32, 10, 20];
    let rows: Vec<Twelve> = input.iter().copied().map(ascending_tuple).collect();
    let first: Vec<u32> = rows.iter().map(|row| row.0).collect();
    let output = sort_by_first(&rows, &first, ascending_tuple(0));
    for offset in 0..12_u32 {
        let column: Vec<u32> =
            output.iter().map(|row| twelve_to_array(*row)[offset as usize]).collect();
        assert_eq!(column, vec![10 + offset, 20 + offset, 30 + offset]);
    }
}
