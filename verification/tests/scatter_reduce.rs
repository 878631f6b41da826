use massively::error::Error;
use massively::ops::Sum;
use massively::scatter_reduce::scatter_combine;

#[test]
fn reduced_proposals_combine_into_their_rows() {
    let source = vec![5_u32, 7, 9];
    let indices = vec![3_u32, 0, 1];
    let positions = vec![2_u32, 0, 1];
    let order = vec![1_u32, 2, 0];
    let mut output = vec![100_u32, 200, 300, 400];
    scatter_combine::<u32, Sum>(&source, &indices, &positions, &order, 3, &mut output).unwrap();
    // proposal 0 -> order[2] = 0 -> indices[0] = 3; proposal 1 -> order[0] = 1 -> 0;
    // proposal 2 -> order[1] = 2 -> 1.
    assert_eq!(output, vec![107, 209, 300, 405]);
}

#[test]
fn only_active_proposals_apply() {
    let source = vec![5_u32, 7];
    let indices = vec![0_u32, 1];
    let positions = vec![0_u32, 1];
    let order = vec![0_u32, 1];
    let mut output = vec![1_u32, 1];
    scatter_combine::<u32, Sum>(&source, &indices, &positions, &order, 1, &mut output).unwrap();
    assert_eq!(output, vec![6, 1]);
    assert_eq!(
        scatter_combine::<u32, Sum>(&source, &indices, &vec![0], &order, 1, &mut output),
        Err(Error::LengthMismatch { left: 2, right: 1 })
    );
}
