use massively::arity::{AddArity, Dispatch, A1, A12, A13, A2, A6, A7};

#[test]
fn read_arities_add_up_to_thirteen() {
    let sum: <A1 as AddArity<A12>>::Output = A13;
    let other: <A6 as AddArity<A7>>::Output = A13;
    let small: <A1 as AddArity<A1>>::Output = A2;
    assert_eq!(sum, other);
    assert_eq!(small, A2);
}

#[test]
fn dispatch_keys_are_plain_markers() {
    let key: Dispatch<A13, A1> = Dispatch(core::marker::PhantomData);
    let copy = key.clone();
    let _ = (key, copy);
}
