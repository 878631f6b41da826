use massively::arity::{A1, A3, A12};
use massively::eval::{Direct, Slot};
use massively::facade::{KernelInput, KernelOutput, KernelOutputLeaves, KernelValue};
use std::marker::PhantomData;

fn storage_arity<T: KernelValue<StorageArity = Arity>, Arity>() {}

fn storable<T: KernelOutputLeaves>() {}

fn destination<O: KernelOutput>(_: &O) {}

fn readable<I: KernelInput<u32>>(_: &I) {}

#[test]
fn pairs_count_the_leaves_of_both_components() {
    storage_arity::<u32, A1>();
    storage_arity::<(u32, (i64, u8)), A3>();
    type Six = (u32, (u32, (u32, (u32, (u32, u32)))));
    storage_arity::<(Six, Six), A12>();
    storable::<(Six, Six)>();
    storable::<(u32, (u32, u64))>();
}

#[test]
fn columns_and_expressions_meet_the_kernel_bounds() {
    destination(&vec![(1_u32, 2_u64)]);
    let values = [1_u32, 2, 3];
    readable(&Slot::<'_, u32, Direct> { slot: &values, offset: 0, mode: PhantomData });
}
