//! The bounds under which values and expressions go through the fixed
//! kernel interface: thirteen read slots and twelve write slots.
use vstd::prelude::*;

use crate::arity::{
    A1, A10, A11, A12, A2, A3, A4, A5, A6, A7, A8, A9, AddArity, ReadArity,
};
use crate::eval::DeviceExpr;

verus! {

/// A row value with a fixed physical leaf layout; `StorageArity` counts
/// its leaves, a pair having the leaves of both components.
pub trait KernelValue {
    type StorageArity: ReadArity;
}

impl KernelValue for u8 {
    type StorageArity = A1;
}

impl KernelValue for u16 {
    type StorageArity = A1;
}

impl KernelValue for u32 {
    type StorageArity = A1;
}

impl KernelValue for u64 {
    type StorageArity = A1;
}

impl KernelValue for i8 {
    type StorageArity = A1;
}

impl KernelValue for i16 {
    type StorageArity = A1;
}

impl KernelValue for i32 {
    type StorageArity = A1;
}

impl KernelValue for i64 {
    type StorageArity = A1;
}

impl<L: KernelValue, R: KernelValue> KernelValue for (L, R) where
    L::StorageArity: AddArity<R::StorageArity>,
 {
    type StorageArity = <L::StorageArity as AddArity<R::StorageArity>>::Output;
}

/// Leaf counts that the twelve write slots can store.
pub trait StoreArity: ReadArity {
    proof fn lemma_fits_write_slots()
        ensures
            Self::leaves() <= 12,
    ;
}

impl StoreArity for A1 {
    proof fn lemma_fits_write_slots() {
    }
}

impl StoreArity for A2 {
    proof fn lemma_fits_write_slots() {
    }
}

impl StoreArity for A3 {
    proof fn lemma_fits_write_slots() {
    }
}

impl StoreArity for A4 {
    proof fn lemma_fits_write_slots() {
    }
}

impl StoreArity for A5 {
    proof fn lemma_fits_write_slots() {
    }
}

impl StoreArity for A6 {
    proof fn lemma_fits_write_slots() {
    }
}

impl StoreArity for A7 {
    proof fn lemma_fits_write_slots() {
    }
}

impl StoreArity for A8 {
    proof fn lemma_fits_write_slots() {
    }
}

impl StoreArity for A9 {
    proof fn lemma_fits_write_slots() {
    }
}

impl StoreArity for A10 {
    proof fn lemma_fits_write_slots() {
    }
}

impl StoreArity for A11 {
    proof fn lemma_fits_write_slots() {
    }
}

impl StoreArity for A12 {
    proof fn lemma_fits_write_slots() {
    }
}

/// Values whose leaves the twelve write slots can store.
pub trait KernelOutputLeaves: KernelValue {
    proof fn lemma_storable()
        ensures
            <Self::StorageArity as ReadArity>::leaves() <= 12,
    ;
}

impl<T: KernelValue> KernelOutputLeaves for T where T::StorageArity: StoreArity {
    proof fn lemma_storable() {
        <T::StorageArity as StoreArity>::lemma_fits_write_slots();
    }
}

/// A preallocated destination whose rows can be staged through the write
/// slots.
pub trait KernelOutput {
    type Item: KernelOutputLeaves;
}

impl<T: KernelOutputLeaves> KernelOutput for Vec<T> {
    type Item = T;
}

/// A read expression that a kernel can evaluate row by row.
pub trait KernelInput<Item>: DeviceExpr<Item> {
}

impl<Item, InputExpr: DeviceExpr<Item>> KernelInput<Item> for InputExpr {
}

} // verus!
