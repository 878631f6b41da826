//! Type-level read arities and kernel dispatch keys.
use vstd::prelude::*;
use core::marker::PhantomData;

verus! {

/// Dispatch key combining a kernel's read and storage arities.
#[derive(Copy, Debug, Default)]
pub struct Dispatch<Read, Storage>(pub PhantomData<(Read, Storage)>);

impl<Read, Storage> Clone for Dispatch<Read, Storage> {
    fn clone(&self) -> (r: Self)
        ensures
            r == *self,
    {
        Dispatch(PhantomData)
    }
}

/// Seals [`ReadArity`]: only the markers of this module implement it.
pub trait Sealed {
}

/// A supported number of physical leaves read by an expression.
pub trait ReadArity: Sealed + 'static {
    /// Number of leaves the marker stands for.
    spec fn leaves() -> nat;

    /// Every marker counts between one and thirteen leaves.
    proof fn lemma_leaves_bounded()
        ensures
            1 <= Self::leaves() <= 13,
    ;
}

/// Type-level addition for read arities whose sum is at most thirteen.
///
/// There is deliberately no implementation for sums greater than thirteen.
pub trait AddArity<Rhs: ReadArity>: ReadArity {
    type Output: ReadArity;

    /// The output marker counts the leaves of both operands.
    proof fn lemma_adds()
        ensures
            Self::Output::leaves() == Self::leaves() + Rhs::leaves(),
    ;
}

/// Read arity marker `A1`.
#[derive(Clone, Copy, Debug, PartialEq, Eq)]
pub struct A1;

impl Sealed for A1 {
}

impl ReadArity for A1 {
    open spec fn leaves() -> nat {
        1
    }

    proof fn lemma_leaves_bounded() {
    }
}

/// Read arity marker `A2`.
#[derive(Clone, Copy, Debug, PartialEq, Eq)]
pub struct A2;

impl Sealed for A2 {
}

impl ReadArity for A2 {
    open spec fn leaves() -> nat {
        2
    }

    proof fn lemma_leaves_bounded() {
    }
}

/// Read arity marker `A3`.
#[derive(Clone, Copy, Debug, PartialEq, Eq)]
pub struct A3;

impl Sealed for A3 {
}

impl ReadArity for A3 {
    open spec fn leaves() -> nat {
        3
    }

    proof fn lemma_leaves_bounded() {
    }
}

/// Read arity marker `A4`.
#[derive(Clone, Copy, Debug, PartialEq, Eq)]
pub struct A4;

impl Sealed for A4 {
}

impl ReadArity for A4 {
    open spec fn leaves() -> nat {
        4
    }

    proof fn lemma_leaves_bounded() {
    }
}

/// Read arity marker `A5`.
#[derive(Clone, Copy, Debug, PartialEq, Eq)]
pub struct A5;

impl Sealed for A5 {
}

impl ReadArity for A5 {
    open spec fn leaves() -> nat {
        5
    }

    proof fn lemma_leaves_bounded() {
    }
}

/// Read arity marker `A6`.
#[derive(Clone, Copy, Debug, PartialEq, Eq)]
pub struct A6;

impl Sealed for A6 {
}

impl ReadArity for A6 {
    open spec fn leaves() -> nat {
        6
    }

    proof fn lemma_leaves_bounded() {
    }
}

/// Read arity marker `A7`.
#[derive(Clone, Copy, Debug, PartialEq, Eq)]
pub struct A7;

impl Sealed for A7 {
}

impl ReadArity for A7 {
    open spec fn leaves() -> nat {
        7
    }

    proof fn lemma_leaves_bounded() {
    }
}

/// Read arity marker `A8`.
#[derive(Clone, Copy, Debug, PartialEq, Eq)]
pub struct A8;

impl Sealed for A8 {
}

impl ReadArity for A8 {
    open spec fn leaves() -> nat {
        8
    }

    proof fn lemma_leaves_bounded() {
    }
}

/// Read arity marker `A9`.
#[derive(Clone, Copy, Debug, PartialEq, Eq)]
pub struct A9;

impl Sealed for A9 {
}

impl ReadArity for A9 {
    open spec fn leaves() -> nat {
        9
    }

    proof fn lemma_leaves_bounded() {
    }
}

/// Read arity marker `A10`.
#[derive(Clone, Copy, Debug, PartialEq, Eq)]
pub struct A10;

impl Sealed for A10 {
}

impl ReadArity for A10 {
    open spec fn leaves() -> nat {
        10
    }

    proof fn lemma_leaves_bounded() {
    }
}

/// Read arity marker `A11`.
#[derive(Clone, Copy, Debug, PartialEq, Eq)]
pub struct A11;

impl Sealed for A11 {
}

impl ReadArity for A11 {
    open spec fn leaves() -> nat {
        11
    }

    proof fn lemma_leaves_bounded() {
    }
}

/// Read arity marker `A12`.
#[derive(Clone, Copy, Debug, PartialEq, Eq)]
pub struct A12;

impl Sealed for A12 {
}

impl ReadArity for A12 {
    open spec fn leaves() -> nat {
        12
    }

    proof fn lemma_leaves_bounded() {
    }
}

/// Read arity marker `A13`.
#[derive(Clone, Copy, Debug, PartialEq, Eq)]
pub struct A13;

impl Sealed for A13 {
}

impl ReadArity for A13 {
    open spec fn leaves() -> nat {
        13
    }

    proof fn lemma_leaves_bounded() {
    }
}

impl AddArity<A1> for A1 {
    type Output = A2;

    proof fn lemma_adds() {
    }
}

impl AddArity<A2> for A1 {
    type Output = A3;

    proof fn lemma_adds() {
    }
}

impl AddArity<A3> for A1 {
    type Output = A4;

    proof fn lemma_adds() {
    }
}

impl AddArity<A4> for A1 {
    type Output = A5;

    proof fn lemma_adds() {
    }
}

impl AddArity<A5> for A1 {
    type Output = A6;

    proof fn lemma_adds() {
    }
}

impl AddArity<A6> for A1 {
    type Output = A7;

    proof fn lemma_adds() {
    }
}

impl AddArity<A7> for A1 {
    type Output = A8;

    proof fn lemma_adds() {
    }
}

impl AddArity<A8> for A1 {
    type Output = A9;

    proof fn lemma_adds() {
    }
}

impl AddArity<A9> for A1 {
    type Output = A10;

    proof fn lemma_adds() {
    }
}

impl AddArity<A10> for A1 {
    type Output = A11;

    proof fn lemma_adds() {
    }
}

impl AddArity<A11> for A1 {
    type Output = A12;

    proof fn lemma_adds() {
    }
}

impl AddArity<A12> for A1 {
    type Output = A13;

    proof fn lemma_adds() {
    }
}

impl AddArity<A1> for A2 {
    type Output = A3;

    proof fn lemma_adds() {
    }
}

impl AddArity<A2> for A2 {
    type Output = A4;

    proof fn lemma_adds() {
    }
}

impl AddArity<A3> for A2 {
    type Output = A5;

    proof fn lemma_adds() {
    }
}

impl AddArity<A4> for A2 {
    type Output = A6;

    proof fn lemma_adds() {
    }
}

impl AddArity<A5> for A2 {
    type Output = A7;

    proof fn lemma_adds() {
    }
}

impl AddArity<A6> for A2 {
    type Output = A8;

    proof fn lemma_adds() {
    }
}

impl AddArity<A7> for A2 {
    type Output = A9;

    proof fn lemma_adds() {
    }
}

impl AddArity<A8> for A2 {
    type Output = A10;

    proof fn lemma_adds() {
    }
}

impl AddArity<A9> for A2 {
    type Output = A11;

    proof fn lemma_adds() {
    }
}

impl AddArity<A10> for A2 {
    type Output = A12;

    proof fn lemma_adds() {
    }
}

impl AddArity<A11> for A2 {
    type Output = A13;

    proof fn lemma_adds() {
    }
}

impl AddArity<A1> for A3 {
    type Output = A4;

    proof fn lemma_adds() {
    }
}

impl AddArity<A2> for A3 {
    type Output = A5;

    proof fn lemma_adds() {
    }
}

impl AddArity<A3> for A3 {
    type Output = A6;

    proof fn lemma_adds() {
    }
}

impl AddArity<A4> for A3 {
    type Output = A7;

    proof fn lemma_adds() {
    }
}

impl AddArity<A5> for A3 {
    type Output = A8;

    proof fn lemma_adds() {
    }
}

impl AddArity<A6> for A3 {
    type Output = A9;

    proof fn lemma_adds() {
    }
}

impl AddArity<A7> for A3 {
    type Output = A10;

    proof fn lemma_adds() {
    }
}

impl AddArity<A8> for A3 {
    type Output = A11;

    proof fn lemma_adds() {
    }
}

impl AddArity<A9> for A3 {
    type Output = A12;

    proof fn lemma_adds() {
    }
}

impl AddArity<A10> for A3 {
    type Output = A13;

    proof fn lemma_adds() {
    }
}

impl AddArity<A1> for A4 {
    type Output = A5;

    proof fn lemma_adds() {
    }
}

impl AddArity<A2> for A4 {
    type Output = A6;

    proof fn lemma_adds() {
    }
}

impl AddArity<A3> for A4 {
    type Output = A7;

    proof fn lemma_adds() {
    }
}

impl AddArity<A4> for A4 {
    type Output = A8;

    proof fn lemma_adds() {
    }
}

impl AddArity<A5> for A4 {
    type Output = A9;

    proof fn lemma_adds() {
    }
}

impl AddArity<A6> for A4 {
    type Output = A10;

    proof fn lemma_adds() {
    }
}

impl AddArity<A7> for A4 {
    type Output = A11;

    proof fn lemma_adds() {
    }
}

impl AddArity<A8> for A4 {
    type Output = A12;

    proof fn lemma_adds() {
    }
}

impl AddArity<A9> for A4 {
    type Output = A13;

    proof fn lemma_adds() {
    }
}

impl AddArity<A1> for A5 {
    type Output = A6;

    proof fn lemma_adds() {
    }
}

impl AddArity<A2> for A5 {
    type Output = A7;

    proof fn lemma_adds() {
    }
}

impl AddArity<A3> for A5 {
    type Output = A8;

    proof fn lemma_adds() {
    }
}

impl AddArity<A4> for A5 {
    type Output = A9;

    proof fn lemma_adds() {
    }
}

impl AddArity<A5> for A5 {
    type Output = A10;

    proof fn lemma_adds() {
    }
}

impl AddArity<A6> for A5 {
    type Output = A11;

    proof fn lemma_adds() {
    }
}

impl AddArity<A7> for A5 {
    type Output = A12;

    proof fn lemma_adds() {
    }
}

impl AddArity<A8> for A5 {
    type Output = A13;

    proof fn lemma_adds() {
    }
}

impl AddArity<A1> for A6 {
    type Output = A7;

    proof fn lemma_adds() {
    }
}

impl AddArity<A2> for A6 {
    type Output = A8;

    proof fn lemma_adds() {
    }
}

impl AddArity<A3> for A6 {
    type Output = A9;

    proof fn lemma_adds() {
    }
}

impl AddArity<A4> for A6 {
    type Output = A10;

    proof fn lemma_adds() {
    }
}

impl AddArity<A5> for A6 {
    type Output = A11;

    proof fn lemma_adds() {
    }
}

impl AddArity<A6> for A6 {
    type Output = A12;

    proof fn lemma_adds() {
    }
}

impl AddArity<A7> for A6 {
    type Output = A13;

    proof fn lemma_adds() {
    }
}

impl AddArity<A1> for A7 {
    type Output = A8;

    proof fn lemma_adds() {
    }
}

impl AddArity<A2> for A7 {
    type Output = A9;

    proof fn lemma_adds() {
    }
}

impl AddArity<A3> for A7 {
    type Output = A10;

    proof fn lemma_adds() {
    }
}

impl AddArity<A4> for A7 {
    type Output = A11;

    proof fn lemma_adds() {
    }
}

impl AddArity<A5> for A7 {
    type Output = A12;

    proof fn lemma_adds() {
    }
}

impl AddArity<A6> for A7 {
    type Output = A13;

    proof fn lemma_adds() {
    }
}

impl AddArity<A1> for A8 {
    type Output = A9;

    proof fn lemma_adds() {
    }
}

impl AddArity<A2> for A8 {
    type Output = A10;

    proof fn lemma_adds() {
    }
}

impl AddArity<A3> for A8 {
    type Output = A11;

    proof fn lemma_adds() {
    }
}

impl AddArity<A4> for A8 {
    type Output = A12;

    proof fn lemma_adds() {
    }
}

impl AddArity<A5> for A8 {
    type Output = A13;

    proof fn lemma_adds() {
    }
}

impl AddArity<A1> for A9 {
    type Output = A10;

    proof fn lemma_adds() {
    }
}

impl AddArity<A2> for A9 {
    type Output = A11;

    proof fn lemma_adds() {
    }
}

impl AddArity<A3> for A9 {
    type Output = A12;

    proof fn lemma_adds() {
    }
}

impl AddArity<A4> for A9 {
    type Output = A13;

    proof fn lemma_adds() {
    }
}

impl AddArity<A1> for A10 {
    type Output = A11;

    proof fn lemma_adds() {
    }
}

impl AddArity<A2> for A10 {
    type Output = A12;

    proof fn lemma_adds() {
    }
}

impl AddArity<A3> for A10 {
    type Output = A13;

    proof fn lemma_adds() {
    }
}

impl AddArity<A1> for A11 {
    type Output = A12;

    proof fn lemma_adds() {
    }
}

impl AddArity<A2> for A11 {
    type Output = A13;

    proof fn lemma_adds() {
    }
}

impl AddArity<A1> for A12 {
    type Output = A13;

    proof fn lemma_adds() {
    }
}

} // verus!
