//! Verified building blocks of a massively parallel vector-algorithm
//! library.
//!
//! Every device stage is written as a plain function over row vectors that
//! computes, block by block and lane by lane where the result depends on it,
//! what the stage writes.  The host schedules
//! that compose the stages (multi-level scans, reductions, radix passes,
//! selection routes) are written on top of them and proved against the
//! serial meaning of each algorithm.
use vstd::prelude::*;

pub mod arg_reduce;
pub mod arity;
pub mod bindings;
pub mod bits;
pub mod collective;
pub mod error;
pub mod eval;
pub mod expansion;
pub mod facade;
pub mod flags;
pub mod fold;
pub mod indexed;
pub mod lanes;
pub mod launch;
pub mod materialize;
pub mod merge;
pub mod ops;
pub mod radix;
pub mod random;
pub mod reduce;
pub mod scan;
pub mod scatter_reduce;
pub mod search;
pub mod segmented;
pub mod selection;
pub mod value;

verus! {

} // verus!
