//! Scalars that can occupy one physical storage column.
use vstd::prelude::*;

verus! {

/// A scalar that can occupy one physical storage column.
///
/// Only integer scalars are modelled: the library's contracts speak of exact
/// values, which floating-point columns do not have here.
pub trait MStorageElement: Copy + Send + Sync + 'static {
}

impl MStorageElement for u8 {
}

impl MStorageElement for u16 {
}

impl MStorageElement for u32 {
}

impl MStorageElement for u64 {
}

impl MStorageElement for i8 {
}

impl MStorageElement for i16 {
}

impl MStorageElement for i32 {
}

impl MStorageElement for i64 {
}

} // verus!
