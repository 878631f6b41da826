//! Explicit materialization boundaries: copying the initialized prefix of
//! an expression or an allocation into storage of exactly that length.
use vstd::prelude::*;

use crate::error::Error;
use crate::eval::DeviceExpr;

verus! {

/// Copies rows `0..len` of `input`, its resolved logical extent, into new
/// storage of exactly `len` rows.
pub fn exact<Item, InputExpr: DeviceExpr<Item>>(input: &InputExpr, len: usize) -> (r: Vec<Item>)
    requires
        forall|i: int| 0 <= i < len ==> input.defined_at(i),
    ensures
        r.len() == len,
        forall|i: int| 0 <= i < len ==> r[i] == input.item_at(i),
{
    let mut output: Vec<Item> = Vec::new();
    let mut i: usize = 0;
    while i < len
        invariant
            i <= len,
            output.len() == i,
            forall|k: int| 0 <= k < len ==> input.defined_at(k),
            forall|k: int| 0 <= k < i ==> output[k] == input.item_at(k),
        decreases len - i,
    {
        output.push(input.eval(i));
        i = i + 1;
    }
    output
}

/// Trims `storage` to its first `len` rows, which are known to be
/// initialized; storage that is already exactly that long is kept as it is.
pub fn into_exact_prefix<T: Copy>(storage: Vec<T>, len: u32) -> (r: Result<Vec<T>, Error>)
    ensures
        len > storage.len() ==> r == Err::<Vec<T>, Error>(
            Error::OutputTooShort { input: len as usize, output: storage.len() },
        ),
        len <= storage.len() ==> (r matches Ok(v) && v@ == storage@.subrange(0, len as int)),
{
    let capacity = storage.len();
    if len as usize > capacity {
        return Err(Error::OutputTooShort { input: len as usize, output: capacity });
    }
    if len as usize == capacity {
        proof {
            assert(storage@.subrange(0, len as int) =~= storage@);
        }
        return Ok(storage);
    }
    let mut output: Vec<T> = Vec::new();
    let mut i: usize = 0;
    while i < len as usize
        invariant
            len <= storage.len(),
            i <= len,
            output@ == storage@.subrange(0, i as int),
        decreases len - i,
    {
        output.push(storage[i]);
        i = i + 1;
    }
    Ok(output)
}

} // verus!
