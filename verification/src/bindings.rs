//! Host-side buffers and offsets for the fixed kernel interface.
//!
//! Read and output trees use the same binding representation: one slot per
//! leaf, each a device buffer (named here by an identifier) with its length,
//! and one row offset per slot.  Unused slots are padded with a shared dummy
//! buffer that the kernel never indexes.
use vstd::prelude::*;

verus! {

/// Read slots of the fixed kernel interface.
pub const READ_SLOTS: usize = 13;

/// Write slots of the fixed kernel interface.
pub const WRITE_SLOTS: usize = 12;

/// Where the read offsets start in a transfer's metadata.
pub const TRANSFER_READ_OFFSET: usize = 12;

/// Where the operation parameters start in a transfer's metadata.
pub const TRANSFER_PARAMETERS_OFFSET: usize = 25;

/// Slots staged for one kernel launch.
pub struct Bindings {
    /// Buffer identifier and length of each slot.
    pub slots: Vec<(u64, usize)>,
    /// Row offset of each slot.
    pub offsets: Vec<u32>,
}

impl Bindings {
    /// One offset per slot.
    pub open spec fn well_formed(&self) -> bool {
        self.slots.len() == self.offsets.len()
    }

    pub fn new() -> (r: Self)
        ensures
            r.slots@ == Seq::<(u64, usize)>::empty(),
            r.offsets@ == Seq::<u32>::empty(),
    {
        Bindings { slots: Vec::new(), offsets: Vec::new() }
    }

    /// Appends one slot.
    pub fn push(&mut self, handle: u64, len: usize, offset: u32)
        ensures
            final(self).slots@ == old(self).slots@.push((handle, len)),
            final(self).offsets@ == old(self).offsets@.push(offset),
    {
        self.slots.push((handle, len));
        self.offsets.push(offset);
    }

    /// One metadata buffer for a row transfer: the output offsets, then the
    /// input offsets, then the operation parameters.
    pub fn transfer_metadata(reads: &Self, writes: &Self, parameters: &Vec<u32>) -> (r: Vec<u32>)
        ensures
            r@ == writes.offsets@ + reads.offsets@ + parameters@,
    {
        let mut metadata: Vec<u32> = Vec::new();
        let mut i: usize = 0;
        while i < writes.offsets.len()
            invariant
                i <= writes.offsets.len(),
                metadata@ == writes.offsets@.subrange(0, i as int),
            decreases writes.offsets.len() - i,
        {
            metadata.push(writes.offsets[i]);
            i = i + 1;
        }
        let mut i: usize = 0;
        while i < reads.offsets.len()
            invariant
                i <= reads.offsets.len(),
                metadata@ == writes.offsets@ + reads.offsets@.subrange(0, i as int),
            decreases reads.offsets.len() - i,
        {
            metadata.push(reads.offsets[i]);
            i = i + 1;
        }
        let mut i: usize = 0;
        while i < parameters.len()
            invariant
                i <= parameters.len(),
                metadata@ == writes.offsets@ + reads.offsets@ + parameters@.subrange(0, i as int),
            decreases parameters.len() - i,
        {
            metadata.push(parameters[i]);
            i = i + 1;
        }
        proof {
            assert(writes.offsets@.subrange(0, writes.offsets.len() as int) =~= writes.offsets@);
            assert(reads.offsets@.subrange(0, reads.offsets.len() as int) =~= reads.offsets@);
            assert(parameters@.subrange(0, parameters.len() as int) =~= parameters@);
        }
        metadata
    }

    /// Pads the slots up to `count` with the one-row buffer `dummy`; the
    /// slots must not already exceed `count`.
    pub fn pad_to(&mut self, dummy: u64, count: usize)
        requires
            old(self).slots.len() <= count,
        ensures
            final(self).slots@ == old(self).slots@ + Seq::new(
                (count - old(self).slots.len()) as nat,
                |i: int| (dummy, 1usize),
            ),
            final(self).offsets@ == old(self).offsets@ + Seq::new(
                (count - old(self).slots.len()) as nat,
                |i: int| 0u32,
            ),
    {
        let ghost start_slots = self.slots@;
        let ghost start_offsets = self.offsets@;
        let ghost base = self.slots.len() as int;
        while self.slots.len() < count
            invariant
                base <= self.slots.len() <= count,
                base == start_slots.len(),
                self.slots@ == start_slots + Seq::new(
                    (self.slots.len() - base) as nat,
                    |i: int| (dummy, 1usize),
                ),
                self.offsets@ == start_offsets + Seq::new(
                    (self.slots.len() - base) as nat,
                    |i: int| 0u32,
                ),
            decreases count - self.slots.len(),
        {
            self.push(dummy, 1, 0);
        }
    }
}

} // verus!
