//! The allocator's vocabulary: errors, outcomes, process identifiers and
//! shared range records.

use std::ops::Range;
use vstd::prelude::*;

verus! {

/// Why an allocator operation was refused.
#[derive(Debug, Clone, Copy, PartialEq, Eq, Structural)]
pub enum AllocError {
    /// The process identifier is already a key of the ledger.
    AlreadyRegistered,
    /// The process identifier is not a key of the ledger.
    NoSuchProcess,
    /// No single record of the process holds the requested range.
    NotOwned,
    /// No record of the process starts at the given offset.
    BlockNotFound,
    /// An allocation of zero bytes was requested.
    ZeroSize,
}

impl AllocError {
    /// The text of the error, as a specification value.
    pub open spec fn text(self) -> Seq<char> {
        match self {
            AllocError::AlreadyRegistered => "this process id is already registered"@,
            AllocError::NoSuchProcess => "the given process id does not exist"@,
            AllocError::NotOwned => "the memory range is not owned by the process"@,
            AllocError::BlockNotFound =>
                "the block at the given start address was not found for this process"@,
            AllocError::ZeroSize => "an allocation must have at least one byte"@,
        }
    }

    /// Human-readable description of the error.
    pub fn message(&self) -> (s: String)
        ensures
            s@ == self.text(),
    {
        match self {
            AllocError::AlreadyRegistered => "this process id is already registered".to_owned(),
            AllocError::NoSuchProcess => "the given process id does not exist".to_owned(),
            AllocError::NotOwned => "the memory range is not owned by the process".to_owned(),
            AllocError::BlockNotFound =>
                "the block at the given start address was not found for this process".to_owned(),
            AllocError::ZeroSize => "an allocation must have at least one byte".to_owned(),
        }
    }
}

/// What a successful free did.
#[derive(Debug, Clone, Copy, PartialEq, Eq, Structural)]
pub enum FreeBlock {
    /// The block went back to the free list on its own; holds its size.
    Free(u32),
    /// The block went back and was joined with adjacent free space; holds
    /// the size of the joined free block.
    FreeMerge(u32),
    /// The caller's reference was dropped; other holders remain.
    RefcountDecreased,
}

/// Identifier of a logical owner of memory.
#[derive(Debug, Copy, Clone, Eq, PartialEq, Hash, Structural)]
pub struct Process(pub u32);

impl Process {
    /// The number that four bytes spell in little-endian order.
    pub open spec fn le_value(bytes: [u8; 4]) -> int {
        bytes[0] + 0x100 * bytes[1] + 0x1_0000 * bytes[2] + 0x100_0000 * bytes[3]
    }

    /// The identifier spelled by four little-endian bytes.
    pub fn from_le_bytes(bytes: [u8; 4]) -> (p: Process)
        ensures
            p.0 == Self::le_value(bytes),
    {
        let b0: u32 = bytes[0] as u32;
        let b1: u32 = bytes[1] as u32;
        let b2: u32 = bytes[2] as u32;
        let b3: u32 = bytes[3] as u32;
        Process(b0 + 0x100 * b1 + 0x1_0000 * b2 + 0x100_0000 * b3)
    }

    /// The identifier as a number.
    pub fn id(&self) -> (n: u32)
        ensures
            n == self.0,
    {
        self.0
    }
}

/// A shared range record: one byte range of the arena together with the
/// number of ledger entries that refer to it.
#[derive(Debug)]
pub struct MemRange {
    pub refcount: u32,
    pub range: Range<u32>,
}

impl MemRange {
    pub fn new(refcount: u32, range: Range<u32>) -> (m: MemRange)
        ensures
            m.refcount == refcount,
            m.range == range,
    {
        MemRange { refcount, range }
    }
}

impl Clone for MemRange {
    fn clone(&self) -> (m: MemRange)
        ensures
            m == *self,
    {
        MemRange { refcount: self.refcount, range: self.range.start..self.range.end }
    }
}

} // verus!
