//! Point-in-time inspection of another process's mapped memory.
//!
//! The verified core of a memory-snapshot tool: it parses the kernel's
//! per-process memory-map listing into typed region records, resolves a
//! region by its symbolic name, plans bounded-window reads of the target's
//! address space, and drives the stop/resume protocol that keeps the target
//! quiesced while it is observed.  All file and signal I/O stays outside
//! this crate; the library works on plain bytes and values handed in by
//! its caller.

pub mod analyze;
pub mod lock;
pub mod numeral;
pub mod reader;
pub mod resolve;
pub mod table;

use vstd::prelude::*;

verus! {

/// A half-open interval `[start, end)` of virtual addresses in the
/// target's address space.
#[derive(Clone, Copy, Debug, PartialEq, Eq, Structural)]
pub struct AddressRange {
    pub start: u64,
    pub end: u64,
}

impl AddressRange {
    /// Every range produced by the parser satisfies this: the interval
    /// is never inverted.
    pub open spec fn wf(self) -> bool {
        self.start <= self.end
    }

    /// Number of bytes the interval covers.
    pub open spec fn spec_size(self) -> int {
        self.end - self.start
    }

    /// Byte count of the interval, `end - start`.
    pub fn size(self) -> (n: u64)
        requires
            self.wf(),
        ensures
            n == self.spec_size(),
    {
        self.end - self.start
    }
}

/// What can go wrong between a fresh listing and the extracted bytes:
/// a malformed listing line, a name no row carries, or a read the kernel
/// cut short because the mapping changed underneath an unquiesced reader.
#[derive(Debug)]
pub enum CoreError {
    Parse(crate::table::ParseError),
    RegionNotFound { name: Vec<u8> },
    IncompleteRead { expected: u64, got: u64 },
}

} // verus!
