//! Planning and checking reads of the target's memory pseudo-file.
//!
//! The pseudo-file's addressing convention is that the byte offset is the
//! target's virtual address, so a region's bytes are read by seeking to
//! `range.start` and reading `range.size()` bytes forward.  The library
//! does not hold the file handle itself; it computes the exact windows to
//! read — bounded, so a gigabyte region never becomes one unbounded
//! allocation — and checks afterwards that the caller got exactly the
//! byte count the snapshot promised, reporting a short read rather than
//! ever passing off a silently truncated buffer.

use vstd::prelude::*;

use crate::{AddressRange, CoreError};

verus! {

/// Upper bound on one read window.
pub const READ_WINDOW_BYTES: u64 = 1048576;

/// Split a region's address range into the consecutive windows to read:
/// they start at `range.start`, chain gaplessly, end at `range.end`, and
/// each covers at least one and at most `READ_WINDOW_BYTES` bytes.  A
/// zero-length range yields no window at all, so no read is ever opened
/// for it.
pub fn read_windows(range: AddressRange) -> (r: Vec<AddressRange>)
    requires
        range.wf(),
    ensures
        range.spec_size() == 0 <==> r@.len() == 0,
        r@.len() > 0 ==> r@[0].start == range.start && r@[r@.len() - 1].end == range.end,
        forall|i: int|
            0 <= i < r@.len() ==> (#[trigger] r@[i]).start < r@[i].end && r@[i].spec_size()
                <= READ_WINDOW_BYTES,
        forall|i: int| 0 <= i < r@.len() - 1 ==> (#[trigger] r@[i]).end == r@[i + 1].start,
{
    let mut r: Vec<AddressRange> = Vec::new();
    let mut cursor: u64 = range.start;
    while cursor < range.end
        invariant
            range.start <= cursor <= range.end,
            r@.len() == 0 <==> cursor == range.start,
            r@.len() > 0 ==> r@[0].start == range.start && r@[r@.len() - 1].end == cursor,
            forall|i: int|
                0 <= i < r@.len() ==> (#[trigger] r@[i]).start < r@[i].end
                    && r@[i].spec_size() <= READ_WINDOW_BYTES,
            forall|i: int|
                0 <= i < r@.len() - 1 ==> (#[trigger] r@[i]).end == r@[i + 1].start,
        decreases range.end - cursor,
    {
        let remaining = range.end - cursor;
        let step = if remaining > READ_WINDOW_BYTES {
            READ_WINDOW_BYTES
        } else {
            remaining
        };
        let ghost prev = r@;
        r.push(AddressRange { start: cursor, end: cursor + step });
        proof {
            assert(forall|i: int| 0 <= i < prev.len() ==> r@[i] == prev[i]);
        }
        cursor = cursor + step;
    }
    r
}

/// The read's external contract: exactly the promised byte count or a
/// reported error.  Accepts the bytes the caller gathered when their
/// count is exactly `expected`, and otherwise reports the short read —
/// the race where the mapping shrank or vanished between the snapshot
/// that produced the range and the read itself.
pub fn check_exact(expected: u64, data: Vec<u8>) -> (r: Result<Vec<u8>, CoreError>)
    ensures
        data@.len() == expected ==> (r matches Result::Ok(d) && d@ == data@),
        data@.len() != expected ==> (r matches Result::Err(CoreError::IncompleteRead {
            expected: e,
            got: g,
        }) && e == expected && g == data@.len()),
{
    let got = data.len() as u64;
    if got == expected {
        Result::Ok(data)
    } else {
        Result::Err(CoreError::IncompleteRead { expected, got })
    }
}

} // verus!
