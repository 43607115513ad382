//! The stop/resume protocol around the target process, as decisions.
//!
//! The target's run/stop state is ambient kernel state: the signals that
//! change it, and the opening of the memory pseudo-file, happen outside
//! this library.  What the library owns is every decision of the
//! protocol: how a failed stop is classified, the rule that a failed
//! open must resume the target before the error surfaces (so a failed
//! acquisition never leaves the target frozen), and the composition of a
//! fresh listing, the name lookup and the size computation that a
//! `region_bytes` request performs while the target is quiesced.

use vstd::prelude::*;

use crate::CoreError;
use crate::resolve::{find_by_name, first_match_idx, name_matches};
use crate::table::{parse, spec_parse_table, table_models, MemoryRegion, RegionModel};

verus! {

/// Why an acquisition failed.
#[derive(Clone, Copy, Debug, PartialEq, Eq, Structural)]
pub enum LockError {
    /// The target does not exist.
    NoSuchProcess,
    /// The caller may not signal the target.
    PermissionDenied,
    /// The stop succeeded but the memory pseudo-file could not be
    /// opened — for instance the target exited in between.
    TargetUnavailable,
}

/// The kernel's code for a refused signal: operation not permitted.
pub const ERRNO_NOT_PERMITTED: i32 = 1;

/// The kernel's code for a signal to a process that does not exist.
pub const ERRNO_NO_PROCESS: i32 = 3;

/// How a failed stop signal is reported: the no-such-process code means
/// the target is gone, the permission code that the caller may not touch
/// it.  Any other failure is likewise treated as the target not being
/// reachable.
pub open spec fn spec_classify_stop_failure(errno: i32) -> LockError {
    if errno == ERRNO_NOT_PERMITTED {
        LockError::PermissionDenied
    } else {
        LockError::NoSuchProcess
    }
}

/// Classify the error code the stop signal came back with.
pub fn classify_stop_failure(errno: i32) -> (e: LockError)
    ensures
        e == spec_classify_stop_failure(errno),
{
    if errno == ERRNO_NOT_PERMITTED {
        LockError::PermissionDenied
    } else {
        LockError::NoSuchProcess
    }
}

/// First step of `acquire`: the stop signal was sent; `stop_errno` is the
/// kernel's error code if it failed.  A failure here leaves the target's
/// prior state untouched, so no resume is owed: the acquisition simply
/// surfaces the classified error.
pub fn after_stop_attempt(stop_errno: Option<i32>) -> (r: Result<(), LockError>)
    ensures
        r is Ok <==> stop_errno is None,
        stop_errno matches Some(e) ==> r == Result::<(), LockError>::Err(
            spec_classify_stop_failure(e),
        ),
{
    match stop_errno {
        None => Result::Ok(()),
        Some(e) => Result::Err(classify_stop_failure(e)),
    }
}

/// What to do once the stopped target's memory pseudo-file has been
/// opened, or not.
#[derive(Clone, Copy, Debug, PartialEq, Eq, Structural)]
pub enum AfterOpen {
    /// The lock is live: the target is quiesced and the handle is open.
    Ready,
    /// Resume the target first, then surface the error: the target was
    /// already stopped, and a failed acquisition must never leave it
    /// frozen.  The resume is best-effort; its own failure is not fatal.
    ResumeThenFail(LockError),
}

/// Second step of `acquire`: the open of the memory pseudo-file either
/// succeeded or it did not.  On failure the one admissible course is to
/// resume the target and only then report `TargetUnavailable`.
pub fn after_open_attempt(opened: bool) -> (r: AfterOpen)
    ensures
        opened ==> r == AfterOpen::Ready,
        !opened ==> r == AfterOpen::ResumeThenFail(LockError::TargetUnavailable),
{
    if opened {
        AfterOpen::Ready
    } else {
        AfterOpen::ResumeThenFail(LockError::TargetUnavailable)
    }
}

/// One `region_bytes` request, up to the read itself: parse the fresh
/// listing strictly, resolve `name` to its first matching row.  Because
/// the caller holds the target quiesced from the listing through the
/// read, the returned row still describes the mapping when the bytes are
/// read — the core consistency guarantee.
pub fn region_request(maps_text: &[u8], name: &[u8]) -> (r: Result<MemoryRegion, CoreError>)
    ensures
        r is Ok <==> (spec_parse_table(maps_text@) matches Result::Ok(t) && first_match_idx(
            t,
            name@,
        ) >= 0),
        r matches Result::Ok(region) ==> region.wf() && region@ == spec_parse_table(
            maps_text@,
        )->Ok_0[first_match_idx(spec_parse_table(maps_text@)->Ok_0, name@)],
        r matches Result::Err(CoreError::Parse(e)) ==> Result::<
            Seq<RegionModel>,
            crate::table::ErrModel,
        >::Err(e@) == spec_parse_table(maps_text@),
        r matches Result::Err(CoreError::RegionNotFound { name: n }) ==> n@ == name@
            && spec_parse_table(maps_text@) is Ok && forall|j: int|
            0 <= j < spec_parse_table(maps_text@)->Ok_0.len() ==> !name_matches(
                #[trigger] spec_parse_table(maps_text@)->Ok_0[j],
                name@,
            ),
        !(r matches Result::Err(CoreError::IncompleteRead { expected: _, got: _ })),
{
    let table = match parse(maps_text) {
        Result::Err(e) => {
            return Result::Err(CoreError::Parse(e));
        },
        Result::Ok(t) => t,
    };
    proof {
        crate::resolve::lemma_first_match(table_models(table@), name@);
    }
    find_by_name(&table, name)
}

} // verus!
