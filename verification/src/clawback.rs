//! The decision rule of the distributor's clawback-start update.
//!
//! The surrounding program plumbing (account loading, signer checks, the
//! clock) stays outside; this module holds the verified state transition:
//! given the distributor state, the current timestamp and the requested
//! clawback start, it either rejects the request or updates the state.

use vstd::prelude::*;

verus! {

/// Seconds in one day: the minimum delay after vesting ends.
pub const SECONDS_PER_DAY: i64 = 86400;

/// Error codes of the distributor program's instruction handlers.
#[derive(Debug, Clone, Copy, PartialEq, Eq, Structural)]
pub enum ErrorCode {
    /// The new timestamp does not lie in the future.
    TimestampsNotInFuture,
    /// The clawback start is less than one day after vesting ends.
    InsufficientClawbackDelay,
    /// A timestamp computation overflowed.
    ArithmeticError,
}

/// The distributor state the clawback rule reads and writes.
#[derive(Debug)]
pub struct MerkleDistributor {
    /// When vesting ends.
    pub end_ts: i64,
    /// When clawback becomes possible.
    pub clawback_start_ts: i64,
}

/// Sets a new clawback start time.
///
/// The new time must lie strictly in the future and at least one day after
/// the end of vesting; otherwise the state is left unchanged and the
/// matching error is returned.
pub fn handle_set_clawback_start_ts(
    distributor: &mut MerkleDistributor,
    curr_ts: i64,
    clawback_start_ts: i64,
) -> (r: Result<(), ErrorCode>)
    ensures
        clawback_start_ts <= curr_ts ==> (r == Err::<(), ErrorCode>(
            ErrorCode::TimestampsNotInFuture,
        ) && *final(distributor) == *old(distributor)),
        (clawback_start_ts > curr_ts && old(distributor).end_ts + SECONDS_PER_DAY > i64::MAX)
            ==> (r == Err::<(), ErrorCode>(ErrorCode::ArithmeticError) && *final(distributor)
            == *old(distributor)),
        (clawback_start_ts > curr_ts && old(distributor).end_ts + SECONDS_PER_DAY <= i64::MAX
            && clawback_start_ts < old(distributor).end_ts + SECONDS_PER_DAY) ==> (r == Err::<
            (),
            ErrorCode,
        >(ErrorCode::InsufficientClawbackDelay) && *final(distributor) == *old(distributor)),
        (clawback_start_ts > curr_ts && old(distributor).end_ts + SECONDS_PER_DAY <= i64::MAX
            && clawback_start_ts >= old(distributor).end_ts + SECONDS_PER_DAY) ==> (r is Ok
            && final(distributor).clawback_start_ts == clawback_start_ts
            && final(distributor).end_ts == old(distributor).end_ts),
{
    if clawback_start_ts <= curr_ts {
        return Err(ErrorCode::TimestampsNotInFuture);
    }
    let min_start: i64 = match distributor.end_ts.checked_add(SECONDS_PER_DAY) {
        Some(v) => v,
        None => {
            return Err(ErrorCode::ArithmeticError);
        },
    };
    if clawback_start_ts < min_start {
        return Err(ErrorCode::InsufficientClawbackDelay);
    }
    distributor.clawback_start_ts = clawback_start_ts;
    Ok(())
}

} // verus!
