//! Keeping Apple's PTP camera daemon off the Kindle for the duration of a transfer.
//!
//! macOS ships `ptpcamerad`, which claims any PTP/MTP device the instant it is plugged in
//! and holds it exclusively. The daemon is killed repeatedly, only while a transfer is
//! running, and launchd is left to restart it afterwards.

use crate::text;
use crate::text::{chars_of, string_of, trim};
use vstd::prelude::*;

verus! {

/// Time between two kills, in milliseconds. launchd restarts the daemon within a second
/// or so of each kill; killing it again faster than it can respawn is what keeps the
/// interface free.
pub const KILL_INTERVAL_MILLIS: u64 = 500;

/// What a kill attempt came to, given the exit code of `pkill` and what it wrote to its
/// error stream. `Ok(true)` means a process was signalled, `Ok(false)` that none was
/// running (`pkill`'s documented "no processes matched"), and an error that signalling it
/// was not permitted.
pub fn kill_outcome(code: Option<i32>, stderr: &str) -> (outcome: Result<bool, String>)
    ensures
        match outcome {
            Ok(signalled) => code == Some(if signalled {
                0i32
            } else {
                1i32
            }),
            Err(reason) => code != Some(0i32) && code != Some(1i32) && reason@ == text::trimmed(
                stderr@,
            ),
        },
{
    match code {
        Some(0) => Ok(true),
        Some(1) => Ok(false),
        _ => Err(string_of(&trim(&chars_of(stderr)))),
    }
}

/// Whether the daemon can be signalled without elevating.
#[derive(Debug)]
pub enum PrivilegeCheck {
    NotRunning,
    KillableUnprivileged,
    NeedsElevation { reason: String },
}

/// Can the daemon be signalled without elevating? Answered by trying, not assumed: given
/// whether it is running, and what a kill attempt came to if it is. Off macOS there is no
/// such daemon, so it is never running.
pub fn probe_privileges(running: bool, kill: Result<bool, String>) -> (check: PrivilegeCheck)
    ensures
        match check {
            PrivilegeCheck::NotRunning => !running,
            PrivilegeCheck::KillableUnprivileged => running && kill is Ok,
            PrivilegeCheck::NeedsElevation { reason } => running && kill
                == Err::<bool, String>(reason),
        },
{
    if !running {
        return PrivilegeCheck::NotRunning;
    }
    match kill {
        Ok(_) => PrivilegeCheck::KillableUnprivileged,
        Err(reason) => PrivilegeCheck::NeedsElevation { reason },
    }
}

} // verus!
