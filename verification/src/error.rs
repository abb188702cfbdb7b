//! The ways in which a hooking operation can fail.

use vstd::prelude::*;

verus! {

/// Why a hooking operation was refused. Every one of these leaves the caller
/// free to carry on unhooked.
#[derive(Clone, Copy, Debug, PartialEq, Eq, Structural)]
pub enum HookError {
    /// The target already has a hook record.
    AlreadyHooked,
    /// The address is not mapped, not readable or not executable.
    BadAddress,
    /// No memory could be reserved for the trampoline.
    AllocationFailed,
    /// The protection of the page that holds the target could not be changed.
    MemoryProtectFailed,
    /// The target has no hook record.
    NotCreated,
    /// The hook at the target is not enabled.
    NotEnabled,
    /// A lookup found no hook record for the target.
    NotFound,
}

} // verus!
