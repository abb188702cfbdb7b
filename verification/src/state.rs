//! The life of one hook.

use vstd::prelude::*;

verus! {

/// Where a hook stands in its life:
/// `Uninstalled → Created → Enabled ⇄ Disabled → Removed`.
#[derive(Clone, Copy, Debug, PartialEq, Eq, Structural)]
pub enum HookState {
    /// Nothing has been created for the target yet.
    Uninstalled,
    /// The record and its trampoline exist; the target is untouched.
    Created,
    /// The target starts with a jump to the replacement.
    Enabled,
    /// The target holds its original bytes again; the trampoline is kept.
    Disabled,
    /// The record is gone and the trampoline freed. Nothing follows.
    Removed,
}

impl HookState {
    /// Whether a hook record exists in this state.
    pub open spec fn is_live(self) -> bool {
        self == HookState::Created || self == HookState::Enabled || self == HookState::Disabled
    }

    /// Whether this state has an edge to `next`.
    pub open spec fn leads_to(self, next: HookState) -> bool {
        match (self, next) {
            (HookState::Uninstalled, HookState::Created) => true,
            (HookState::Created, HookState::Enabled) => true,
            (HookState::Enabled, HookState::Disabled) => true,
            (HookState::Disabled, HookState::Enabled) => true,
            (HookState::Created, HookState::Removed) => true,
            (HookState::Enabled, HookState::Removed) => true,
            (HookState::Disabled, HookState::Removed) => true,
            _ => false,
        }
    }

    /// Whether a hook in this state has a record that removal can delete.
    pub fn permits_removal(self) -> (live: bool)
        ensures
            live == self.is_live(),
            live == self.leads_to(HookState::Removed),
    {
        match self {
            HookState::Created | HookState::Enabled | HookState::Disabled => true,
            HookState::Uninstalled | HookState::Removed => false,
        }
    }

    /// Whether the target of a hook in this state may be patched: only a hook
    /// that is created or disabled is enabled, never one that already is.
    pub fn permits_enabling(self) -> (ready: bool)
        ensures
            ready == self.leads_to(HookState::Enabled),
    {
        match self {
            HookState::Created | HookState::Disabled => true,
            _ => false,
        }
    }
}

} // verus!
