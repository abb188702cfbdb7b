//! A minimal inline function-hooking primitive for a 32-bit x86 host, together
//! with the bar-chart replacement that rescales a progress value before the
//! original drawing routine runs.
//!
//! The hooking engine works on a model of the host's address space, so every
//! byte it writes, saves and restores is part of its contracts.
//!
//! - [`memory`]: the host's address space, regions of bytes under a protection.
//! - [`jump`]: the near jump that redirects a function, and its decoding.
//! - [`state`]: the life cycle of one hook.
//! - [`registry`]: hook records, trampolines and the registry that keys them.
//! - [`engine`]: create, enable, disable and remove, and what holds of them.
//! - [`progress`]: the progress transform on single-precision encodings.
//! - [`replacement`]: what becomes of a call that reaches the hooked routine.
//! - [`lifecycle`]: the controller that installs on attach and removes on detach.
//! - [`error`]: why an operation is refused.

pub mod engine;
pub mod error;
pub mod jump;
pub mod lifecycle;
pub mod memory;
pub mod progress;
pub mod registry;
pub mod replacement;
pub mod state;
