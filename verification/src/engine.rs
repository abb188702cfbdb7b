//! The hooking engine: create, enable, disable and remove hooks on the
//! targets of a host address space.
//!
//! `EngineView` is the engine as a mathematical state, with one function per
//! operation that says when the operation is refused and one that gives the
//! state it leaves. The executable engine is proved to follow them.

use vstd::prelude::*;
use crate::error::HookError;
use crate::jump::{
    continuation, encode_jump, jump_code, jump_destination, lemma_jump_round_trip, wrap, PATCH_LEN,
};
use crate::memory::{AddressSpace, MemoryView};
use crate::registry::{HookHandle, HookRecord, HookRegistry, RecordView};
use crate::state::HookState;

verus! {

/// Bytes reserved for one trampoline.
pub const SLOT_SIZE: u32 = 16;

/// The memory set aside for trampolines: `capacity` slots of `SLOT_SIZE`
/// bytes from `base` on.
#[derive(Clone, Copy, Debug, PartialEq, Eq, Structural)]
pub struct TrampolineArena {
    pub base: u32,
    pub capacity: u32,
}

impl TrampolineArena {
    /// The number of bytes in the arena.
    pub open spec fn size(self) -> int {
        self.capacity * SLOT_SIZE
    }

    /// An arena does not start at the null address and ends inside the
    /// 32-bit address space.
    pub open spec fn wf(self) -> bool {
        self.base > 0 && self.base + self.size() <= 0x1_0000_0000
    }

    /// The address of slot `k`.
    pub open spec fn slot(self, k: int) -> u32 {
        (self.base + k * SLOT_SIZE) as u32
    }

    /// Whether `address` is the start of a slot.
    pub open spec fn has_slot(self, address: u32) -> bool {
        exists|k: int| 0 <= k < self.capacity && #[trigger] self.slot(k) == address
    }
}

/// The engine as a mathematical state.
pub struct EngineView {
    pub space: MemoryView,
    pub hooks: Map<u32, RecordView>,
    pub arena: TrampolineArena,
}

impl EngineView {
    /// Whether some record owns the trampoline at `address`.
    pub open spec fn taken(self, address: u32) -> bool {
        exists|t: u32| #[trigger] self.hooks.contains_key(t) && self.hooks[t].trampoline.address == address
    }

    /// Whether slot `k` exists and no record owns it.
    pub open spec fn slot_free(self, k: int) -> bool {
        0 <= k < self.arena.capacity && !self.taken(self.arena.slot(k))
    }

    /// Whether `k` is the lowest free slot.
    pub open spec fn is_first_free(self, k: int) -> bool {
        self.slot_free(k) && forall|j: int| 0 <= j < k ==> !self.slot_free(j)
    }

    /// The lowest free slot, if any slot is free.
    pub open spec fn first_free(self) -> Option<int> {
        if exists|k: int| self.is_first_free(k) {
            Some(choose|k: int| self.is_first_free(k))
        } else {
            None
        }
    }

    /// The address that the next trampoline gets.
    pub open spec fn next_trampoline(self) -> u32 {
        self.arena.slot(self.first_free()->Some_0)
    }

    /// Whether the bytes that a patch displaces at `target` lie in one region
    /// that is readable and executable.
    pub open spec fn hookable(self, target: u32) -> bool {
        &&& self.space.is_mapped(target as int, PATCH_LEN as int)
        &&& self.space.region_at(target as int, PATCH_LEN as int).protection.read
        &&& self.space.region_at(target as int, PATCH_LEN as int).protection.execute
    }

    /// Where the hook on `target` stands; `Uninstalled` without a record.
    pub open spec fn state_of(self, target: u32) -> HookState {
        if self.hooks.contains_key(target) {
            self.hooks[target].state
        } else {
            HookState::Uninstalled
        }
    }

    /// The bytes that a patch displaces at `target`.
    pub open spec fn code_at(self, target: u32) -> Seq<u8> {
        self.space.bytes(target as int, PATCH_LEN as int)
    }

    /// Whether the record of `target` is sound: it is well formed, filed under
    /// its target, on mapped bytes and in a slot of the arena, and, if the
    /// hook is enabled, its bytes are not sealed.
    pub open spec fn record_sound(self, target: u32) -> bool {
        &&& self.hooks[target].wf()
        &&& self.hooks[target].target == target
        &&& self.space.is_mapped(target as int, PATCH_LEN as int)
        &&& self.arena.has_slot(self.hooks[target].trampoline.address)
        &&& self.hooks[target].state == HookState::Enabled ==> !self.space.region_at(
            target as int,
            PATCH_LEN as int,
        ).sealed
    }

    /// The state is well formed: memory and arena are, the arena shares no
    /// address with a mapped region, every record is sound, and no two
    /// records own the same trampoline.
    pub open spec fn wf(self) -> bool {
        &&& self.space.wf()
        &&& self.arena.wf()
        &&& self.space.is_free(self.arena.base as int, self.arena.size())
        &&& forall|t: u32| #[trigger] self.hooks.contains_key(t) ==> self.record_sound(t)
        &&& forall|a: u32, b: u32|
            #[trigger] self.hooks.contains_key(a) && #[trigger] self.hooks.contains_key(b) && a != b
                ==> self.hooks[a].trampoline.address != self.hooks[b].trampoline.address
    }

    /// Whether `space` can take the place of the engine's memory without
    /// harm to any record: it is well formed, leaves the arena free, and
    /// every patch-sized range that was mapped still is, sealed or not as
    /// before.
    pub open spec fn space_carries(self, space: MemoryView) -> bool {
        &&& space.wf()
        &&& space.is_free(self.arena.base as int, self.arena.size())
        &&& forall|t: u32| #[trigger]
            self.space.is_mapped(t as int, PATCH_LEN as int) ==> {
                &&& space.is_mapped(t as int, PATCH_LEN as int)
                &&& space.region_at(t as int, PATCH_LEN as int).sealed == self.space.region_at(
                    t as int,
                    PATCH_LEN as int,
                ).sealed
            }
    }

    /// Whether `after` differs from this state in nothing but the memory,
    /// which carries, and the record of `touched`: that record is gone, or
    /// sound and in the slot it had, or sound and in a slot that none had.
    pub open spec fn touches_only(self, after: EngineView, touched: u32) -> bool {
        &&& after.arena == self.arena
        &&& self.space_carries(after.space)
        &&& forall|t: u32|
            t != touched ==> #[trigger] after.hooks.contains_key(t) == self.hooks.contains_key(t)
                && (self.hooks.contains_key(t) ==> after.hooks[t] == self.hooks[t])
        &&& after.hooks.contains_key(touched) ==> {
            &&& after.record_sound(touched)
            &&& if self.hooks.contains_key(touched) {
                after.hooks[touched].trampoline.address == self.hooks[touched].trampoline.address
            } else {
                !self.taken(after.hooks[touched].trampoline.address)
            }
        }
    }

    /// Why `create_hook` refuses `target`, if it does: the target has a
    /// record; or its bytes are not readable, executable memory; or no
    /// trampoline slot is free. The first that applies is reported.
    pub open spec fn create_failure(self, target: u32) -> Option<HookError> {
        if self.hooks.contains_key(target) {
            Some(HookError::AlreadyHooked)
        } else if !self.hookable(target) {
            Some(HookError::BadAddress)
        } else if self.first_free() is None {
            Some(HookError::AllocationFailed)
        } else {
            None
        }
    }

    /// The state after `create_hook` succeeded: a new record that saved the
    /// five bytes at the target, exactly as they stand, and owns the lowest
    /// free slot. Memory is untouched.
    pub open spec fn created(self, target: u32, replacement: u32) -> EngineView {
        EngineView {
            hooks: self.hooks.insert(
                target,
                RecordView::fresh(target, replacement, self.next_trampoline(), self.code_at(target)),
            ),
            ..self
        }
    }

    /// Why `enable_hook` refuses `target`, if it does: the target has no
    /// record; or its hook is not enabled yet and its bytes are sealed.
    pub open spec fn enable_failure(self, target: u32) -> Option<HookError> {
        if !self.hooks.contains_key(target) {
            Some(HookError::NotCreated)
        } else if self.hooks[target].state != HookState::Enabled && self.space.region_at(
            target as int,
            PATCH_LEN as int,
        ).sealed {
            Some(HookError::MemoryProtectFailed)
        } else {
            None
        }
    }

    /// The state after `enable_hook` succeeded: the hook is enabled. Unless it
    /// was already, the target now starts with the jump to the replacement.
    pub open spec fn enabled(self, target: u32) -> EngineView {
        let record = self.hooks[target];
        EngineView {
            space: if record.state == HookState::Enabled {
                self.space
            } else {
                self.space.with_bytes(target as int, jump_code(target, record.replacement))
            },
            hooks: self.hooks.insert(target, record.in_state(HookState::Enabled)),
            ..self
        }
    }

    /// Why `disable_hook` refuses `target`, if it does: no enabled hook is on it.
    pub open spec fn disable_failure(self, target: u32) -> Option<HookError> {
        if self.state_of(target) != HookState::Enabled {
            Some(HookError::NotEnabled)
        } else {
            None
        }
    }

    /// The state after `disable_hook` succeeded: the saved bytes are back at
    /// the target and the hook is disabled. The record and its trampoline stay.
    pub open spec fn disabled(self, target: u32) -> EngineView {
        let record = self.hooks[target];
        EngineView {
            space: self.space.with_bytes(target as int, record.original),
            hooks: self.hooks.insert(target, record.in_state(HookState::Disabled)),
            ..self
        }
    }

    /// Why `remove_hook` refuses `target`, if it does: the target has no record.
    pub open spec fn remove_failure(self, target: u32) -> Option<HookError> {
        if !self.hooks.contains_key(target) {
            Some(HookError::NotCreated)
        } else {
            None
        }
    }

    /// The state after `remove_hook` succeeded: the record is gone, and with
    /// it the claim on its trampoline slot. If the hook was enabled, the saved
    /// bytes are back at the target.
    pub open spec fn removed(self, target: u32) -> EngineView {
        let record = self.hooks[target];
        EngineView {
            space: if record.state == HookState::Enabled {
                self.space.with_bytes(target as int, record.original)
            } else {
                self.space
            },
            hooks: self.hooks.remove(target),
            ..self
        }
    }

    /// The lowest free slot is the only one that is lowest and free.
    pub proof fn lemma_first_free_is(self, k: int)
        requires
            self.is_first_free(k),
        ensures
            self.first_free() == Some(k),
    {
        let c = choose|c: int| self.is_first_free(c);
        assert(self.is_first_free(c));
        if c < k {
            assert(!self.slot_free(c));
        } else if k < c {
            assert(!self.slot_free(k));
        }
    }

    /// Without a free slot there is no lowest free slot.
    pub proof fn lemma_no_free_slot(self)
        requires
            forall|k: int| 0 <= k < self.arena.capacity ==> !self.slot_free(k),
        ensures
            self.first_free() is None,
    {
        if exists|k: int| self.is_first_free(k) {
            let k = choose|k: int| self.is_first_free(k);
            assert(self.slot_free(k));
        }
    }

    /// A state that differs from a well-formed one only in memory that
    /// carries and in one record that is sound is well formed.
    pub proof fn lemma_touching_one_record_keeps_wf(self, after: EngineView, touched: u32)
        requires
            self.wf(),
            self.touches_only(after, touched),
        ensures
            after.wf(),
    {
        assert forall|t: u32| #[trigger] after.hooks.contains_key(t) implies after.record_sound(
            t,
        ) by {
            if t != touched {
                assert(self.hooks.contains_key(t));
                assert(self.record_sound(t));
            }
        }
        assert forall|a: u32, b: u32|
            #[trigger] after.hooks.contains_key(a) && #[trigger] after.hooks.contains_key(b) && a
                != b implies after.hooks[a].trampoline.address
            != after.hooks[b].trampoline.address by {
            if a != touched {
                assert(self.hooks.contains_key(a));
            }
            if b != touched {
                assert(self.hooks.contains_key(b));
            }
        }
    }

    /// Memory in which the bytes of one mapped target were overwritten
    /// carries.
    pub proof fn lemma_patched_space_carries(self, target: u32, data: Seq<u8>)
        requires
            self.wf(),
            data.len() == PATCH_LEN,
            self.space.is_mapped(target as int, PATCH_LEN as int),
        ensures
            self.space_carries(self.space.with_bytes(target as int, data)),
    {
        let space = self.space.with_bytes(target as int, data);
        self.space.lemma_write_keeps_layout(target as int, data, target as int, PATCH_LEN as int);
        self.space.lemma_write_keeps_free(
            target as int,
            data,
            self.arena.base as int,
            self.arena.size(),
        );
        assert forall|t: u32| #[trigger]
            self.space.is_mapped(t as int, PATCH_LEN as int) implies space.is_mapped(
            t as int,
            PATCH_LEN as int,
        ) && space.region_at(t as int, PATCH_LEN as int).sealed == self.space.region_at(
            t as int,
            PATCH_LEN as int,
        ).sealed by {
            self.space.lemma_write_keeps_layout(target as int, data, t as int, PATCH_LEN as int);
        }
    }

    /// Creating a hook keeps the state well formed.
    pub proof fn lemma_created_wf(self, target: u32, replacement: u32)
        requires
            self.wf(),
            self.create_failure(target) is None,
        ensures
            self.created(target, replacement).wf(),
    {
        let k = self.first_free()->Some_0;
        assert(self.is_first_free(k));
        let region = self.space.index_of(target as int, PATCH_LEN as int);
        assert(self.space.holds(region, target as int, PATCH_LEN as int));
        assert(self.code_at(target).len() == PATCH_LEN);
        self.lemma_touching_one_record_keeps_wf(self.created(target, replacement), target);
    }

    /// Enabling a hook keeps the state well formed.
    pub proof fn lemma_enabled_wf(self, target: u32)
        requires
            self.wf(),
            self.enable_failure(target) is None,
        ensures
            self.enabled(target).wf(),
    {
        let record = self.hooks[target];
        assert(self.hooks.contains_key(target) && self.record_sound(target));
        if record.state != HookState::Enabled {
            self.lemma_patched_space_carries(target, jump_code(target, record.replacement));
        }
        self.lemma_touching_one_record_keeps_wf(self.enabled(target), target);
    }

    /// Disabling a hook keeps the state well formed.
    pub proof fn lemma_disabled_wf(self, target: u32)
        requires
            self.wf(),
            self.disable_failure(target) is None,
        ensures
            self.disabled(target).wf(),
    {
        assert(self.hooks.contains_key(target) && self.record_sound(target));
        self.lemma_patched_space_carries(target, self.hooks[target].original);
        self.lemma_touching_one_record_keeps_wf(self.disabled(target), target);
    }

    /// Removing a hook keeps the state well formed.
    pub proof fn lemma_removed_wf(self, target: u32)
        requires
            self.wf(),
            self.remove_failure(target) is None,
        ensures
            self.removed(target).wf(),
    {
        assert(self.hooks.contains_key(target) && self.record_sound(target));
        if self.hooks[target].state == HookState::Enabled {
            self.lemma_patched_space_carries(target, self.hooks[target].original);
        }
        self.lemma_touching_one_record_keeps_wf(self.removed(target), target);
    }
}

impl EngineView {
    /// Once a hook was created on a target, a second creation on the same
    /// target is refused as `AlreadyHooked`, whatever replacement it names.
    pub proof fn lemma_second_create_is_refused(self, target: u32, replacement: u32)
        requires
            self.create_failure(target) is None,
        ensures
            self.created(target, replacement).create_failure(target) == Some(
                HookError::AlreadyHooked,
            ),
    {
    }

    /// A target that has no record cannot be enabled: the attempt is refused
    /// as `NotCreated`.
    pub proof fn lemma_enable_needs_a_record(self, target: u32)
        requires
            !self.hooks.contains_key(target),
        ensures
            self.enable_failure(target) == Some(HookError::NotCreated),
    {
    }

    /// Create, enable, disable: in between the target starts with the jump to
    /// the replacement, and in the end the whole of memory is what it was
    /// before the hook was created, byte for byte and protection for
    /// protection.
    pub proof fn lemma_round_trip_restores_memory(self, target: u32, replacement: u32)
        requires
            self.wf(),
            self.create_failure(target) is None,
            self.created(target, replacement).enable_failure(target) is None,
        ensures
            self.created(target, replacement).space == self.space,
            self.created(target, replacement).enabled(target).code_at(target) == jump_code(
                target,
                replacement,
            ),
            self.created(target, replacement).enabled(target).disable_failure(target) is None,
            self.created(target, replacement).enabled(target).disabled(target).space == self.space,
    {
        let code = jump_code(target, replacement);
        self.space.lemma_write_then_read(target as int, code);
    }

    /// After a hook was disabled its target holds the saved bytes, and a
    /// second disabling is refused as `NotEnabled`. A refused operation
    /// changes nothing, so the restored bytes stay.
    pub proof fn lemma_second_disable_is_refused(self, target: u32)
        requires
            self.wf(),
            self.disable_failure(target) is None,
        ensures
            self.disabled(target).code_at(target) == self.hooks[target].original,
            self.disabled(target).disable_failure(target) == Some(HookError::NotEnabled),
    {
        assert(self.hooks.contains_key(target));
        self.space.lemma_write_then_read(target as int, self.hooks[target].original);
    }

    /// After a hook was removed its target has no record: the hook is
    /// uninstalled again, a lookup finds nothing, and a second removal is
    /// refused as `NotCreated`. Every other record is as it was.
    pub proof fn lemma_removed_leaves_no_record(self, target: u32)
        requires
            self.remove_failure(target) is None,
        ensures
            !self.removed(target).hooks.contains_key(target),
            self.removed(target).state_of(target) == HookState::Uninstalled,
            self.removed(target).remove_failure(target) == Some(HookError::NotCreated),
            forall|other: u32|
                other != target ==> self.removed(target).hooks.contains_key(other)
                    == self.hooks.contains_key(other) && (self.hooks.contains_key(other)
                    ==> self.removed(target).hooks[other] == self.hooks[other]),
    {
    }

    /// Removing an enabled hook puts the saved bytes back at the target;
    /// removing any other hook leaves memory alone.
    pub proof fn lemma_removed_restores_target(self, target: u32)
        requires
            self.wf(),
            self.remove_failure(target) is None,
        ensures
            self.hooks[target].state == HookState::Enabled ==> self.removed(target).code_at(target)
                == self.hooks[target].original,
            self.hooks[target].state != HookState::Enabled ==> self.removed(target).space
                == self.space,
    {
        assert(self.hooks.contains_key(target));
        self.space.lemma_write_then_read(target as int, self.hooks[target].original);
    }

    /// Every operation that succeeds moves the hook along an edge of its
    /// life cycle, except that enabling an enabled hook leaves it enabled.
    pub proof fn lemma_operations_follow_the_life_cycle(self, target: u32, replacement: u32)
        requires
            self.wf(),
        ensures
            self.create_failure(target) is None ==> self.state_of(target).leads_to(
                self.created(target, replacement).state_of(target),
            ),
            self.enable_failure(target) is None ==> self.enabled(target).state_of(target)
                == HookState::Enabled && (self.state_of(target) == HookState::Enabled
                || self.state_of(target).leads_to(HookState::Enabled)),
            self.disable_failure(target) is None ==> self.state_of(target).leads_to(
                self.disabled(target).state_of(target),
            ),
            self.remove_failure(target) is None ==> self.state_of(target).leads_to(
                HookState::Removed,
            ) && !self.removed(target).hooks.contains_key(target),
    {
        if self.hooks.contains_key(target) {
            assert(self.hooks[target].wf());
        }
    }

    /// An operation on one target leaves the record of every other target
    /// as it was.
    pub proof fn lemma_other_hooks_are_kept(self, target: u32, replacement: u32, other: u32)
        requires
            other != target,
            self.hooks.contains_key(other),
        ensures
            self.created(target, replacement).hooks.contains_key(other),
            self.created(target, replacement).hooks[other] == self.hooks[other],
            self.enabled(target).hooks.contains_key(other),
            self.enabled(target).hooks[other] == self.hooks[other],
            self.disabled(target).hooks.contains_key(other),
            self.disabled(target).hooks[other] == self.hooks[other],
            self.removed(target).hooks.contains_key(other),
            self.removed(target).hooks[other] == self.hooks[other],
    {
    }

    /// What the written bytes mean: the patch at an enabled target is a jump
    /// to the replacement, and the trampoline of every record holds the
    /// displaced bytes, followed by a jump to the first byte behind the
    /// patch. That the displaced bytes do in the trampoline what they did at
    /// the target rests on their being whole, position-independent
    /// instructions, which the engine does not check.
    pub proof fn lemma_control_flow(self, target: u32)
        requires
            self.wf(),
            self.hooks.contains_key(target),
        ensures
            self.enable_failure(target) is None && self.hooks[target].state != HookState::Enabled
                ==> jump_destination(target, self.enabled(target).code_at(target)) == Some(
                self.hooks[target].replacement,
            ),
            self.hooks[target].trampoline.code.len() == 2 * PATCH_LEN,
            self.hooks[target].trampoline.code.subrange(0, PATCH_LEN as int)
                == self.hooks[target].original,
            jump_destination(
                wrap(self.hooks[target].trampoline.address + PATCH_LEN),
                self.hooks[target].trampoline.code.subrange(PATCH_LEN as int, 2 * PATCH_LEN),
            ) == Some(continuation(target)),
    {
        let record = self.hooks[target];
        assert(record.wf());
        let back = jump_code(wrap(record.trampoline.address + PATCH_LEN), continuation(target));
        lemma_jump_round_trip(wrap(record.trampoline.address + PATCH_LEN), continuation(target));
        assert(record.trampoline.code.subrange(0, PATCH_LEN as int) =~= record.original);
        assert(record.trampoline.code.subrange(PATCH_LEN as int, 2 * PATCH_LEN) =~= back);
        if self.enable_failure(target) is None && record.state != HookState::Enabled {
            let code = jump_code(target, record.replacement);
            lemma_jump_round_trip(target, record.replacement);
            self.space.lemma_write_then_read(target as int, code);
        }
    }
}

/// The hooking engine over the memory of one host process.
pub struct HookEngine {
    memory: AddressSpace,
    registry: HookRegistry,
    arena: TrampolineArena,
}

impl View for HookEngine {
    type V = EngineView;

    closed spec fn view(&self) -> EngineView {
        EngineView { space: self.memory@, hooks: self.registry@, arena: self.arena }
    }
}

impl HookEngine {
    /// The part of well-formedness that concerns how the records are stored.
    pub closed spec fn stored_well(&self) -> bool {
        self.registry.distinct()
    }

    /// Whether the engine is well formed.
    pub open spec fn wf(&self) -> bool {
        self.stored_well() && self@.wf()
    }

    /// An engine for `memory` that places its trampolines in `arena`. `None`
    /// if the arena starts at the null address, reaches past the end of the
    /// address space, or shares an address with a mapped region.
    pub fn new(memory: AddressSpace, arena: TrampolineArena) -> (engine: Option<HookEngine>)
        requires
            memory.wf(),
        ensures
            engine is Some == (arena.wf() && memory@.is_free(arena.base as int, arena.size())),
            engine matches Some(e) ==> e.wf() && e@ == (EngineView {
                space: memory@,
                hooks: Map::<u32, RecordView>::empty(),
                arena,
            }),
    {
        if arena.base == 0 {
            return None;
        }
        let slot: u64 = SLOT_SIZE as u64;
        assert(slot == 16);
        let size: u64 = arena.capacity as u64 * slot;
        if arena.base as u64 + size > 0x1_0000_0000 {
            return None;
        }
        if !memory.is_free(arena.base, size as usize) {
            return None;
        }
        Some(HookEngine { memory, registry: HookRegistry::new(), arena })
    }

    /// The memory of the host as the engine left it.
    pub fn memory(&self) -> (memory: &AddressSpace)
        requires
            self.wf(),
        ensures
            memory@ == self@.space,
            memory.wf(),
    {
        &self.memory
    }

    /// The arena in which the engine places its trampolines.
    pub fn arena(&self) -> (arena: TrampolineArena)
        ensures
            arena == self@.arena,
    {
        self.arena
    }

    /// The record of `target`; `NotFound` if it has none.
    pub fn lookup(&self, target: u32) -> (found: Result<&HookRecord, HookError>)
        requires
            self.wf(),
        ensures
            self@.hooks.contains_key(target) ==> found is Ok && found->Ok_0@ == self@.hooks[target],
            !self@.hooks.contains_key(target) ==> found == Err::<&HookRecord, HookError>(
                HookError::NotFound,
            ),
    {
        self.registry.lookup(target)
    }

    /// Where the hook on `target` stands; `Uninstalled` if it has no record.
    pub fn state(&self, target: u32) -> (state: HookState)
        requires
            self.wf(),
        ensures
            state == self@.state_of(target),
    {
        match self.registry.lookup(target) {
            Ok(record) => record.state(),
            Err(_) => HookState::Uninstalled,
        }
    }

    fn find_slot(&self) -> (slot: Option<u32>)
        requires
            self.wf(),
        ensures
            slot is Some == self@.first_free() is Some,
            slot matches Some(address) ==> address == self@.next_trampoline() && address != 0,
    {
        let mut k: u32 = 0;
        while k < self.arena.capacity
            invariant
                k <= self.arena.capacity,
                self.wf(),
                forall|j: int| 0 <= j < k ==> !self@.slot_free(j),
            decreases self.arena.capacity - k,
        {
            let address: u32 = self.arena.base + k * SLOT_SIZE;
            assert(address == self@.arena.slot(k as int));
            if !self.registry.has_trampoline(address) {
                proof {
                    assert(self@.slot_free(k as int));
                    self@.lemma_first_free_is(k as int);
                }
                return Some(address);
            }
            assert(self@.taken(address));
            k = k + 1;
        }
        proof {
            self@.lemma_no_free_slot();
        }
        None
    }

    /// Prepares a hook on `target` that will run `replacement`: saves the
    /// bytes that the patch will displace and builds the trampoline from
    /// them. The target itself is not touched. The handle leads to the
    /// original function.
    ///
    /// The five displaced bytes are copied as they are. They are assumed to
    /// be whole instructions that do not depend on where they stand: the
    /// engine neither finds instruction boundaries nor relocates anything, so
    /// a target whose fifth byte lies inside an instruction, or whose first
    /// instructions address relative to themselves, must not be hooked.
    pub fn create_hook(&mut self, target: u32, replacement: u32) -> (result: Result<
        HookHandle,
        HookError,
    >)
        requires
            old(self).wf(),
        ensures
            final(self).wf(),
            match old(self)@.create_failure(target) {
                Some(error) => result == Err::<HookHandle, HookError>(error) && final(self)@ == old(
                    self,
                )@,
                None => {
                    &&& result is Ok
                    &&& result->Ok_0.target() == target
                    &&& result->Ok_0.original() == old(self)@.next_trampoline()
                    &&& final(self)@ == old(self)@.created(target, replacement)
                },
            },
    {
        if self.registry.contains(target) {
            return Err(HookError::AlreadyHooked);
        }
        let original = match self.memory.read(target, PATCH_LEN) {
            Some(bytes) => bytes,
            None => {
                return Err(HookError::BadAddress);
            },
        };
        match self.memory.protection(target, PATCH_LEN) {
            Some(protection) => {
                if !protection.execute {
                    return Err(HookError::BadAddress);
                }
            },
            None => {
                return Err(HookError::BadAddress);
            },
        }
        let address = match self.find_slot() {
            Some(address) => address,
            None => {
                return Err(HookError::AllocationFailed);
            },
        };
        proof {
            let k = self@.space.index_of(target as int, PATCH_LEN as int);
            assert(self@.space.holds(k, target as int, PATCH_LEN as int));
            assert(original@.len() == PATCH_LEN);
            self@.lemma_created_wf(target, replacement);
        }
        let handle = HookHandle::new(target, address);
        let record = HookRecord::new(target, replacement, address, original);
        match (handle, record) {
            (Ok(handle), Some(record)) => {
                let filed = self.registry.insert(record);
                assert(filed is Ok);
                Ok(handle)
            },
            // A slot of the arena is never null and the bytes read are a full
            // patch, so handle and record are always made.
            _ => Err(HookError::AllocationFailed),
        }
    }

    /// Redirects `target`: its first bytes become a jump to the replacement.
    /// The page is made writable for the write and put back under its own
    /// protection. A hook that is already enabled is left as it is.
    pub fn enable_hook(&mut self, target: u32) -> (result: Result<(), HookError>)
        requires
            old(self).wf(),
        ensures
            final(self).wf(),
            match old(self)@.enable_failure(target) {
                Some(error) => result == Err::<(), HookError>(error) && final(self)@ == old(self)@,
                None => result == Ok::<(), HookError>(()) && final(self)@ == old(self)@.enabled(
                    target,
                ),
            },
    {
        let (state, replacement) = match self.registry.lookup(target) {
            Ok(record) => (record.state(), record.replacement()),
            Err(_) => {
                return Err(HookError::NotCreated);
            },
        };
        proof {
            if old(self)@.enable_failure(target) is None {
                old(self)@.lemma_enabled_wf(target);
            }
        }
        if !state.permits_enabling() {
            assert(state == HookState::Enabled);
            assert(old(self)@.enabled(target).hooks =~= old(self)@.hooks);
            return Ok(());
        }
        let code = encode_jump(target, replacement);
        match self.memory.patch(target, &code) {
            Ok(()) => {},
            Err(_) => {
                return Err(HookError::MemoryProtectFailed);
            },
        }
        let moved = self.registry.set_state(target, HookState::Enabled);
        assert(moved is Ok);
        Ok(())
    }

    /// Puts the saved bytes back at `target`. The record and its trampoline
    /// stay, so the hook can be enabled again.
    pub fn disable_hook(&mut self, target: u32) -> (result: Result<(), HookError>)
        requires
            old(self).wf(),
        ensures
            final(self).wf(),
            match old(self)@.disable_failure(target) {
                Some(error) => result == Err::<(), HookError>(error) && final(self)@ == old(self)@,
                None => result == Ok::<(), HookError>(()) && final(self)@ == old(self)@.disabled(
                    target,
                ),
            },
    {
        let enabled = match self.registry.lookup(target) {
            Ok(record) => record.state() == HookState::Enabled,
            Err(_) => false,
        };
        if !enabled {
            return Err(HookError::NotEnabled);
        }
        proof {
            old(self)@.lemma_disabled_wf(target);
        }
        self.restore(target);
        let moved = self.registry.set_state(target, HookState::Disabled);
        assert(moved is Ok);
        Ok(())
    }

    /// Takes the hook off `target` for good: puts the saved bytes back if the
    /// hook is enabled, frees the trampoline and deletes the record.
    pub fn remove_hook(&mut self, target: u32) -> (result: Result<(), HookError>)
        requires
            old(self).wf(),
        ensures
            final(self).wf(),
            match old(self)@.remove_failure(target) {
                Some(error) => result == Err::<(), HookError>(error) && final(self)@ == old(self)@,
                None => result == Ok::<(), HookError>(()) && final(self)@ == old(self)@.removed(
                    target,
                ),
            },
    {
        let enabled = match self.registry.lookup(target) {
            Ok(record) => record.state() == HookState::Enabled,
            Err(_) => {
                return Err(HookError::NotCreated);
            },
        };
        proof {
            old(self)@.lemma_removed_wf(target);
        }
        if enabled {
            self.restore(target);
        }
        let record = self.registry.remove(target);
        assert(record is Ok);
        Ok(())
    }

    /// Writes the saved bytes of an enabled hook back to its target.
    fn restore(&mut self, target: u32)
        requires
            old(self).wf(),
            old(self)@.state_of(target) == HookState::Enabled,
        ensures
            final(self).stored_well(),
            final(self)@ == (EngineView {
                space: old(self)@.space.with_bytes(target as int, old(self)@.hooks[target].original),
                ..old(self)@
            }),
            final(self).registry.wf(),
            final(self).memory.wf(),
    {
        match self.registry.lookup(target) {
            Ok(record) => {
                let restored = self.memory.patch(target, record.original());
                assert(restored is Ok);
            },
            Err(_) => {},
        }
    }
}

} // verus!
