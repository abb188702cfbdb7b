//! Hook records and the registry that keys them by target address.

use vstd::prelude::*;
use crate::error::HookError;
use crate::jump::{continuation, continuation_of, encode_jump, jump_code, wrap, PATCH_LEN};
use crate::state::HookState;

verus! {

/// What `create_hook` hands back: the target, and the address at which the
/// original function can still be called. That address is never null.
#[derive(Clone, Copy, Debug, PartialEq, Eq, Structural)]
pub struct HookHandle {
    target: u32,
    original: u32,
}

impl HookHandle {
    #[verifier::type_invariant]
    spec fn inv(self) -> bool {
        self.original != 0
    }

    /// The hooked address.
    pub closed spec fn spec_target(self) -> u32 {
        self.target
    }

    /// The entry of the trampoline.
    pub closed spec fn spec_original(self) -> u32 {
        self.original
    }

    /// The handle for `target` whose original function is reached at `original`.
    pub closed spec fn of(target: u32, original: u32) -> HookHandle {
        HookHandle { target, original }
    }

    /// A handle is nothing but its two addresses.
    pub proof fn lemma_handle_is_its_addresses(self)
        ensures
            self == HookHandle::of(self.target(), self.original()),
    {
    }

    /// The handle made of two addresses holds those two.
    pub proof fn lemma_addresses_of(target: u32, original: u32)
        ensures
            HookHandle::of(target, original).target() == target,
            HookHandle::of(target, original).original() == original,
    {
    }

    /// Checks an address that is to serve as the way to the original function
    /// before it is stored: a null address is refused as `BadAddress`.
    pub fn new(target: u32, original: u32) -> (handle: Result<HookHandle, HookError>)
        ensures
            original == 0 ==> handle == Err::<HookHandle, HookError>(HookError::BadAddress),
            original != 0 ==> handle == Ok::<HookHandle, HookError>(
                HookHandle::of(target, original),
            ) && handle->Ok_0.target() == target && handle->Ok_0.original() == original,
    {
        if original == 0 {
            Err(HookError::BadAddress)
        } else {
            Ok(HookHandle { target, original })
        }
    }

    /// The hooked address.
    #[verifier::when_used_as_spec(spec_target)]
    pub fn target(self) -> (target: u32)
        ensures
            target == self.spec_target(),
    {
        self.target
    }

    /// The address to call for the original behaviour.
    #[verifier::when_used_as_spec(spec_original)]
    pub fn original(self) -> (original: u32)
        ensures
            original == self.spec_original(),
            original != 0,
    {
        proof {
            use_type_invariant(self);
        }
        self.original
    }
}

/// A trampoline as plain mathematical data.
pub struct TrampolineView {
    pub address: u32,
    pub code: Seq<u8>,
}

/// The code of the trampoline at `address` for `target`: the displaced bytes,
/// then a jump back to the first byte behind the patch. The displaced bytes
/// are taken over unchanged: they are assumed to be whole instructions that
/// do not depend on where they stand.
pub open spec fn trampoline_code(address: u32, target: u32, original: Seq<u8>) -> Seq<u8> {
    original + jump_code(wrap(address + original.len()), continuation(target))
}

/// The stub that stands in for the start of a hooked function: it owns the
/// displaced bytes and leads back into the target behind the patch.
pub struct Trampoline {
    address: u32,
    code: Vec<u8>,
}

impl View for Trampoline {
    type V = TrampolineView;

    closed spec fn view(&self) -> TrampolineView {
        TrampolineView { address: self.address, code: self.code@ }
    }
}

fn copy_bytes(source: &Vec<u8>) -> (copy: Vec<u8>)
    ensures
        copy@ == source@,
{
    let mut copy: Vec<u8> = Vec::new();
    let mut k: usize = 0;
    while k < source.len()
        invariant
            k <= source@.len(),
            copy@ == source@.subrange(0, k as int),
        decreases source@.len() - k,
    {
        copy.push(source[k]);
        k = k + 1;
        assert(copy@ =~= source@.subrange(0, k as int));
    }
    assert(copy@ =~= source@);
    copy
}

impl Trampoline {
    /// Assembles the trampoline that stands at `address` and serves `target`,
    /// whose first bytes were `original`.
    pub(crate) fn assemble(address: u32, target: u32, original: &Vec<u8>) -> (trampoline: Trampoline)
        requires
            original@.len() == PATCH_LEN,
        ensures
            trampoline@.address == address,
            trampoline@.code == trampoline_code(address, target, original@),
    {
        let mut code = copy_bytes(original);
        let back = encode_jump(address.wrapping_add(5), continuation_of(target));
        let mut k: usize = 0;
        while k < back.len()
            invariant
                k <= back@.len(),
                code@ == original@ + back@.subrange(0, k as int),
            decreases back@.len() - k,
        {
            code.push(back[k]);
            k = k + 1;
            assert(code@ =~= original@ + back@.subrange(0, k as int));
        }
        assert(back@.subrange(0, back@.len() as int) =~= back@);
        Trampoline { address, code }
    }

    /// The address at which the trampoline stands.
    pub fn address(&self) -> (address: u32)
        ensures
            address == self@.address,
    {
        self.address
    }

    /// The bytes of the trampoline.
    pub fn code(&self) -> (code: &Vec<u8>)
        ensures
            code@ == self@.code,
    {
        &self.code
    }
}

/// A hook record as plain mathematical data.
pub struct RecordView {
    pub target: u32,
    pub replacement: u32,
    pub trampoline: TrampolineView,
    pub original: Seq<u8>,
    pub state: HookState,
}

impl RecordView {
    /// The record that creating a hook makes: the displaced bytes saved, the
    /// trampoline assembled from them, the target not yet patched.
    pub open spec fn fresh(
        target: u32,
        replacement: u32,
        trampoline_address: u32,
        original: Seq<u8>,
    ) -> RecordView {
        RecordView {
            target,
            replacement,
            trampoline: TrampolineView {
                address: trampoline_address,
                code: trampoline_code(trampoline_address, target, original),
            },
            original,
            state: HookState::Created,
        }
    }

    /// The record in another state.
    pub open spec fn in_state(self, state: HookState) -> RecordView {
        RecordView { state, ..self }
    }

    /// A record saves exactly the patched bytes, owns the trampoline made of
    /// them at a non-null address, and is created, enabled or disabled.
    pub open spec fn wf(self) -> bool {
        &&& self.original.len() == PATCH_LEN
        &&& self.trampoline.address != 0
        &&& self.trampoline.code == trampoline_code(
            self.trampoline.address,
            self.target,
            self.original,
        )
        &&& self.state.is_live()
    }
}

/// Everything the engine keeps about one hooked target.
pub struct HookRecord {
    target: u32,
    replacement: u32,
    trampoline: Trampoline,
    original: Vec<u8>,
    state: HookState,
}

impl View for HookRecord {
    type V = RecordView;

    closed spec fn view(&self) -> RecordView {
        RecordView {
            target: self.target,
            replacement: self.replacement,
            trampoline: self.trampoline@,
            original: self.original@,
            state: self.state,
        }
    }
}

impl HookRecord {
    /// Makes the record of a newly created hook. `None` unless `original`
    /// holds exactly the bytes that a patch displaces and the trampoline
    /// address is not null.
    pub fn new(target: u32, replacement: u32, trampoline_address: u32, original: Vec<u8>) -> (record:
        Option<HookRecord>)
        ensures
            record is Some == (original@.len() == PATCH_LEN && trampoline_address != 0),
            record matches Some(r) ==> r@ == RecordView::fresh(
                target,
                replacement,
                trampoline_address,
                original@,
            ) && r@.wf(),
    {
        if original.len() != PATCH_LEN || trampoline_address == 0 {
            return None;
        }
        let trampoline = Trampoline::assemble(trampoline_address, target, &original);
        Some(HookRecord { target, replacement, trampoline, original, state: HookState::Created })
    }

    /// The hooked address.
    pub fn target(&self) -> (target: u32)
        ensures
            target == self@.target,
    {
        self.target
    }

    /// The address of the function that runs in place of the target.
    pub fn replacement(&self) -> (replacement: u32)
        ensures
            replacement == self@.replacement,
    {
        self.replacement
    }

    /// The trampoline that the record owns.
    pub fn trampoline(&self) -> (trampoline: &Trampoline)
        ensures
            trampoline@ == self@.trampoline,
    {
        &self.trampoline
    }

    /// The bytes that stood at the target when the hook was created.
    pub fn original(&self) -> (original: &Vec<u8>)
        ensures
            original@ == self@.original,
    {
        &self.original
    }

    /// Where the hook stands in its life.
    pub fn state(&self) -> (state: HookState)
        ensures
            state == self@.state,
    {
        self.state
    }
}

/// The mapping from target address to hook record. A target has at most one
/// record.
pub struct HookRegistry {
    records: Vec<HookRecord>,
}

impl View for HookRegistry {
    type V = Map<u32, RecordView>;

    closed spec fn view(&self) -> Map<u32, RecordView> {
        Map::new(|target: u32| self.slot_of(target) is Some, |target: u32| self.records@[self.slot_of(target)->Some_0]@)
    }
}

impl HookRegistry {
    spec fn at(&self, i: int, target: u32) -> bool {
        0 <= i < self.records@.len() && self.records@[i]@.target == target
    }

    spec fn slot_of(&self, target: u32) -> Option<int> {
        if exists|i: int| self.at(i, target) {
            Some(choose|i: int| self.at(i, target))
        } else {
            None
        }
    }

    /// No two records share a target.
    pub closed spec fn distinct(&self) -> bool {
        forall|i: int, j: int|
            0 <= i < j < self.records@.len() ==> (#[trigger] self.records@[i])@.target != (
            #[trigger] self.records@[j])@.target
    }

    /// Whether the registry is well formed: every record is well formed and
    /// filed under its own target, and no target is filed twice.
    pub open spec fn wf(&self) -> bool {
        &&& self.distinct()
        &&& forall|target: u32| #[trigger]
            self@.contains_key(target) ==> self@[target].wf() && self@[target].target == target
    }

    /// Whether some record owns the trampoline at `address`.
    pub open spec fn owns_trampoline(&self, address: u32) -> bool {
        exists|target: u32| #[trigger]
            self@.contains_key(target) && self@[target].trampoline.address == address
    }

    proof fn lemma_slot(&self, i: int)
        requires
            self.distinct(),
            0 <= i < self.records@.len(),
        ensures
            self.slot_of(self.records@[i]@.target) == Some(i),
            self@.contains_key(self.records@[i]@.target),
            self@[self.records@[i]@.target] == self.records@[i]@,
    {
        let target = self.records@[i]@.target;
        assert(self.at(i, target));
        let j = choose|j: int| self.at(j, target);
        assert(self.at(j, target));
        if i < j {
            assert(self.records@[i]@.target != self.records@[j]@.target);
        } else if j < i {
            assert(self.records@[j]@.target != self.records@[i]@.target);
        }
    }

    proof fn lemma_absent(&self, target: u32)
        requires
            forall|i: int| 0 <= i < self.records@.len() ==> self.records@[i]@.target != target,
        ensures
            !self@.contains_key(target),
    {
        if exists|i: int| self.at(i, target) {
            let i = choose|i: int| self.at(i, target);
            assert(self.at(i, target));
        }
    }

    proof fn lemma_key_has_slot(&self, target: u32)
        requires
            self@.contains_key(target),
        ensures
            self.slot_of(target) is Some,
            self.at(self.slot_of(target)->Some_0, target),
            self@[target] == self.records@[self.slot_of(target)->Some_0]@,
    {
        let i = choose|i: int| self.at(i, target);
        assert(self.at(i, target));
    }

    fn find(&self, target: u32) -> (found: Option<usize>)
        requires
            self.wf(),
        ensures
            found is Some == self@.contains_key(target),
            found matches Some(i) ==> i < self.records@.len() && self.records@[i as int]@
                == self@[target] && self.records@[i as int]@.target == target,
    {
        let mut i: usize = 0;
        while i < self.records.len()
            invariant
                i <= self.records@.len(),
                self.wf(),
                forall|j: int| 0 <= j < i ==> self.records@[j]@.target != target,
            decreases self.records@.len() - i,
        {
            if self.records[i].target == target {
                proof {
                    self.lemma_slot(i as int);
                }
                return Some(i);
            }
            i = i + 1;
        }
        proof {
            self.lemma_absent(target);
        }
        None
    }

    /// A registry without records.
    pub fn new() -> (registry: HookRegistry)
        ensures
            registry.wf(),
            registry@ == Map::<u32, RecordView>::empty(),
    {
        let registry = HookRegistry { records: Vec::new() };
        proof {
            assert forall|target: u32| !registry@.contains_key(target) by {
                registry.lemma_absent(target);
            }
            assert(registry@ =~= Map::<u32, RecordView>::empty());
        }
        registry
    }

    /// Whether `target` has a record.
    pub fn contains(&self, target: u32) -> (present: bool)
        requires
            self.wf(),
        ensures
            present == self@.contains_key(target),
    {
        self.find(target).is_some()
    }

    /// Files `record` under its target. A target that already has a record
    /// keeps it, and the new one is refused as `AlreadyHooked`.
    pub fn insert(&mut self, record: HookRecord) -> (outcome: Result<(), HookError>)
        requires
            old(self).wf(),
            record@.wf(),
        ensures
            final(self).wf(),
            old(self)@.contains_key(record@.target) ==> outcome == Err::<(), HookError>(
                HookError::AlreadyHooked,
            ) && final(self)@ == old(self)@,
            !old(self)@.contains_key(record@.target) ==> outcome == Ok::<(), HookError>(())
                && final(self)@ == old(self)@.insert(record@.target, record@),
    {
        if self.find(record.target).is_some() {
            return Err(HookError::AlreadyHooked);
        }
        let ghost added = record@;
        self.records.push(record);
        proof {
            assert(self.records@ =~= old(self).records@.push(self.records@[self.records@.len() - 1]));
            assert(self.distinct()) by {
                assert forall|i: int, j: int| 0 <= i < j < self.records@.len() implies (
                #[trigger] self.records@[i])@.target != (#[trigger] self.records@[j])@.target by {
                    if j < old(self).records@.len() {
                        assert(old(self).records@[i]@.target != old(self).records@[j]@.target);
                    } else {
                        old(self).lemma_slot(i);
                    }
                }
            }
            let expected = old(self)@.insert(added.target, added);
            assert forall|target: u32| #[trigger]
                self@.dom().contains(target) == expected.dom().contains(target) && (
                self@.dom().contains(target) ==> self@[target] == expected[target]) by {
                if self@.contains_key(target) {
                    self.lemma_key_has_slot(target);
                    let i = self.slot_of(target)->Some_0;
                    if i < old(self).records@.len() {
                        old(self).lemma_slot(i);
                    }
                }
                if old(self)@.contains_key(target) {
                    old(self).lemma_key_has_slot(target);
                    let i = old(self).slot_of(target)->Some_0;
                    self.lemma_slot(i);
                }
                if target == added.target {
                    self.lemma_slot(self.records@.len() - 1);
                }
            }
            assert(self@ =~= expected);
        }
        Ok(())
    }

    /// The record of `target`; `NotFound` if it has none.
    pub fn lookup(&self, target: u32) -> (found: Result<&HookRecord, HookError>)
        requires
            self.wf(),
        ensures
            self@.contains_key(target) ==> found is Ok && found->Ok_0@ == self@[target],
            !self@.contains_key(target) ==> found == Err::<&HookRecord, HookError>(
                HookError::NotFound,
            ),
    {
        match self.find(target) {
            Some(i) => Ok(&self.records[i]),
            None => Err(HookError::NotFound),
        }
    }

    /// Takes the record of `target` out of the registry; `NotFound` if it has
    /// none.
    pub fn remove(&mut self, target: u32) -> (removed: Result<HookRecord, HookError>)
        requires
            old(self).wf(),
        ensures
            final(self).wf(),
            old(self)@.contains_key(target) ==> removed is Ok && removed->Ok_0@ == old(
                self,
            )@[target] && final(self)@ == old(self)@.remove(target),
            !old(self)@.contains_key(target) ==> removed == Err::<HookRecord, HookError>(
                HookError::NotFound,
            ) && final(self)@ == old(self)@,
    {
        match self.find(target) {
            Some(i) => {
                let record = self.records.remove(i);
                proof {
                    let k = i as int;
                    assert(self.records@ =~= old(self).records@.remove(k));
                    assert forall|a: int| 0 <= a < self.records@.len() implies #[trigger]
                        self.records@[a] == old(self).records@[if a < k {
                            a
                        } else {
                            a + 1
                        }] by {}
                    assert(self.distinct()) by {
                        assert forall|a: int, b: int|
                            0 <= a < b < self.records@.len() implies (#[trigger] self.records@[a])@.target
                            != (#[trigger] self.records@[b])@.target by {
                            let a0 = if a < k {
                                a
                            } else {
                                a + 1
                            };
                            let b0 = if b < k {
                                b
                            } else {
                                b + 1
                            };
                            assert(old(self).records@[a0]@.target != old(self).records@[b0]@.target);
                        }
                    }
                    let expected = old(self)@.remove(target);
                    assert forall|t: u32| #[trigger]
                        self@.dom().contains(t) == expected.dom().contains(t) && (
                        self@.dom().contains(t) ==> self@[t] == expected[t]) by {
                        if self@.contains_key(t) {
                            self.lemma_key_has_slot(t);
                            let a = self.slot_of(t)->Some_0;
                            let a0 = if a < k {
                                a
                            } else {
                                a + 1
                            };
                            old(self).lemma_slot(a0);
                            old(self).lemma_slot(k);
                            assert(old(self).records@[a0]@.target != old(self).records@[k]@.target);
                        }
                        if old(self)@.contains_key(t) && t != target {
                            old(self).lemma_key_has_slot(t);
                            let a0 = old(self).slot_of(t)->Some_0;
                            let a = if a0 < k {
                                a0
                            } else {
                                a0 - 1
                            };
                            assert(self.records@[a] == old(self).records@[a0]);
                            self.lemma_slot(a);
                        }
                    }
                    assert(self@ =~= expected);
                }
                Ok(record)
            },
            None => Err(HookError::NotFound),
        }
    }

    /// Moves the record of `target` to `state`, which must be one in which a
    /// record exists. `NotFound` if the target has no record.
    pub(crate) fn set_state(&mut self, target: u32, state: HookState) -> (outcome: Result<(), HookError>)
        requires
            old(self).wf(),
            state.is_live(),
        ensures
            final(self).wf(),
            old(self)@.contains_key(target) ==> outcome == Ok::<(), HookError>(()) && final(self)@
                == old(self)@.insert(target, old(self)@[target].in_state(state)),
            !old(self)@.contains_key(target) ==> outcome == Err::<(), HookError>(
                HookError::NotFound,
            ) && final(self)@ == old(self)@,
    {
        match self.find(target) {
            Some(i) => {
                self.records[i].state = state;
                proof {
                    let k = i as int;
                    assert forall|a: int| 0 <= a < self.records@.len() implies (
                    #[trigger] self.records@[a])@ == (if a == k {
                        old(self).records@[a]@.in_state(state)
                    } else {
                        old(self).records@[a]@
                    }) by {}
                    assert(self.distinct()) by {
                        assert forall|a: int, b: int|
                            0 <= a < b < self.records@.len() implies (#[trigger] self.records@[a])@.target
                            != (#[trigger] self.records@[b])@.target by {
                            assert(old(self).records@[a]@.target != old(self).records@[b]@.target);
                        }
                    }
                    let expected = old(self)@.insert(target, old(self)@[target].in_state(state));
                    assert forall|t: u32| #[trigger]
                        self@.dom().contains(t) == expected.dom().contains(t) && (
                        self@.dom().contains(t) ==> self@[t] == expected[t]) by {
                        if self@.contains_key(t) {
                            self.lemma_key_has_slot(t);
                            let a = self.slot_of(t)->Some_0;
                            old(self).lemma_slot(a);
                        }
                        if old(self)@.contains_key(t) {
                            old(self).lemma_key_has_slot(t);
                            let a = old(self).slot_of(t)->Some_0;
                            self.lemma_slot(a);
                        }
                    }
                    assert(self@ =~= expected);
                }
                Ok(())
            },
            None => Err(HookError::NotFound),
        }
    }

    /// Whether some record owns the trampoline at `address`.
    pub fn has_trampoline(&self, address: u32) -> (owned: bool)
        requires
            self.wf(),
        ensures
            owned == self.owns_trampoline(address),
    {
        let mut i: usize = 0;
        while i < self.records.len()
            invariant
                i <= self.records@.len(),
                self.wf(),
                forall|j: int| 0 <= j < i ==> self.records@[j]@.trampoline.address != address,
            decreases self.records@.len() - i,
        {
            if self.records[i].trampoline.address == address {
                proof {
                    self.lemma_slot(i as int);
                }
                return true;
            }
            i = i + 1;
        }
        proof {
            if self.owns_trampoline(address) {
                let target = choose|target: u32| #[trigger]
                    self@.contains_key(target) && self@[target].trampoline.address == address;
                self.lemma_key_has_slot(target);
            }
        }
        false
    }
}

} // verus!
