//! The controller that installs the hook when the module is attached to the
//! host and takes it off when the module is detached.
//!
//! The controller decides; it performs nothing. It is handed what happened
//! and answers with what is to be done next. A hooking failure ends in a
//! report, never in a failure of the host: the status for the loader is the
//! same whatever happened.

use vstd::prelude::*;
use crate::engine::{EngineView, HookEngine};
use crate::error::HookError;
use crate::jump::PATCH_LEN;
use crate::registry::HookHandle;
use crate::state::HookState;

verus! {

/// The loader's reason code for a module that is being attached to a process.
pub const PROCESS_ATTACH: u32 = 1;

/// The loader's reason code for a module that is being detached.
pub const PROCESS_DETACH: u32 = 0;

/// What is to be told about an attach or a detach. `E` is the error of
/// whoever performs the hooking.
#[derive(Debug)]
pub enum Report<E> {
    /// The hook is created and enabled.
    Installed,
    /// Creating or enabling the hook failed.
    InstallFailed(E),
    /// Removing the hook failed.
    RemoveFailed(E),
}

/// What the controller wants done next.
#[derive(Debug)]
pub enum Action<E> {
    /// Switch off the per-thread notifications of the loader.
    DisableThreadCallbacks,
    /// Create the hook.
    CreateHook { target: u32, replacement: u32 },
    /// Enable the hook.
    EnableHook { target: u32 },
    /// Remove the hook.
    RemoveHook { target: u32 },
    /// Tell `report`, if there is one, and hand `status` to the loader.
    Finish { status: bool, report: Option<Report<E>> },
}

/// What the controller is told.
#[derive(Debug)]
pub enum Event<E> {
    /// The loader called with this reason code.
    Loader { reason: u32 },
    /// The per-thread notifications were dealt with.
    CallbacksDisabled,
    /// How creating the hook ended.
    Created(Result<HookHandle, E>),
    /// How enabling the hook ended.
    Enabled(Result<(), E>),
    /// How removing the hook ended.
    Removed(Result<(), E>),
}

/// The end of an exchange: `report`, and success for the loader.
pub open spec fn finish<E>(report: Option<Report<E>>) -> Action<E> {
    Action::Finish { status: true, report }
}

/// How many more actions can follow `action` at most.
pub open spec fn rank<E>(action: Action<E>) -> nat {
    match action {
        Action::DisableThreadCallbacks => 3,
        Action::CreateHook { .. } => 2,
        Action::EnableHook { .. } => 1,
        Action::RemoveHook { .. } => 1,
        Action::Finish { .. } => 0,
    }
}

/// The controller as a mathematical state.
pub struct ControllerView {
    pub target: u32,
    pub replacement: u32,
    pub state: HookState,
    /// The way to the original function, once it is known.
    pub original: Option<HookHandle>,
}

impl ControllerView {
    /// The way to the original is known exactly while the hook has a record.
    pub open spec fn wf(self) -> bool {
        self.state.is_live() <==> self.original is Some
    }

    /// The state after `event`, and the action that answers it.
    ///
    /// An attach asks for the thread notifications to be switched off and
    /// then, unless the hook was removed before, for the hook to be created
    /// and enabled; the first failure ends the exchange. Every attach makes
    /// the attempt, so one that finds the hook installed already ends in the
    /// refusal of the creation. A detach asks for the hook to be removed. An
    /// event that fits no step ends the exchange and changes nothing.
    pub open spec fn next<E>(self, event: Event<E>) -> (ControllerView, Action<E>) {
        match event {
            Event::Loader { reason } => {
                if reason == PROCESS_ATTACH {
                    (self, Action::DisableThreadCallbacks)
                } else if reason == PROCESS_DETACH {
                    (self, Action::RemoveHook { target: self.target })
                } else {
                    (self, finish(None))
                }
            },
            Event::CallbacksDisabled => {
                if self.state != HookState::Removed {
                    (
                        self,
                        Action::CreateHook { target: self.target, replacement: self.replacement },
                    )
                } else {
                    (self, finish(None))
                }
            },
            Event::Created(Ok(handle)) => {
                if self.state == HookState::Uninstalled && handle.target() == self.target {
                    (
                        ControllerView {
                            state: HookState::Created,
                            original: Some(handle),
                            ..self
                        },
                        Action::EnableHook { target: self.target },
                    )
                } else {
                    (self, finish(None))
                }
            },
            Event::Created(Err(error)) => (self, finish(Some(Report::InstallFailed(error)))),
            Event::Enabled(Ok(_)) => {
                if self.state == HookState::Created || self.state == HookState::Disabled {
                    (
                        ControllerView { state: HookState::Enabled, ..self },
                        finish(Some(Report::Installed)),
                    )
                } else {
                    (self, finish(None))
                }
            },
            Event::Enabled(Err(error)) => (self, finish(Some(Report::InstallFailed(error)))),
            Event::Removed(Ok(_)) => {
                if self.state.is_live() {
                    (
                        ControllerView { state: HookState::Removed, original: None, ..self },
                        finish(None),
                    )
                } else {
                    (self, finish(None))
                }
            },
            Event::Removed(Err(error)) => (self, finish(Some(Report::RemoveFailed(error)))),
        }
    }

    /// Whatever the event, the controller keeps its target and replacement,
    /// stays well formed, moves its hook along an edge of the life cycle or
    /// not at all, and, when it ends the exchange, reports success to the
    /// loader.
    pub proof fn lemma_next_is_sound<E>(self, event: Event<E>)
        requires
            self.wf(),
        ensures
            self.next(event).0.wf(),
            self.next(event).0.target == self.target,
            self.next(event).0.replacement == self.replacement,
            self.next(event).0.state == self.state || self.state.leads_to(self.next(event).0.state),
            self.next(event).1 matches Action::Finish { status, .. } ==> status,
    {
    }

    /// A removed hook stays removed: no event moves the controller on.
    pub proof fn lemma_removed_is_terminal<E>(self, event: Event<E>)
        requires
            self.state == HookState::Removed,
        ensures
            self.next(event).0 == self,
            !(self.next(event).1 is CreateHook),
            !(self.next(event).1 is EnableHook),
    {
    }
}

/// What the engine does when it is handed `action`, and the event that
/// reports it. Switching off thread notifications is none of the engine's
/// business and changes nothing.
pub open spec fn performed(engine: EngineView, action: Action<HookError>) -> (
    EngineView,
    Event<HookError>,
) {
    match action {
        Action::DisableThreadCallbacks => (engine, Event::CallbacksDisabled),
        Action::CreateHook { target, replacement } => match engine.create_failure(target) {
            Some(error) => (engine, Event::Created(Err(error))),
            None => (
                engine.created(target, replacement),
                Event::Created(Ok(HookHandle::of(target, engine.next_trampoline()))),
            ),
        },
        Action::EnableHook { target } => match engine.enable_failure(target) {
            Some(error) => (engine, Event::Enabled(Err(error))),
            None => (engine.enabled(target), Event::Enabled(Ok(()))),
        },
        Action::RemoveHook { target } => match engine.remove_failure(target) {
            Some(error) => (engine, Event::Removed(Err(error))),
            None => (engine.removed(target), Event::Removed(Ok(()))),
        },
        Action::Finish { .. } => (engine, Event::CallbacksDisabled),
    }
}

/// Where controller and engine end up when `action` and all that follows from
/// it is performed on the engine, and the report that ends the exchange.
pub open spec fn settled(
    controller: ControllerView,
    engine: EngineView,
    action: Action<HookError>,
) -> (ControllerView, EngineView, Option<Report<HookError>>)
    decreases rank(action),
{
    match action {
        Action::Finish { status, report } => (controller, engine, report),
        _ => {
            let (engine_after, event) = performed(engine, action);
            let (controller_after, answer) = controller.next(event);
            if rank(answer) < rank(action) {
                settled(controller_after, engine_after, answer)
            } else {
                (controller_after, engine_after, None)
            }
        },
    }
}

/// Where controller and engine end up when the loader calls with `reason`.
pub open spec fn handled(controller: ControllerView, engine: EngineView, reason: u32) -> (
    ControllerView,
    EngineView,
    Option<Report<HookError>>,
) {
    let (controller_after, action) = controller.next(Event::<HookError>::Loader { reason });
    settled(controller_after, engine, action)
}

/// The answer to the report of an action always has fewer actions left to
/// follow than the action had.
pub proof fn lemma_answers_run_out(
    controller: ControllerView,
    engine: EngineView,
    action: Action<HookError>,
)
    requires
        !(action is Finish),
    ensures
        rank(controller.next(performed(engine, action).1).1) < rank(action),
{
}

/// An attach on a controller that has nothing installed creates the hook and
/// enables it. If creating fails, nothing is enabled and nothing changes; if
/// enabling fails, the hook stays created. Only when both succeed is the
/// hook reported as installed.
pub proof fn lemma_attach_installs(controller: ControllerView, engine: EngineView)
    requires
        controller.state == HookState::Uninstalled,
    ensures
        ({
            let target = controller.target;
            let end = handled(controller, engine, PROCESS_ATTACH);
            let created = engine.created(target, controller.replacement);
            match engine.create_failure(target) {
                Some(error) => end == (controller, engine, Some(Report::InstallFailed(error))),
                None => match created.enable_failure(target) {
                    Some(error) => {
                        &&& end.0 == (ControllerView {
                            state: HookState::Created,
                            original: Some(HookHandle::of(target, engine.next_trampoline())),
                            ..controller
                        })
                        &&& end.1 == created
                        &&& end.2 == Some(Report::InstallFailed(error))
                    },
                    None => {
                        &&& end.0 == (ControllerView {
                            state: HookState::Enabled,
                            original: Some(HookHandle::of(target, engine.next_trampoline())),
                            ..controller
                        })
                        &&& end.1 == created.enabled(target)
                        &&& end.2 == Some(Report::<HookError>::Installed)
                    },
                },
            }
        }),
{
    let target = controller.target;
    HookHandle::lemma_addresses_of(target, engine.next_trampoline());
    let first: Action<HookError> = Action::DisableThreadCallbacks;
    let second: Action<HookError> = Action::CreateHook {
        target,
        replacement: controller.replacement,
    };
    assert(controller.next(Event::<HookError>::Loader { reason: PROCESS_ATTACH }) == (
        controller,
        first,
    ));
    assert(settled(controller, engine, first) == settled(controller, engine, second));
    reveal_with_fuel(settled, 3);
}

/// An attach that finds a record for the target in the engine is refused as
/// `AlreadyHooked` and changes nothing, whether the record is the
/// controller's own, from an earlier attach, or another's, and whether its
/// hook is enabled or not.
pub proof fn lemma_attach_on_a_hooked_target_is_refused(
    controller: ControllerView,
    engine: EngineView,
)
    requires
        controller.state != HookState::Removed,
        engine.hooks.contains_key(controller.target),
    ensures
        handled(controller, engine, PROCESS_ATTACH) == (
            controller,
            engine,
            Some(Report::InstallFailed(HookError::AlreadyHooked)),
        ),
{
    reveal_with_fuel(settled, 3);
}

/// A second attach, right after one that installed the hook, is refused as
/// `AlreadyHooked` and leaves the hook installed.
pub proof fn lemma_second_attach_is_refused(controller: ControllerView, engine: EngineView)
    requires
        controller.state == HookState::Uninstalled,
        handled(controller, engine, PROCESS_ATTACH).2 == Some(Report::<HookError>::Installed),
    ensures
        ({
            let first = handled(controller, engine, PROCESS_ATTACH);
            handled(first.0, first.1, PROCESS_ATTACH) == (
                first.0,
                first.1,
                Some(Report::InstallFailed(HookError::AlreadyHooked)),
            )
        }),
{
    lemma_attach_installs(controller, engine);
    let target = controller.target;
    let first = handled(controller, engine, PROCESS_ATTACH);
    let created = engine.created(target, controller.replacement);
    assert(engine.create_failure(target) is None);
    assert(created.enable_failure(target) is None);
    assert(created.hooks.contains_key(target));
    assert(first.1.hooks.contains_key(target));
    lemma_attach_on_a_hooked_target_is_refused(first.0, first.1);
}

/// An attach succeeds exactly when the target has no record, its bytes are
/// readable, executable memory, a trampoline slot is free and the protection
/// of the target can be lifted. Otherwise it reports the first of these that
/// fails: `AlreadyHooked`, `BadAddress`, `AllocationFailed` or
/// `MemoryProtectFailed`. This holds of every controller that agrees with
/// the engine: one whose hook is live has its record there.
pub proof fn lemma_attach_succeeds_exactly_when(controller: ControllerView, engine: EngineView)
    requires
        engine.wf(),
        controller.state != HookState::Removed,
        controller.state.is_live() ==> engine.hooks.contains_key(controller.target),
    ensures
        ({
            let target = controller.target;
            let report = handled(controller, engine, PROCESS_ATTACH).2;
            let sealed = engine.space.region_at(target as int, PATCH_LEN as int).sealed;
            if engine.hooks.contains_key(target) {
                report == Some(Report::InstallFailed(HookError::AlreadyHooked))
            } else if !engine.hookable(target) {
                report == Some(Report::InstallFailed(HookError::BadAddress))
            } else if engine.first_free() is None {
                report == Some(Report::InstallFailed(HookError::AllocationFailed))
            } else if sealed {
                report == Some(Report::InstallFailed(HookError::MemoryProtectFailed))
            } else {
                report == Some(Report::<HookError>::Installed)
            }
        }),
{
    if engine.hooks.contains_key(controller.target) {
        lemma_attach_on_a_hooked_target_is_refused(controller, engine);
    } else {
        lemma_attach_installs(controller, engine);
    }
}

/// An attach on a controller whose hook was removed changes nothing and
/// reports nothing: a removed hook is not installed again.
pub proof fn lemma_attach_after_removal_does_nothing(
    controller: ControllerView,
    engine: EngineView,
)
    requires
        controller.state == HookState::Removed,
    ensures
        handled(controller, engine, PROCESS_ATTACH) == (
            controller,
            engine,
            None::<Report<HookError>>,
        ),
{
    reveal_with_fuel(settled, 3);
}

/// After a detach the engine has no record for the controller's target,
/// whatever it had before: a lookup finds nothing. If there was a record, the
/// removal is not reported and a controller whose hook was live ends as
/// removed; if there was none, the refusal is reported and nothing changes.
pub proof fn lemma_detach_leaves_no_record(controller: ControllerView, engine: EngineView)
    ensures
        ({
            let target = controller.target;
            let end = handled(controller, engine, PROCESS_DETACH);
            &&& !end.1.hooks.contains_key(target)
            &&& end.1.state_of(target) == HookState::Uninstalled
            &&& match engine.remove_failure(target) {
                Some(error) => end == (controller, engine, Some(Report::RemoveFailed(error))),
                None => {
                    &&& end.1 == engine.removed(target)
                    &&& end.2 == None::<Report<HookError>>
                    &&& controller.state.is_live() ==> end.0.state == HookState::Removed
                        && end.0.original is None
                    &&& !controller.state.is_live() ==> end.0 == controller
                },
            }
        }),
{
    reveal_with_fuel(settled, 3);
}

/// A reason that is neither attach nor detach changes nothing.
pub proof fn lemma_other_reasons_are_ignored(
    controller: ControllerView,
    engine: EngineView,
    reason: u32,
)
    requires
        reason != PROCESS_ATTACH,
        reason != PROCESS_DETACH,
    ensures
        handled(controller, engine, reason) == (controller, engine, None::<Report<HookError>>),
{
    reveal_with_fuel(settled, 2);
}

/// The controller of one hook.
pub struct Controller {
    target: u32,
    replacement: u32,
    state: HookState,
    original: Option<HookHandle>,
}

impl View for Controller {
    type V = ControllerView;

    closed spec fn view(&self) -> ControllerView {
        ControllerView {
            target: self.target,
            replacement: self.replacement,
            state: self.state,
            original: self.original,
        }
    }
}

impl Controller {
    /// A controller for a hook on `target` that runs `replacement`. Nothing
    /// is installed yet.
    pub fn new(target: u32, replacement: u32) -> (controller: Controller)
        ensures
            controller@ == (ControllerView {
                target,
                replacement,
                state: HookState::Uninstalled,
                original: None,
            }),
            controller@.wf(),
    {
        Controller { target, replacement, state: HookState::Uninstalled, original: None }
    }

    /// The address that is to be hooked.
    pub fn target(&self) -> (target: u32)
        ensures
            target == self@.target,
    {
        self.target
    }

    /// The address of the function that is to run in place of the target.
    pub fn replacement(&self) -> (replacement: u32)
        ensures
            replacement == self@.replacement,
    {
        self.replacement
    }

    /// Where the hook stands.
    pub fn state(&self) -> (state: HookState)
        ensures
            state == self@.state,
    {
        self.state
    }

    /// The way to the original function, if it is known.
    pub fn original(&self) -> (original: Option<HookHandle>)
        ensures
            original == self@.original,
    {
        self.original
    }

    /// Takes note of `event` and answers with the next action.
    pub fn advance<E>(&mut self, event: Event<E>) -> (action: Action<E>)
        ensures
            (final(self)@, action) == old(self)@.next(event),
            old(self)@.wf() ==> final(self)@.wf(),
    {
        proof {
            if old(self)@.wf() {
                old(self)@.lemma_next_is_sound(event);
            }
        }
        match event {
            Event::Loader { reason } => {
                if reason == PROCESS_ATTACH {
                    Action::DisableThreadCallbacks
                } else if reason == PROCESS_DETACH {
                    Action::RemoveHook { target: self.target }
                } else {
                    Action::Finish { status: true, report: None }
                }
            },
            Event::CallbacksDisabled => {
                match self.state {
                    HookState::Removed => Action::Finish { status: true, report: None },
                    _ => Action::CreateHook {
                        target: self.target,
                        replacement: self.replacement,
                    },
                }
            },
            Event::Created(Ok(handle)) => {
                match self.state {
                    HookState::Uninstalled => {
                        if handle.target() == self.target {
                            self.state = HookState::Created;
                            self.original = Some(handle);
                            Action::EnableHook { target: self.target }
                        } else {
                            Action::Finish { status: true, report: None }
                        }
                    },
                    _ => Action::Finish { status: true, report: None },
                }
            },
            Event::Created(Err(error)) => Action::Finish {
                status: true,
                report: Some(Report::InstallFailed(error)),
            },
            Event::Enabled(Ok(_)) => {
                if self.state.permits_enabling() {
                    self.state = HookState::Enabled;
                    Action::Finish { status: true, report: Some(Report::Installed) }
                } else {
                    Action::Finish { status: true, report: None }
                }
            },
            Event::Enabled(Err(error)) => Action::Finish {
                status: true,
                report: Some(Report::InstallFailed(error)),
            },
            Event::Removed(Ok(_)) => {
                if self.state.permits_removal() {
                    self.state = HookState::Removed;
                    self.original = None;
                }
                Action::Finish { status: true, report: None }
            },
            Event::Removed(Err(error)) => Action::Finish {
                status: true,
                report: Some(Report::RemoveFailed(error)),
            },
        }
    }

    /// Handles one call of the loader against `engine`: performs every action
    /// that the controller asks for and returns the status for the loader,
    /// which is always success, with the report that ends the exchange.
    pub fn run(&mut self, engine: &mut HookEngine, reason: u32) -> (outcome: (
        bool,
        Option<Report<HookError>>,
    ))
        requires
            old(engine).wf(),
        ensures
            final(engine).wf(),
            old(self)@.wf() ==> final(self)@.wf(),
            outcome.0,
            (final(self)@, final(engine)@, outcome.1) == handled(
                old(self)@,
                old(engine)@,
                reason,
            ),
    {
        let mut action = self.advance(Event::Loader { reason });
        loop
            invariant
                engine.wf(),
                old(self)@.wf() ==> self@.wf(),
                action matches Action::Finish { status, .. } ==> status,
                settled(self@, engine@, action) == handled(old(self)@, old(engine)@, reason),
            decreases rank(action),
        {
            let ghost pending = action;
            let ghost engine_before = engine@;
            let ghost controller_before = self@;
            let event = match action {
                Action::Finish { status, report } => {
                    return (status, report);
                },
                Action::DisableThreadCallbacks => Event::CallbacksDisabled,
                Action::CreateHook { target, replacement } => {
                    let created = engine.create_hook(target, replacement);
                    proof {
                        if let Ok(handle) = created {
                            handle.lemma_handle_is_its_addresses();
                        }
                    }
                    Event::Created(created)
                },
                Action::EnableHook { target } => Event::Enabled(engine.enable_hook(target)),
                Action::RemoveHook { target } => Event::Removed(engine.remove_hook(target)),
            };
            proof {
                assert((engine@, event) == performed(engine_before, pending));
                lemma_answers_run_out(controller_before, engine_before, pending);
            }
            action = self.advance(event);
        }
    }
}

} // verus!
