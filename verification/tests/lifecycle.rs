use health_sync::engine::{HookEngine, TrampolineArena};
use health_sync::error::HookError;
use health_sync::jump::decode_jump;
use health_sync::lifecycle::{Action, Controller, Event, Report, PROCESS_ATTACH, PROCESS_DETACH};
use health_sync::memory::{AddressSpace, Protection};
use health_sync::registry::HookHandle;
use health_sync::replacement::{replacement, BarChartCall};
use health_sync::state::HookState;

const RX: Protection = Protection { read: true, write: false, execute: true };
const TARGET: u32 = 0x72_8640;
const REPLACEMENT: u32 = 0x6000_1000;
const ARENA: u32 = 0x1000_0000;
/// Three whole instructions: `push ebp`, `mov ebp, esp`, `push -1`.
const PROLOGUE: [u8; 5] = [0x55, 0x8B, 0xEC, 0x6A, 0xFF];

fn engine(sealed: bool, capacity: u32) -> HookEngine {
    let mut code = vec![0x90u8; 0x1000];
    code[0x640..0x645].copy_from_slice(&PROLOGUE);
    let mut space = AddressSpace::new();
    assert!(space.map(0x72_8000, code, RX, sealed));
    HookEngine::new(space, TrampolineArena { base: ARENA, capacity }).unwrap()
}

fn handle() -> HookHandle {
    HookHandle::new(TARGET, ARENA).unwrap()
}

#[test]
fn reason_codes_are_those_of_the_loader() {
    assert_eq!(PROCESS_ATTACH, 1);
    assert_eq!(PROCESS_DETACH, 0);
}

#[test]
fn new_controller_has_nothing_installed() {
    let controller = Controller::new(TARGET, REPLACEMENT);
    assert_eq!(controller.target(), TARGET);
    assert_eq!(controller.replacement(), REPLACEMENT);
    assert_eq!(controller.state(), HookState::Uninstalled);
    assert_eq!(controller.original(), None);
}

#[test]
fn attach_steps_through_create_and_enable() {
    let mut controller = Controller::new(TARGET, REPLACEMENT);
    let first = controller.advance(Event::<i32>::Loader { reason: 1 });
    assert!(matches!(first, Action::DisableThreadCallbacks));
    let second = controller.advance(Event::<i32>::CallbacksDisabled);
    assert!(matches!(second, Action::CreateHook { target: TARGET, replacement: REPLACEMENT }));
    assert_eq!(controller.state(), HookState::Uninstalled);
    let third = controller.advance(Event::<i32>::Created(Ok(handle())));
    assert!(matches!(third, Action::EnableHook { target: TARGET }));
    assert_eq!(controller.state(), HookState::Created);
    assert_eq!(controller.original(), Some(handle()));
    let last = controller.advance(Event::<i32>::Enabled(Ok(())));
    assert!(matches!(last, Action::Finish { status: true, report: Some(Report::Installed) }));
    assert_eq!(controller.state(), HookState::Enabled);
}

#[test]
fn failed_create_ends_the_attach_without_enabling() {
    let mut controller = Controller::new(TARGET, REPLACEMENT);
    controller.advance(Event::<i32>::Loader { reason: 1 });
    controller.advance(Event::<i32>::CallbacksDisabled);
    let answer = controller.advance(Event::Created(Err(9)));
    assert!(matches!(
        answer,
        Action::Finish { status: true, report: Some(Report::InstallFailed(9)) }
    ));
    assert_eq!(controller.state(), HookState::Uninstalled);
    assert_eq!(controller.original(), None);
}

#[test]
fn failed_enable_leaves_the_hook_created() {
    let mut controller = Controller::new(TARGET, REPLACEMENT);
    controller.advance(Event::<i32>::Created(Ok(handle())));
    let answer = controller.advance(Event::Enabled(Err(10)));
    assert!(matches!(
        answer,
        Action::Finish { status: true, report: Some(Report::InstallFailed(10)) }
    ));
    assert_eq!(controller.state(), HookState::Created);
    assert_eq!(controller.original(), Some(handle()));
}

#[test]
fn attach_on_a_live_hook_asks_for_the_creation_again() {
    let mut controller = Controller::new(TARGET, REPLACEMENT);
    controller.advance(Event::<i32>::Created(Ok(handle())));
    controller.advance(Event::<i32>::Enabled(Ok(())));
    let first = controller.advance(Event::<i32>::Loader { reason: 1 });
    assert!(matches!(first, Action::DisableThreadCallbacks));
    let second = controller.advance(Event::<i32>::CallbacksDisabled);
    assert!(matches!(second, Action::CreateHook { target: TARGET, replacement: REPLACEMENT }));
    let last = controller.advance(Event::Created(Err(3)));
    assert!(matches!(
        last,
        Action::Finish { status: true, report: Some(Report::InstallFailed(3)) }
    ));
    assert_eq!(controller.state(), HookState::Enabled);
    assert_eq!(controller.original(), Some(handle()));
}

#[test]
fn detach_asks_for_removal_and_forgets_the_original() {
    let mut controller = Controller::new(TARGET, REPLACEMENT);
    controller.advance(Event::<i32>::Created(Ok(handle())));
    controller.advance(Event::<i32>::Enabled(Ok(())));
    let first = controller.advance(Event::<i32>::Loader { reason: 0 });
    assert!(matches!(first, Action::RemoveHook { target: TARGET }));
    let last = controller.advance(Event::<i32>::Removed(Ok(())));
    assert!(matches!(last, Action::Finish { status: true, report: None }));
    assert_eq!(controller.state(), HookState::Removed);
    assert_eq!(controller.original(), None);
}

#[test]
fn failed_removal_is_reported_and_changes_nothing() {
    let mut controller = Controller::new(TARGET, REPLACEMENT);
    let first = controller.advance(Event::<i32>::Loader { reason: 0 });
    assert!(matches!(first, Action::RemoveHook { target: TARGET }));
    let last = controller.advance(Event::Removed(Err(4)));
    assert!(matches!(last, Action::Finish { status: true, report: Some(Report::RemoveFailed(4)) }));
    assert_eq!(controller.state(), HookState::Uninstalled);
}

#[test]
fn other_reasons_finish_at_once() {
    let mut controller = Controller::new(TARGET, REPLACEMENT);
    for reason in [2u32, 3, 77] {
        let answer = controller.advance(Event::<i32>::Loader { reason });
        assert!(matches!(answer, Action::Finish { status: true, report: None }));
    }
    assert_eq!(controller.state(), HookState::Uninstalled);
}

#[test]
fn events_that_fit_no_step_change_nothing() {
    let mut controller = Controller::new(TARGET, REPLACEMENT);
    let answer = controller.advance(Event::<i32>::Enabled(Ok(())));
    assert!(matches!(answer, Action::Finish { status: true, report: None }));
    assert_eq!(controller.state(), HookState::Uninstalled);
    let answer = controller.advance(Event::<i32>::Removed(Ok(())));
    assert!(matches!(answer, Action::Finish { status: true, report: None }));
    assert_eq!(controller.state(), HookState::Uninstalled);
    let stranger = HookHandle::new(TARGET + 1, ARENA).unwrap();
    let answer = controller.advance(Event::<i32>::Created(Ok(stranger)));
    assert!(matches!(answer, Action::Finish { status: true, report: None }));
    assert_eq!(controller.original(), None);
}

#[test]
fn removed_controller_installs_nothing_again() {
    let mut controller = Controller::new(TARGET, REPLACEMENT);
    controller.advance(Event::<i32>::Created(Ok(handle())));
    controller.advance(Event::<i32>::Removed(Ok(())));
    assert_eq!(controller.state(), HookState::Removed);
    controller.advance(Event::<i32>::Loader { reason: 1 });
    let answer = controller.advance(Event::<i32>::CallbacksDisabled);
    assert!(matches!(answer, Action::Finish { status: true, report: None }));
    let answer = controller.advance(Event::<i32>::Created(Ok(handle())));
    assert!(matches!(answer, Action::Finish { status: true, report: None }));
    assert_eq!(controller.state(), HookState::Removed);
    assert_eq!(controller.original(), None);
}

#[test]
fn run_attach_installs_the_hook() {
    let mut engine = engine(false, 2);
    let mut controller = Controller::new(TARGET, REPLACEMENT);
    let (status, report) = controller.run(&mut engine, PROCESS_ATTACH);
    assert!(status);
    assert!(matches!(report, Some(Report::Installed)));
    assert_eq!(controller.state(), HookState::Enabled);
    assert_eq!(controller.original(), Some(handle()));
    assert_eq!(engine.state(TARGET), HookState::Enabled);
}

#[test]
fn second_attach_is_refused_as_already_hooked() {
    let mut engine = engine(false, 2);
    let mut controller = Controller::new(TARGET, REPLACEMENT);
    let (_, first) = controller.run(&mut engine, PROCESS_ATTACH);
    assert!(matches!(first, Some(Report::Installed)));
    let (status, second) = controller.run(&mut engine, PROCESS_ATTACH);
    assert!(status);
    assert!(matches!(second, Some(Report::InstallFailed(HookError::AlreadyHooked))));
    assert_eq!(controller.state(), HookState::Enabled);
    assert_eq!(controller.original(), Some(handle()));
    assert_eq!(engine.state(TARGET), HookState::Enabled);
    assert_eq!(engine.lookup(TARGET).ok().unwrap().replacement(), REPLACEMENT);
}

#[test]
fn attach_on_a_created_hook_is_refused_as_already_hooked() {
    let mut sealed = engine(true, 2);
    let mut controller = Controller::new(TARGET, REPLACEMENT);
    let (_, first) = controller.run(&mut sealed, PROCESS_ATTACH);
    assert!(matches!(first, Some(Report::InstallFailed(HookError::MemoryProtectFailed))));
    assert_eq!(controller.state(), HookState::Created);
    let (status, second) = controller.run(&mut sealed, PROCESS_ATTACH);
    assert!(status);
    assert!(matches!(second, Some(Report::InstallFailed(HookError::AlreadyHooked))));
    assert_eq!(controller.state(), HookState::Created);
    assert_eq!(sealed.state(TARGET), HookState::Created);
}

#[test]
fn attach_after_detach_installs_nothing() {
    let mut engine = engine(false, 2);
    let mut controller = Controller::new(TARGET, REPLACEMENT);
    controller.run(&mut engine, PROCESS_ATTACH);
    controller.run(&mut engine, PROCESS_DETACH);
    let (status, report) = controller.run(&mut engine, PROCESS_ATTACH);
    assert!(status);
    assert!(report.is_none());
    assert_eq!(controller.state(), HookState::Removed);
    assert_eq!(engine.state(TARGET), HookState::Uninstalled);
}

#[test]
fn run_attach_survives_every_failure() {
    let mut unmapped = engine(false, 2);
    let mut controller = Controller::new(0x10, REPLACEMENT);
    let (status, report) = controller.run(&mut unmapped, PROCESS_ATTACH);
    assert!(status);
    assert!(matches!(report, Some(Report::InstallFailed(HookError::BadAddress))));
    assert_eq!(controller.state(), HookState::Uninstalled);

    let mut full = engine(false, 0);
    let mut controller = Controller::new(TARGET, REPLACEMENT);
    let (status, report) = controller.run(&mut full, PROCESS_ATTACH);
    assert!(status);
    assert!(matches!(report, Some(Report::InstallFailed(HookError::AllocationFailed))));
    assert_eq!(controller.original(), None);

    let mut sealed = engine(true, 2);
    let mut controller = Controller::new(TARGET, REPLACEMENT);
    let (status, report) = controller.run(&mut sealed, PROCESS_ATTACH);
    assert!(status);
    assert!(matches!(report, Some(Report::InstallFailed(HookError::MemoryProtectFailed))));
    assert_eq!(controller.state(), HookState::Created);
    assert_eq!(sealed.state(TARGET), HookState::Created);
    assert_eq!(sealed.memory().read(TARGET, 5), Some(PROLOGUE.to_vec()));

    let mut taken = engine(false, 2);
    assert!(taken.create_hook(TARGET, 0x6000_2000).is_ok());
    let mut controller = Controller::new(TARGET, REPLACEMENT);
    let (status, report) = controller.run(&mut taken, PROCESS_ATTACH);
    assert!(status);
    assert!(matches!(report, Some(Report::InstallFailed(HookError::AlreadyHooked))));
}

#[test]
fn run_detach_leaves_no_record() {
    let mut engine = engine(false, 2);
    let mut controller = Controller::new(TARGET, REPLACEMENT);
    controller.run(&mut engine, PROCESS_ATTACH);
    let (status, report) = controller.run(&mut engine, PROCESS_DETACH);
    assert!(status);
    assert!(report.is_none());
    assert_eq!(controller.state(), HookState::Removed);
    assert_eq!(controller.original(), None);
    assert_eq!(engine.lookup(TARGET).err(), Some(HookError::NotFound));
    assert_eq!(engine.memory().read(TARGET, 5), Some(PROLOGUE.to_vec()));
}

#[test]
fn run_detach_without_attach_reports_not_created() {
    let mut engine = engine(false, 2);
    let mut controller = Controller::new(TARGET, REPLACEMENT);
    let (status, report) = controller.run(&mut engine, PROCESS_DETACH);
    assert!(status);
    assert!(matches!(report, Some(Report::RemoveFailed(HookError::NotCreated))));
    assert_eq!(controller.state(), HookState::Uninstalled);
    assert_eq!(engine.lookup(TARGET).err(), Some(HookError::NotFound));
}

#[test]
fn run_ignores_other_reasons() {
    let mut engine = engine(false, 2);
    let mut controller = Controller::new(TARGET, REPLACEMENT);
    let (status, report) = controller.run(&mut engine, 2);
    assert!(status);
    assert!(report.is_none());
    assert_eq!(engine.state(TARGET), HookState::Uninstalled);
}

/// What a call of `address` by the host comes to: the arguments that the
/// original routine receives, if it is reached at all.
fn host_calls(
    engine: &HookEngine,
    controller: &Controller,
    address: u32,
    call: BarChartCall,
) -> Option<BarChartCall> {
    let entry = engine.memory().read(address, 5).unwrap();
    match decode_jump(address, &entry) {
        None => {
            assert_eq!(entry, PROLOGUE.to_vec());
            Some(call)
        },
        Some(destination) => {
            assert_eq!(destination, REPLACEMENT);
            let forwarded = replacement(controller.original(), call)?;
            let record = engine.lookup(address).ok().unwrap();
            assert_eq!(forwarded.entry, record.trampoline().address());
            let code = record.trampoline().code();
            assert_eq!(&code[..5], &PROLOGUE);
            assert_eq!(decode_jump(forwarded.entry + 5, &code[5..].to_vec()), Some(address + 5));
            Some(forwarded.call)
        },
    }
}

#[test]
fn install_call_remove_hands_the_original_the_rescaled_progress() {
    let cases = [
        (50.0f32, 50.0f32),
        (10000.0, 0.0),
        (10100.0, 100.0),
        (10200.0, 160.0),
        (9999.9, 9999.9),
    ];
    for (given, expected) in cases {
        let call = BarChartCall {
            x: 3.5f32.to_bits(),
            y: 7.25f32.to_bits(),
            width: 100,
            height: 12,
            progress: given.to_bits(),
            progress_add: 5,
            draw_percentage: 0,
            draw_black_border: 1,
            color: 0x1234,
            add_color: 0x5678,
        };
        let mut engine = engine(false, 1);
        let mut controller = Controller::new(TARGET, REPLACEMENT);

        assert_eq!(host_calls(&engine, &controller, TARGET, call), Some(call));

        let (status, report) = controller.run(&mut engine, PROCESS_ATTACH);
        assert!(status);
        assert!(matches!(report, Some(Report::Installed)));

        let received = host_calls(&engine, &controller, TARGET, call).unwrap();
        assert_eq!(f32::from_bits(received.progress), expected);
        assert_eq!(received, BarChartCall { progress: expected.to_bits(), ..call });

        let (status, report) = controller.run(&mut engine, PROCESS_DETACH);
        assert!(status);
        assert!(report.is_none());
        assert_eq!(engine.lookup(TARGET).err(), Some(HookError::NotFound));
        assert_eq!(host_calls(&engine, &controller, TARGET, call), Some(call));
    }
}
