use std::hash::{DefaultHasher, Hash, Hasher};
use engine_3l14::asset_3l14::{payload_bounds, AssetLoadError};
use engine_3l14::asset_load_list::AssetLoadList;
use engine_3l14::asset_worker::{
    asset_file_opened, enqueue_plan, receive_mode, request_send_outcome, worker_step, EnqueuePlan,
    LifecycleRequestKind, ReceiveMode, WorkerAction, WorkerPhase,
};
use engine_3l14::assets::{file_backed_step, FileBackedStep};
use engine_3l14::debug_menu::DebugMenuMemory;
use engine_3l14::symbol::{Ident, Signal, Symbol, TEST_SYMBOL_BASE};

#[test]
fn debug_menu_default_is_closed_and_clean() {
    let mut memory = DebugMenuMemory::default();
    assert!(!memory.is_active());
    assert_eq!(memory.generation(), 0);
    assert_eq!(memory.num_states(), 0);
    assert!(!memory.begin_save());
}

#[test]
fn debug_menu_changes_need_saving_once() {
    let mut memory = DebugMenuMemory::default();
    memory.toggle_active();
    assert!(memory.is_active());
    assert_eq!(memory.generation(), 1);
    assert!(memory.begin_save());
    assert!(!memory.begin_save());
    // setting the same value changes nothing
    memory.set_active(true);
    assert_eq!(memory.generation(), 1);
    assert!(!memory.begin_save());
    memory.set_active(false);
    assert_eq!(memory.generation(), 2);
    assert!(memory.begin_save());
}

#[test]
fn debug_menu_windows_are_added_and_toggled() {
    let mut memory = DebugMenuMemory::default();
    memory.set_state_active_by_name("Assets", true);
    assert_eq!(memory.num_states(), 1);
    let (id, name, open) = memory.state_at(0);
    assert_eq!(id, DebugMenuMemory::gui_id_by_name("Assets").0);
    assert_eq!(name, "Assets");
    assert!(open);
    assert_eq!(memory.generation(), 1);

    assert_eq!(memory.toggle_state_active_by_name("Assets"), Some(false));
    assert!(!memory.state_at(0).2);
    assert_eq!(memory.generation(), 2);

    // unknown windows are not toggled
    assert_eq!(memory.toggle_state_active_by_name("Nope"), None);
    assert_eq!(memory.generation(), 2);

    // adding a closed window does not need saving
    memory.set_state_active_by_name("Profiler", false);
    assert_eq!(memory.num_states(), 2);
    assert_eq!(memory.generation(), 2);
    assert_eq!(memory.state_at(1).1, "Profiler");
}

#[test]
fn debug_menu_restore_has_nothing_to_save() {
    let windows = vec![("A".to_string(), true), ("B".to_string(), false), ("A".to_string(), false)];
    let mut memory = DebugMenuMemory::restore(true, &windows);
    assert!(memory.is_active());
    assert_eq!(memory.generation(), 0);
    assert!(!memory.begin_save());
    assert_eq!(memory.num_states(), 2);
    assert_eq!(memory.state_at(0).1, "A");
    assert!(!memory.state_at(0).2);
    assert_eq!(memory.state_at(1).1, "B");
}

#[test]
fn asset_load_list_prunes_from_the_newest() {
    let mut list = AssetLoadList::new();
    list.push(1u32);
    list.push(2u32);
    list.push(3u32);
    assert_eq!(list.len(), 3);
    // 3 is done, 2 is still pending: stop there
    assert!(!list.check(|h: &u32| *h == 2));
    assert_eq!(list.len(), 2);
    // everything done
    assert!(list.check(|_h: &u32| false));
    assert_eq!(list.len(), 0);
    assert!(list.check(|_h: &u32| true));
}

#[test]
fn symbols_for_tests_and_invalid() {
    assert_eq!(Signal::test('a').0, TEST_SYMBOL_BASE + 97);
    assert_eq!(Ident::test('b').0, TEST_SYMBOL_BASE + 98);
    assert_eq!(Signal::invalid(), Signal(0));
    assert_eq!(Ident::invalid(), Ident(0));
}

#[test]
fn asset_worker_serves_then_drains() {
    assert_eq!(receive_mode(WorkerPhase::Serving), ReceiveMode::Blocking);
    assert_eq!(receive_mode(WorkerPhase::Draining), ReceiveMode::Immediate);
    assert_eq!(receive_mode(WorkerPhase::Stopped), ReceiveMode::Finished);

    let s = WorkerPhase::Serving;
    assert_eq!(worker_step(s, Some(LifecycleRequestKind::LoadFileBacked)), (s, WorkerAction::OpenAssetFile));
    assert_eq!(worker_step(s, Some(LifecycleRequestKind::LoadFromMemory)), (s, WorkerAction::Load));
    assert_eq!(worker_step(s, Some(LifecycleRequestKind::Drop)), (s, WorkerAction::DropHandle));
    assert_eq!(worker_step(s, Some(LifecycleRequestKind::StopWorkers)), (WorkerPhase::Draining, WorkerAction::Nothing));
    assert_eq!(worker_step(s, None), (WorkerPhase::Stopped, WorkerAction::Nothing));

    let d = WorkerPhase::Draining;
    let shutdown = WorkerAction::Fail(AssetLoadError::Shutdown);
    assert_eq!(worker_step(d, Some(LifecycleRequestKind::LoadFileBacked)), (d, shutdown));
    assert_eq!(worker_step(d, Some(LifecycleRequestKind::LoadFromMemory)), (d, shutdown));
    assert_eq!(worker_step(d, Some(LifecycleRequestKind::Drop)), (d, WorkerAction::DropHandle));
    assert_eq!(worker_step(d, Some(LifecycleRequestKind::StopWorkers)), (d, WorkerAction::Nothing));
    assert_eq!(worker_step(d, None), (WorkerPhase::Stopped, WorkerAction::Nothing));

    assert_eq!(worker_step(WorkerPhase::Stopped, Some(LifecycleRequestKind::Drop)), (WorkerPhase::Stopped, WorkerAction::Nothing));
}

#[test]
fn asset_worker_file_outcomes() {
    assert_eq!(asset_file_opened(true), WorkerAction::Load);
    assert_eq!(asset_file_opened(false), WorkerAction::Fail(AssetLoadError::Fetch));
    assert_eq!(file_backed_step(true), (WorkerPhase::Serving, FileBackedStep::Load));
    assert_eq!(file_backed_step(false), (WorkerPhase::Stopped, FileBackedStep::FailAndStop));
}

#[test]
fn asset_worker_enqueue_decisions() {
    assert_eq!(enqueue_plan(true, false), EnqueuePlan::Send { notify_reload: false });
    assert_eq!(enqueue_plan(true, true), EnqueuePlan::Send { notify_reload: true });
    assert_eq!(enqueue_plan(false, true), EnqueuePlan::Reject(AssetLoadError::LifecyclerNotRegistered));
    assert_eq!(request_send_outcome(true), None);
    assert_eq!(request_send_outcome(false), Some(AssetLoadError::Shutdown));
}

#[test]
fn debug_menu_ids_hash_the_name() {
    let mut hasher = DefaultHasher::new();
    "Profiler".hash(&mut hasher);
    assert_eq!(DebugMenuMemory::gui_id_by_name("Profiler").0, hasher.finish());
    assert_ne!(DebugMenuMemory::gui_id_by_name("Profiler"), DebugMenuMemory::gui_id_by_name("Assets"));
}

#[test]
fn debug_menu_toggling_twice_restores_every_window() {
    let mut memory = DebugMenuMemory::default();
    memory.set_state_active_by_name("Assets", true);
    memory.set_state_active_by_name("Profiler", false);
    let before: Vec<_> = (0..memory.num_states()).map(|i| memory.state_at(i)).collect();

    assert_eq!(memory.toggle_state_active_by_name("Profiler"), Some(true));
    assert_eq!(memory.toggle_state_active_by_name("Profiler"), Some(false));

    let after: Vec<_> = (0..memory.num_states()).map(|i| memory.state_at(i)).collect();
    assert_eq!(before, after);
}

#[test]
fn payload_bounds_split_after_the_length_prefix() {
    // a one-byte prefix announcing three bytes of structured data, then two opaque bytes
    assert_eq!(payload_bounds(6, 3, 1), Some((1, 4)));
    // the structured section may end exactly at the end of the input
    assert_eq!(payload_bounds(4, 3, 1), Some((1, 4)));
    assert_eq!(payload_bounds(1, 0, 1), Some((1, 1)));
}

#[test]
fn payload_bounds_refuse_short_or_unprefixed_input() {
    assert_eq!(payload_bounds(3, 3, 1), None);
    assert_eq!(payload_bounds(10, 3, 0), None);
    assert_eq!(payload_bounds(0, 0, 0), None);
}
