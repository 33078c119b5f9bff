use handy::jumper::{
    arm_post_take_action, clamp_into_rect_1d, classify_com_init, clear_delivery_request,
    clear_post_take_action, client_dim, guard_identity_still_matches, hint_is_valid_for,
    identity_fingerprint, keyed_hash, migrate_hint_slots, request_delivery, slot_save_cursor,
    snapshot_may_persist_identities, snapshot_should_write_identities, take_delivery_intent,
    take_post_take_action, ComInitOutcome, DeliveryIntent, DeliveryMailbox, PostTakeAction,
    PostTakeMailbox, SlotHint, SlotState, HOT, HOT2, RPC_E_CHANGED_MODE, SLOT_COUNT,
};
use handy::jumper::{hints_version_accepted, slot_hint_for, title_hash_of, HINTS_FORMAT_VERSION};

#[derive(Clone, Debug, PartialEq)]
struct Target {
    hwnd: isize,
    window_class: String,
}

fn dummy_target() -> Target {
    Target { hwnd: 1, window_class: "TestWindow".into() }
}

fn empty_state() -> SlotState<Target> {
    let mut s = SlotState::new();
    // Match a process whose generation allocator has already handed out
    // some generations, as the global counter would have.
    s.next_generation = 100;
    s
}

#[test]
fn cas_commit_succeeds_when_generation_matches_expected() {
    let mut state = empty_state();
    let expected = state.next_generation();
    state.targets[HOT] = Some(dummy_target());
    state.generations[HOT] = expected;
    let result = state.cas_commit(HOT, expected, dummy_target());
    assert!(result.is_some());
    assert!(state.generations[HOT] > expected);
    assert_eq!(state.generations[HOT], result.unwrap());
}

#[test]
fn cas_commit_rejects_stale_expected_generation() {
    let mut state = empty_state();
    state.targets[HOT] = Some(dummy_target());
    state.generations[HOT] = 9;
    assert!(state.cas_commit(HOT, 5, dummy_target()).is_none());
    assert_eq!(state.generations[HOT], 9);
}

#[test]
fn cas_commit_rejects_when_slot_was_cleared_since_snapshot() {
    let mut state = empty_state();
    state.generations[HOT] = 4;
    assert!(state.cas_commit(HOT, 3, dummy_target()).is_none());
    assert!(state.targets[HOT].is_none());
}

#[test]
fn cas_commit_succeeds_populating_a_still_empty_slot() {
    let mut state = empty_state();
    assert!(state.cas_commit(HOT, 0, dummy_target()).is_some());
    assert!(state.targets[HOT].is_some());
}

#[test]
fn cas_commit_generations_are_monotonic_across_commits() {
    let mut state = empty_state();
    let first_gen = state.cas_commit(HOT, 0, dummy_target()).unwrap();
    let second_gen = state.cas_commit(HOT, first_gen, dummy_target()).unwrap();
    assert!(second_gen > first_gen);
}

#[test]
fn aba_cycle_through_set_and_clear_invalidates_a_stale_none_snapshot() {
    let mut state = empty_state();
    let stale_expected = state.generations[HOT];
    assert_eq!(stale_expected, 0);

    let set_gen = state.cas_commit(HOT, 0, dummy_target()).unwrap();
    assert!(state.targets[HOT].is_some());

    let clear_gen = state.next_generation();
    state.generations[HOT] = clear_gen;
    state.targets[HOT] = None;
    assert_ne!(clear_gen, stale_expected);
    assert_ne!(clear_gen, set_gen);

    assert!(state.cas_commit(HOT, stale_expected, dummy_target()).is_none());
    assert!(state.targets[HOT].is_none());
}

#[test]
fn empty_generation_returns_none_when_slot_occupied() {
    let mut state = empty_state();
    state.targets[HOT] = Some(dummy_target());
    state.generations[HOT] = 7;
    assert_eq!(state.empty_generation(HOT), None);
}

#[test]
fn empty_generation_snapshots_the_generation_of_a_truly_empty_slot() {
    let mut state = empty_state();
    state.generations[HOT] = 3;
    assert_eq!(state.empty_generation(HOT), Some(3));
}

#[test]
fn stale_expected_from_before_a_manual_set_is_rejected_by_cas_commit() {
    let mut state = empty_state();
    let expected = state.empty_generation(HOT).unwrap();
    assert_eq!(expected, 0);

    state.cas_commit(HOT, 0, dummy_target()).unwrap();
    assert!(state.targets[HOT].is_some());

    assert!(state.cas_commit(HOT, expected, dummy_target()).is_none());
    assert!(state.targets[HOT].is_some());
}

#[test]
fn classify_com_init_decides_ownership_from_hresult() {
    assert_eq!(classify_com_init(0), ComInitOutcome::Owned);
    assert_eq!(classify_com_init(1), ComInitOutcome::Owned);
    assert_eq!(
        classify_com_init(RPC_E_CHANGED_MODE),
        ComInitOutcome::AlreadyInitializedElsewhere
    );
    assert_eq!(classify_com_init(0x80004005_u32 as i32), ComInitOutcome::Failed);
}

#[test]
fn keyed_hash_differs_across_keys_for_the_same_data() {
    let a = keyed_hash(&[0u8; 16], "My Document.docx - Notepad");
    let b = keyed_hash(&[1u8; 16], "My Document.docx - Notepad");
    assert_ne!(a, b);
}

#[test]
fn keyed_hash_is_deterministic_for_the_same_key_and_data() {
    let key = [7u8; 16];
    assert_eq!(keyed_hash(&key, "same title"), keyed_hash(&key, "same title"));
    assert_ne!(keyed_hash(&key, "title a"), keyed_hash(&key, "title b"));
}

#[test]
fn identity_fingerprint_hashes_the_nul_joined_identity() {
    let key = [3u8; 16];
    assert_eq!(
        identity_fingerprint(&key, "notepad.exe", "Notepad", "Edit"),
        keyed_hash(&key, "notepad.exe\0Notepad\0Edit")
    );
    assert_ne!(
        identity_fingerprint(&key, "notepad.exe", "Notepad", "Edit"),
        identity_fingerprint(&key, "notepad.exe", "NotepadEdit", "")
    );
}

#[test]
fn hint_is_valid_for_requires_matching_identity_fingerprint() {
    let hint = SlotHint { identity_fp: 42, title_hash: 99 };
    assert!(hint_is_valid_for(&hint, 42));
    assert!(!hint_is_valid_for(&hint, 43));
}

#[test]
fn guard_identity_still_matches_requires_every_field_to_match() {
    assert!(guard_identity_still_matches(
        100,
        200,
        "Chrome_WidgetWin_1",
        100,
        "Edit",
        100,
        200,
        "Chrome_WidgetWin_1",
        "Edit",
    ));
}

#[test]
fn guard_identity_still_matches_rejects_window_pid_mismatch() {
    assert!(!guard_identity_still_matches(
        999,
        200,
        "Chrome_WidgetWin_1",
        100,
        "Edit",
        100,
        200,
        "Chrome_WidgetWin_1",
        "Edit",
    ));
}

#[test]
fn guard_identity_still_matches_rejects_window_tid_mismatch() {
    assert!(!guard_identity_still_matches(
        100,
        999,
        "Chrome_WidgetWin_1",
        100,
        "Edit",
        100,
        200,
        "Chrome_WidgetWin_1",
        "Edit",
    ));
}

#[test]
fn guard_identity_still_matches_rejects_window_class_mismatch() {
    assert!(!guard_identity_still_matches(
        100,
        200,
        "Notepad",
        100,
        "Edit",
        100,
        200,
        "Chrome_WidgetWin_1",
        "Edit",
    ));
}

#[test]
fn guard_identity_still_matches_rejects_control_pid_mismatch() {
    assert!(!guard_identity_still_matches(
        100,
        200,
        "Chrome_WidgetWin_1",
        999,
        "Edit",
        100,
        200,
        "Chrome_WidgetWin_1",
        "Edit",
    ));
}

#[test]
fn guard_identity_still_matches_rejects_control_class_mismatch() {
    assert!(!guard_identity_still_matches(
        100,
        200,
        "Chrome_WidgetWin_1",
        100,
        "Static",
        100,
        200,
        "Chrome_WidgetWin_1",
        "Edit",
    ));
}

#[test]
fn snapshot_may_persist_identities_requires_successful_hint_write() {
    assert!(snapshot_may_persist_identities(true));
    assert!(!snapshot_may_persist_identities(false));
}

#[test]
fn snapshot_should_write_identities_follows_current_persist_flag() {
    assert!(snapshot_should_write_identities(true));
    assert!(!snapshot_should_write_identities(false));
}

#[test]
fn client_dim_widens_validates_and_saturates() {
    assert_eq!(client_dim(800, 100), Some(700));
    assert_eq!(client_dim(100, 100), None);
    assert_eq!(client_dim(100, 200), None);
    assert_eq!(client_dim(i32::MAX, i32::MIN), Some(i32::MAX));
    assert_eq!(client_dim(i32::MAX, 0), Some(i32::MAX));
}

#[test]
fn clamp_into_rect_1d_respects_exclusive_far_edge() {
    assert_eq!(clamp_into_rect_1d(-1000, -1920, 0), -1000);
    assert_eq!(clamp_into_rect_1d(-1920, -1920, 0), -1920);
    assert_eq!(clamp_into_rect_1d(50, -1920, 0), -1);
    assert_eq!(clamp_into_rect_1d(-5000, -1920, 0), -1920);
    assert_eq!(clamp_into_rect_1d(500, 100, 100), 100);
    assert_eq!(clamp_into_rect_1d(500, 100, 50), 100);
}

#[test]
fn delivery_intent_is_take_scoped_one_shot() {
    let mut mailbox = DeliveryMailbox::new();
    clear_delivery_request(&mut mailbox);
    assert_eq!(take_delivery_intent(&mut mailbox), DeliveryIntent::none());

    request_delivery(&mut mailbox, 2);
    let intent = take_delivery_intent(&mut mailbox);
    assert_eq!(intent, DeliveryIntent(Some(2)));

    assert_eq!(take_delivery_intent(&mut mailbox), DeliveryIntent::none());

    request_delivery(&mut mailbox, SLOT_COUNT + 1);
    assert_eq!(take_delivery_intent(&mut mailbox), DeliveryIntent::none());

    let earlier_take_intent = take_delivery_intent(&mut mailbox);
    request_delivery(&mut mailbox, 1);
    let later_take_intent = take_delivery_intent(&mut mailbox);
    assert_eq!(later_take_intent, DeliveryIntent(Some(1)));
    assert_eq!(earlier_take_intent, DeliveryIntent::none());
}

#[test]
fn post_take_action_roundtrip_and_bounds_check() {
    let slots: SlotState<Target> = SlotState::new();
    let mut mailbox = PostTakeMailbox::new();
    clear_post_take_action(&mut mailbox);
    assert!(take_post_take_action(&mut mailbox).is_none());

    arm_post_take_action(&mut mailbox, &slots, PostTakeAction::Clear, HOT, false);
    let action = take_post_take_action(&mut mailbox);
    match action {
        Some((PostTakeAction::Clear, slot, _expected, _save_cursor)) => assert_eq!(slot, HOT),
        _ => panic!("expected an armed Clear action for HOT"),
    }
    assert!(take_post_take_action(&mut mailbox).is_none());

    arm_post_take_action(&mut mailbox, &slots, PostTakeAction::SetSlot, SLOT_COUNT + 3, false);
    assert!(take_post_take_action(&mut mailbox).is_none());
}

#[test]
fn slot_save_cursor_gates_per_target_slot() {
    let slots = [true, false, true, false, false];
    assert!(slot_save_cursor(&slots, HOT));
    assert!(!slot_save_cursor(&slots, 1));
    assert!(slot_save_cursor(&slots, 2));
    assert!(!slot_save_cursor(&slots, 3));
    assert!(!slot_save_cursor(&slots, 4));

    let only_static_1 = [false, true, false, false, false];
    assert!(!slot_save_cursor(&only_static_1, HOT));
    assert!(slot_save_cursor(&only_static_1, 1));

    assert!(!slot_save_cursor(&slots, SLOT_COUNT));
    assert!(!slot_save_cursor(&slots, 99));
    assert!(!slot_save_cursor(&[true, true], 3));
    assert!(!slot_save_cursor(&[], HOT));
}

#[test]
fn a_clear_bumps_the_generation_so_a_stale_deferred_set_is_refused() {
    let mut state: SlotState<Target> = SlotState::new();
    let g = state.set(HOT2, dummy_target());
    assert_eq!(state.current_generation(HOT2), g);
    state.clear(HOT2);
    assert!(state.get(HOT2).is_none());
    assert_ne!(state.current_generation(HOT2), g);
    assert!(!state.clear_if_unchanged(HOT2, g));
    assert!(state.cas_commit(HOT2, g, dummy_target()).is_none());
}

#[test]
fn hints_saved_before_the_slot_expansion_move_the_old_second_hot_slot() {
    let h = |fp: u64| Some(SlotHint { identity_fp: fp, title_hash: fp + 1 });
    let migrated = migrate_hint_slots(vec![h(0), h(1), h(2), h(3), h(4), h(5)]);
    assert_eq!(migrated.len(), SLOT_COUNT);
    assert_eq!(migrated[HOT], h(0));
    assert_eq!(migrated[HOT2], h(5));
    assert_eq!(migrated[5], None);
    assert_eq!(migrated[1], h(1));
}

#[test]
fn hint_version_gate_and_hint_contents() {
    assert!(hints_version_accepted(HINTS_FORMAT_VERSION));
    assert!(!hints_version_accepted(HINTS_FORMAT_VERSION + 1));
    assert!(!hints_version_accepted(1));
    let key = [7u8; 16];
    assert_eq!(title_hash_of(&key, ""), None);
    assert_eq!(title_hash_of(&key, "Doc - Editor"), Some(keyed_hash(&key, "Doc - Editor")));
    assert_eq!(slot_hint_for(&key, "a.exe", "W", "C", None), None);
    let h = slot_hint_for(&key, "a.exe", "W", "C", Some(5)).unwrap();
    assert_eq!(h.title_hash, 5);
    assert_eq!(h.identity_fp, identity_fingerprint(&key, "a.exe", "W", "C"));
}
