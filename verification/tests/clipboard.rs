use handy::clipboard::{
    abort_reason, classify_abort, clear_submit_override, clipboard_still_ours,
    effective_clipboard_handling, park_decision, pre_submit_extra_ms, pre_submit_total_ms,
    resolve_capture, restore_extra_for_target, restore_retry_delay_ms, should_restore,
    should_send_auto_submit, still_valid_for, take_submit_override, unanchored_target_intact,
    set_submit_override, ClipboardCustody, ClipboardSnapshot, DeliveryAbort, ParkDecision,
    PendingRestore, RescueOutcome, RestoreStep, SubmitOverride, SubmitOverrideMailbox,
    DELIVERY_ABORTED, DELIVERY_ABORTED_PARTIAL, SUBMIT_ABORTED,
};
use handy::settings::{AutoSubmitKey, ClipboardHandling, PasteMethod};

#[test]
fn restore_proceeds_when_no_newer_write_landed() {
    assert!(should_restore(3, 3));
}

#[test]
fn restore_is_skipped_when_a_newer_generation_landed_under_the_lock() {
    assert!(!should_restore(1, 2));
}

fn pending(generation: u64) -> PendingRestore {
    PendingRestore {
        generation,
        written: "TRANSCRIPT 1".to_string(),
        original: ClipboardSnapshot::Text("user data".to_string()),
    }
}

#[test]
fn capture_inherits_the_original_instead_of_our_own_transcript() {
    let p = pending(7);
    let (snapshot, inherited) =
        resolve_capture(Some(&p), 7, ClipboardSnapshot::Text("TRANSCRIPT 1".to_string()));
    assert_eq!(snapshot, ClipboardSnapshot::Text("user data".to_string()));
    assert!(inherited);
}

#[test]
fn capture_does_not_inherit_when_the_user_copied_something_new() {
    let p = pending(7);
    let (snapshot, inherited) =
        resolve_capture(Some(&p), 7, ClipboardSnapshot::Text("fresh user copy".to_string()));
    assert_eq!(snapshot, ClipboardSnapshot::Text("fresh user copy".to_string()));
    assert!(!inherited);
}

#[test]
fn capture_does_not_inherit_across_a_superseding_write() {
    let p = pending(7);
    let (_, inherited) =
        resolve_capture(Some(&p), 9, ClipboardSnapshot::Text("TRANSCRIPT 1".to_string()));
    assert!(!inherited);
}

#[test]
fn capture_with_no_pending_entry_uses_the_live_clipboard() {
    let (snapshot, inherited) =
        resolve_capture(None, 3, ClipboardSnapshot::Text("user data".to_string()));
    assert_eq!(snapshot, ClipboardSnapshot::Text("user data".to_string()));
    assert!(!inherited);
}

#[test]
fn restore_is_skipped_when_the_user_changed_the_clipboard() {
    assert!(clipboard_still_ours(&ClipboardSnapshot::Text("ours".to_string()), "ours"));
    assert!(!clipboard_still_ours(
        &ClipboardSnapshot::Text("user copied this".to_string()),
        "ours"
    ));
    assert!(!clipboard_still_ours(&ClipboardSnapshot::NonText, "ours"));
}

#[test]
fn park_failure_must_not_supersede_an_older_pending_restore() {
    assert!(should_restore(5, 5));
    assert!(!should_restore(5, 6));
}

#[test]
fn restore_retry_budget_is_bounded() {
    assert_eq!(restore_retry_delay_ms(0), Some(60));
    assert_eq!(restore_retry_delay_ms(1), Some(150));
    assert_eq!(restore_retry_delay_ms(2), None);
}

#[test]
fn no_jump_remote_pays_the_remote_submit_delay() {
    assert_eq!(pre_submit_extra_ms(false, true, 300, 600), 600);
}

#[test]
fn local_no_jump_delivery_pays_no_pacing_at_all() {
    assert_eq!(pre_submit_extra_ms(false, false, 300, 600), 0);
}

#[test]
fn a_remote_jump_is_not_double_charged() {
    assert_eq!(pre_submit_extra_ms(true, true, 300, 600), 600);
}

#[test]
fn a_local_jump_keeps_the_local_delay() {
    assert_eq!(pre_submit_extra_ms(true, false, 300, 600), 300);
}

#[test]
fn pre_submit_pacing_honours_a_zero_setting() {
    for (jumped, remote) in [(false, false), (false, true), (true, false), (true, true)] {
        assert_eq!(pre_submit_extra_ms(jumped, remote, 0, 0), 0);
    }
}

#[test]
fn pre_submit_total_adds_a_typing_tail_only_for_direct() {
    assert_eq!(pre_submit_total_ms(50, 600, PasteMethod::Direct, 15), 50 + 600 + 15);
    for m in [
        PasteMethod::CtrlV,
        PasteMethod::CtrlShiftV,
        PasteMethod::ShiftInsert,
        PasteMethod::ExternalScript,
    ] {
        assert_eq!(pre_submit_total_ms(50, 600, m, 15), 650, "{m:?}");
    }
    assert_eq!(pre_submit_total_ms(50, 0, PasteMethod::Direct, 0), 50);
}

#[test]
fn remote_restore_override_is_inert_until_set() {
    assert_eq!(restore_extra_for_target(None, true, None, 250), 250);
    assert_eq!(restore_extra_for_target(None, false, None, 250), 250);
}

#[test]
fn remote_restore_override_applies_only_to_remote_targets() {
    assert_eq!(restore_extra_for_target(None, true, Some(1000), 250), 1000);
    assert_eq!(restore_extra_for_target(None, false, Some(1000), 250), 250);
}

#[test]
fn a_per_flow_submit_override_beats_both() {
    assert_eq!(restore_extra_for_target(Some(50), true, Some(1000), 250), 50);
    assert_eq!(restore_extra_for_target(Some(0), true, Some(1000), 250), 0);
}

#[test]
fn unanchored_target_absent_imposes_no_constraint() {
    assert!(unanchored_target_intact(None, None));
    assert!(unanchored_target_intact(None, Some(42)));
    assert!(unanchored_target_intact(Some(42), Some(42)));
    assert!(!unanchored_target_intact(Some(42), Some(43)));
    assert!(!unanchored_target_intact(Some(42), None));
}

#[test]
fn dont_modify_withholds_the_rescue_park() {
    assert_eq!(park_decision(ClipboardHandling::DontModify), ParkDecision::Withhold);
    assert_eq!(park_decision(ClipboardHandling::CopyToClipboard), ParkDecision::Park);
}

#[test]
fn rescue_outcome_wire_values_match_the_frontend_contract() {
    assert_eq!(RescueOutcome::Parked.as_str(), "parked");
    assert_eq!(RescueOutcome::Withheld.as_str(), "withheld");
    assert_eq!(RescueOutcome::ParkFailed.as_str(), "failed");
}

#[test]
fn effective_clipboard_handling_precedence() {
    let global = ClipboardHandling::DontModify;
    let submit_with = |c: Option<ClipboardHandling>| SubmitOverride {
        submit: None,
        clipboard: c,
        restore_extra_ms: 0,
    };
    assert_eq!(
        effective_clipboard_handling(
            Some(submit_with(Some(ClipboardHandling::CopyToClipboard))),
            Some(ClipboardHandling::DontModify),
            global
        ),
        ClipboardHandling::CopyToClipboard
    );
    assert_eq!(
        effective_clipboard_handling(
            Some(submit_with(None)),
            Some(ClipboardHandling::CopyToClipboard),
            global
        ),
        ClipboardHandling::CopyToClipboard
    );
    assert_eq!(effective_clipboard_handling(None, None, global), ClipboardHandling::DontModify);
}

#[test]
fn non_text_clipboard_is_distinguished_from_empty_text() {
    assert_ne!(ClipboardSnapshot::NonText, ClipboardSnapshot::Text(String::new()));
}

#[test]
fn auto_submit_requires_setting_enabled() {
    assert!(!should_send_auto_submit(false, PasteMethod::CtrlV));
    assert!(!should_send_auto_submit(false, PasteMethod::Direct));
}

#[test]
fn auto_submit_skips_none_paste_method() {
    assert!(!should_send_auto_submit(true, PasteMethod::Disabled));
}

#[test]
fn auto_submit_runs_for_active_paste_methods() {
    assert!(should_send_auto_submit(true, PasteMethod::CtrlV));
    assert!(should_send_auto_submit(true, PasteMethod::Direct));
    assert!(should_send_auto_submit(true, PasteMethod::CtrlShiftV));
    assert!(should_send_auto_submit(true, PasteMethod::ShiftInsert));
}

fn dummy_override(key: AutoSubmitKey) -> SubmitOverride {
    SubmitOverride {
        submit: Some((PasteMethod::CtrlV, key)),
        clipboard: Some(ClipboardHandling::CopyToClipboard),
        restore_extra_ms: 0,
    }
}

#[test]
fn submit_override_is_take_scoped_one_shot() {
    let mut mailbox = SubmitOverrideMailbox::new();
    clear_submit_override(&mut mailbox);
    assert_eq!(take_submit_override(&mut mailbox), None);

    set_submit_override(&mut mailbox, dummy_override(AutoSubmitKey::Enter));
    let captured = take_submit_override(&mut mailbox);
    assert_eq!(captured, Some(dummy_override(AutoSubmitKey::Enter)));

    assert_eq!(take_submit_override(&mut mailbox), None);

    let earlier_take_override = take_submit_override(&mut mailbox);
    set_submit_override(&mut mailbox, dummy_override(AutoSubmitKey::CtrlEnter));
    let later_take_override = take_submit_override(&mut mailbox);
    assert_eq!(later_take_override, Some(dummy_override(AutoSubmitKey::CtrlEnter)));
    assert_eq!(earlier_take_override, None);

    set_submit_override(&mut mailbox, dummy_override(AutoSubmitKey::Enter));
    let already_stopped_takes_override = take_submit_override(&mut mailbox);
    clear_submit_override(&mut mailbox);
    assert_eq!(
        already_stopped_takes_override,
        Some(dummy_override(AutoSubmitKey::Enter)),
        "a later clear must not strip an already-captured take's override"
    );
}

#[test]
fn a_second_paste_restores_the_users_clipboard_not_the_first_transcript() {
    let mut custody = ClipboardCustody::new();
    let (orig1, inherited1) = custody.capture(ClipboardSnapshot::Text("user data".into()));
    assert!(!inherited1);
    let entry1 = custody.record_paste_write("TRANSCRIPT 1", orig1, true).unwrap();
    assert_eq!(entry1.generation, 1);

    let (orig2, inherited2) = custody.capture(ClipboardSnapshot::Text("TRANSCRIPT 1".into()));
    assert!(inherited2);
    assert_eq!(orig2, ClipboardSnapshot::Text("user data".into()));
    let entry2 = custody.record_paste_write("TRANSCRIPT 2", orig2, true).unwrap();

    assert_eq!(custody.restore_step(&entry1, Some("TRANSCRIPT 2")), RestoreStep::Superseded);
    assert_eq!(custody.restore_step(&entry2, None), RestoreStep::Unreadable);
    assert_eq!(custody.restore_step(&entry2, Some("TRANSCRIPT 2")), RestoreStep::Write);
    assert_eq!(entry2.original, ClipboardSnapshot::Text("user data".into()));
    custody.restore_written(&entry2, true);

    let (orig3, inherited3) = custody.capture(ClipboardSnapshot::Text("TRANSCRIPT 2".into()));
    assert!(!inherited3);
    assert_eq!(orig3, ClipboardSnapshot::Text("TRANSCRIPT 2".into()));
}

#[test]
fn a_park_supersedes_the_pending_restore_and_a_user_copy_ends_it() {
    let mut custody = ClipboardCustody::new();
    let entry = custody.record_paste_write("T", ClipboardSnapshot::NonText, true).unwrap();
    assert_eq!(custody.restore_step(&entry, Some("something else")), RestoreStep::UserOwnsIt);
    let entry = custody.record_paste_write("T", ClipboardSnapshot::NonText, true).unwrap();
    custody.record_park();
    assert_eq!(custody.generation(), 3);
    assert_eq!(custody.restore_step(&entry, Some("T")), RestoreStep::Superseded);
}

#[test]
fn per_keystroke_recheck_uses_the_guard_or_the_pinned_window() {
    assert!(still_valid_for(Some(true), Some(1), Some(2)));
    assert!(!still_valid_for(Some(false), Some(1), Some(1)));
    assert!(still_valid_for(None, Some(7), Some(7)));
    assert!(!still_valid_for(None, Some(7), Some(8)));
    assert!(still_valid_for(None, None, None));
}

#[test]
fn abort_sentinels_are_recognized_and_explained() {
    assert_eq!(classify_abort(DELIVERY_ABORTED), Some(DeliveryAbort::FocusLost));
    assert_eq!(classify_abort(DELIVERY_ABORTED_PARTIAL), Some(DeliveryAbort::FocusLostPartial));
    assert_eq!(classify_abort(SUBMIT_ABORTED), Some(DeliveryAbort::SubmitAborted));
    assert_eq!(classify_abort("Failed to send Return: x"), None);
    assert_eq!(
        abort_reason(DeliveryAbort::FocusLost, true),
        "focus changed mid-paste (per-keystroke re-check)"
    );
    assert_eq!(
        abort_reason(DeliveryAbort::FocusLost, false),
        "focus changed before the text was delivered (per-keystroke re-check)"
    );
}
