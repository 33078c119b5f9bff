use handy::input::{
    chunk_run, force_release_modifiers, is_modifier_vk, typing_plan, wait_for_key_released,
    wait_for_modifiers_released, DirectTyping, ReleaseWait, TypingStep,
};
use handy::clipboard::{DELIVERY_ABORTED, DELIVERY_ABORTED_PARTIAL};
use handy::input::{abort_message, TypingAction, TypingRun};

#[test]
fn empty_run_produces_no_batches() {
    assert!(chunk_run("", 40).is_empty());
}

#[test]
fn run_shorter_than_a_chunk_is_one_batch() {
    assert_eq!(chunk_run("hello", 40), vec!["hello".to_string()]);
}

#[test]
fn exact_multiple_does_not_emit_a_trailing_empty_batch() {
    assert_eq!(chunk_run("abcdefgh", 4), vec!["abcd".to_string(), "efgh".to_string()]);
}

#[test]
fn remainder_becomes_a_final_short_batch() {
    assert_eq!(
        chunk_run("abcdefghi", 4),
        vec!["abcd".to_string(), "efgh".to_string(), "i".to_string()]
    );
}

#[test]
fn chunking_is_by_character_so_multibyte_is_never_torn() {
    let s = "ąćęłń😀śźż";
    let batches = chunk_run(s, 3);
    assert_eq!(batches.concat(), s);
    assert_eq!(batches, vec!["ąćę".to_string(), "łń😀".to_string(), "śźż".to_string()]);
    assert!(batches.iter().all(|b| b.chars().count() <= 3));
}

#[test]
fn zero_chunk_size_means_one_unsplit_batch() {
    assert_eq!(chunk_run("abcdefgh", 0), vec!["abcdefgh".to_string()]);
}

fn describe(steps: &[TypingStep]) -> Vec<String> {
    steps
        .iter()
        .map(|s| match s {
            TypingStep::Text(t) => format!("T:{t}"),
            TypingStep::Return => "RET".to_string(),
            TypingStep::Tab => "TAB".to_string(),
        })
        .collect()
}

#[test]
fn line_breaks_and_tabs_become_keys_and_never_enter_a_batch() {
    let plan = typing_plan("ab\r\ncd\re\tf\ng\0h", 40);
    assert_eq!(
        describe(&plan),
        vec!["T:ab", "RET", "T:cd", "RET", "T:e", "TAB", "T:f", "RET", "T:gh"]
    );
}

#[test]
fn a_crlf_pair_is_one_return_and_a_lone_cr_is_still_a_break() {
    assert_eq!(describe(&typing_plan("\r\n", 4)), vec!["RET"]);
    assert_eq!(describe(&typing_plan("\r\r\n", 4)), vec!["RET", "RET"]);
    assert_eq!(describe(&typing_plan("\n\r", 4)), vec!["RET", "RET"]);
    assert!(typing_plan("", 4).is_empty());
    assert!(typing_plan("\0", 4).is_empty());
}

#[test]
fn long_runs_between_keys_are_batched() {
    assert_eq!(
        describe(&typing_plan("abcde\nfg", 2)),
        vec!["T:ab", "T:cd", "T:e", "RET", "T:fg"]
    );
}

#[test]
fn pauses_fall_only_between_text_batches_and_aborts_say_if_text_landed() {
    let mut state = DirectTyping::new();
    let text = TypingStep::Text("ab".to_string());
    assert_eq!(state.pause_before(&text, 15), 0);
    assert_eq!(state.abort_error(), DELIVERY_ABORTED);
    state.record(&TypingStep::Return);
    assert_eq!(state.pause_before(&text, 15), 0);
    assert_eq!(state.abort_error(), DELIVERY_ABORTED);
    state.record(&text);
    assert_eq!(state.pause_before(&text, 15), 15);
    assert_eq!(state.pause_before(&TypingStep::Tab, 15), 0);
    assert_eq!(state.abort_error(), DELIVERY_ABORTED_PARTIAL);
}

#[test]
fn both_sides_of_every_modifier_are_released_with_extended_flags_on_the_right() {
    assert_eq!(
        force_release_modifiers(),
        vec![
            (0xA2, false),
            (0xA3, true),
            (0xA4, false),
            (0xA5, true),
            (0xA0, false),
            (0xA1, false),
            (0x5B, false),
            (0x5C, false),
        ]
    );
    assert!(is_modifier_vk(0x10) && is_modifier_vk(0xA3) && is_modifier_vk(0x5C));
    assert!(!is_modifier_vk(0x41) && !is_modifier_vk(0x5D) && !is_modifier_vk(0xA6));
}

#[test]
fn the_trigger_wait_needs_ten_clear_milliseconds_or_the_deadline() {
    let mut w = ReleaseWait::new(1000, 500);
    assert_eq!(w.deadline_ms, 1500);
    // Known primary key still down.
    assert!(!wait_for_key_released(&mut w, Some(0x4F), &[0x4F, 0x11], 1000));
    // Released: the clear period starts...
    assert!(!wait_for_key_released(&mut w, Some(0x4F), &[0x11], 1005));
    assert_eq!(w.clear_since_ms, Some(1005));
    // ...and a modifier still held does not count for the trigger key.
    assert!(wait_for_key_released(&mut w, Some(0x4F), &[0x11], 1015));

    // Unknown primary: any non-modifier key counts as held.
    let mut w = ReleaseWait::new(0, 100);
    assert!(!wait_for_key_released(&mut w, None, &[0x41], 0));
    assert!(!wait_for_key_released(&mut w, None, &[0xA0], 5));
    assert!(!wait_for_key_released(&mut w, None, &[0x41], 12));
    assert_eq!(w.clear_since_ms, None);
    // The deadline ends the wait whatever is held.
    assert!(wait_for_key_released(&mut w, None, &[0x41], 100));
}

#[test]
fn the_modifier_wait_watches_generic_modifiers_and_win_keys() {
    let mut w = ReleaseWait::new(0, 300);
    assert!(!wait_for_modifiers_released(&mut w, &[0x5B], 0));
    assert!(!wait_for_modifiers_released(&mut w, &[0x41], 5));
    assert!(wait_for_modifiers_released(&mut w, &[], 15));
}

fn drive(plan: &[TypingStep], checking: bool, answers: &[bool]) -> Vec<TypingAction> {
    let mut run = TypingRun::new();
    let mut out = Vec::new();
    let mut answer = false;
    let mut k = 0;
    loop {
        let a = run.advance(plan, checking, answer, 25);
        out.push(a);
        match a {
            TypingAction::Check { .. } => {
                answer = answers[k];
                k += 1;
            }
            TypingAction::Abort { .. } | TypingAction::Done => return out,
            TypingAction::Inject { .. } => {}
        }
    }
}

#[test]
fn typing_run_checks_before_every_injection() {
    let plan = typing_plan("ab\ncd", 40);
    assert_eq!(plan.len(), 3);
    let all = drive(&plan, true, &[true, true, true]);
    assert_eq!(
        all,
        vec![
            TypingAction::Check { pause_ms: 0 },
            TypingAction::Inject { index: 0, pause_ms: 0 },
            TypingAction::Check { pause_ms: 0 },
            TypingAction::Inject { index: 1, pause_ms: 0 },
            TypingAction::Check { pause_ms: 25 },
            TypingAction::Inject { index: 2, pause_ms: 0 },
            TypingAction::Done,
        ]
    );
    let refused_first = drive(&plan, true, &[false]);
    assert_eq!(refused_first.last(), Some(&TypingAction::Abort { partial: false }));
    let refused_later = drive(&plan, true, &[true, false]);
    assert_eq!(refused_later.last(), Some(&TypingAction::Abort { partial: true }));
    assert_eq!(abort_message(true), DELIVERY_ABORTED_PARTIAL);
    assert_eq!(abort_message(false), DELIVERY_ABORTED);
    let unchecked = drive(&plan, false, &[]);
    assert_eq!(
        unchecked,
        vec![
            TypingAction::Inject { index: 0, pause_ms: 0 },
            TypingAction::Inject { index: 1, pause_ms: 0 },
            TypingAction::Inject { index: 2, pause_ms: 25 },
            TypingAction::Done,
        ]
    );
}
