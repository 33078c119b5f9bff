use handy::backup::{
    backup_entry_name, classify_entry, includes_recordings, PathPart, RestoreProgress,
    RestoreTarget, MAX_ENTRY_BYTES, MAX_TOTAL_BYTES,
};
use handy::cli::{
    base64_encode, image_data_url,
    bridge_error, bridge_forwards, bridge_reply, csv, ensure_server_poll, ensure_server_start,
    exit_code, http_status_error, image_mime, read_text, tool_reply, ServerStep, TextSource,
};
use handy::pipeline::{
    after_paste, chunked_take_end, final_transcription, maybe_convert_chinese_variant,
    model_label, plan_post_process, plan_recording, single_shot_take_end, structured_output_text,
    take_text, AfterPaste, ChunkTranscripts, PostProcessPrompt, PostProcessProvider,
    PostProcessSkip, TakeEnd, MIN_SAMPLES_TO_SAVE,
};
use handy::pipeline::{after_legacy_reply, after_structured_reply, ChatReply, PostProcessStep};
use handy::recording::{should_emit_level, LEVEL_IDLE_INTERVAL_MS};
use handy::translator::{
    change_translator_priority, not_a_folder, translator_add_folder, translator_folder_path,
    translator_remove_folder, translator_set_folder_enabled, TranslatorFolder, TranslatorPriority,
};

#[test]
fn chunk_transcripts_assemble_in_index_order_whatever_the_completion_order() {
    let mut t = ChunkTranscripts::new();
    t.insert(2, Some("three".to_string()));
    t.insert(0, Some("one".to_string()));
    t.insert(1, None);
    t.insert(3, Some(String::new()));
    assert_eq!(t.assemble(), "one three");
    t.insert(1, Some("two".to_string()));
    assert_eq!(t.assemble(), "one two three");
}

#[test]
fn live_and_chunked_recording_plans() {
    let p = plan_recording(true, "small", true);
    assert!(p.live && !p.chunked);
    let p = plan_recording(false, "small", true);
    assert!(!p.live && p.chunked);
    let p = plan_recording(true, "openrouter-transcription", true);
    assert!(!p.live && p.chunked);
    let p = plan_recording(true, "api-whisper", true);
    assert!(!p.live && !p.chunked);
    assert_eq!(after_paste(false, true), AfterPaste::ReportFailure);
    assert_eq!(after_paste(true, false), AfterPaste::SkipCancelled);
    assert_eq!(after_paste(true, true), AfterPaste::RunPostTakeAction);
}

#[test]
fn post_processing_needs_a_provider_model_and_a_real_prompt() {
    let provider = PostProcessProvider {
        id: "p".into(),
        model: "m".into(),
        base_url: "u".into(),
        api_key: "k".into(),
        supports_structured_output: true,
    };
    let prompts = vec![
        PostProcessPrompt { id: "blank".into(), prompt: "  ".into() },
        PostProcessPrompt { id: "fix".into(), prompt: "Fix: ${output}".into() },
    ];
    assert_eq!(plan_post_process(None, Some("fix"), &prompts, "t").err(), Some(PostProcessSkip::NoProvider));
    assert_eq!(plan_post_process(Some(&provider), None, &prompts, "t").err(), Some(PostProcessSkip::NoPromptSelected));
    assert_eq!(plan_post_process(Some(&provider), Some("nope"), &prompts, "t").err(), Some(PostProcessSkip::PromptNotFound));
    assert_eq!(plan_post_process(Some(&provider), Some("blank"), &prompts, "t").err(), Some(PostProcessSkip::EmptyPrompt));
    let req = plan_post_process(Some(&provider), Some("fix"), &prompts, "hello").ok().unwrap();
    assert!(req.system_prompt.starts_with("Fix: (the transcript in the user message)"));
    assert_eq!(req.user_content, "<transcript>\nhello\n</transcript>");
    assert!(req.structured);
    let mut no_model = provider.clone();
    no_model.model = " ".into();
    assert_eq!(plan_post_process(Some(&no_model), Some("fix"), &prompts, "t").err(), Some(PostProcessSkip::NoModel));
}

#[test]
fn structured_output_reads_the_transcription_field_else_the_raw_text() {
    assert_eq!(
        structured_output_text("{\"transcription\": \" <think>x</think>Hello \"}"),
        "Hello"
    );
    assert_eq!(structured_output_text("  plain answer "), "plain answer");
    assert_eq!(structured_output_text("{\"other\": 1}"), "{\"other\": 1}");
}

#[test]
fn chinese_variant_conversion_only_for_chinese_scripts() {
    assert_eq!(maybe_convert_chinese_variant("en", "漢語"), None);
    assert_eq!(maybe_convert_chinese_variant("zh-Hans", "漢語"), Some("汉语".to_string()));
    assert_eq!(maybe_convert_chinese_variant("zh-Hant", "汉语"), Some("漢語".to_string()));
}

#[test]
fn history_labels_name_the_engine() {
    assert_eq!(model_label("", "", "", None), None);
    assert_eq!(
        model_label("openrouter-transcription", " ", "", None),
        Some("openai/whisper-large-v3 — OpenRouter".to_string())
    );
}

#[test]
fn backups_archive_compressed_recordings_only() {
    assert!(includes_recordings("full"));
    assert!(!includes_recordings("config"));
    assert_eq!(backup_entry_name("handy-1.opus"), Some("recordings/handy-1.opus".to_string()));
    assert_eq!(backup_entry_name("clip.OGG"), Some("recordings/clip.OGG".to_string()));
    assert_eq!(backup_entry_name("handy-1-chunk-1-temp.opus"), None);
    assert_eq!(backup_entry_name("handy-1.wav"), None);
    assert_eq!(backup_entry_name("model.bin"), None);
}

fn parts(names: &[&str]) -> Vec<PathPart> {
    names.iter().map(|n| PathPart::Normal(n.to_string())).collect()
}

#[test]
fn restore_writes_only_whitelisted_entries() {
    assert!(matches!(classify_entry(&parts(&["settings_store.json"])), Some(RestoreTarget::Settings)));
    assert!(matches!(classify_entry(&parts(&["history.db"])), Some(RestoreTarget::History)));
    match classify_entry(&parts(&["recordings", "a.opus"])) {
        Some(RestoreTarget::Recording(n)) => assert_eq!(n, "a.opus"),
        _ => panic!("expected a recording"),
    }
    assert!(classify_entry(&parts(&["recordings", "a..opus"])).is_none());
    assert!(classify_entry(&parts(&["recordings", "a\\b.opus"])).is_none());
    assert!(classify_entry(&parts(&["recordings", "a.wav"])).is_none());
    assert!(classify_entry(&parts(&["recordings", "x", "a.opus"])).is_none());
    assert!(classify_entry(&parts(&["history.db", "x"])).is_none());
    assert!(classify_entry(&parts(&["models", "a.bin"])).is_none());
    assert!(classify_entry(&[PathPart::Special, PathPart::Normal("history.db".into())]).is_none());
    assert!(classify_entry(&[PathPart::Normal("recordings".into()), PathPart::NonUtf8]).is_none());
    assert!(classify_entry(&[]).is_none());
}

#[test]
fn restore_budget_and_report() {
    let mut p = RestoreProgress::new();
    assert!(p.accept_size("history.db", 10));
    assert!(!p.accept_size("big.opus", MAX_ENTRY_BYTES + 1));
    assert!(p.accept_size("recordings/a.opus", MAX_ENTRY_BYTES));
    assert!(p.accept_size("recordings/b.opus", MAX_ENTRY_BYTES));
    assert!(p.accept_size("recordings/c.opus", MAX_ENTRY_BYTES));
    assert!(!p.accept_size("recordings/d.opus", MAX_ENTRY_BYTES));
    assert_eq!(p.total_bytes, 10 + 3 * MAX_ENTRY_BYTES);
    assert!(p.total_bytes <= MAX_TOTAL_BYTES);
    assert!(!p.accept_size("x", u64::MAX));
    assert!(RestoreProgress::wanted(&RestoreTarget::History, true, false));
    assert!(!RestoreProgress::wanted(&RestoreTarget::Recording("a".into()), true, false));
    p.record(&RestoreTarget::History, Ok(()));
    p.record(&RestoreTarget::Recording("a.opus".into()), Ok(()));
    p.record(&RestoreTarget::Recording("b.opus".into()), Err("locked".into()));
    p.record(&RestoreTarget::Settings, Err("denied".into()));
    let r = p.finish();
    assert!(r.history_restored && !r.settings_restored && r.restart_required);
    assert_eq!(r.recordings_restored, 1);
    assert_eq!(
        r.errors,
        vec![
            "skipped big.opus: exceeds restore size limits".to_string(),
            "skipped recordings/d.opus: exceeds restore size limits".to_string(),
            "skipped x: exceeds restore size limits".to_string(),
            "recording b.opus: locked".to_string(),
            "settings: denied".to_string(),
        ]
    );
    let r = RestoreProgress::new().finish();
    assert!(!r.restart_required);
}

#[test]
fn csv_items_are_trimmed_and_empties_dropped() {
    assert_eq!(csv("a, b,,c "), vec!["a", "b", "c"]);
    assert_eq!(csv(""), Vec::<String>::new());
    assert_eq!(csv(" , ,"), Vec::<String>::new());
    assert_eq!(csv("gpt-4o"), vec!["gpt-4o"]);
}

#[test]
fn cli_helpers() {
    assert_eq!(image_mime("shot.PNG"), "image/png");
    assert_eq!(image_mime("a.b/photo.jpeg"), "image/jpeg");
    assert_eq!(image_mime("x.Jpg"), "image/jpeg");
    assert_eq!(image_mime("anim.gif"), "image/gif");
    assert_eq!(image_mime("p.webp"), "image/webp");
    assert_eq!(image_mime("noext"), "application/octet-stream");
    assert!(matches!(read_text(&Some("t".into()), &Some("f".into())), TextSource::Inline(t) if t == "t"));
    assert!(matches!(read_text(&None, &Some("f".into())), TextSource::File(f) if f == "f"));
    assert!(matches!(read_text(&None, &None), TextSource::Absent));
    assert_eq!(exit_code(&Ok(())), (0, None));
    assert_eq!(exit_code(&Err("boom".into())), (1, Some("error: boom".to_string())));
    assert_eq!(http_status_error(404, "nope"), "HTTP 404: nope");
    assert_eq!(ensure_server_start(true, Some(false)), ServerStep::Use);
    assert_eq!(ensure_server_start(false, Some(false)), ServerStep::Fail(true));
    assert_eq!(ensure_server_start(false, None), ServerStep::Launch);
    assert_eq!(ensure_server_poll(1, false), ServerStep::Poll);
    assert_eq!(ensure_server_poll(40, false), ServerStep::Fail(false));
    assert_eq!(ensure_server_poll(40, true), ServerStep::Use);
}

#[test]
fn tool_replies_and_the_stdio_bridge() {
    assert_eq!(tool_reply("{\"ok\":true,\"result\":{\"a\":1}}"), Ok("{\"a\":1}".to_string()));
    assert_eq!(tool_reply("{\"ok\":true}"), Ok("null".to_string()));
    assert_eq!(tool_reply("{\"ok\":false,\"error\":\"bad\"}"), Err("bad".to_string()));
    assert_eq!(tool_reply("{\"ok\":false}"), Err("unknown error".to_string()));
    assert_eq!(tool_reply("garbage"), Err("expected value at line 1 column 1".to_string()));
    assert!(!bridge_forwards("   "));
    assert!(bridge_forwards("{}"));
    assert_eq!(bridge_reply(""), None);
    assert_eq!(bridge_reply("{\"x\":1}"), Some("{\"x\":1}".to_string()));
    assert_eq!(
        bridge_error("{\"jsonrpc\":\"2.0\",\"id\":7,\"method\":\"m\"}", "down \"now\""),
        Some(
            "{\"error\":{\"code\":-32000,\"message\":\"down \\\"now\\\"\"},\"id\":7,\"jsonrpc\":\"2.0\"}"
                .to_string()
        )
    );
    assert_eq!(bridge_error("{\"jsonrpc\":\"2.0\",\"method\":\"n\"}", "x"), None);
    assert_eq!(bridge_error("not json", "x"), None);
}

#[test]
fn translator_folders_and_priority() {
    assert_eq!(change_translator_priority("fifo"), Ok(TranslatorPriority::Fifo));
    assert_eq!(change_translator_priority("live_first"), Ok(TranslatorPriority::LiveFirst));
    assert_eq!(
        change_translator_priority("random"),
        Err("Unknown translator priority: random".to_string())
    );
    assert_eq!(translator_folder_path("   "), Err("Folder path is empty".to_string()));
    assert_eq!(translator_folder_path("  C:\\In  "), Ok("C:\\In".to_string()));
    assert_eq!(not_a_folder("x"), "Not a folder: x");
    let mut folders: Vec<TranslatorFolder> = Vec::new();
    assert!(translator_add_folder(&mut folders, "C:\\In").is_ok());
    assert_eq!(
        translator_add_folder(&mut folders, "c:\\in"),
        Err("This folder is already being watched".to_string())
    );
    assert!(translator_add_folder(&mut folders, "D:\\Other").is_ok());
    assert_eq!(folders.len(), 2);
    assert!(folders[1].enabled);
    assert!(translator_set_folder_enabled(&mut folders, 1, false).is_ok());
    assert!(!folders[1].enabled);
    assert_eq!(
        translator_set_folder_enabled(&mut folders, 5, true),
        Err("No watched folder at index 5".to_string())
    );
    assert!(translator_remove_folder(&mut folders, 0).is_ok());
    assert_eq!(folders.len(), 1);
    assert_eq!(folders[0].path, "D:\\Other");
    assert_eq!(
        translator_remove_folder(&mut folders, 1),
        Err("No watched folder at index 1".to_string())
    );
}

#[test]
fn base64_matches_the_rfc_vectors_and_images_become_data_urls() {
    for (input, expected) in [
        ("", ""),
        ("f", "Zg=="),
        ("fo", "Zm8="),
        ("foo", "Zm9v"),
        ("foob", "Zm9vYg=="),
        ("fooba", "Zm9vYmE="),
        ("foobar", "Zm9vYmFy"),
    ] {
        assert_eq!(base64_encode(input.as_bytes()), expected);
    }
    assert_eq!(base64_encode(&[0xfb, 0xff]), "+/8=");
    assert_eq!(image_data_url("x.png", b"foo"), "data:image/png;base64,Zm9v");
}

#[test]
fn take_text_prefers_post_processing_and_records_its_prompt() {
    let prompts = vec![
        PostProcessPrompt { id: "a".into(), prompt: "first".into() },
        PostProcessPrompt { id: "b".into(), prompt: "second".into() },
    ];
    let t = take_text("raw", Some("conv".into()), Some("done".into()), Some("b"), &prompts);
    assert_eq!(t.final_text, "done");
    assert_eq!(t.post_processed_text.as_deref(), Some("done"));
    assert_eq!(t.post_process_prompt.as_deref(), Some("second"));
    let t = take_text("raw", None, Some("done".into()), Some("missing"), &prompts);
    assert_eq!(t.post_process_prompt, None);
}

#[test]
fn take_text_records_a_conversion_only_when_it_changed_the_text() {
    let prompts: Vec<PostProcessPrompt> = Vec::new();
    let t = take_text("漢字", Some("汉字".into()), None, None, &prompts);
    assert_eq!(t.final_text, "汉字");
    assert_eq!(t.post_processed_text.as_deref(), Some("汉字"));
    assert_eq!(t.post_process_prompt, None);
    let t = take_text("same", Some("same".into()), None, None, &prompts);
    assert_eq!(t.final_text, "same");
    assert_eq!(t.post_processed_text, None);
    let t = take_text("plain", None, None, None, &prompts);
    assert_eq!(t.final_text, "plain");
    assert_eq!(t.post_processed_text, None);
}

#[test]
fn chunked_take_end_cases() {
    assert_eq!(chunked_take_end(false, "text", true, 99_999, "text"), None);
    assert_eq!(
        chunked_take_end(true, "", true, 10, ""),
        Some(TakeEnd { report_failure: true, save_history: false, deliver: false })
    );
    assert_eq!(
        chunked_take_end(true, "", false, MIN_SAMPLES_TO_SAVE, ""),
        Some(TakeEnd { report_failure: false, save_history: true, deliver: false })
    );
    assert_eq!(
        chunked_take_end(true, "hi", true, 5, "Hi."),
        Some(TakeEnd { report_failure: false, save_history: true, deliver: true })
    );
}

#[test]
fn final_transcription_falls_back_to_live_text_only_in_live_mode() {
    let failed: Result<String, String> = Err("engine busy".into());
    assert_eq!(final_transcription(Ok("full".into()), true, Some("live".into())), Ok("full".to_string()));
    assert_eq!(final_transcription(failed.clone(), true, Some("live".into())), Ok("live".to_string()));
    assert_eq!(final_transcription(failed.clone(), false, Some("live".into())), failed);
    assert_eq!(final_transcription(failed.clone(), true, Some(String::new())), failed);
    assert_eq!(final_transcription(failed.clone(), true, None), failed);
}

#[test]
fn single_shot_take_end_cases() {
    assert_eq!(
        single_shot_take_end(&Ok("hello".into()), 3),
        TakeEnd { report_failure: false, save_history: true, deliver: true }
    );
    assert_eq!(
        single_shot_take_end(&Ok(String::new()), 15_999),
        TakeEnd { report_failure: false, save_history: false, deliver: false }
    );
    assert_eq!(
        single_shot_take_end(&Ok(String::new()), 16_000),
        TakeEnd { report_failure: false, save_history: true, deliver: false }
    );
    assert_eq!(
        single_shot_take_end(&Err("oom".into()), 20_000),
        TakeEnd { report_failure: true, save_history: true, deliver: false }
    );
}

#[test]
fn chunk_transcripts_insertion_order_does_not_matter() {
    let mut a = ChunkTranscripts::new();
    a.insert(4, Some("e".to_string()));
    a.insert(1, Some("b".to_string()));
    a.insert(1, Some("B".to_string()));
    a.insert(0, Some("a".to_string()));
    let mut b = ChunkTranscripts::new();
    b.insert(0, Some("a".to_string()));
    b.insert(1, Some("B".to_string()));
    b.insert(4, Some("e".to_string()));
    assert_eq!(a.assemble(), "a B e");
    assert_eq!(a.assemble(), b.assemble());
}

#[test]
fn bridge_error_quotes_the_message_as_serde_json_does() {
    for msg in ["plain", "q\"uote", "back\\slash", "tab\there", "nl\nx", "ctl\u{1}\u{1f}\u{8}\u{c}\r", "é ü 漢"] {
        let line = bridge_error("{\"id\":\"a\"}", msg).unwrap();
        let expected = format!(
            "{{\"error\":{{\"code\":-32000,\"message\":{}}},\"id\":\"a\",\"jsonrpc\":\"2.0\"}}",
            serde_json::to_string(msg).unwrap()
        );
        assert_eq!(line, expected);
    }
}

#[test]
fn post_processing_falls_back_to_the_legacy_request_only_on_failure() {
    match after_structured_reply(ChatReply::Content("{\"transcription\":\"<think>x</think> Hi \"}".into())) {
        PostProcessStep::Done(Some(t)) => assert_eq!(t, "Hi"),
        _ => panic!("expected a result"),
    }
    assert!(matches!(after_structured_reply(ChatReply::NoContent), PostProcessStep::Done(None)));
    assert!(matches!(after_structured_reply(ChatReply::Failed), PostProcessStep::SendLegacy));
    assert_eq!(after_legacy_reply(ChatReply::Content(" <think>a</think>ok ".into())), Some("ok".to_string()));
    assert_eq!(after_legacy_reply(ChatReply::NoContent), None);
    assert_eq!(after_legacy_reply(ChatReply::Failed), None);
}

#[test]
fn level_updates_are_throttled_only_while_idle() {
    assert!(should_emit_level(true, Some(0)));
    assert!(should_emit_level(false, None));
    assert!(!should_emit_level(false, Some(LEVEL_IDLE_INTERVAL_MS - 1)));
    assert!(should_emit_level(false, Some(60)));
}

#[test]
fn restore_admits_only_whitelisted_wanted_entries_within_the_caps() {
    let mut p = RestoreProgress::new();
    assert!(!p.admit_entry(&None, "x", 1, true, true));
    assert!(!p.admit_entry(&Some(RestoreTarget::Settings), "settings_store.json", 10, false, true));
    assert_eq!(p.total_bytes, 10);
    assert!(p.admit_entry(&Some(RestoreTarget::Recording("a.opus".into())), "recordings/a.opus", 5, false, true));
    assert!(!p.admit_entry(&Some(RestoreTarget::History), "history.db", MAX_ENTRY_BYTES + 1, true, true));
    assert_eq!(p.report.errors, vec!["skipped history.db: exceeds restore size limits".to_string()]);
    p.record(&RestoreTarget::Recording("a.opus".into()), Ok(()));
    let r = p.finish();
    assert_eq!(r.recordings_restored, 1);
    assert!(!r.settings_restored && !r.restart_required);
}
