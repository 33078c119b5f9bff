use handy::audio_feedback::{
    get_sound_path, is_custom_sound, play_feedback_sound, resolve_sound_path, SoundLocation,
    SoundType,
};
use handy::models::{
    delete_unloads_active, has_any_models_available, has_any_models_or_downloads,
    is_model_usable, set_active_model, Activation, EngineSettings, EngineType, ModelFacts,
};
use handy::settings::SoundTheme;

#[test]
fn custom_theme_is_flagged_custom_sound() {
    assert!(is_custom_sound(SoundTheme::Custom));
}

#[test]
fn builtin_themes_are_not_custom_sound() {
    assert!(!is_custom_sound(SoundTheme::Marimba));
    assert!(!is_custom_sound(SoundTheme::Pop));
}

#[test]
fn custom_sound_file_names_have_no_resource_prefix() {
    assert_eq!(get_sound_path(SoundTheme::Custom, SoundType::Start), "custom_start.wav");
    assert_eq!(get_sound_path(SoundTheme::Custom, SoundType::Stop), "custom_stop.wav");
}

#[test]
fn builtin_theme_sound_paths_keep_resources_prefix() {
    assert_eq!(
        get_sound_path(SoundTheme::Marimba, SoundType::Start),
        "resources/marimba_start.wav"
    );
    assert_eq!(
        get_sound_path(SoundTheme::Marimba, SoundType::Stop),
        "resources/marimba_stop.wav"
    );
}

#[test]
fn custom_sounds_resolve_in_app_data_and_themes_as_resources() {
    match resolve_sound_path(SoundTheme::Custom, SoundType::Stop) {
        SoundLocation::AppData(p) => assert_eq!(p, "custom_stop.wav"),
        other => panic!("unexpected {other:?}"),
    }
    match resolve_sound_path(SoundTheme::Pop, SoundType::Start) {
        SoundLocation::Resource(p) => assert_eq!(p, "resources/pop_start.wav"),
        other => panic!("unexpected {other:?}"),
    }
    assert!(play_feedback_sound(false, SoundTheme::Pop, SoundType::Start).is_none());
    assert!(play_feedback_sound(true, SoundTheme::Pop, SoundType::Start).is_some());
}

fn default_settings() -> EngineSettings {
    EngineSettings {
        api_transcription_url: String::new(),
        openrouter_transcription_url: "https://openrouter.ai/api/v1".to_string(),
        openrouter_transcription_key: String::new(),
    }
}

fn model(engine_type: EngineType, is_downloaded: bool) -> ModelFacts {
    ModelFacts { engine_type, is_downloaded, is_downloading: false }
}

#[test]
fn local_engine_usable_only_when_downloaded() {
    let settings = default_settings();
    assert!(!is_model_usable(&model(EngineType::Whisper, false), &settings));
    assert!(is_model_usable(&model(EngineType::Whisper, true), &settings));
}

#[test]
fn api_engine_requires_url_regardless_of_registry_is_downloaded() {
    let mut settings = default_settings();
    let m = model(EngineType::ApiWhisper, true);

    settings.api_transcription_url = String::new();
    assert!(!is_model_usable(&m, &settings), "unconfigured API engine must not count as usable");

    settings.api_transcription_url = "   ".to_string();
    assert!(!is_model_usable(&m, &settings), "whitespace-only URL must not count as usable");

    settings.api_transcription_url = "http://localhost:8080".to_string();
    assert!(is_model_usable(&m, &settings));
}

#[test]
fn openrouter_engine_requires_url_and_api_key() {
    let mut settings = default_settings();
    let m = model(EngineType::OpenRouterWhisper, true);

    settings.openrouter_transcription_key = String::new();
    assert!(!is_model_usable(&m, &settings));

    settings.openrouter_transcription_url = "https://openrouter.ai/api/v1".to_string();
    settings.openrouter_transcription_key = "sk-test".to_string();
    assert!(is_model_usable(&m, &settings));

    settings.openrouter_transcription_url = "   ".to_string();
    assert!(!is_model_usable(&m, &settings));
}

#[test]
fn flm_engine_trusts_registry_is_downloaded() {
    let settings = default_settings();
    assert!(is_model_usable(&model(EngineType::FlmWhisper, true), &settings));
}

#[test]
fn any_usable_model_or_download_counts() {
    let settings = default_settings();
    let mut downloading = model(EngineType::Parakeet, false);
    downloading.is_downloading = true;
    assert!(!has_any_models_available(&[model(EngineType::Whisper, false)], &settings));
    assert!(has_any_models_available(
        &[model(EngineType::Whisper, false), model(EngineType::Moonshine, true)],
        &settings
    ));
    assert!(!has_any_models_available(&[downloading], &settings));
    assert!(has_any_models_or_downloads(&[downloading], &settings));
    assert!(!has_any_models_or_downloads(&[], &settings));
}

#[test]
fn selecting_a_model_loads_persists_or_is_a_no_op() {
    let local = model(EngineType::Whisper, true);
    assert_eq!(
        set_active_model(None, "x", "", None),
        Err("Model not found: x".to_string())
    );
    assert_eq!(
        set_active_model(Some(model(EngineType::Whisper, false)), "small", "", None),
        Err("Model not downloaded: small".to_string())
    );
    assert_eq!(
        set_active_model(Some(local), "small", "small", Some("small")),
        Ok(Activation::AlreadyActive)
    );
    assert_eq!(
        set_active_model(Some(local), "small", "small", None),
        Ok(Activation::LoadThenPersist)
    );
    assert_eq!(
        set_active_model(Some(model(EngineType::FlmWhisper, true)), "flm", "flm", Some("flm")),
        Ok(Activation::PersistThenWarm)
    );
    assert!(delete_unloads_active("small", "small"));
    assert!(!delete_unloads_active("small", "base"));
}
