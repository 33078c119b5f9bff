use handy::device::{resolve_system_audio_device, CaptureSourceError, PlaybackEndpoint};
use handy::mixer::{
    drift_correction, DriftCorrection, DriftStats, Downmix, FoldSource, CORRECTION_BATCH,
    HARD_CORRECTION_DEBT, RING_HIGH_WATER, RING_TARGET,
};
use handy::recording::{
    downmix_for, finish_plan, get_preferred_config_for, should_emit_live, temp_path_for,
    ChunkCounters, ConfigRange, EndpointRole, FinishPlan, SampleFormatKind, StartParams,
    FILE_HARD_SAMPLES, FILE_SOFT_SAMPLES, SEG_HARD_SAMPLES, SEG_SOFT_SAMPLES,
};
use handy::vad::{SmoothedFrame, VadSmoother};

fn ep(name: &str, is_default: bool) -> PlaybackEndpoint {
    PlaybackEndpoint { name: name.to_string(), is_default }
}

#[test]
fn system_audio_source_resolution_is_strict() {
    let devs = vec![ep("Speakers", false), ep("Headset", true), ep("Speakers", false)];
    assert_eq!(resolve_system_audio_device(None, &devs).ok(), Some(1));
    assert_eq!(resolve_system_audio_device(Some("Headset"), &devs).ok(), Some(1));
    match resolve_system_audio_device(Some("Speakers"), &devs) {
        Err(CaptureSourceError::Ambiguous { requested, matches }) => {
            assert_eq!(requested, "Speakers");
            assert_eq!(matches, 2);
        }
        other => panic!("unexpected {other:?}"),
    }
    match resolve_system_audio_device(Some("TV"), &devs) {
        Err(CaptureSourceError::NotFound { requested }) => assert_eq!(requested, "TV"),
        other => panic!("unexpected {other:?}"),
    }
    assert!(matches!(
        resolve_system_audio_device(None, &[ep("A", false)]),
        Err(CaptureSourceError::NoDefaultPlayback)
    ));
}

#[test]
fn capture_source_errors_name_the_device() {
    assert_eq!(
        CaptureSourceError::NotFound { requested: "TV".into() }.message(),
        "Playback device 'TV' was not found. Pick another system-audio source in Settings."
    );
    assert_eq!(
        CaptureSourceError::Ambiguous { requested: "Speakers".into(), matches: 12 }.message(),
        "12 playback devices are named 'Speakers'. Rename one in Windows Sound settings so Handy can tell them apart."
    );
    assert_eq!(
        CaptureSourceError::NoDefaultPlayback.message(),
        "No playback device is available to capture."
    );
    assert_eq!(
        CaptureSourceError::Enumeration("boom".into()).message(),
        "Could not list playback devices: boom"
    );
}

#[test]
fn front_pair_downmix_folds_two_channels_and_mono_passes_through() {
    assert_eq!(Downmix::FrontPair.fold_source(6), FoldSource::MeanOf(2));
    assert_eq!(Downmix::Mean.fold_source(6), FoldSource::MeanOf(6));
    assert_eq!(Downmix::FrontPair.fold_source(1), FoldSource::First);
    assert_eq!(Downmix::Mean.fold_source(0), FoldSource::First);
    assert_eq!(downmix_for(EndpointRole::RenderLoopback), Downmix::FrontPair);
    assert_eq!(downmix_for(EndpointRole::Capture), Downmix::Mean);
}

#[test]
fn drift_is_corrected_toward_the_target_only_when_quiet_or_severe() {
    assert_eq!(drift_correction(0, true), DriftCorrection::Hold, "an idle endpoint is not drift");
    assert_eq!(drift_correction(100, true), DriftCorrection::InsertSilence);
    assert_eq!(drift_correction(100, false), DriftCorrection::Hold);
    assert_eq!(drift_correction(RING_TARGET, true), DriftCorrection::Hold);
    assert_eq!(drift_correction(RING_TARGET + CORRECTION_BATCH * 3, true), DriftCorrection::DropOldest);
    assert_eq!(drift_correction(RING_TARGET + CORRECTION_BATCH * 2, false), DriftCorrection::Hold);
    assert_eq!(
        drift_correction(RING_TARGET + HARD_CORRECTION_DEBT + 10, false),
        DriftCorrection::DropOldest
    );
}

#[test]
fn drift_counters_count_overflow_underruns_and_corrections() {
    let mut s = DriftStats::new();
    assert_eq!(s.record_push(RING_HIGH_WATER + 500), 500);
    assert_eq!(s.overflowed, 500);
    assert_eq!(s.record_pull(0, 480), 480);
    assert_eq!(s.record_pull(1000, 480), 0);
    assert_eq!(s.underruns, 480);
    s.record_correction(DriftCorrection::DropOldest);
    s.record_correction(DriftCorrection::Hold);
    assert_eq!(s.dropped, CORRECTION_BATCH);
    assert_eq!(s.inserted, 0);
}

#[test]
fn chunk_and_segment_cuts_follow_soft_and_hard_limits() {
    let mut c = ChunkCounters::start();
    assert_eq!(c.file_index, 1);
    c.push_speech(SEG_SOFT_SAMPLES);
    let cuts = c.end_frame(false);
    assert!(!cuts.close_file && cuts.segment.is_none());
    let cuts = c.end_frame(true);
    assert_eq!(cuts.segment, Some(0));
    assert_eq!(c.seg_index, 1);
    assert_eq!(c.seg_samples, 0);
    c.push_speech(SEG_HARD_SAMPLES);
    assert_eq!(c.end_frame(false).segment, Some(1));
    c.push_speech(FILE_SOFT_SAMPLES);
    let cuts = c.end_frame(true);
    assert!(cuts.close_file);
    assert_eq!(c.file_index, 2);
    c.push_speech(FILE_HARD_SAMPLES);
    assert!(c.end_frame(false).close_file);
    c.push_speech(10);
    assert_eq!(c.finish(), (Some(4), true));
    assert_eq!(finish_plan(0), FinishPlan::Nothing);
    assert_eq!(finish_plan(1), FinishPlan::RenameSingle);
    assert_eq!(finish_plan(3), FinishPlan::Glue);
    assert!(should_emit_live(true, 0, 10));
    assert!(!should_emit_live(true, 10, 10));
    assert!(!should_emit_live(false, 0, 47_999));
    assert!(should_emit_live(false, 0, 48_000));
}

#[test]
fn chunk_file_names() {
    let p = StartParams { dir: "/data/recordings".into(), ts: 1700000000 };
    assert_eq!(p.chunk_file_name(3), "handy-1700000000-chunk-3.opus");
    assert_eq!(p.full_file_name(), "handy-1700000000.opus");
    assert_eq!(temp_path_for(Some("handy-1-chunk-2.opus")), "handy-1-chunk-2-temp.opus");
    assert_eq!(temp_path_for(Some("archive.tar.gz")), "archive.tar-temp.gz");
    assert_eq!(temp_path_for(Some(".hidden")), ".hidden-temp.opus");
    assert_eq!(temp_path_for(Some("noext")), "noext-temp.opus");
    assert_eq!(temp_path_for(Some("trail.")), "trail-temp.");
    assert_eq!(temp_path_for(None), "handy-chunk-temp.opus");
}

#[test]
fn capture_config_prefers_16k_ranges_with_the_best_format() {
    let c = |min, max, format| ConfigRange { min_rate: min, max_rate: max, format };
    let configs = vec![
        c(44100, 48000, SampleFormatKind::F32),
        c(8000, 48000, SampleFormatKind::I32),
        c(16000, 16000, SampleFormatKind::I16),
        c(8000, 96000, SampleFormatKind::I16),
    ];
    assert_eq!(get_preferred_config_for(EndpointRole::Capture, &configs), Some(2));
    assert_eq!(get_preferred_config_for(EndpointRole::RenderLoopback, &configs), None);
    assert_eq!(get_preferred_config_for(EndpointRole::Capture, &configs[..1]), None);
}

#[test]
fn flush_releases_unconfirmed_onset_frames() {
    let mut vad = VadSmoother::new(2, 2, 2);
    assert_eq!(vad.push_frame(true), SmoothedFrame::Noise);
    assert_eq!(vad.flush(), 1);
    assert_eq!(vad.flush(), 0);
}

#[test]
fn flush_is_none_without_pending_onset() {
    let mut vad = VadSmoother::new(2, 2, 2);
    assert_eq!(vad.push_frame(false), SmoothedFrame::Noise);
    assert_eq!(vad.flush(), 0);
    assert_eq!(vad.push_frame(true), SmoothedFrame::Noise);
    assert_eq!(vad.push_frame(true), SmoothedFrame::Onset);
    assert_eq!(vad.push_frame(true), SmoothedFrame::Speech);
    assert_eq!(vad.flush(), 0);
}

#[test]
fn speech_outlasts_short_gaps_and_flags_its_end() {
    let mut vad = VadSmoother::new(2, 2, 2);
    assert_eq!(vad.buffered_frames(), 3);
    vad.push_frame(true);
    vad.push_frame(true);
    assert_eq!(vad.push_frame(false), SmoothedFrame::Speech);
    assert_eq!(vad.push_frame(false), SmoothedFrame::Speech);
    assert!(!vad.speech_ended());
    assert_eq!(vad.push_frame(false), SmoothedFrame::Noise);
    assert!(vad.speech_ended());
    assert_eq!(vad.push_frame(false), SmoothedFrame::Noise);
    assert!(!vad.speech_ended());
    vad.reset();
    assert!(!vad.in_speech);
}
