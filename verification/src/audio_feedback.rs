//! Which start/stop sound to play and where its file lives.
use crate::settings::SoundTheme;
use vstd::prelude::*;

verus! {

/// The feedback sounds.
#[derive(Clone, Copy, Debug, PartialEq, Eq, Structural)]
pub enum SoundType {
    Start,
    Stop,
}

/// Custom sounds are the user's own files in the app-data directory; the
/// bundled themes are resources.
pub fn is_custom_sound(theme: SoundTheme) -> (r: bool)
    ensures
        r == (theme == SoundTheme::Custom),
{
    match theme {
        SoundTheme::Custom => true,
        _ => false,
    }
}

/// The file name of a sound: `custom_start.wav`/`custom_stop.wav` (joined
/// straight onto the app-data directory) for the custom theme, the theme's
/// resource path otherwise.
pub open spec fn sound_path_spec(theme: SoundTheme, sound_type: SoundType) -> Seq<char> {
    match (theme, sound_type) {
        (SoundTheme::Custom, SoundType::Start) => "custom_start.wav"@,
        (SoundTheme::Custom, SoundType::Stop) => "custom_stop.wav"@,
        (SoundTheme::Marimba, SoundType::Start) => "resources/marimba_start.wav"@,
        (SoundTheme::Marimba, SoundType::Stop) => "resources/marimba_stop.wav"@,
        (SoundTheme::Pop, SoundType::Start) => "resources/pop_start.wav"@,
        (SoundTheme::Pop, SoundType::Stop) => "resources/pop_stop.wav"@,
    }
}

pub fn get_sound_path(theme: SoundTheme, sound_type: SoundType) -> (r: String)
    ensures
        r@ == sound_path_spec(theme, sound_type),
{
    match (theme, sound_type) {
        (SoundTheme::Custom, SoundType::Start) => "custom_start.wav".to_owned(),
        (SoundTheme::Custom, SoundType::Stop) => "custom_stop.wav".to_owned(),
        (_, SoundType::Start) => theme.to_start_path(),
        (_, SoundType::Stop) => theme.to_stop_path(),
    }
}

/// Where a sound file is looked up.
#[derive(Clone, Debug)]
pub enum SoundLocation {
    /// Relative to the (portable-aware) app-data directory.
    AppData(String),
    /// A bundled resource.
    Resource(String),
}

pub open spec fn location_spec(theme: SoundTheme, sound_type: SoundType) -> (bool, Seq<char>) {
    (theme == SoundTheme::Custom, sound_path_spec(theme, sound_type))
}

pub open spec fn location_view(l: SoundLocation) -> (bool, Seq<char>) {
    match l {
        SoundLocation::AppData(p) => (true, p@),
        SoundLocation::Resource(p) => (false, p@),
    }
}

/// Where the sound of `theme` for `sound_type` is looked up.
pub fn resolve_sound_path(theme: SoundTheme, sound_type: SoundType) -> (r: SoundLocation)
    ensures
        location_view(r) == location_spec(theme, sound_type),
{
    let file = get_sound_path(theme, sound_type);
    if is_custom_sound(theme) {
        SoundLocation::AppData(file)
    } else {
        SoundLocation::Resource(file)
    }
}

/// The sound a start/stop event plays: none while audio feedback is off.
pub fn play_feedback_sound(audio_feedback: bool, theme: SoundTheme, sound_type: SoundType) -> (r: Option<SoundLocation>)
    ensures
        r is None <==> !audio_feedback,
        r matches Some(l) ==> location_view(l) == location_spec(theme, sound_type),
{
    if !audio_feedback {
        return None;
    }
    Some(resolve_sound_path(theme, sound_type))
}

} // verus!
