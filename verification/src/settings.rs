//! The user-facing choices the verified logic branches on.
use vstd::prelude::*;

verus! {

/// How transcribed text reaches the focused application.
#[derive(Clone, Copy, Debug, PartialEq, Eq, Structural)]
pub enum PasteMethod {
    /// Do not paste at all.
    Disabled,
    CtrlV,
    /// Type the text as keystrokes (never touches the clipboard).
    Direct,
    CtrlShiftV,
    ShiftInsert,
    /// Hand the text to a user-configured script.
    ExternalScript,
}

/// What happens to the clipboard around a paste.
#[derive(Clone, Copy, Debug, PartialEq, Eq, Structural)]
pub enum ClipboardHandling {
    /// Restore the user's clipboard after the paste.
    DontModify,
    /// Leave the transcript on the clipboard.
    CopyToClipboard,
}

/// The key pressed to submit after a paste.
#[derive(Clone, Copy, Debug, PartialEq, Eq, Structural)]
pub enum AutoSubmitKey {
    Enter,
    CtrlEnter,
    CmdEnter,
}

/// Which Linux typing tool to use for direct typing.
#[derive(Clone, Copy, Debug, PartialEq, Eq, Structural)]
pub enum TypingTool {
    Auto,
    Wtype,
    Kwtype,
    Dotool,
    Ydotool,
    Xdotool,
}

/// The sounds played when recording starts and stops: a bundled theme, or
/// the user's own files.
#[derive(Clone, Copy, Debug, PartialEq, Eq, Structural)]
pub enum SoundTheme {
    Marimba,
    Pop,
    Custom,
}

impl SoundTheme {
    /// The bundled resource played when recording starts.
    pub fn to_start_path(self) -> (r: String)
        ensures
            r@ == match self {
                SoundTheme::Marimba => "resources/marimba_start.wav"@,
                SoundTheme::Pop => "resources/pop_start.wav"@,
                SoundTheme::Custom => "resources/custom_start.wav"@,
            },
    {
        match self {
            SoundTheme::Marimba => "resources/marimba_start.wav".to_owned(),
            SoundTheme::Pop => "resources/pop_start.wav".to_owned(),
            SoundTheme::Custom => "resources/custom_start.wav".to_owned(),
        }
    }

    /// The bundled resource played when recording stops.
    pub fn to_stop_path(self) -> (r: String)
        ensures
            r@ == match self {
                SoundTheme::Marimba => "resources/marimba_stop.wav"@,
                SoundTheme::Pop => "resources/pop_stop.wav"@,
                SoundTheme::Custom => "resources/custom_stop.wav"@,
            },
    {
        match self {
            SoundTheme::Marimba => "resources/marimba_stop.wav".to_owned(),
            SoundTheme::Pop => "resources/pop_stop.wav".to_owned(),
            SoundTheme::Custom => "resources/custom_stop.wav".to_owned(),
        }
    }
}

} // verus!
