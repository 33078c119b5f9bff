//! Resolving the configured system-audio (loopback) capture source among
//! the playback endpoints, strictly: a missing or ambiguous name is an
//! error, never a silent fallback.
use crate::text::{decimal, push_decimal, str_eq};
use vstd::prelude::*;

verus! {

/// How a system-audio capture source failed to resolve. Every variant
/// names the device asked for.
#[derive(Debug, Clone)]
pub enum CaptureSourceError {
    /// The configured endpoint is not among the active render endpoints.
    NotFound { requested: String },
    /// Two or more active endpoints share that friendly name.
    Ambiguous { requested: String, matches: usize },
    /// No default playback endpoint at all.
    NoDefaultPlayback,
    /// The endpoints could not be listed.
    Enumeration(String),
}

/// The user-facing text of a [`CaptureSourceError`].
pub open spec fn capture_error_text(e: CaptureSourceError) -> Seq<char> {
    match e {
        CaptureSourceError::NotFound { requested } => "Playback device '"@ + requested@
            + "' was not found. Pick another system-audio source in Settings."@,
        CaptureSourceError::Ambiguous { requested, matches } => decimal(matches as nat)
            + " playback devices are named '"@ + requested@
            + "'. Rename one in Windows Sound settings so Handy can tell them apart."@,
        CaptureSourceError::NoDefaultPlayback => "No playback device is available to capture."@,
        CaptureSourceError::Enumeration(e) => "Could not list playback devices: "@ + e@,
    }
}

impl CaptureSourceError {
    /// The user-facing text of the error.
    pub fn message(&self) -> (r: String)
        ensures
            r@ == capture_error_text(*self),
    {
        let mut s = String::new();
        match self {
            CaptureSourceError::NotFound { requested } => {
                s.append("Playback device '");
                s.append(requested.as_str());
                s.append("' was not found. Pick another system-audio source in Settings.");
            },
            CaptureSourceError::Ambiguous { requested, matches } => {
                push_decimal(&mut s, *matches as u64);
                s.append(" playback devices are named '");
                s.append(requested.as_str());
                s.append("'. Rename one in Windows Sound settings so Handy can tell them apart.");
            },
            CaptureSourceError::NoDefaultPlayback => {
                s.append("No playback device is available to capture.");
            },
            CaptureSourceError::Enumeration(e) => {
                s.append("Could not list playback devices: ");
                s.append(e.as_str());
            },
        }
        s
    }
}

/// A playback endpoint as listed: its friendly name and whether it is the
/// default.
pub struct PlaybackEndpoint {
    pub name: String,
    pub is_default: bool,
}

/// How many of `devs` carry the name `want`.
pub open spec fn count_named(devs: Seq<PlaybackEndpoint>, want: Seq<char>) -> nat
    decreases devs.len(),
{
    if devs.len() == 0 {
        0
    } else {
        count_named(devs.drop_last(), want) + if devs.last().name@ == want {
            1nat
        } else {
            0nat
        }
    }
}

/// Whether some endpoint of `devs` is the default.
pub open spec fn has_default(devs: Seq<PlaybackEndpoint>) -> bool {
    exists|i: int| 0 <= i < devs.len() && (#[trigger] devs[i]).is_default
}

/// Resolve the configured source among the listed endpoints to an index
/// into `devices`. `None` follows the current default playback endpoint
/// (the first one flagged default). A name must match exactly one
/// endpoint: none is `NotFound`, several are `Ambiguous` with their count.
pub fn resolve_system_audio_device(name: Option<&str>, devices: &[PlaybackEndpoint]) -> (r: Result<usize, CaptureSourceError>)
    ensures
        match name {
            None => match r {
                Ok(i) => i < devices@.len() && devices@[i as int].is_default && forall|j: int|
                    0 <= j < i ==> !(#[trigger] devices@[j]).is_default,
                Err(e) => e == CaptureSourceError::NoDefaultPlayback && !has_default(devices@),
            },
            Some(want) => {
                let n = count_named(devices@, want@);
                match r {
                    Ok(i) => n == 1 && i < devices@.len() && devices@[i as int].name@ == want@,
                    Err(CaptureSourceError::NotFound { requested }) => n == 0 && requested@
                        == want@,
                    Err(CaptureSourceError::Ambiguous { requested, matches }) => n >= 2
                        && matches == n && requested@ == want@,
                    Err(_) => false,
                }
            },
        },
{
    match name {
        None => {
            let mut i: usize = 0;
            while i < devices.len()
                invariant
                    name is None,
                    i <= devices@.len(),
                    forall|j: int| 0 <= j < i ==> !(#[trigger] devices@[j]).is_default,
                decreases devices@.len() - i,
            {
                if devices[i].is_default {
                    return Ok(i);
                }
                i = i + 1;
            }
            Err(CaptureSourceError::NoDefaultPlayback)
        },
        Some(want) => {
            let mut count: usize = 0;
            let mut found: usize = 0;
            let mut i: usize = 0;
            while i < devices.len()
                invariant
                    i <= devices@.len(),
                    count == count_named(devices@.subrange(0, i as int), want@),
                    count <= i,
                    count > 0 ==> found < devices@.len() && devices@[found as int].name@ == want@,
                decreases devices@.len() - i,
            {
                proof {
                    assert(devices@.subrange(0, i as int + 1).drop_last() =~= devices@.subrange(
                        0,
                        i as int,
                    ));
                }
                if str_eq(devices[i].name.as_str(), want) {
                    count = count + 1;
                    found = i;
                }
                i = i + 1;
            }
            proof {
                assert(devices@.subrange(0, devices@.len() as int) =~= devices@);
            }
            if count == 0 {
                Err(CaptureSourceError::NotFound { requested: want.to_owned() })
            } else if count == 1 {
                Ok(found)
            } else {
                Err(CaptureSourceError::Ambiguous { requested: want.to_owned(), matches: count })
            }
        },
    }
}

} // verus!
