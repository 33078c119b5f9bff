//! The bookkeeping of a chunked recording: file and segment names, when
//! the stored Opus file and the transcription segment are cut, what a stop
//! does with the finished chunks, and the capture-format choice.
use crate::mixer::Downmix;
use crate::text::{chars_of, decimal, push_chars, push_decimal};
use vstd::prelude::*;

verus! {

/// Parameters that enable chunked Opus output for a take: the directory
/// and the take's timestamp.
#[derive(Clone, Debug)]
pub struct StartParams {
    pub dir: String,
    pub ts: u64,
}

impl StartParams {
    /// The file name of stored chunk `index` (1-based):
    /// `handy-{ts}-chunk-{index}.opus`.
    pub fn chunk_file_name(&self, index: u64) -> (r: String)
        ensures
            r@ == "handy-"@ + decimal(self.ts as nat) + "-chunk-"@ + decimal(index as nat)
                + ".opus"@,
    {
        let mut s = String::new();
        s.append("handy-");
        push_decimal(&mut s, self.ts);
        s.append("-chunk-");
        push_decimal(&mut s, index);
        s.append(".opus");
        s
    }

    /// The file name of the whole recording: `handy-{ts}.opus`.
    pub fn full_file_name(&self) -> (r: String)
        ensures
            r@ == "handy-"@ + decimal(self.ts as nat) + ".opus"@,
    {
        let mut s = String::new();
        s.append("handy-");
        push_decimal(&mut s, self.ts);
        s.append(".opus");
        s
    }
}

/// The last index of `c` in `s`, if any.
pub open spec fn last_index_of(s: Seq<char>, c: char) -> Option<int>
    decreases s.len(),
{
    if s.len() == 0 {
        None
    } else if s.last() == c {
        Some(s.len() - 1)
    } else {
        last_index_of(s.drop_last(), c)
    }
}

/// A file name split into stem and extension the way paths split them: at
/// the last dot, unless that dot is the first character (a dot file) or
/// the name is `..`, in which case there is no extension.
pub open spec fn split_extension(name: Seq<char>) -> (Seq<char>, Option<Seq<char>>) {
    if name == ".."@ {
        (name, None)
    } else {
        match last_index_of(name, '.') {
            Some(i) => if i == 0 {
                (name, None)
            } else {
                (name.subrange(0, i), Some(name.subrange(i + 1, name.len() as int)))
            },
            None => (name, None),
        }
    }
}

/// The in-progress name of a chunk file: `{stem}-temp.{ext}`, with
/// `handy-chunk` and `opus` standing in for a missing stem or extension.
pub open spec fn temp_name_spec(file_name: Option<Seq<char>>) -> Seq<char> {
    match file_name {
        None => "handy-chunk-temp.opus"@,
        Some(n) => {
            let (stem, ext) = split_extension(n);
            stem + "-temp."@ + match ext {
                Some(e) => e,
                None => "opus"@,
            }
        },
    }
}

proof fn lemma_last_index_in_bounds(s: Seq<char>, c: char)
    ensures
        last_index_of(s, c) matches Some(i) ==> 0 <= i < s.len() && s[i] == c,
    decreases s.len(),
{
    if s.len() > 0 && s.last() != c {
        lemma_last_index_in_bounds(s.drop_last(), c);
    }
}

fn last_dot(s: &Vec<char>) -> (r: Option<usize>)
    ensures
        match r {
            Some(i) => last_index_of(s@, '.') == Some(i as int) && i < s@.len(),
            None => last_index_of(s@, '.') is None,
        },
{
    let mut i: usize = s.len();
    proof {
        assert(s@.subrange(0, i as int) =~= s@);
    }
    while i > 0
        invariant
            i <= s@.len(),
            last_index_of(s@, '.') == last_index_of(s@.subrange(0, i as int), '.'),
        decreases i,
    {
        proof {
            assert(s@.subrange(0, i as int).drop_last() =~= s@.subrange(0, i as int - 1));
        }
        if s[i - 1] == '.' {
            proof {
                lemma_last_index_in_bounds(s@, '.');
            }
            return Some(i - 1);
        }
        i = i - 1;
    }
    None
}

/// The in-progress (crash-marker) name of a chunk file whose final file
/// name is `file_name` (`None`: the path has no UTF-8 file name):
/// `handy-{ts}-chunk-N.opus` becomes `handy-{ts}-chunk-N-temp.opus`.
pub fn temp_path_for(file_name: Option<&str>) -> (r: String)
    ensures
        r@ == temp_name_spec(
            match file_name {
                Some(n) => Some(n@),
                None => None,
            },
        ),
{
    match file_name {
        None => "handy-chunk-temp.opus".to_owned(),
        Some(name) => {
            let chars = chars_of(name);
            let dotdot = chars.len() == 2 && chars[0] == '.' && chars[1] == '.';
            proof {
                if chars@.len() == 2 && chars@[0] == '.' && chars@[1] == '.' {
                    assert(chars@ =~= ".."@) by {
                        reveal_strlit("..");
                    }
                } else {
                    reveal_strlit("..");
                    assert(chars@ != ".."@) by {
                        if chars@ == ".."@ {
                            assert(chars@.len() == 2 && chars@[0] == '.' && chars@[1] == '.');
                        }
                    }
                }
            }
            let dot = if dotdot {
                None
            } else {
                match last_dot(&chars) {
                    Some(0) => None,
                    other => other,
                }
            };
            let mut s = String::new();
            match dot {
                Some(i) => {
                    push_chars(&mut s, chars.as_slice(), 0, i);
                    s.append("-temp.");
                    push_chars(&mut s, chars.as_slice(), i + 1, chars.len());
                },
                None => {
                    s.append(name);
                    s.append("-temp.opus");
                    proof {
                        reveal_strlit("-temp.opus");
                        reveal_strlit("-temp.");
                        reveal_strlit("opus");
                        assert("-temp.opus"@ =~= "-temp."@ + "opus"@);
                    }
                },
            }
            proof {
                assert(s@ =~= temp_name_spec(Some(name@)));
            }
            s
        },
    }
}

/// A stored file chunk is cut at the first silence after 10 minutes of
/// speech (16 kHz samples)...
pub const FILE_SOFT_SAMPLES: usize = 9600000;

/// ...and unconditionally at 11 minutes.
pub const FILE_HARD_SAMPLES: usize = 10560000;

/// A transcription segment is cut at the first silence after 20 s...
pub const SEG_SOFT_SAMPLES: usize = 320000;

/// ...and unconditionally at 45 s.
pub const SEG_HARD_SAMPLES: usize = 720000;

/// Live mode emits the audio so far after 3 s without a pause.
pub const LIVE_EMIT_SAMPLES: usize = 48000;

/// The counters of a chunked take: the open file chunk (1-based) and the
/// speech samples in it, the next transcription segment (0-based) and the
/// speech samples gathered for it. File chunks and segments are cut
/// independently.
#[derive(Clone, Copy, Debug, PartialEq, Eq, Structural)]
pub struct ChunkCounters {
    pub file_index: usize,
    pub file_samples: usize,
    pub seg_index: usize,
    pub seg_samples: usize,
}

/// What the end of a frame cuts.
#[derive(Clone, Copy, Debug, PartialEq, Eq, Structural)]
pub struct FrameCuts {
    /// Finalize the open file chunk and open the next.
    pub close_file: bool,
    /// Hand this segment (by index) to the transcription pipeline.
    pub segment: Option<usize>,
}

/// Whether a count of samples is due for a cut: past the soft limit at a
/// pause, or past the hard limit regardless, and never when empty.
pub open spec fn due(samples: nat, soft: nat, hard: nat, speech_ended: bool) -> bool {
    samples > 0 && ((samples >= soft && speech_ended) || samples >= hard)
}

impl ChunkCounters {
    /// A take's counters as it starts: the first file chunk open, no
    /// speech yet.
    pub fn start() -> (r: Self)
        ensures
            r == (ChunkCounters { file_index: 1, file_samples: 0, seg_index: 0, seg_samples: 0 }),
    {
        ChunkCounters { file_index: 1, file_samples: 0, seg_index: 0, seg_samples: 0 }
    }

    /// Count `n` samples of speech into both the open file and the segment.
    pub fn push_speech(&mut self, n: usize)
        requires
            old(self).file_samples + n <= usize::MAX,
            old(self).seg_samples + n <= usize::MAX,
        ensures
            *final(self) == (ChunkCounters {
                file_samples: (old(self).file_samples + n) as usize,
                seg_samples: (old(self).seg_samples + n) as usize,
                ..*old(self)
            }),
    {
        self.file_samples = self.file_samples + n;
        self.seg_samples = self.seg_samples + n;
    }

    /// The cuts at the end of a frame (`speech_ended`: the detector saw
    /// the end of an utterance): a due file chunk is closed and the next
    /// one opened; a due segment is handed off under its index and the
    /// next one begun.
    pub fn end_frame(&mut self, speech_ended: bool) -> (r: FrameCuts)
        requires
            old(self).file_index < usize::MAX,
            old(self).seg_index < usize::MAX,
        ensures
            ({
                let file_due = due(old(self).file_samples as nat, FILE_SOFT_SAMPLES as nat, FILE_HARD_SAMPLES as nat, speech_ended);
                let seg_due = due(old(self).seg_samples as nat, SEG_SOFT_SAMPLES as nat, SEG_HARD_SAMPLES as nat, speech_ended);
                &&& r.close_file == file_due
                &&& r.segment == if seg_due { Some(old(self).seg_index) } else { None }
                &&& final(self).file_index == if file_due { (old(self).file_index + 1) as usize } else { old(self).file_index }
                &&& final(self).file_samples == if file_due { 0 } else { old(self).file_samples }
                &&& final(self).seg_index == if seg_due { (old(self).seg_index + 1) as usize } else { old(self).seg_index }
                &&& final(self).seg_samples == if seg_due { 0 } else { old(self).seg_samples }
            }),
    {
        let file_cut = (self.file_samples >= FILE_SOFT_SAMPLES && speech_ended) || self.file_samples
            >= FILE_HARD_SAMPLES;
        let close_file = file_cut && self.file_samples > 0;
        if close_file {
            self.file_index = self.file_index + 1;
            self.file_samples = 0;
        }
        let seg_cut = (self.seg_samples >= SEG_SOFT_SAMPLES && speech_ended) || self.seg_samples
            >= SEG_HARD_SAMPLES;
        let segment = if seg_cut && self.seg_samples > 0 {
            let index = self.seg_index;
            self.seg_index = self.seg_index + 1;
            self.seg_samples = 0;
            Some(index)
        } else {
            None
        };
        FrameCuts { close_file, segment }
    }

    /// At stop: the last segment, if it holds any speech, is handed off;
    /// `true` when the open file chunk holds speech and is to be finalized.
    pub fn finish(&mut self) -> (r: (Option<usize>, bool))
        requires
            old(self).seg_index < usize::MAX,
        ensures
            r.0 == if old(self).seg_samples > 0 { Some(old(self).seg_index) } else { None },
            r.1 == (old(self).file_samples > 0),
            final(self).seg_index == if old(self).seg_samples > 0 { (old(self).seg_index + 1) as usize } else { old(self).seg_index },
            final(self).seg_samples == 0,
            final(self).file_index == old(self).file_index,
            final(self).file_samples == old(self).file_samples,
    {
        let segment = if self.seg_samples > 0 {
            let index = self.seg_index;
            self.seg_index = self.seg_index + 1;
            self.seg_samples = 0;
            Some(index)
        } else {
            None
        };
        (segment, self.file_samples > 0)
    }
}

/// What a stop does with the finalized file chunks.
#[derive(Clone, Copy, Debug, PartialEq, Eq, Structural)]
pub enum FinishPlan {
    /// No chunk was written.
    Nothing,
    /// One chunk is the whole recording: rename it to the full name.
    RenameSingle,
    /// Several chunks: keep them and glue a full copy alongside.
    Glue,
}

pub fn finish_plan(closed_chunks: usize) -> (r: FinishPlan)
    ensures
        r == if closed_chunks == 0 {
            FinishPlan::Nothing
        } else if closed_chunks == 1 {
            FinishPlan::RenameSingle
        } else {
            FinishPlan::Glue
        },
{
    if closed_chunks == 0 {
        FinishPlan::Nothing
    } else if closed_chunks == 1 {
        FinishPlan::RenameSingle
    } else {
        FinishPlan::Glue
    }
}

/// Live mode: emit the audio so far when an utterance ended, or after 3 s
/// of new audio without one, as long as there is new audio since the last
/// emission.
pub fn should_emit_live(speech_ended: bool, segment_start: usize, out_len: usize) -> (r: bool)
    ensures
        r == (segment_start < out_len && (speech_ended || out_len - segment_start >= LIVE_EMIT_SAMPLES)),
{
    if speech_ended && segment_start < out_len {
        true
    } else if segment_start < out_len {
        out_len - segment_start >= LIVE_EMIT_SAMPLES
    } else {
        false
    }
}

/// Minimum interval between level updates while not recording, in
/// milliseconds (about 16 per second: the microphone may be always on).
pub const LEVEL_IDLE_INTERVAL_MS: u64 = 60;

/// Whether a fresh level reading is sent: always while recording;
/// otherwise when none was sent yet (`ms_since_last` is `None`) or at least
/// [`LEVEL_IDLE_INTERVAL_MS`] have passed since the last one.
pub fn should_emit_level(recording: bool, ms_since_last: Option<u64>) -> (r: bool)
    ensures
        r == (recording || match ms_since_last {
            None => true,
            Some(ms) => ms >= LEVEL_IDLE_INTERVAL_MS,
        }),
{
    recording || match ms_since_last {
        None => true,
        Some(ms) => ms >= LEVEL_IDLE_INTERVAL_MS,
    }
}

/// Which kind of endpoint a stream is opened on.
#[derive(Clone, Copy, Debug, PartialEq, Eq, Structural)]
pub enum EndpointRole {
    /// A microphone.
    Capture,
    /// A playback endpoint captured through loopback.
    RenderLoopback,
}

/// A render endpoint folds its front pair, a microphone the plain mean.
pub fn downmix_for(role: EndpointRole) -> (r: Downmix)
    ensures
        r == match role {
            EndpointRole::RenderLoopback => Downmix::FrontPair,
            EndpointRole::Capture => Downmix::Mean,
        },
{
    match role {
        EndpointRole::RenderLoopback => Downmix::FrontPair,
        EndpointRole::Capture => Downmix::Mean,
    }
}

/// The capture sample rate the transcription wants.
pub const WHISPER_SAMPLE_RATE: u32 = 16000;

/// The sample format of a supported input configuration.
#[derive(Clone, Copy, Debug, PartialEq, Eq, Structural)]
pub enum SampleFormatKind {
    F32,
    I16,
    I32,
    Other,
}

/// A supported input configuration range.
#[derive(Clone, Copy, Debug, PartialEq, Eq, Structural)]
pub struct ConfigRange {
    pub min_rate: u32,
    pub max_rate: u32,
    pub format: SampleFormatKind,
}

/// F32 before I16 before I32 before anything else.
pub open spec fn format_score(f: SampleFormatKind) -> int {
    match f {
        SampleFormatKind::F32 => 4,
        SampleFormatKind::I16 => 3,
        SampleFormatKind::I32 => 2,
        SampleFormatKind::Other => 1,
    }
}

pub open spec fn supports_16k(c: ConfigRange) -> bool {
    c.min_rate <= WHISPER_SAMPLE_RATE <= c.max_rate
}

fn score(f: SampleFormatKind) -> (r: u8)
    ensures
        r == format_score(f),
{
    match f {
        SampleFormatKind::F32 => 4,
        SampleFormatKind::I16 => 3,
        SampleFormatKind::I32 => 2,
        SampleFormatKind::Other => 1,
    }
}

/// The configuration a stream is opened with, as an index into `configs`
/// (the device's supported input ranges); `None`: the device's default
/// configuration. A loopback endpoint always takes its default (its mix
/// format is delivered whatever is asked). A microphone takes the first of
/// the ranges that include 16 kHz with the best sample format, or its
/// default when none does.
pub fn get_preferred_config_for(role: EndpointRole, configs: &[ConfigRange]) -> (r: Option<usize>)
    ensures
        match role {
            EndpointRole::RenderLoopback => r is None,
            EndpointRole::Capture => match r {
                None => forall|j: int| 0 <= j < configs@.len() ==> !supports_16k(#[trigger] configs@[j]),
                Some(i) => {
                    &&& i < configs@.len()
                    &&& supports_16k(configs@[i as int])
                    &&& forall|j: int| 0 <= j < configs@.len() && supports_16k(#[trigger] configs@[j])
                        ==> format_score(configs@[j].format) <= format_score(configs@[i as int].format)
                    &&& forall|j: int| 0 <= j < i && supports_16k(#[trigger] configs@[j])
                        ==> format_score(configs@[j].format) < format_score(configs@[i as int].format)
                },
            },
        },
{
    if let EndpointRole::RenderLoopback = role {
        return None;
    }
    let mut best: Option<usize> = None;
    let mut i: usize = 0;
    while i < configs.len()
        invariant
            i <= configs@.len(),
            match best {
                None => forall|j: int| 0 <= j < i ==> !supports_16k(#[trigger] configs@[j]),
                Some(b) => {
                    &&& b < i
                    &&& supports_16k(configs@[b as int])
                    &&& forall|j: int| 0 <= j < i && supports_16k(#[trigger] configs@[j])
                        ==> format_score(configs@[j].format) <= format_score(configs@[b as int].format)
                    &&& forall|j: int| 0 <= j < b && supports_16k(#[trigger] configs@[j])
                        ==> format_score(configs@[j].format) < format_score(configs@[b as int].format)
                },
            },
        decreases configs@.len() - i,
    {
        let c = configs[i];
        if c.min_rate <= WHISPER_SAMPLE_RATE && c.max_rate >= WHISPER_SAMPLE_RATE {
            match best {
                None => {
                    best = Some(i);
                },
                Some(b) => {
                    if score(c.format) > score(configs[b].format) {
                        best = Some(i);
                    }
                },
            }
        }
        i = i + 1;
    }
    best
}

} // verus!
