//! The smoothing of a per-frame voice/no-voice decision into speech
//! segments: an onset needs several consecutive voiced frames (and then
//! releases the pre-roll with it), speech outlasts short gaps by a hangover,
//! and the frame where speech ends is flagged. The audio frames themselves
//! are buffered by the caller.
use vstd::prelude::*;

verus! {

/// What a frame is classified as.
#[derive(Clone, Copy, Debug, PartialEq, Eq, Structural)]
pub enum SmoothedFrame {
    /// Not speech (possibly an onset still unconfirmed).
    Noise,
    /// Speech: this frame.
    Speech,
    /// Speech just confirmed: the buffered pre-roll frames and this frame.
    Onset,
}

/// The smoother's counters.
#[derive(Clone, Copy, Debug, PartialEq, Eq, Structural)]
pub struct VadSmoother {
    pub prefill_frames: usize,
    pub hangover_frames: usize,
    pub onset_frames: usize,
    pub hangover_counter: usize,
    pub onset_counter: usize,
    pub in_speech: bool,
    /// Set on the frame where speech ended.
    pub just_ended: bool,
}

impl VadSmoother {
    /// A smoother in silence with the given pre-roll, hangover and onset
    /// lengths (in frames).
    pub fn new(prefill_frames: usize, hangover_frames: usize, onset_frames: usize) -> (r: Self)
        ensures
            r == (VadSmoother {
                prefill_frames,
                hangover_frames,
                onset_frames,
                hangover_counter: 0,
                onset_counter: 0,
                in_speech: false,
                just_ended: false,
            }),
    {
        VadSmoother {
            prefill_frames,
            hangover_frames,
            onset_frames,
            hangover_counter: 0,
            onset_counter: 0,
            in_speech: false,
            just_ended: false,
        }
    }

    /// How many of the most recent frames the caller keeps buffered for
    /// pre-roll: the pre-roll and the current frame.
    pub fn buffered_frames(&self) -> (r: usize)
        requires
            self.prefill_frames < usize::MAX,
        ensures
            r == self.prefill_frames + 1,
    {
        self.prefill_frames + 1
    }

    /// Classify one frame that the wrapped detector called voiced or not.
    /// Silence: voiced frames count toward the onset (a confirmed onset
    /// starts speech with the hangover full); an unvoiced one resets the
    /// count. Speech: a voiced frame refills the hangover; an unvoiced one
    /// spends it, and once it is spent speech ends on that frame.
    pub fn push_frame(&mut self, is_voice: bool) -> (r: SmoothedFrame)
        requires
            old(self).onset_counter < usize::MAX,
        ensures
            final(self).prefill_frames == old(self).prefill_frames,
            final(self).hangover_frames == old(self).hangover_frames,
            final(self).onset_frames == old(self).onset_frames,
            final(self).just_ended == (old(self).in_speech && !is_voice && old(self).hangover_counter == 0),
            match (old(self).in_speech, is_voice) {
                (false, true) => if old(self).onset_counter + 1 >= old(self).onset_frames {
                    &&& r == SmoothedFrame::Onset
                    &&& final(self).in_speech
                    &&& final(self).hangover_counter == old(self).hangover_frames
                    &&& final(self).onset_counter == 0
                } else {
                    &&& r == SmoothedFrame::Noise
                    &&& !final(self).in_speech
                    &&& final(self).hangover_counter == old(self).hangover_counter
                    &&& final(self).onset_counter == old(self).onset_counter + 1
                },
                (true, true) => {
                    &&& r == SmoothedFrame::Speech
                    &&& final(self).in_speech
                    &&& final(self).hangover_counter == old(self).hangover_frames
                    &&& final(self).onset_counter == old(self).onset_counter
                },
                (true, false) => if old(self).hangover_counter > 0 {
                    &&& r == SmoothedFrame::Speech
                    &&& final(self).in_speech
                    &&& final(self).hangover_counter == old(self).hangover_counter - 1
                    &&& final(self).onset_counter == old(self).onset_counter
                } else {
                    &&& r == SmoothedFrame::Noise
                    &&& !final(self).in_speech
                    &&& final(self).hangover_counter == 0
                    &&& final(self).onset_counter == old(self).onset_counter
                },
                (false, false) => {
                    &&& r == SmoothedFrame::Noise
                    &&& !final(self).in_speech
                    &&& final(self).hangover_counter == old(self).hangover_counter
                    &&& final(self).onset_counter == 0
                },
            },
    {
        self.just_ended = false;
        if !self.in_speech && is_voice {
            self.onset_counter = self.onset_counter + 1;
            if self.onset_counter >= self.onset_frames {
                self.in_speech = true;
                self.hangover_counter = self.hangover_frames;
                self.onset_counter = 0;
                SmoothedFrame::Onset
            } else {
                SmoothedFrame::Noise
            }
        } else if self.in_speech && is_voice {
            self.hangover_counter = self.hangover_frames;
            SmoothedFrame::Speech
        } else if self.in_speech {
            if self.hangover_counter > 0 {
                self.hangover_counter = self.hangover_counter - 1;
                SmoothedFrame::Speech
            } else {
                self.in_speech = false;
                self.just_ended = true;
                SmoothedFrame::Noise
            }
        } else {
            self.onset_counter = 0;
            SmoothedFrame::Noise
        }
    }

    /// Back to silence, nothing pending.
    pub fn reset(&mut self)
        ensures
            *final(self) == (VadSmoother {
                hangover_counter: 0,
                onset_counter: 0,
                in_speech: false,
                just_ended: false,
                ..*old(self)
            }),
    {
        self.hangover_counter = 0;
        self.onset_counter = 0;
        self.in_speech = false;
        self.just_ended = false;
    }

    /// Whether speech ended on the last frame.
    pub fn speech_ended(&self) -> (r: bool)
        ensures
            r == self.just_ended,
    {
        self.just_ended
    }

    /// At stop: how many of the most recent buffered frames an unconfirmed
    /// onset holds back (they were voiced but not yet released); they are
    /// released once, and nothing is pending afterwards.
    pub fn flush(&mut self) -> (r: usize)
        ensures
            (r, *final(self)) == flush_spec(*old(self)),
    {
        let n = self.onset_counter;
        self.onset_counter = 0;
        n
    }
}

/// A flush: the frames an unconfirmed onset holds back, and the smoother
/// with nothing pending.
pub open spec fn flush_spec(s: VadSmoother) -> (usize, VadSmoother) {
    (s.onset_counter, VadSmoother { onset_counter: 0, ..s })
}

/// Flushing is idempotent: a second flush releases nothing and changes
/// nothing.
pub proof fn lemma_flush_idempotent(s: VadSmoother)
    ensures
        flush_spec(flush_spec(s).1).0 == 0,
        flush_spec(flush_spec(s).1).1 == flush_spec(s).1,
{
}

} // verus!
