//! The integer side of mixing a microphone leg with a system-audio leg:
//! which channels a downmix folds, when the slave ring's drift is
//! corrected, and the drift counters. The sample arithmetic itself is
//! floating point and stays with the caller.
use vstd::prelude::*;

verus! {

/// Target occupancy of the slave ring, in samples at 16 kHz (100 ms).
pub const RING_TARGET: usize = 1600;

/// Hard ceiling on ring occupancy (2 s at 16 kHz).
pub const RING_HIGH_WATER: usize = 32000;

/// Correction batch, in samples at 16 kHz (10 ms).
pub const CORRECTION_BATCH: usize = 160;

/// Debt beyond which drift is corrected regardless of level (250 ms).
pub const HARD_CORRECTION_DEBT: usize = 4000;

/// How the multichannel input of one leg is folded to mono.
#[derive(Debug, Clone, Copy, PartialEq, Eq, Structural)]
pub enum Downmix {
    /// Plain mean across all channels.
    Mean,
    /// Front pair only (FL/FR), which keeps stereo at unity and makes 5.1
    /// identical to it.
    FrontPair,
}

/// Which samples of one interleaved frame a fold averages.
#[derive(Debug, Clone, Copy, PartialEq, Eq, Structural)]
pub enum FoldSource {
    /// Mono: the first sample of the frame, or silence for an empty frame.
    First,
    /// The mean of the first `n` samples.
    MeanOf(usize),
}

impl Downmix {
    /// The samples a fold of a frame with `channels` channels averages:
    /// mono passes the first sample through; `Mean` averages every channel,
    /// `FrontPair` the first two.
    pub fn fold_source(self, channels: usize) -> (r: FoldSource)
        ensures
            r == if channels <= 1 {
                FoldSource::First
            } else {
                match self {
                    Downmix::Mean => FoldSource::MeanOf(channels),
                    Downmix::FrontPair => FoldSource::MeanOf(2),
                }
            },
    {
        if channels <= 1 {
            return FoldSource::First;
        }
        match self {
            Downmix::Mean => FoldSource::MeanOf(channels),
            Downmix::FrontPair => FoldSource::MeanOf(2),
        }
    }
}

/// What a drift correction did, for logging and for tests.
#[derive(Debug, Clone, Copy, PartialEq, Eq, Structural)]
pub struct DriftStats {
    /// Samples of silence spliced in because the slave was running behind.
    pub inserted: usize,
    /// Samples dropped because the slave was running ahead.
    pub dropped: usize,
    /// Pulled samples that underran the ring and were zero-filled.
    pub underruns: usize,
    /// Samples discarded at the high-water mark.
    pub overflowed: usize,
}

/// The correction applied before a pull.
#[derive(Debug, Clone, Copy, PartialEq, Eq, Structural)]
pub enum DriftCorrection {
    Hold,
    /// Splice a batch of silence in at the front.
    InsertSilence,
    /// Drop a batch from the front.
    DropOldest,
}

/// The correction for a ring holding `len` samples, `front_quiet` telling
/// whether its first batch is below the quiet level. An empty ring is
/// "nothing is playing", never drift. Too few samples by a batch or more
/// splices silence in, too many drops a batch; either only while the front
/// is quiet, unless the debt has reached [`HARD_CORRECTION_DEBT`].
pub open spec fn drift_correction_spec(len: nat, front_quiet: bool) -> DriftCorrection {
    if len == 0 {
        DriftCorrection::Hold
    } else if len + CORRECTION_BATCH <= RING_TARGET {
        if front_quiet || RING_TARGET - len >= HARD_CORRECTION_DEBT {
            DriftCorrection::InsertSilence
        } else {
            DriftCorrection::Hold
        }
    } else if len >= RING_TARGET + CORRECTION_BATCH {
        if front_quiet || len - RING_TARGET >= HARD_CORRECTION_DEBT {
            DriftCorrection::DropOldest
        } else {
            DriftCorrection::Hold
        }
    } else {
        DriftCorrection::Hold
    }
}

pub fn drift_correction(len: usize, front_quiet: bool) -> (r: DriftCorrection)
    ensures
        r == drift_correction_spec(len as nat, front_quiet),
        r == DriftCorrection::InsertSilence ==> len + CORRECTION_BATCH <= RING_TARGET,
        r == DriftCorrection::DropOldest ==> len >= RING_TARGET + CORRECTION_BATCH,
{
    if len == 0 {
        return DriftCorrection::Hold;
    }
    if len <= RING_TARGET - CORRECTION_BATCH {
        let debt = RING_TARGET - len;
        if front_quiet || debt >= HARD_CORRECTION_DEBT {
            DriftCorrection::InsertSilence
        } else {
            DriftCorrection::Hold
        }
    } else if len >= RING_TARGET + CORRECTION_BATCH {
        let excess = len - RING_TARGET;
        if front_quiet || excess >= HARD_CORRECTION_DEBT {
            DriftCorrection::DropOldest
        } else {
            DriftCorrection::Hold
        }
    } else {
        DriftCorrection::Hold
    }
}

/// The occupancy after a correction.
pub open spec fn corrected_len(len: nat, c: DriftCorrection) -> nat {
    match c {
        DriftCorrection::Hold => len,
        DriftCorrection::InsertSilence => (len + CORRECTION_BATCH) as nat,
        DriftCorrection::DropOldest => (len - CORRECTION_BATCH) as nat,
    }
}

/// A correction only ever moves occupancy toward the target and never
/// past it.
pub proof fn lemma_correction_moves_toward_target(len: nat, front_quiet: bool)
    ensures
        ({
            let after = corrected_len(len, drift_correction_spec(len, front_quiet));
            &&& len <= RING_TARGET ==> len <= after <= RING_TARGET
            &&& len >= RING_TARGET ==> RING_TARGET <= after <= len
        }),
{
}

impl DriftStats {
    /// No corrections, underruns or overflow yet.
    pub fn new() -> (r: Self)
        ensures
            r == (DriftStats { inserted: 0, dropped: 0, underruns: 0, overflowed: 0 }),
    {
        DriftStats { inserted: 0, dropped: 0, underruns: 0, overflowed: 0 }
    }

    /// Count a correction.
    pub fn record_correction(&mut self, c: DriftCorrection)
        requires
            old(self).inserted + CORRECTION_BATCH <= usize::MAX,
            old(self).dropped + CORRECTION_BATCH <= usize::MAX,
        ensures
            *final(self) == match c {
                DriftCorrection::Hold => *old(self),
                DriftCorrection::InsertSilence => DriftStats {
                    inserted: (old(self).inserted + CORRECTION_BATCH) as usize,
                    ..*old(self)
                },
                DriftCorrection::DropOldest => DriftStats {
                    dropped: (old(self).dropped + CORRECTION_BATCH) as usize,
                    ..*old(self)
                },
            },
    {
        match c {
            DriftCorrection::Hold => {},
            DriftCorrection::InsertSilence => {
                self.inserted = self.inserted + CORRECTION_BATCH;
            },
            DriftCorrection::DropOldest => {
                self.dropped = self.dropped + CORRECTION_BATCH;
            },
        }
    }

    /// Count the overflow of a push that left `len` samples in the ring
    /// before trimming; returns how many of the oldest samples to drop.
    pub fn record_push(&mut self, len: usize) -> (excess: usize)
        requires
            old(self).overflowed + len <= usize::MAX,
        ensures
            excess == if len > RING_HIGH_WATER {
                (len - RING_HIGH_WATER) as usize
            } else {
                0
            },
            *final(self) == (DriftStats {
                overflowed: (old(self).overflowed + excess) as usize,
                ..*old(self)
            }),
    {
        let excess = if len > RING_HIGH_WATER {
            len - RING_HIGH_WATER
        } else {
            0
        };
        self.overflowed = self.overflowed + excess;
        excess
    }

    /// Count the underruns of a pull of `n` samples from a ring holding
    /// `len`; returns how many samples are zero-filled.
    pub fn record_pull(&mut self, len: usize, n: usize) -> (short: usize)
        requires
            old(self).underruns + n <= usize::MAX,
        ensures
            short == if n > len {
                (n - len) as usize
            } else {
                0
            },
            *final(self) == (DriftStats {
                underruns: (old(self).underruns + short) as usize,
                ..*old(self)
            }),
    {
        let short = if n > len {
            n - len
        } else {
            0
        };
        self.underruns = self.underruns + short;
        short
    }
}

} // verus!
