//! Clipboard custody and paste pacing: what a paste treats as the user's
//! clipboard, when a delayed restore may put it back, how a failed delivery
//! is rescued, and the waits around the paste and submit keystrokes.
use crate::jumper::{slot_save_cursor, SLOT_COUNT};
use crate::settings::{AutoSubmitKey, ClipboardHandling, PasteMethod, TypingTool};
use crate::text::str_eq;
use vstd::prelude::*;

verus! {

/// One-shot paste override armed by the "Transcribe & Submit" shortcut.
/// `submit`: force this paste method and always send this submit key.
/// `clipboard`: override clipboard handling. `restore_extra_ms`: extra wait
/// before restoring the original clipboard.
#[derive(Clone, Copy, Debug, PartialEq, Eq)]
pub struct SubmitOverride {
    pub submit: Option<(PasteMethod, AutoSubmitKey)>,
    pub clipboard: Option<ClipboardHandling>,
    pub restore_extra_ms: u64,
}

/// The arming mailbox between the finishing press and the take's stop.
pub struct SubmitOverrideMailbox {
    armed: Option<SubmitOverride>,
}

impl View for SubmitOverrideMailbox {
    type V = Option<SubmitOverride>;

    closed spec fn view(&self) -> Option<SubmitOverride> {
        self.armed
    }
}

impl SubmitOverrideMailbox {
    /// An empty mailbox.
    pub fn new() -> (r: Self)
        ensures
            r@ is None,
    {
        SubmitOverrideMailbox { armed: None }
    }
}

/// Arm the override for the take being finished.
pub fn set_submit_override(mailbox: &mut SubmitOverrideMailbox, over: SubmitOverride)
    ensures
        final(mailbox)@ == Some(over),
{
    mailbox.armed = Some(over);
}

/// Clear the mailbox (a new recording started).
pub fn clear_submit_override(mailbox: &mut SubmitOverrideMailbox)
    ensures
        final(mailbox)@ is None,
{
    mailbox.armed = None;
}

/// Consume the mailbox into the take's own value (one-shot).
pub fn take_submit_override(mailbox: &mut SubmitOverrideMailbox) -> (r: Option<SubmitOverride>)
    ensures
        r == old(mailbox)@,
        final(mailbox)@ is None,
{
    let r = mailbox.armed;
    mailbox.armed = None;
    r
}

/// Whether a fail-closed rescue may leave the transcript on the clipboard.
#[derive(Clone, Copy, Debug, PartialEq, Eq, Structural)]
pub enum ParkDecision {
    Park,
    Withhold,
}

/// `CopyToClipboard` parks the rescued text; `DontModify` withholds it (the
/// take survives in history and can be pasted again).
pub fn park_decision(handling: ClipboardHandling) -> (r: ParkDecision)
    ensures
        r == match handling {
            ClipboardHandling::CopyToClipboard => ParkDecision::Park,
            ClipboardHandling::DontModify => ParkDecision::Withhold,
        },
{
    match handling {
        ClipboardHandling::CopyToClipboard => ParkDecision::Park,
        ClipboardHandling::DontModify => ParkDecision::Withhold,
    }
}

/// What actually happened to the clipboard in a rescue.
#[derive(Clone, Copy, Debug, PartialEq, Eq, Structural)]
pub enum RescueOutcome {
    Parked,
    Withheld,
    ParkFailed,
}

impl RescueOutcome {
    /// Wire value the frontend branches on.
    pub fn as_str(self) -> (r: &'static str)
        ensures
            r@ == match self {
                RescueOutcome::Parked => "parked"@,
                RescueOutcome::Withheld => "withheld"@,
                RescueOutcome::ParkFailed => "failed"@,
            },
    {
        match self {
            RescueOutcome::Parked => "parked",
            RescueOutcome::Withheld => "withheld",
            RescueOutcome::ParkFailed => "failed",
        }
    }
}

/// The rescue outcome: withheld under `DontModify`; otherwise parked or
/// failed depending on whether the park write landed (`park_succeeded` is
/// only consulted when parking).
pub fn rescue_outcome(handling: ClipboardHandling, park_succeeded: bool) -> (r: RescueOutcome)
    ensures
        r == match park_decision_spec(handling) {
            ParkDecision::Withhold => RescueOutcome::Withheld,
            ParkDecision::Park => if park_succeeded {
                RescueOutcome::Parked
            } else {
                RescueOutcome::ParkFailed
            },
        },
{
    match park_decision(handling) {
        ParkDecision::Withhold => RescueOutcome::Withheld,
        ParkDecision::Park => if park_succeeded {
            RescueOutcome::Parked
        } else {
            RescueOutcome::ParkFailed
        },
    }
}

/// [`park_decision`] as a spec function.
pub open spec fn park_decision_spec(handling: ClipboardHandling) -> ParkDecision {
    match handling {
        ClipboardHandling::CopyToClipboard => ParkDecision::Park,
        ClipboardHandling::DontModify => ParkDecision::Withhold,
    }
}

/// A paste's effective clipboard handling: the submit override's choice,
/// else the manual paste's choice, else the global setting.
pub fn effective_clipboard_handling(
    submit_override: Option<SubmitOverride>,
    manual_override: Option<ClipboardHandling>,
    global: ClipboardHandling,
) -> (r: ClipboardHandling)
    ensures
        r == match submit_override {
            Some(SubmitOverride { clipboard: Some(c), .. }) => c,
            _ => match manual_override {
                Some(c) => c,
                None => global,
            },
        },
{
    match submit_override {
        Some(o) => match o.clipboard {
            Some(c) => c,
            None => match manual_override {
                Some(c) => c,
                None => global,
            },
        },
        None => match manual_override {
            Some(c) => c,
            None => global,
        },
    }
}

/// Total settle before the submit key: the base, the target-aware pacing,
/// and for `Direct` typing one more inter-chunk pause.
pub fn pre_submit_total_ms(base_ms: u64, pacing_extra_ms: u64, method: PasteMethod, chunk_delay_ms: u64) -> (r: u64)
    requires
        base_ms + pacing_extra_ms + chunk_delay_ms <= u64::MAX,
    ensures
        r == base_ms + pacing_extra_ms + if method == PasteMethod::Direct {
            chunk_delay_ms
        } else {
            0
        },
{
    let typing_tail = if method == PasteMethod::Direct {
        chunk_delay_ms
    } else {
        0
    };
    base_ms + pacing_extra_ms + typing_tail
}

/// Extra wait before restoring the original clipboard: a per-flow submit
/// override wins; otherwise the remote override for a remote target when it
/// is set; otherwise the global delay.
pub fn restore_extra_for_target(
    submit_override_ms: Option<u64>,
    remote: bool,
    remote_override_ms: Option<u64>,
    global_ms: u64,
) -> (r: u64)
    ensures
        r == match submit_override_ms {
            Some(ms) => ms,
            None => match (remote, remote_override_ms) {
                (true, Some(ms)) => ms,
                _ => global_ms,
            },
        },
{
    if let Some(ms) = submit_override_ms {
        return ms;
    }
    match (remote, remote_override_ms) {
        (true, Some(ms)) => ms,
        _ => global_ms,
    }
}

/// Pacing between the delivered text and the submit key: a remote target
/// always gets the remote delay (jump or not), a local jump the local
/// delay, and ordinary local dictation nothing.
pub fn pre_submit_extra_ms(jumped: bool, remote: bool, submit_local_ms: u64, submit_remote_ms: u64) -> (r: u64)
    ensures
        r == if remote {
            submit_remote_ms
        } else if jumped {
            submit_local_ms
        } else {
            0
        },
{
    match (jumped, remote) {
        (_, true) => submit_remote_ms,
        (true, false) => submit_local_ms,
        (false, false) => 0,
    }
}

/// Whether the unanchored delivery target pinned when the paste was
/// classified is still in front. An unknown pin imposes no constraint.
pub fn unanchored_target_intact(pinned: Option<isize>, foreground_now: Option<isize>) -> (r: bool)
    ensures
        r == match pinned {
            Some(expected) => foreground_now == Some(expected),
            None => true,
        },
{
    match pinned {
        Some(expected) => foreground_now == Some(expected),
        None => true,
    }
}

/// The per-keystroke "may delivery still proceed?" check: an anchored
/// delivery re-verifies its guard (`guard_ready`, `None` for an unanchored
/// one), an unanchored one the foreground window pinned when it was
/// classified.
pub fn still_valid_for(guard_ready: Option<bool>, pinned: Option<isize>, foreground_now: Option<isize>) -> (r: bool)
    ensures
        r == match guard_ready {
            Some(ready) => ready,
            None => match pinned {
                Some(expected) => foreground_now == Some(expected),
                None => true,
            },
        },
{
    match guard_ready {
        Some(ready) => ready,
        None => unanchored_target_intact(pinned, foreground_now),
    }
}

/// Whether the global auto-submit setting makes a paste press the submit
/// key: only when it is on and pasting is not disabled.
pub fn should_send_auto_submit(auto_submit: bool, paste_method: PasteMethod) -> (r: bool)
    ensures
        r == (auto_submit && paste_method != PasteMethod::Disabled),
{
    auto_submit && paste_method != PasteMethod::Disabled
}

/// What a paste captured of the pre-paste clipboard: text, or content that
/// is not text (an image, a file list) and cannot be put back.
#[derive(Clone, Debug, PartialEq, Eq)]
pub enum ClipboardSnapshot {
    Text(String),
    NonText,
}

/// What the clipboard held immediately before this tool's most recent
/// transient write, with the generation of that write and the exact text
/// written.
#[derive(Clone, Debug, PartialEq, Eq)]
pub struct PendingRestore {
    pub generation: u64,
    pub written: String,
    pub original: ClipboardSnapshot,
}

/// A snapshot's abstract value: `Some(chars)` for text, `None` otherwise.
pub open spec fn snapshot_text(s: ClipboardSnapshot) -> Option<Seq<char>> {
    match s {
        ClipboardSnapshot::Text(t) => Some(t@),
        ClipboardSnapshot::NonText => None,
    }
}

/// Whether the live clipboard still holds exactly what this tool wrote.
pub open spec fn still_ours(live: ClipboardSnapshot, written: Seq<char>) -> bool {
    snapshot_text(live) == Some(written)
}

/// Whether a pending entry provably describes the clipboard: nothing
/// superseded its write and the live content is byte-identical to it.
pub open spec fn inherits(pending: Option<PendingRestore>, current_generation: u64, live: ClipboardSnapshot) -> bool {
    match pending {
        Some(p) => p.generation == current_generation && still_ours(live, p.written@),
        None => false,
    }
}

fn clone_snapshot(s: &ClipboardSnapshot) -> (r: ClipboardSnapshot)
    ensures
        snapshot_text(r) == snapshot_text(*s),
{
    match s {
        ClipboardSnapshot::Text(t) => ClipboardSnapshot::Text(t.clone()),
        ClipboardSnapshot::NonText => ClipboardSnapshot::NonText,
    }
}

/// Whether the clipboard still holds exactly what this tool wrote, i.e.
/// it still owns it.
pub fn clipboard_still_ours(live: &ClipboardSnapshot, written: &str) -> (r: bool)
    ensures
        r == still_ours(*live, written@),
{
    match live {
        ClipboardSnapshot::Text(t) => str_eq(t.as_str(), written),
        ClipboardSnapshot::NonText => false,
    }
}

/// Decide what this paste treats as the user's clipboard: the original
/// that an earlier paste captured, when custody is provable (its write is
/// still the latest and the clipboard still holds it), else the live
/// content. Returns the snapshot and whether it was inherited.
pub fn resolve_capture(
    pending: Option<&PendingRestore>,
    current_generation: u64,
    live: ClipboardSnapshot,
) -> (r: (ClipboardSnapshot, bool))
    ensures
        ({
            let p = match pending {
                Some(p) => Some(*p),
                None => None,
            };
            &&& r.1 == inherits(p, current_generation, live)
            &&& r.1 ==> snapshot_text(r.0) == snapshot_text(p->0.original)
            &&& !r.1 ==> snapshot_text(r.0) == snapshot_text(live)
        }),
{
    match pending {
        Some(p) => {
            if p.generation == current_generation && clipboard_still_ours(&live, p.written.as_str()) {
                (clone_snapshot(&p.original), true)
            } else {
                (live, false)
            }
        },
        None => (live, false),
    }
}

/// Backoff for a contended restore: 60 ms, then 150 ms, then give up.
pub fn restore_retry_delay_ms(attempt: u32) -> (r: Option<u64>)
    ensures
        r == if attempt == 0 {
            Some(60u64)
        } else if attempt == 1 {
            Some(150u64)
        } else {
            None
        },
{
    match attempt {
        0 => Some(60),
        1 => Some(150),
        _ => None,
    }
}

/// A delayed restore may proceed only if no later write superseded the one
/// it was armed for.
pub fn should_restore(armed_generation: u64, current_generation: u64) -> (r: bool)
    ensures
        r == (armed_generation == current_generation),
{
    armed_generation == current_generation
}


/// The abstract custody state: the paste generation and the pending entry.
pub struct CustodyView {
    pub generation: u64,
    pub pending: Option<PendingRestore>,
}

/// Clipboard custody: the paste generation every clipboard write bumps,
/// and what the clipboard held before the latest transient write. Every
/// write that bumps the generation also sets or drops the pending entry,
/// so the two always belong together.
pub struct ClipboardCustody {
    generation: u64,
    pending: Option<PendingRestore>,
}

impl View for ClipboardCustody {
    type V = CustodyView;

    closed spec fn view(&self) -> CustodyView {
        CustodyView { generation: self.generation, pending: self.pending }
    }
}

/// The custody invariant: a pending entry always belongs to the latest
/// write.
pub open spec fn custody_wf(v: CustodyView) -> bool {
    v.pending matches Some(p) ==> p.generation == v.generation
}

/// Whether the pending entry is the one written at generation `g`.
pub open spec fn pending_for(pending: Option<PendingRestore>, g: u64) -> bool {
    match pending {
        Some(p) => p.generation == g,
        None => false,
    }
}

/// What a delayed restore does at one attempt.
#[derive(Clone, Copy, Debug, PartialEq, Eq, Structural)]
pub enum RestoreStep {
    /// A later paste or park owns the clipboard: stop for good.
    Superseded,
    /// The user copied something since: leave it alone and stop.
    UserOwnsIt,
    /// The clipboard could not be read right now: retry with backoff.
    Unreadable,
    /// Write the original back now.
    Write,
}

impl ClipboardCustody {
    /// Generation 0, nothing pending.
    pub fn new() -> (r: Self)
        ensures
            r@.generation == 0,
            r@.pending is None,
            custody_wf(r@),
    {
        ClipboardCustody { generation: 0, pending: None }
    }

    /// The current paste generation.
    pub fn generation(&self) -> (r: u64)
        ensures
            r == self@.generation,
    {
        self.generation
    }

    /// Capture for a paste about to write: see [`resolve_capture`].
    pub fn capture(&self, live: ClipboardSnapshot) -> (r: (ClipboardSnapshot, bool))
        ensures
            r.1 == inherits(self@.pending, self@.generation, live),
            r.1 ==> snapshot_text(r.0) == snapshot_text(self@.pending->0.original),
            !r.1 ==> snapshot_text(r.0) == snapshot_text(live),
    {
        resolve_capture(self.pending.as_ref(), self.generation, live)
    }

    /// Record a paste's clipboard write that landed: bump the generation and
    /// register the transient write for a later restore (`restore`), or drop
    /// the pending entry for a deliberately permanent write. Returns the
    /// entry to arm the restore with.
    pub fn record_paste_write(&mut self, written: &str, original: ClipboardSnapshot, restore: bool) -> (r: Option<PendingRestore>)
        requires
            old(self)@.generation < u64::MAX,
        ensures
            final(self)@.generation == old(self)@.generation + 1,
            custody_wf(final(self)@),
            restore ==> {
                &&& r matches Some(p)
                &&& p.generation == final(self)@.generation
                &&& p.written@ == written@
                &&& snapshot_text(p.original) == snapshot_text(original)
                &&& final(self)@.pending matches Some(q)
                &&& q.generation == p.generation && q.written@ == p.written@ && snapshot_text(
                    q.original,
                ) == snapshot_text(original)
            },
            !restore ==> r is None && final(self)@.pending is None,
    {
        self.generation = self.generation + 1;
        if restore {
            let entry = PendingRestore {
                generation: self.generation,
                written: written.to_owned(),
                original: clone_snapshot(&original),
            };
            let armed = PendingRestore {
                generation: self.generation,
                written: written.to_owned(),
                original,
            };
            self.pending = Some(entry);
            Some(armed)
        } else {
            self.pending = None;
            None
        }
    }

    /// Record a park (a permanent write) that landed: bump the generation
    /// and drop the pending entry. A park that failed must not be recorded,
    /// so an older restore stays valid.
    pub fn record_park(&mut self)
        requires
            old(self)@.generation < u64::MAX,
        ensures
            final(self)@.generation == old(self)@.generation + 1,
            final(self)@.pending is None,
    {
        self.generation = self.generation + 1;
        self.pending = None;
    }

    /// One attempt of a delayed restore armed for `entry`, given the live
    /// clipboard text (`None` = unreadable right now). When the user turns
    /// out to own the clipboard, the matching pending entry is dropped.
    pub fn restore_step(&mut self, entry: &PendingRestore, live_text: Option<&str>) -> (r: RestoreStep)
        ensures
            final(self)@.generation == old(self)@.generation,
            r == if entry.generation != old(self)@.generation {
                RestoreStep::Superseded
            } else {
                match live_text {
                    None => RestoreStep::Unreadable,
                    Some(t) => if t@ == entry.written@ {
                        RestoreStep::Write
                    } else {
                        RestoreStep::UserOwnsIt
                    },
                }
            },
            r == RestoreStep::UserOwnsIt && pending_for(old(self)@.pending, entry.generation)
                ==> final(self)@.pending is None,
            !(r == RestoreStep::UserOwnsIt && pending_for(old(self)@.pending, entry.generation))
                ==> final(self)@.pending == old(self)@.pending,
    {
        if !should_restore(entry.generation, self.generation) {
            return RestoreStep::Superseded;
        }
        match live_text {
            None => RestoreStep::Unreadable,
            Some(t) => {
                if str_eq(t, entry.written.as_str()) {
                    RestoreStep::Write
                } else {
                    let matches = match &self.pending {
                        Some(p) => p.generation == entry.generation,
                        None => false,
                    };
                    if matches {
                        self.pending = None;
                    }
                    RestoreStep::UserOwnsIt
                }
            },
        }
    }

    /// After a restore write attempt: a successful write drops the pending
    /// entry it restored; a failed one keeps it (a concurrent capture still
    /// needs its provenance).
    pub fn restore_written(&mut self, entry: &PendingRestore, ok: bool)
        ensures
            final(self)@.generation == old(self)@.generation,
            ok && pending_for(old(self)@.pending, entry.generation) ==> final(self)@.pending is None,
            !(ok && pending_for(old(self)@.pending, entry.generation)) ==> final(self)@.pending
                == old(self)@.pending,
    {
        if ok {
            let matches = match &self.pending {
                Some(p) => p.generation == entry.generation,
                None => false,
            };
            if matches {
                self.pending = None;
            }
        }
    }
}

/// Every clipboard write this tool records (a paste or a park) supersedes
/// every restore armed before it: such a restore, whatever generation it
/// was armed for, no longer matches the current generation and stops
/// without writing.
pub proof fn lemma_write_supersedes_armed_restores(before: CustodyView, after: CustodyView, armed: u64)
    requires
        armed <= before.generation,
        after.generation == before.generation + 1,
    ensures
        armed != after.generation,
{
}

/// A later paste started while an earlier transcript is still on the
/// clipboard restores the user's original, not that transcript; a real
/// user copy since then always wins.
pub proof fn lemma_capture_never_restores_own_transcript(v: CustodyView, live: ClipboardSnapshot)
    requires
        custody_wf(v),
        v.pending is Some,
    ensures
        still_ours(live, v.pending->0.written@) ==> inherits(v.pending, v.generation, live),
        !still_ours(live, v.pending->0.written@) ==> !inherits(v.pending, v.generation, live),
{
}


/// The settings a paste reads.
#[derive(Clone, Copy, Debug)]
pub struct PasteSettings {
    pub paste_method: PasteMethod,
    pub paste_method_ptt: PasteMethod,
    pub clipboard_handling: ClipboardHandling,
    pub append_trailing_space: bool,
    pub auto_submit: bool,
    pub auto_submit_key: AutoSubmitKey,
    pub return_focus_output: bool,
    pub return_focus_submit: bool,
}

/// What a paste will do, decided before any keystroke.
pub struct PastePlan {
    /// The submit override in force (only flow pastes honour one).
    pub submit_override: Option<SubmitOverride>,
    pub clipboard_handling: ClipboardHandling,
    pub paste_method: PasteMethod,
    /// The text to deliver (with the trailing space when configured).
    pub text: String,
    /// Whether the submit key follows the text, and which.
    pub do_submit: bool,
    pub submit_key: AutoSubmitKey,
    /// Whether focus returns to where the user was after an anchored
    /// delivery (the finishing flow's setting).
    pub return_focus: bool,
}

/// The paste method: a submit override's method, else a manual paste's,
/// else the push-to-talk or normal setting.
pub open spec fn chosen_method(
    submit: Option<(PasteMethod, AutoSubmitKey)>,
    manual_override: Option<(PasteMethod, ClipboardHandling)>,
    is_ptt: bool,
    s: PasteSettings,
) -> PasteMethod {
    match submit {
        Some((m, _)) => m,
        None => match manual_override {
            Some((m, _)) => m,
            None => if is_ptt {
                s.paste_method_ptt
            } else {
                s.paste_method
            },
        },
    }
}

/// Which setting picks the method: with no override in force, a
/// push-to-talk take pastes with the push-to-talk method and any other take
/// with the normal method; an override's method wins whatever the take.
pub proof fn lemma_take_kind_picks_method(
    is_ptt: bool,
    s: PasteSettings,
    submit: Option<(PasteMethod, AutoSubmitKey)>,
    manual_override: Option<(PasteMethod, ClipboardHandling)>,
)
    ensures
        is_ptt ==> chosen_method(None, None, is_ptt, s) == s.paste_method_ptt,
        !is_ptt ==> chosen_method(None, None, is_ptt, s) == s.paste_method,
        submit matches Some((m, _)) ==> chosen_method(submit, manual_override, is_ptt, s) == m,
        match manual_override {
            Some((m, _)) => submit is None ==> chosen_method(submit, manual_override, is_ptt, s) == m,
            None => true,
        },
{
}

/// Decide a paste: a non-flow paste never acts on a submit override; the
/// submit override, then the manual paste, then the settings choose the
/// method and the clipboard handling; a submit override always submits
/// (unless pasting is disabled), a manual paste never does, and otherwise
/// the auto-submit setting decides.
pub fn plan_paste(
    text: String,
    is_ptt: bool,
    flow_paste: bool,
    submit_override: Option<SubmitOverride>,
    manual_override: Option<(PasteMethod, ClipboardHandling)>,
    s: &PasteSettings,
) -> (r: PastePlan)
    ensures
        r.submit_override == if flow_paste {
            submit_override
        } else {
            None
        },
        r.clipboard_handling == match r.submit_override {
            Some(SubmitOverride { clipboard: Some(c), .. }) => c,
            _ => match manual_override {
                Some((_, c)) => c,
                None => s.clipboard_handling,
            },
        },
        r.paste_method == chosen_method(
            match r.submit_override {
                Some(o) => o.submit,
                None => None,
            },
            manual_override,
            is_ptt,
            *s,
        ),
        (r.submit_override is None && manual_override is None) ==> r.paste_method == if is_ptt {
            s.paste_method_ptt
        } else {
            s.paste_method
        },
        r.text@ == if s.append_trailing_space {
            text@.push(' ')
        } else {
            text@
        },
        match r.submit_override {
            Some(SubmitOverride { submit: Some((_, key)), .. }) => r.do_submit == (r.paste_method
                != PasteMethod::Disabled) && r.submit_key == key,
            _ => match manual_override {
                Some(_) => !r.do_submit && r.submit_key == s.auto_submit_key,
                None => r.do_submit == (s.auto_submit && r.paste_method != PasteMethod::Disabled)
                    && r.submit_key == s.auto_submit_key,
            },
        },
        r.return_focus == if r.submit_override is Some {
            s.return_focus_submit
        } else {
            s.return_focus_output
        },
{
    let submit_override = if flow_paste {
        submit_override
    } else {
        None
    };
    let forced_submit = match submit_override {
        Some(o) => o.submit,
        None => None,
    };
    let manual_handling = match manual_override {
        Some((_, c)) => Some(c),
        None => None,
    };
    let clipboard_handling = effective_clipboard_handling(
        submit_override,
        manual_handling,
        s.clipboard_handling,
    );
    let paste_method = match forced_submit {
        Some((m, _)) => m,
        None => match manual_override {
            Some((m, _)) => m,
            None => if is_ptt {
                s.paste_method_ptt
            } else {
                s.paste_method
            },
        },
    };
    let mut text = text;
    if s.append_trailing_space {
        text.push(' ');
    }
    let (do_submit, submit_key) = match forced_submit {
        Some((_, key)) => (paste_method != PasteMethod::Disabled, key),
        None => match manual_override {
            Some(_) => (false, s.auto_submit_key),
            None => (should_send_auto_submit(s.auto_submit, paste_method), s.auto_submit_key),
        },
    };
    let return_focus = if submit_override.is_some() {
        s.return_focus_submit
    } else {
        s.return_focus_output
    };
    PastePlan {
        submit_override,
        clipboard_handling,
        paste_method,
        text,
        do_submit,
        submit_key,
        return_focus,
    }
}

/// When the original clipboard is restored: never for `CopyToClipboard`
/// (the transcript is meant to stay), else after a 50 ms base plus the
/// target-aware extra.
pub fn restore_after_ms(handling: ClipboardHandling, restore_extra_ms: u64) -> (r: Option<u64>)
    requires
        restore_extra_ms <= u64::MAX - 50,
    ensures
        r == if handling == ClipboardHandling::CopyToClipboard {
            None
        } else {
            Some((50 + restore_extra_ms) as u64)
        },
{
    if handling == ClipboardHandling::CopyToClipboard {
        None
    } else {
        Some(50 + restore_extra_ms)
    }
}

/// Why a delivery stopped between keystrokes.
#[derive(Clone, Copy, Debug, PartialEq, Eq, Structural)]
pub enum DeliveryAbort {
    /// Focus moved before any text landed.
    FocusLost,
    /// Focus moved while typing, after part of the text was typed.
    FocusLostPartial,
    /// The text landed in full, but focus moved before the submit key.
    SubmitAborted,
}

/// Internal error text of a delivery that lost focus mid-paste.
pub const DELIVERY_ABORTED: &'static str = "__anchor_focus_lost_mid_paste__";

/// Internal error text of a typed delivery that lost focus after part of
/// the text was typed.
pub const DELIVERY_ABORTED_PARTIAL: &'static str = "__anchor_focus_lost_mid_paste_partial__";

/// Internal error text of a delivery whose submit key was withheld.
pub const SUBMIT_ABORTED: &'static str = "__anchor_submit_aborted_text_delivered__";

/// Recognize the internal abort errors among a delivery's errors.
pub fn classify_abort(err: &str) -> (r: Option<DeliveryAbort>)
    ensures
        r == if err@ == DELIVERY_ABORTED@ {
            Some(DeliveryAbort::FocusLost)
        } else if err@ == DELIVERY_ABORTED_PARTIAL@ {
            Some(DeliveryAbort::FocusLostPartial)
        } else if err@ == SUBMIT_ABORTED@ {
            Some(DeliveryAbort::SubmitAborted)
        } else {
            None
        },
{
    if str_eq(err, DELIVERY_ABORTED) {
        Some(DeliveryAbort::FocusLost)
    } else if str_eq(err, DELIVERY_ABORTED_PARTIAL) {
        Some(DeliveryAbort::FocusLostPartial)
    } else if str_eq(err, SUBMIT_ABORTED) {
        Some(DeliveryAbort::SubmitAborted)
    } else {
        None
    }
}

/// What the user is told about an aborted delivery: a withheld submit key
/// says the text was delivered; a partial typed delivery says part of it
/// may already be there; otherwise whether the anchored or the plain
/// delivery lost focus.
pub open spec fn abort_reason_spec(kind: DeliveryAbort, anchored: bool) -> Seq<char> {
    match kind {
        DeliveryAbort::SubmitAborted => "your text was delivered, but focus moved before the submit key so it was not sent"@,
        DeliveryAbort::FocusLostPartial => "focus changed while typing — part of the transcript may already have been inserted, so check the target before re-inserting"@,
        DeliveryAbort::FocusLost => if anchored {
            "focus changed mid-paste (per-keystroke re-check)"@
        } else {
            "focus changed before the text was delivered (per-keystroke re-check)"@
        },
    }
}

/// The user-facing reason of an aborted delivery.
pub fn abort_reason(kind: DeliveryAbort, anchored: bool) -> (r: String)
    ensures
        r@ == abort_reason_spec(kind, anchored),
{
    match kind {
        DeliveryAbort::SubmitAborted => "your text was delivered, but focus moved before the submit key so it was not sent".to_owned(),
        DeliveryAbort::FocusLostPartial => "focus changed while typing — part of the transcript may already have been inserted, so check the target before re-inserting".to_owned(),
        DeliveryAbort::FocusLost => if anchored {
            "focus changed mid-paste (per-keystroke re-check)".to_owned()
        } else {
            "focus changed before the text was delivered (per-keystroke re-check)".to_owned()
        },
    }
}

/// Track-last-output: after a successful flow paste (pasting enabled and
/// the flow's switch on), capture where the text landed into the flow's
/// target slot (clamped to the last slot), keeping the cursor per that
/// slot's flag. `None`: no capture.
pub fn track_capture(
    flow_paste: bool,
    delivered_ok: bool,
    paste_method: PasteMethod,
    track_enabled: bool,
    track_slot: usize,
    save_cursor_slots: &[bool],
) -> (r: Option<(usize, bool)>)
    ensures
        r == if flow_paste && delivered_ok && paste_method != PasteMethod::Disabled && track_enabled {
            let slot = if track_slot < SLOT_COUNT - 1 {
                track_slot
            } else {
                (SLOT_COUNT - 1) as usize
            };
            Some((slot, slot < save_cursor_slots@.len() && save_cursor_slots@[slot as int]))
        } else {
            None
        },
{
    if flow_paste && delivered_ok && paste_method != PasteMethod::Disabled && track_enabled {
        let slot = if track_slot < SLOT_COUNT - 1 {
            track_slot
        } else {
            SLOT_COUNT - 1
        };
        Some((slot, slot_save_cursor(save_cursor_slots, slot)))
    } else {
        None
    }
}

/// Which Linux input tools are installed.
#[derive(Clone, Copy, Debug)]
pub struct ToolAvailability {
    pub wtype: bool,
    pub kwtype: bool,
    pub dotool: bool,
    pub ydotool: bool,
    pub xdotool: bool,
}

/// The typing tools to offer: always "auto" first, then each installed
/// tool in the order wtype, kwtype, dotool, ydotool, xdotool.
pub open spec fn available_tools_spec(a: ToolAvailability) -> Seq<Seq<char>> {
    let s0 = seq!["auto"@];
    let s1 = if a.wtype { s0.push("wtype"@) } else { s0 };
    let s2 = if a.kwtype { s1.push("kwtype"@) } else { s1 };
    let s3 = if a.dotool { s2.push("dotool"@) } else { s2 };
    let s4 = if a.ydotool { s3.push("ydotool"@) } else { s3 };
    if a.xdotool { s4.push("xdotool"@) } else { s4 }
}

/// The typing tools available on this system, "auto" first.
pub fn get_available_typing_tools(a: &ToolAvailability) -> (r: Vec<String>)
    ensures
        r@.map_values(|t: String| t@) == available_tools_spec(*a),
{
    let mut tools: Vec<String> = Vec::new();
    tools.push("auto".to_owned());
    if a.wtype {
        tools.push("wtype".to_owned());
    }
    if a.kwtype {
        tools.push("kwtype".to_owned());
    }
    if a.dotool {
        tools.push("dotool".to_owned());
    }
    if a.ydotool {
        tools.push("ydotool".to_owned());
    }
    if a.xdotool {
        tools.push("xdotool".to_owned());
    }
    proof {
        assert(tools@.map_values(|t: String| t@) =~= available_tools_spec(*a));
    }
    tools
}

/// The name a typing tool is shown under in messages.
pub fn typing_tool_name(t: TypingTool) -> (r: &'static str)
    ensures
        r@ == match t {
            TypingTool::Auto => "Auto"@,
            TypingTool::Wtype => "Wtype"@,
            TypingTool::Kwtype => "Kwtype"@,
            TypingTool::Dotool => "Dotool"@,
            TypingTool::Ydotool => "Ydotool"@,
            TypingTool::Xdotool => "Xdotool"@,
        },
{
    match t {
        TypingTool::Auto => "Auto",
        TypingTool::Wtype => "Wtype",
        TypingTool::Kwtype => "Kwtype",
        TypingTool::Dotool => "Dotool",
        TypingTool::Ydotool => "Ydotool",
        TypingTool::Xdotool => "Xdotool",
    }
}

/// Whether tool `t` (not `Auto`) is installed.
pub open spec fn tool_available(t: TypingTool, a: ToolAvailability) -> bool {
    match t {
        TypingTool::Auto => false,
        TypingTool::Wtype => a.wtype,
        TypingTool::Kwtype => a.kwtype,
        TypingTool::Dotool => a.dotool,
        TypingTool::Ydotool => a.ydotool,
        TypingTool::Xdotool => a.xdotool,
    }
}

/// The automatic fallback chain for direct typing: on KDE Wayland kwtype
/// first; on other Wayland sessions wtype (it does not work on KDE); then
/// dotool, then ydotool. On X11 xdotool, then ydotool.
pub open spec fn auto_typing_tool(a: ToolAvailability, wayland: bool, kde: bool) -> Option<TypingTool> {
    if wayland {
        if kde && a.kwtype {
            Some(TypingTool::Kwtype)
        } else if !kde && a.wtype {
            Some(TypingTool::Wtype)
        } else if a.dotool {
            Some(TypingTool::Dotool)
        } else if a.ydotool {
            Some(TypingTool::Ydotool)
        } else {
            None
        }
    } else if a.xdotool {
        Some(TypingTool::Xdotool)
    } else if a.ydotool {
        Some(TypingTool::Ydotool)
    } else {
        None
    }
}

/// The tool that types a direct paste: a user-chosen tool only if it is
/// installed (an error otherwise), else the automatic chain; `Ok(None)`
/// means falling back to synthesized key events.
pub fn try_direct_typing_linux(preferred: TypingTool, a: &ToolAvailability, wayland: bool, kde: bool) -> (r: Result<Option<TypingTool>, String>)
    ensures
        preferred != TypingTool::Auto ==> match r {
            Ok(t) => tool_available(preferred, *a) && t == Some(preferred),
            Err(msg) => !tool_available(preferred, *a) && msg@ == "Typing tool "@
                + typing_tool_name_spec(preferred) + " is not available on this system"@,
        },
        preferred == TypingTool::Auto ==> r == Ok::<Option<TypingTool>, String>(
            auto_typing_tool(*a, wayland, kde),
        ),
{
    if preferred != TypingTool::Auto {
        let ok = match preferred {
            TypingTool::Auto => false,
            TypingTool::Wtype => a.wtype,
            TypingTool::Kwtype => a.kwtype,
            TypingTool::Dotool => a.dotool,
            TypingTool::Ydotool => a.ydotool,
            TypingTool::Xdotool => a.xdotool,
        };
        if ok {
            return Ok(Some(preferred));
        }
        let mut msg = "Typing tool ".to_owned();
        msg.append(typing_tool_name(preferred));
        msg.append(" is not available on this system");
        return Err(msg);
    }
    if wayland {
        if kde && a.kwtype {
            return Ok(Some(TypingTool::Kwtype));
        }
        if !kde && a.wtype {
            return Ok(Some(TypingTool::Wtype));
        }
        if a.dotool {
            return Ok(Some(TypingTool::Dotool));
        }
        if a.ydotool {
            return Ok(Some(TypingTool::Ydotool));
        }
    } else {
        if a.xdotool {
            return Ok(Some(TypingTool::Xdotool));
        }
        if a.ydotool {
            return Ok(Some(TypingTool::Ydotool));
        }
    }
    Ok(None)
}

/// [`typing_tool_name`] as a spec function.
pub open spec fn typing_tool_name_spec(t: TypingTool) -> Seq<char> {
    match t {
        TypingTool::Auto => "Auto"@,
        TypingTool::Wtype => "Wtype"@,
        TypingTool::Kwtype => "Kwtype"@,
        TypingTool::Dotool => "Dotool"@,
        TypingTool::Ydotool => "Ydotool"@,
        TypingTool::Xdotool => "Xdotool"@,
    }
}

/// The tool that sends the paste key combination: on Wayland wtype (not on
/// KDE), then dotool, then ydotool; on X11 xdotool, then ydotool; `None`
/// falls back to synthesized key events.
pub fn try_send_key_combo_linux(a: &ToolAvailability, wayland: bool, kde: bool) -> (r: Option<TypingTool>)
    ensures
        r == if wayland {
            if !kde && a.wtype {
                Some(TypingTool::Wtype)
            } else if a.dotool {
                Some(TypingTool::Dotool)
            } else if a.ydotool {
                Some(TypingTool::Ydotool)
            } else {
                None
            }
        } else if a.xdotool {
            Some(TypingTool::Xdotool)
        } else if a.ydotool {
            Some(TypingTool::Ydotool)
        } else {
            None
        },
{
    if wayland {
        if !kde && a.wtype {
            return Some(TypingTool::Wtype);
        }
        if a.dotool {
            return Some(TypingTool::Dotool);
        }
        if a.ydotool {
            return Some(TypingTool::Ydotool);
        }
    } else {
        if a.xdotool {
            return Some(TypingTool::Xdotool);
        }
        if a.ydotool {
            return Some(TypingTool::Ydotool);
        }
    }
    None
}

/// Arguments for `wtype` sending a paste combination.
pub fn wtype_combo_args(method: PasteMethod) -> (r: Result<Vec<&'static str>, &'static str>)
    ensures
        match method {
            PasteMethod::CtrlV => r matches Ok(v) && v@ == seq!["-M", "ctrl", "-k", "v"],
            PasteMethod::ShiftInsert => r matches Ok(v) && v@ == seq!["-M", "shift", "-k", "Insert"],
            PasteMethod::CtrlShiftV => r matches Ok(v) && v@ == seq!["-M", "ctrl", "-M", "shift", "-k", "v"],
            _ => r == Err::<Vec<&'static str>, &'static str>("Unsupported paste method"),
        },
{
    match method {
        PasteMethod::CtrlV => Ok(vec!["-M", "ctrl", "-k", "v"]),
        PasteMethod::ShiftInsert => Ok(vec!["-M", "shift", "-k", "Insert"]),
        PasteMethod::CtrlShiftV => Ok(vec!["-M", "ctrl", "-M", "shift", "-k", "v"]),
        _ => Err("Unsupported paste method"),
    }
}

/// The shell command that pipes a paste combination into `dotool`.
pub fn dotool_combo_command(method: PasteMethod) -> (r: Result<&'static str, &'static str>)
    ensures
        r == match method {
            PasteMethod::CtrlV => Ok::<&'static str, &'static str>("echo key ctrl+v | dotool"),
            PasteMethod::ShiftInsert => Ok("echo key shift+insert | dotool"),
            PasteMethod::CtrlShiftV => Ok("echo key ctrl+shift+v | dotool"),
            _ => Err("Unsupported paste method"),
        },
{
    match method {
        PasteMethod::CtrlV => Ok("echo key ctrl+v | dotool"),
        PasteMethod::ShiftInsert => Ok("echo key shift+insert | dotool"),
        PasteMethod::CtrlShiftV => Ok("echo key ctrl+shift+v | dotool"),
        _ => Err("Unsupported paste method"),
    }
}

/// Arguments for `ydotool` sending a paste combination, as Linux input
/// keycodes with pressed (1) / released (0): ctrl 29, shift 42, v 47,
/// insert 110.
pub fn ydotool_combo_args(method: PasteMethod) -> (r: Result<Vec<&'static str>, &'static str>)
    ensures
        match method {
            PasteMethod::CtrlV => r matches Ok(v) && v@ == seq!["key", "29:1", "47:1", "47:0", "29:0"],
            PasteMethod::ShiftInsert => r matches Ok(v) && v@ == seq!["key", "42:1", "110:1", "110:0", "42:0"],
            PasteMethod::CtrlShiftV => r matches Ok(v) && v@ == seq![
                "key",
                "29:1",
                "42:1",
                "47:1",
                "47:0",
                "42:0",
                "29:0",
            ],
            _ => r == Err::<Vec<&'static str>, &'static str>("Unsupported paste method"),
        },
{
    match method {
        PasteMethod::CtrlV => Ok(vec!["key", "29:1", "47:1", "47:0", "29:0"]),
        PasteMethod::ShiftInsert => Ok(vec!["key", "42:1", "110:1", "110:0", "42:0"]),
        PasteMethod::CtrlShiftV => Ok(vec!["key", "29:1", "42:1", "47:1", "47:0", "42:0", "29:0"]),
        _ => Err("Unsupported paste method"),
    }
}

/// The key combination `xdotool` sends for a paste.
pub fn xdotool_combo(method: PasteMethod) -> (r: Result<&'static str, &'static str>)
    ensures
        r == match method {
            PasteMethod::CtrlV => Ok::<&'static str, &'static str>("ctrl+v"),
            PasteMethod::CtrlShiftV => Ok("ctrl+shift+v"),
            PasteMethod::ShiftInsert => Ok("shift+Insert"),
            _ => Err("Unsupported paste method"),
        },
{
    match method {
        PasteMethod::CtrlV => Ok("ctrl+v"),
        PasteMethod::CtrlShiftV => Ok("ctrl+shift+v"),
        PasteMethod::ShiftInsert => Ok("shift+Insert"),
        _ => Err("Unsupported paste method"),
    }
}

} // verus!
