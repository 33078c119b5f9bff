//! Which files a backup archives and which archive entries a restore may
//! write: only whitelisted names, within a size budget, with a report of
//! what was applied.
use crate::text::{chars_of, ends_with_ci, ends_with_ignore_ascii_case, str_eq};
use vstd::prelude::*;

verus! {

/// The settings file, at the top of the data directory and of an archive.
pub const SETTINGS_STORE_PATH: &'static str = "settings_store.json";

/// The history database, likewise.
pub const HISTORY_DB: &'static str = "history.db";

/// Largest entry a restore writes (4 GiB): tar headers state each entry's
/// exact size, so this bounds what a hostile archive can write.
pub const MAX_ENTRY_BYTES: u64 = 4294967296;

/// Largest total a restore writes (16 GiB).
pub const MAX_TOTAL_BYTES: u64 = 17179869184;

/// A compressed recording: `.opus` or `.ogg`, in any case.
pub open spec fn is_compressed_recording(name: Seq<char>) -> bool {
    ends_with_ci(name, ".opus"@) || ends_with_ci(name, ".ogg"@)
}

/// An in-progress chunk (`-temp.opus`, in any case).
pub open spec fn is_temp_chunk(name: Seq<char>) -> bool {
    ends_with_ci(name, "-temp.opus"@)
}

/// Whether the profile archives recordings too: only `full` does.
pub fn includes_recordings(profile: &str) -> (r: bool)
    ensures
        r == (profile@ == "full"@),
{
    str_eq(profile, "full")
}

/// The archive name of a file in the recordings directory in a full
/// backup: small compressed recordings only, never an in-progress chunk
/// (nor, by omission, large uncompressed audio).
pub fn backup_entry_name(file_name: &str) -> (r: Option<String>)
    ensures
        r is Some <==> is_compressed_recording(file_name@) && !is_temp_chunk(file_name@),
        r matches Some(n) ==> n@ == "recordings/"@ + file_name@,
{
    let compressed = ends_with_ignore_ascii_case(file_name, ".opus") || ends_with_ignore_ascii_case(
        file_name,
        ".ogg",
    );
    let temp = ends_with_ignore_ascii_case(file_name, "-temp.opus");
    if compressed && !temp {
        let mut s = String::new();
        s.append("recordings/");
        s.append(file_name);
        Some(s)
    } else {
        None
    }
}

/// One component of an archive entry's path.
#[derive(Clone, Debug)]
pub enum PathPart {
    /// An ordinary name.
    Normal(String),
    /// An ordinary name that is not UTF-8.
    NonUtf8,
    /// A root, prefix, `.` or `..` component.
    Special,
}

/// Where a whitelisted archive entry may be written.
#[derive(Clone, Debug)]
pub enum RestoreTarget {
    Settings,
    History,
    Recording(String),
}

/// The abstract value of a [`RestoreTarget`].
pub enum TargetView {
    Settings,
    History,
    Recording(Seq<char>),
}

pub open spec fn target_view(t: RestoreTarget) -> TargetView {
    match t {
        RestoreTarget::Settings => TargetView::Settings,
        RestoreTarget::History => TargetView::History,
        RestoreTarget::Recording(n) => TargetView::Recording(n@),
    }
}

/// Whether `s` contains `c`.
pub open spec fn has_char(s: Seq<char>, c: char) -> bool {
    exists|i: int| 0 <= i < s.len() && s[i] == c
}

/// Whether `s` contains two consecutive dots.
pub open spec fn has_dot_dot(s: Seq<char>) -> bool {
    exists|i: int| 0 <= i < s.len() - 1 && #[trigger] s[i] == '.' && s[i + 1] == '.'
}

/// A restorable recording name: a compressed recording with no separator
/// and no `..` in it.
pub open spec fn recording_name_ok(name: Seq<char>) -> bool {
    is_compressed_recording(name) && !has_char(name, '/') && !has_char(name, '\\')
        && !has_dot_dot(name)
}

pub open spec fn is_normal(p: PathPart, name: Seq<char>) -> bool {
    p matches PathPart::Normal(s) && s@ == name
}

/// The target of an archive entry with path components `parts`: the
/// settings file or the history database alone at the top, or exactly
/// `recordings/<name>` with a restorable name; nothing else (an absolute
/// path, `..`, a deeper path, an unknown name) is written.
pub open spec fn classify_spec(parts: Seq<PathPart>) -> Option<TargetView> {
    if parts.len() == 1 && is_normal(parts[0], SETTINGS_STORE_PATH@) {
        Some(TargetView::Settings)
    } else if parts.len() == 1 && is_normal(parts[0], HISTORY_DB@) {
        Some(TargetView::History)
    } else if parts.len() == 2 && is_normal(parts[0], "recordings"@) && (parts[1] matches PathPart::Normal(n)
        && recording_name_ok(n@)) {
        Some(TargetView::Recording(parts[1]->Normal_0@))
    } else {
        None
    }
}

/// A restore writes an archive entry `recordings/<name>` exactly when the
/// name ends with `.opus` or `.ogg` (in any case), holds no `/` or `\`, and
/// holds no `..`; it is then written as a recording under that very name.
pub proof fn lemma_recording_entries_restored(parts: Seq<PathPart>)
    requires
        parts.len() == 2,
        is_normal(parts[0], "recordings"@),
        parts[1] is Normal,
    ensures
        ({
            let n = parts[1]->Normal_0@;
            let ok = (ends_with_ci(n, ".opus"@) || ends_with_ci(n, ".ogg"@))
                && (forall|i: int| 0 <= i < n.len() ==> n[i] != '/' && n[i] != '\\')
                && (forall|i: int| 0 <= i < n.len() - 1 ==> !(#[trigger] n[i] == '.' && n[i + 1] == '.'));
            &&& ok ==> classify_spec(parts) == Some(TargetView::Recording(n))
            &&& !ok ==> classify_spec(parts) is None
        }),
{
    let n = parts[1]->Normal_0@;
    if has_char(n, '/') {
        let i = choose|i: int| 0 <= i < n.len() && n[i] == '/';
    }
    if has_char(n, '\\') {
        let i = choose|i: int| 0 <= i < n.len() && n[i] == '\\';
    }
    if has_dot_dot(n) {
        let i = choose|i: int| 0 <= i < n.len() - 1 && #[trigger] n[i] == '.' && n[i + 1] == '.';
    }
}

/// What a full backup archives as a recording, a restore writes back: every
/// compressed, finished recording name without separators or `..` comes
/// back as that recording.
pub proof fn lemma_backed_up_recordings_restore(name: Seq<char>, parts: Seq<PathPart>)
    requires
        is_compressed_recording(name),
        !is_temp_chunk(name),
        forall|i: int| 0 <= i < name.len() ==> name[i] != '/' && name[i] != '\\',
        forall|i: int| 0 <= i < name.len() - 1 ==> !(#[trigger] name[i] == '.' && name[i + 1] == '.'),
        parts.len() == 2,
        is_normal(parts[0], "recordings"@),
        is_normal(parts[1], name),
    ensures
        classify_spec(parts) == Some(TargetView::Recording(name)),
{
    lemma_recording_entries_restored(parts);
}

fn name_ok(name: &str) -> (r: bool)
    ensures
        r == recording_name_ok(name@),
{
    let compressed = ends_with_ignore_ascii_case(name, ".opus") || ends_with_ignore_ascii_case(
        name,
        ".ogg",
    );
    if !compressed {
        return false;
    }
    let c = chars_of(name);
    let mut i: usize = 0;
    while i < c.len()
        invariant
            c@ == name@,
            i <= c@.len(),
            forall|k: int| 0 <= k < i ==> c@[k] != '/' && c@[k] != '\\',
            forall|k: int| 0 <= k < i && k + 1 < c@.len() ==> !(#[trigger] c@[k] == '.' && c@[k + 1] == '.'),
        decreases c@.len() - i,
    {
        if c[i] == '/' || c[i] == '\\' {
            return false;
        }
        if i + 1 < c.len() && c[i] == '.' && c[i + 1] == '.' {
            return false;
        }
        i = i + 1;
    }
    true
}

/// Map an archive entry's path components to a whitelisted target (see
/// [`classify_spec`]).
pub fn classify_entry(parts: &[PathPart]) -> (r: Option<RestoreTarget>)
    ensures
        match r {
            Some(t) => classify_spec(parts@) == Some(target_view(t)),
            None => classify_spec(parts@) is None,
        },
{
    if parts.len() == 0 || parts.len() > 2 {
        return None;
    }
    let first = match &parts[0] {
        PathPart::Normal(s) => s,
        _ => return None,
    };
    if parts.len() == 1 {
        if str_eq(first.as_str(), SETTINGS_STORE_PATH) {
            return Some(RestoreTarget::Settings);
        }
        if str_eq(first.as_str(), HISTORY_DB) {
            return Some(RestoreTarget::History);
        }
        proof {
            reveal_strlit("settings_store.json");
            reveal_strlit("history.db");
        }
        return None;
    }
    if !str_eq(first.as_str(), "recordings") {
        return None;
    }
    match &parts[1] {
        PathPart::Normal(name) => {
            if name_ok(name.as_str()) {
                Some(RestoreTarget::Recording(name.clone()))
            } else {
                None
            }
        },
        _ => None,
    }
}

/// What a restore applied, so the UI can report it and ask for a restart
/// when settings or history changed. Per-target failures land in `errors`.
#[derive(Clone, Debug)]
pub struct RestoreReport {
    pub settings_restored: bool,
    pub history_restored: bool,
    pub recordings_restored: u32,
    pub restart_required: bool,
    pub errors: Vec<String>,
}

pub open spec fn errors_view(r: RestoreReport) -> Seq<Seq<char>> {
    r.errors@.map_values(|e: String| e@)
}

/// The running state of a restore: bytes admitted so far and the report.
pub struct RestoreProgress {
    pub total_bytes: u64,
    pub report: RestoreReport,
}

/// Whether an entry of a target is restored under the two switches:
/// settings and history with the configuration, recordings with the
/// recordings.
pub open spec fn wanted_spec(t: TargetView, include_config: bool, include_recordings: bool) -> bool {
    match t {
        TargetView::Settings => include_config,
        TargetView::History => include_config,
        TargetView::Recording(_) => include_recordings,
    }
}

/// The text recorded for a failed target.
pub open spec fn failure_text(t: TargetView, err: Seq<char>) -> Seq<char> {
    match t {
        TargetView::Settings => "settings: "@ + err,
        TargetView::History => "history: "@ + err,
        TargetView::Recording(n) => "recording "@ + n + ": "@ + err,
    }
}

/// How recording the outcome for a target of view `t` changes a report's
/// flags and count: a success sets that target's flag or counts the
/// recording; a failure changes neither.
pub open spec fn record_effect(before: RestoreReport, after: RestoreReport, t: TargetView, ok: bool) -> bool {
    if ok {
        &&& after.settings_restored == (before.settings_restored || t is Settings)
        &&& after.history_restored == (before.history_restored || t is History)
        &&& after.recordings_restored == before.recordings_restored + if t is Recording {
            1int
        } else {
            0int
        }
    } else {
        &&& after.settings_restored == before.settings_restored
        &&& after.history_restored == before.history_restored
        &&& after.recordings_restored == before.recordings_restored
    }
}

/// A report honours the two switches: without the configuration neither
/// settings nor history were replaced; without the recordings none was
/// restored.
pub open spec fn respects_switches(r: RestoreReport, include_config: bool, include_recordings: bool) -> bool {
    &&& !include_config ==> !r.settings_restored && !r.history_restored
    &&& !include_recordings ==> r.recordings_restored == 0
}

/// A restore writes only what the switches ask for: starting from a report
/// that honours them, recording the outcome of a wanted target (success or
/// failure) keeps honouring them, and the final report then asks for a
/// restart exactly when settings or history were replaced.
pub proof fn lemma_wanted_records_respect_switches(
    before: RestoreReport,
    after: RestoreReport,
    t: TargetView,
    ok: bool,
    include_config: bool,
    include_recordings: bool,
)
    requires
        respects_switches(before, include_config, include_recordings),
        wanted_spec(t, include_config, include_recordings),
        record_effect(before, after, t, ok),
    ensures
        respects_switches(after, include_config, include_recordings),
{
}

/// The abstract state of a restore: bytes admitted, what was applied, and
/// the errors so far.
pub struct ProgressView {
    pub total: int,
    pub settings: bool,
    pub history: bool,
    pub recordings: int,
    pub errors: Seq<Seq<char>>,
}

pub open spec fn progress_view(p: RestoreProgress) -> ProgressView {
    ProgressView {
        total: p.total_bytes as int,
        settings: p.report.settings_restored,
        history: p.report.history_restored,
        recordings: p.report.recordings_restored as int,
        errors: errors_view(p.report),
    }
}

/// The state a restore starts from.
pub open spec fn initial_progress() -> ProgressView {
    ProgressView { total: 0, settings: false, history: false, recordings: 0, errors: Seq::empty() }
}

pub open spec fn opt_target_view(t: Option<RestoreTarget>) -> Option<TargetView> {
    match t {
        Some(x) => Some(target_view(x)),
        None => None,
    }
}

/// Admitting an archive entry classified as `target` (`None`: not
/// whitelisted, ignored) whose header states `size` bytes: an entry over
/// the size caps is skipped with an error naming `path`; otherwise its size
/// counts toward the total, and it is written when the switches want its
/// target. Gives the new state and whether to write the entry.
pub open spec fn admit_spec(
    v: ProgressView,
    target: Option<TargetView>,
    path: Seq<char>,
    size: u64,
    include_config: bool,
    include_recordings: bool,
) -> (ProgressView, bool) {
    match target {
        None => (v, false),
        Some(t) => if size <= MAX_ENTRY_BYTES && v.total + size <= MAX_TOTAL_BYTES {
            (ProgressView { total: v.total + size, ..v }, wanted_spec(t, include_config, include_recordings))
        } else {
            (
                ProgressView {
                    errors: v.errors.push("skipped "@ + path + ": exceeds restore size limits"@),
                    ..v
                },
                false,
            )
        },
    }
}

/// Recording the outcome of writing `t`: a success sets its flag or counts
/// the recording, a failure adds its error.
pub open spec fn record_spec(v: ProgressView, t: TargetView, outcome: Result<(), Seq<char>>) -> ProgressView {
    match outcome {
        Ok(()) => ProgressView {
            settings: v.settings || t is Settings,
            history: v.history || t is History,
            recordings: v.recordings + if t is Recording {
                1int
            } else {
                0int
            },
            ..v
        },
        Err(e) => ProgressView { errors: v.errors.push(failure_text(t, e)), ..v },
    }
}

/// One entry of the archive walk: its classification, path and stated
/// size, and what writing it gives (read only when it is written).
pub struct EntryEvent {
    pub target: Option<TargetView>,
    pub path: Seq<char>,
    pub size: u64,
    pub written: Result<(), Seq<char>>,
}

/// The state after walking `events` in order: each entry is admitted, and
/// the outcome of each entry written is recorded.
pub open spec fn restore_walk(events: Seq<EntryEvent>, include_config: bool, include_recordings: bool) -> ProgressView
    decreases events.len(),
{
    if events.len() == 0 {
        initial_progress()
    } else {
        let v = restore_walk(events.drop_last(), include_config, include_recordings);
        let e = events.last();
        let (v2, write) = admit_spec(v, e.target, e.path, e.size, include_config, include_recordings);
        if write {
            record_spec(v2, e.target->0, e.written)
        } else {
            v2
        }
    }
}

/// What a whole restore applies: the admitted bytes stay within the total
/// cap; without the configuration neither settings nor history are
/// replaced, without the recordings none is restored; settings or history
/// count as replaced only if an entry classified as such was written
/// successfully; at most one recording per entry is counted.
pub proof fn lemma_restore_walk(events: Seq<EntryEvent>, include_config: bool, include_recordings: bool)
    ensures
        ({
            let v = restore_walk(events, include_config, include_recordings);
            &&& 0 <= v.total <= MAX_TOTAL_BYTES
            &&& !include_config ==> !v.settings && !v.history
            &&& !include_recordings ==> v.recordings == 0
            &&& v.settings ==> exists|i: int|
                0 <= i < events.len() && (#[trigger] events[i]).target == Some(TargetView::Settings)
                    && events[i].written is Ok
            &&& v.history ==> exists|i: int|
                0 <= i < events.len() && (#[trigger] events[i]).target == Some(TargetView::History)
                    && events[i].written is Ok
            &&& 0 <= v.recordings <= events.len()
        }),
    decreases events.len(),
{
    if events.len() > 0 {
        let front = events.drop_last();
        lemma_restore_walk(front, include_config, include_recordings);
        let v = restore_walk(front, include_config, include_recordings);
        let n = events.len() - 1;
        assert(events.last() == events[n]);
        if v.settings {
            let i = choose|i: int|
                0 <= i < front.len() && (#[trigger] front[i]).target == Some(TargetView::Settings)
                    && front[i].written is Ok;
            assert(events[i] == front[i]);
        }
        if v.history {
            let i = choose|i: int|
                0 <= i < front.len() && (#[trigger] front[i]).target == Some(TargetView::History)
                    && front[i].written is Ok;
            assert(events[i] == front[i]);
        }
    }
}

impl RestoreProgress {
    /// The bytes admitted so far stay within the restore budget.
    pub open spec fn within_budget(&self) -> bool {
        self.total_bytes <= MAX_TOTAL_BYTES
    }

    /// Nothing admitted or applied yet.
    pub fn new() -> (r: Self)
        ensures
            r.within_budget(),
            r.total_bytes == 0,
            !r.report.settings_restored,
            !r.report.history_restored,
            r.report.recordings_restored == 0,
            !r.report.restart_required,
            errors_view(r.report) == Seq::<Seq<char>>::empty(),
            forall|c: bool, g: bool| #[trigger] respects_switches(r.report, c, g),
    {
        let r = RestoreProgress {
            total_bytes: 0,
            report: RestoreReport {
                settings_restored: false,
                history_restored: false,
                recordings_restored: 0,
                restart_required: false,
                errors: Vec::new(),
            },
        };
        proof {
            assert(errors_view(r.report) =~= Seq::<Seq<char>>::empty());
        }
        r
    }

    /// The size guard for an entry whose header states `size` bytes
    /// (`u64::MAX` when it states none): one over [`MAX_ENTRY_BYTES`], or
    /// one that would take the total over [`MAX_TOTAL_BYTES`], is skipped
    /// with an error naming it (`entry_path`); otherwise its size is added
    /// to the total and `true` returned.
    pub fn accept_size(&mut self, entry_path: &str, size: u64) -> (r: bool)
        ensures
            old(self).within_budget() ==> final(self).within_budget(),
            r == (size <= MAX_ENTRY_BYTES && old(self).total_bytes + size <= MAX_TOTAL_BYTES),
            r ==> final(self).total_bytes == old(self).total_bytes + size,
            r ==> errors_view(final(self).report) == errors_view(old(self).report),
            !r ==> final(self).total_bytes == old(self).total_bytes,
            !r ==> errors_view(final(self).report) == errors_view(old(self).report).push(
                "skipped "@ + entry_path@ + ": exceeds restore size limits"@,
            ),
            final(self).report.settings_restored == old(self).report.settings_restored,
            final(self).report.history_restored == old(self).report.history_restored,
            final(self).report.recordings_restored == old(self).report.recordings_restored,
            final(self).report.restart_required == old(self).report.restart_required,
    {
        let total = self.total_bytes.saturating_add(size);
        if size > MAX_ENTRY_BYTES || total > MAX_TOTAL_BYTES {
            let mut msg = String::new();
            msg.append("skipped ");
            msg.append(entry_path);
            msg.append(": exceeds restore size limits");
            let ghost before = errors_view(self.report);
            self.report.errors.push(msg);
            proof {
                assert(errors_view(self.report) =~= before.push(
                    "skipped "@ + entry_path@ + ": exceeds restore size limits"@,
                ));
            }
            return false;
        }
        self.total_bytes = total;
        true
    }

    /// Admit an archive entry (see [`admit_spec`]): whether to write it.
    pub fn admit_entry(
        &mut self,
        target: &Option<RestoreTarget>,
        entry_path: &str,
        size: u64,
        include_config: bool,
        include_recordings: bool,
    ) -> (r: bool)
        ensures
            (progress_view(*final(self)), r) == admit_spec(
                progress_view(*old(self)),
                opt_target_view(*target),
                entry_path@,
                size,
                include_config,
                include_recordings,
            ),
            final(self).report.restart_required == old(self).report.restart_required,
    {
        match target {
            None => false,
            Some(t) => {
                if !self.accept_size(entry_path, size) {
                    return false;
                }
                Self::wanted(t, include_config, include_recordings)
            },
        }
    }

    /// Whether `target` is restored under the two switches.
    pub fn wanted(target: &RestoreTarget, include_config: bool, include_recordings: bool) -> (r: bool)
        ensures
            r == wanted_spec(target_view(*target), include_config, include_recordings),
    {
        match target {
            RestoreTarget::Settings => include_config,
            RestoreTarget::History => include_config,
            RestoreTarget::Recording(_) => include_recordings,
        }
    }

    /// Record the outcome of writing `target`: a success sets its flag or
    /// counts the recording, a failure is added to the errors.
    pub fn record(&mut self, target: &RestoreTarget, outcome: Result<(), String>)
        requires
            old(self).report.recordings_restored < u32::MAX,
        ensures
            final(self).total_bytes == old(self).total_bytes,
            final(self).report.restart_required == old(self).report.restart_required,
            record_effect(old(self).report, final(self).report, target_view(*target), outcome is Ok),
            progress_view(*final(self)) == record_spec(
                progress_view(*old(self)),
                target_view(*target),
                match outcome {
                    Ok(()) => Ok(()),
                    Err(e) => Err(e@),
                },
            ),
            match outcome {
                Ok(()) => {
                    &&& errors_view(final(self).report) == errors_view(old(self).report)
                    &&& final(self).report.settings_restored == (old(self).report.settings_restored
                        || target is Settings)
                    &&& final(self).report.history_restored == (old(self).report.history_restored
                        || target is History)
                    &&& final(self).report.recordings_restored == old(self).report.recordings_restored
                        + if target is Recording { 1int } else { 0int }
                },
                Err(e) => {
                    &&& errors_view(final(self).report) == errors_view(old(self).report).push(
                        failure_text(target_view(*target), e@),
                    )
                    &&& final(self).report.settings_restored == old(self).report.settings_restored
                    &&& final(self).report.history_restored == old(self).report.history_restored
                    &&& final(self).report.recordings_restored == old(self).report.recordings_restored
                },
            },
    {
        match outcome {
            Ok(()) => match target {
                RestoreTarget::Settings => {
                    self.report.settings_restored = true;
                },
                RestoreTarget::History => {
                    self.report.history_restored = true;
                },
                RestoreTarget::Recording(_) => {
                    self.report.recordings_restored = self.report.recordings_restored + 1;
                },
            },
            Err(e) => {
                let mut msg = String::new();
                match target {
                    RestoreTarget::Settings => {
                        msg.append("settings: ");
                    },
                    RestoreTarget::History => {
                        msg.append("history: ");
                    },
                    RestoreTarget::Recording(name) => {
                        msg.append("recording ");
                        msg.append(name.as_str());
                        msg.append(": ");
                    },
                }
                msg.append(e.as_str());
                let ghost before = errors_view(self.report);
                self.report.errors.push(msg);
                proof {
                    assert(errors_view(self.report) =~= before.push(
                        failure_text(target_view(*target), e@),
                    ));
                }
            },
        }
    }

    /// The final report: a restart is required exactly when settings or
    /// history were replaced.
    pub fn finish(self) -> (r: RestoreReport)
        ensures
            r.settings_restored == self.report.settings_restored,
            r.history_restored == self.report.history_restored,
            r.recordings_restored == self.report.recordings_restored,
            r.restart_required == (self.report.settings_restored || self.report.history_restored),
            errors_view(r) == errors_view(self.report),
    {
        let mut report = self.report;
        report.restart_required = report.settings_restored || report.history_restored;
        report
    }
}

} // verus!
