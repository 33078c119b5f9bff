//! Decisions of the transcription pipeline: take cancellation, the plan a
//! recording is finished with, the assembly of chunk transcripts, the
//! post-processing request and the clean-up of its response, Chinese
//! variant conversion, how a take ends (its final text, its history row,
//! its delivery), and what follows a paste.
use crate::prompt::{
    clean_model_output, build_system_prompt, build_transcript_user_message, remove_think_blocks, strip_invisible_chars,
    strip_thinking_tags, system_prompt_spec, trim, user_message_spec,
    without_invisible,
};
use crate::prompt::trim_chars;
use crate::text::{chars_of, str_eq, string_of};
use ferrous_opencc::config::BuiltinConfig;
use ferrous_opencc::OpenCC;
use std::collections::BTreeMap;
use vstd::laws_cmp::obeys_cmp;
use vstd::std_specs::cmp::OrdSpec;
use vstd::std_specs::btree::{increasing_seq, key_obeys_cmp_spec};
use vstd::std_specs::iter::IteratorSpec;
use vstd::prelude::*;
use vstd::relations::total_ordering;

verus! {

/// The take-cancellation generation: each take snapshots it when it stops;
/// a Cancel bumps it; a take re-checks its snapshot right before pasting and
/// before its deferred action.
pub struct TakeGeneration {
    generation: u64,
}

impl View for TakeGeneration {
    type V = u64;

    closed spec fn view(&self) -> u64 {
        self.generation
    }
}

impl TakeGeneration {
    pub fn new() -> (r: Self)
        ensures
            r@ == 0,
    {
        TakeGeneration { generation: 0 }
    }
}

/// Snapshot the current take generation.
pub fn snapshot_take_generation(takes: &TakeGeneration) -> (r: u64)
    ensures
        r == takes@,
{
    takes.generation
}

/// Invalidate every in-flight take's snapshot (a Cancel).
pub fn cancel_take_generation(takes: &mut TakeGeneration)
    ensures
        final(takes)@ == vstd::wrapping::u64_specs::wrapping_add(old(takes)@, 1),
        final(takes)@ == after_cancels(old(takes)@, 1),
{
    takes.generation = takes.generation.wrapping_add(1);
    proof {
        assert(after_cancels(old(takes)@, 0) == old(takes)@);
    }
}

/// Whether `snapshot` is still current (no Cancel since it was taken).
pub fn take_generation_current(takes: &TakeGeneration, snapshot: u64) -> (r: bool)
    ensures
        r == (takes@ == snapshot),
{
    takes.generation == snapshot
}

/// The take generation after `k` Cancels starting from `g`.
pub open spec fn after_cancels(g: u64, k: nat) -> u64
    decreases k,
{
    if k == 0 {
        g
    } else {
        vstd::wrapping::u64_specs::wrapping_add(after_cancels(g, (k - 1) as nat), 1)
    }
}

proof fn lemma_after_cancels_value(g: u64, k: nat)
    ensures
        after_cancels(g, k) == (g + k) % 0x1_0000_0000_0000_0000,
    decreases k,
{
    if k > 0 {
        lemma_after_cancels_value(g, (k - 1) as nat);
        let p = after_cancels(g, (k - 1) as nat);
        assert(vstd::wrapping::u64_specs::wrapping_add(p, 1) == (p + 1) % 0x1_0000_0000_0000_0000);
        vstd::arithmetic::div_mod::lemma_add_mod_noop(g + (k - 1), 1, 0x1_0000_0000_0000_0000);
        vstd::arithmetic::div_mod::lemma_small_mod(1, 0x1_0000_0000_0000_0000);
    }
}

/// A snapshot reads as current exactly when no Cancel came after it: after
/// one or more Cancels (fewer than the 2^64 that would wrap the counter
/// back) it is stale, while a snapshot taken after them is current.
pub proof fn lemma_cancel_invalidates_snapshots(before: u64, cancels: nat)
    requires
        0 < cancels < 0x1_0000_0000_0000_0000,
    ensures
        after_cancels(before, cancels) != before,
        after_cancels(before, 0) == before,
{
    lemma_after_cancels_value(before, cancels);
    vstd::arithmetic::div_mod::lemma_small_mod(before as nat, 0x1_0000_0000_0000_0000);
    if before + cancels < 0x1_0000_0000_0000_0000 {
        vstd::arithmetic::div_mod::lemma_small_mod((before + cancels) as nat, 0x1_0000_0000_0000_0000);
    } else {
        let x = (before + cancels) as int;
        vstd::arithmetic::div_mod::lemma_fundamental_div_mod_converse_mod(
            x,
            0x1_0000_0000_0000_0000int,
            1,
            x - 0x1_0000_0000_0000_0000int,
        );
    }
}

/// What happens once a take's paste returned.
#[derive(Clone, Copy, Debug, PartialEq, Eq, Structural)]
pub enum AfterPaste {
    /// Run the take's deferred on-finish action.
    RunPostTakeAction,
    /// A Cancel landed during the paste: skip the deferred action.
    SkipCancelled,
    /// The paste failed: park the text and tell the user.
    ReportFailure,
}

/// The step after a paste: a failure is reported; a success runs the
/// deferred action only if the take was not cancelled meanwhile.
pub fn after_paste(paste_ok: bool, still_current: bool) -> (r: AfterPaste)
    ensures
        r == if !paste_ok {
            AfterPaste::ReportFailure
        } else if still_current {
            AfterPaste::RunPostTakeAction
        } else {
            AfterPaste::SkipCancelled
        },
{
    if !paste_ok {
        AfterPaste::ReportFailure
    } else if still_current {
        AfterPaste::RunPostTakeAction
    } else {
        AfterPaste::SkipCancelled
    }
}

/// How a recording is finished, decided when it starts.
#[derive(Clone, Copy, Debug, PartialEq, Eq, Structural)]
pub struct RecordingPlan {
    /// Live (progressive) transcription.
    pub live: bool,
    /// Chunked crash-safe recording transcribed chunk by chunk.
    pub chunked: bool,
    pub crash_safe: bool,
}

/// The engine id of the API transcription model.
pub const API_MODEL: &'static str = "api-whisper";

/// The engine id of the OpenRouter transcription model.
pub const OPENROUTER_MODEL: &'static str = "openrouter-transcription";

/// The plan of a recording: live only in live mode and never for the API or
/// OpenRouter engines (OpenRouter must not stream mid-recording); chunked
/// when not live, crash-resilient recording is on, and the engine is not
/// the API one.
pub open spec fn plan_spec(live_mode: bool, model: Seq<char>, crash_resilient: bool) -> RecordingPlan {
    let is_api = model == API_MODEL@;
    let is_openrouter = model == OPENROUTER_MODEL@;
    let live = live_mode && !is_api && !is_openrouter;
    RecordingPlan { live, chunked: !live && crash_resilient && !is_api, crash_safe: crash_resilient }
}

/// Plan a recording. `live_mode` is the transcription mode of the pressed
/// binding (push-to-talk or toggle).
pub fn plan_recording(live_mode: bool, selected_model: &str, crash_resilient: bool) -> (r: RecordingPlan)
    ensures
        r == plan_spec(live_mode, selected_model@, crash_resilient),
{
    let is_api = str_eq(selected_model, API_MODEL);
    let is_openrouter = str_eq(selected_model, OPENROUTER_MODEL);
    let live = live_mode && !is_api && !is_openrouter;
    RecordingPlan { live, chunked: !live && crash_resilient && !is_api, crash_safe: crash_resilient }
}

/// The plan a stop finishes with: the one its start made, or (defensively,
/// when none was recorded) one derived from the current settings.
pub fn plan_at_stop(
    plan: Option<RecordingPlan>,
    live_mode: bool,
    selected_model: &str,
    crash_resilient: bool,
) -> (r: RecordingPlan)
    ensures
        r == match plan {
            Some(p) => p,
            None => {
                let fallback_live = selected_model@ != OPENROUTER_MODEL@ && live_mode;
                let is_api = selected_model@ == API_MODEL@;
                RecordingPlan {
                    live: fallback_live,
                    chunked: crash_resilient && !fallback_live && !is_api,
                    crash_safe: crash_resilient,
                }
            },
        },
{
    match plan {
        Some(p) => p,
        None => {
            let is_openrouter = str_eq(selected_model, OPENROUTER_MODEL);
            let fallback_live = !is_openrouter && live_mode;
            let is_api = str_eq(selected_model, API_MODEL);
            RecordingPlan {
                live: fallback_live,
                chunked: crash_resilient && !fallback_live && !is_api,
                crash_safe: crash_resilient,
            }
        },
    }
}

/// Whether a chunked session defers transcription to one request on stop
/// (OpenRouter: nothing goes over the network mid-recording).
pub fn session_deferred(selected_model: &str) -> (r: bool)
    ensures
        r == (selected_model@ == OPENROUTER_MODEL@),
{
    str_eq(selected_model, OPENROUTER_MODEL)
}


/// Whether `s` is strictly increasing.
pub open spec fn ascending(s: Seq<usize>) -> bool {
    forall|i: int, j: int| 0 <= i < j < s.len() ==> s[i] < s[j]
}

/// The chunk indexes recorded in `m`, in increasing order.
pub open spec fn indexes_in_order(m: Map<usize, Option<String>>) -> Seq<usize> {
    choose|s: Seq<usize>| ascending(s) && s.to_set() == m.dom()
}

/// The transcripts recorded in `m`, in chunk-index order.
pub open spec fn transcripts_in_order(m: Map<usize, Option<String>>) -> Seq<Option<String>> {
    indexes_in_order(m).map_values(|k: usize| m[k])
}

/// The non-empty transcripts of `e`, in order, joined by single spaces.
pub open spec fn joined(e: Seq<Option<String>>) -> Seq<char>
    decreases e.len(),
{
    if e.len() == 0 {
        Seq::empty()
    } else {
        let rest = joined(e.drop_last());
        match e.last() {
            Some(t) => if t@.len() == 0 {
                rest
            } else if rest.len() == 0 {
                t@
            } else {
                rest + seq![' '] + t@
            },
            None => rest,
        }
    }
}

/// Two increasing sequences with the same elements are the same sequence.
proof fn lemma_ascending_unique(s: Seq<usize>, t: Seq<usize>)
    requires
        ascending(s),
        ascending(t),
        s.to_set() == t.to_set(),
    ensures
        s == t,
    decreases s.len(),
{
    if s.len() == 0 {
        if t.len() > 0 {
            assert(t.to_set().contains(t[0]));
        }
    } else if t.len() == 0 {
        assert(s.to_set().contains(s[0]));
    } else {
        let a = s.last();
        let b = t.last();
        assert(s.to_set().contains(a));
        assert(t.to_set().contains(b));
        let ka = choose|k: int| 0 <= k < t.len() && t[k] == a;
        let kb = choose|k: int| 0 <= k < s.len() && s[k] == b;
        assert(t[ka] <= b) by {
            if ka < t.len() - 1 {
                assert(t[ka] < t[t.len() - 1]);
            }
        }
        assert(s[kb] <= a) by {
            if kb < s.len() - 1 {
                assert(s[kb] < s[s.len() - 1]);
            }
        }
        assert(a == b);
        let s2 = s.drop_last();
        let t2 = t.drop_last();
        assert(ascending(s2));
        assert(ascending(t2));
        assert forall|x: usize| s2.to_set().contains(x) == t2.to_set().contains(x) by {
            if s2.to_set().contains(x) {
                let i = choose|i: int| 0 <= i < s2.len() && s2[i] == x;
                assert(s[i] == x && s[i] < a);
                assert(s.to_set().contains(x));
                let j = choose|j: int| 0 <= j < t.len() && t[j] == x;
                assert(j != t.len() - 1);
                assert(t2[j] == x);
                assert(t2.to_set().contains(x));
            }
            if t2.to_set().contains(x) {
                let i = choose|i: int| 0 <= i < t2.len() && t2[i] == x;
                assert(t[i] == x && t[i] < b);
                assert(t.to_set().contains(x));
                let j = choose|j: int| 0 <= j < s.len() && s[j] == x;
                assert(j != s.len() - 1);
                assert(s2[j] == x);
                assert(s2.to_set().contains(x));
            }
        }
        assert(s2.to_set() =~= t2.to_set());
        lemma_ascending_unique(s2, t2);
        assert(s =~= s2.push(a));
        assert(t =~= t2.push(b));
    }
}

/// The chunk indexes of `m` in increasing order are exactly the increasing
/// sequence holding them: chunks are joined in index order whatever order
/// they completed in.
pub proof fn lemma_indexes_in_order(m: Map<usize, Option<String>>, s: Seq<usize>)
    requires
        ascending(s),
        s.to_set() == m.dom(),
    ensures
        indexes_in_order(m) == s,
{
    let chosen = indexes_in_order(m);
    assert(ascending(chosen) && chosen.to_set() == m.dom());
    lemma_ascending_unique(chosen, s);
}

/// Every finite set of chunk indexes can be listed in increasing order.
proof fn lemma_ascending_exists(d: Set<usize>) -> (s: Seq<usize>)
    requires
        d.finite(),
    ensures
        ascending(s),
        s.to_set() == d,
    decreases d.len(),
{
    if d.len() == 0 {
        assert(d =~= Set::<usize>::empty());
        assert(Seq::<usize>::empty().to_set() =~= d);
        Seq::empty()
    } else {
        let leq = |a: usize, b: usize| a <= b;
        assert(total_ordering(leq));
        d.find_unique_maximal_ensures(leq);
        let top = d.find_unique_maximal(leq);
        assert forall|x: usize| #[trigger] d.contains(x) implies x <= top by {
            assert(leq(x, top) || leq(top, x));
            assert(leq(top, x) ==> leq(x, top));
        }
        let rest = lemma_ascending_exists(d.remove(top));
        let s = rest.push(top);
        assert forall|i: int, j: int| 0 <= i < j < s.len() implies s[i] < s[j] by {
            if j == s.len() - 1 {
                assert(rest.to_set().contains(rest[i]));
                assert(d.contains(s[i]) && s[i] != top);
            } else {
                assert(s[i] == rest[i] && s[j] == rest[j]);
            }
        }
        assert forall|x: usize| s.to_set().contains(x) == d.contains(x) by {
            if x == top {
                assert(s[s.len() - 1] == x);
            } else if d.contains(x) {
                assert(rest.to_set().contains(x));
                let i = choose|i: int| 0 <= i < rest.len() && rest[i] == x;
                assert(s[i] == x);
            }
            if s.to_set().contains(x) {
                let i = choose|i: int| 0 <= i < s.len() && s[i] == x;
                if i < s.len() - 1 {
                    assert(rest[i] == x);
                    assert(rest.to_set().contains(x));
                }
            }
        }
        assert(s.to_set() =~= d);
        s
    }
}

/// The assembled text of `e` has the assembled text of `e` minus its last
/// chunk as a prefix.
proof fn lemma_joined_prefix(e: Seq<Option<String>>)
    requires
        e.len() > 0,
    ensures
        joined(e.drop_last()).len() <= joined(e).len(),
        joined(e).subrange(0, joined(e.drop_last()).len() as int) == joined(e.drop_last()),
{
    let r = joined(e.drop_last());
    assert(r.subrange(0, r.len() as int) =~= r);
    assert((r + seq![' '] + e.last()->0@).subrange(0, r.len() as int) =~= r);
}

/// Every non-empty transcript of `e` appears, whole, in the assembled text.
proof fn lemma_joined_contains(e: Seq<Option<String>>, j: int, t: String)
    requires
        0 <= j < e.len(),
        e[j] == Some(t),
        t@.len() > 0,
    ensures
        exists|i: int|
            0 <= i && i + t@.len() <= joined(e).len() && #[trigger] joined(e).subrange(i, i + t@.len()) == t@,
    decreases e.len(),
{
    let r = joined(e.drop_last());
    if j == e.len() - 1 {
        assert(e.last() == Some(t));
        if r.len() == 0 {
            assert(joined(e) == t@);
            let i: int = 0;
            assert(joined(e).subrange(i, i + t@.len()) =~= t@);
        } else {
            let x = r + seq![' '] + t@;
            assert(joined(e) == x);
            let i: int = r.len() + 1int;
            assert(joined(e).subrange(i, i + t@.len()) =~= t@);
        }
    } else {
        assert(e.drop_last()[j] == e[j]);
        lemma_joined_contains(e.drop_last(), j, t);
        lemma_joined_prefix(e);
        let i = choose|i: int|
            0 <= i && i + t@.len() <= r.len() && #[trigger] r.subrange(i, i + t@.len()) == t@;
        let p = joined(e).subrange(0, r.len() as int);
        assert(p == r);
        assert forall|q: int| 0 <= q < t@.len() implies joined(e).subrange(i, i + t@.len())[q] == t@[q] by {
            assert(p[i + q] == joined(e)[i + q]);
            assert(r.subrange(i, i + t@.len())[q] == r[i + q]);
        }
        assert(joined(e).subrange(i, i + t@.len()) =~= t@);
    }
}

/// Recording a chunk after every chunk recorded so far extends the
/// assembled text by that chunk's transcript: preceded by one space when
/// text came before, and not at all when the chunk produced no text.
pub proof fn lemma_later_chunk_appends(m: Map<usize, Option<String>>, k: usize, text: Option<String>)
    requires
        m.dom().finite(),
        forall|j: usize| #[trigger] m.contains_key(j) ==> j < k,
    ensures
        ({
            let before = joined(transcripts_in_order(m));
            let after = joined(transcripts_in_order(m.insert(k, text)));
            match text {
                Some(t) => if t@.len() == 0 {
                    after == before
                } else if before.len() == 0 {
                    after == t@
                } else {
                    after == before + seq![' '] + t@
                },
                None => after == before,
            }
        }),
{
    let s = lemma_ascending_exists(m.dom());
    lemma_indexes_in_order(m, s);
    let m2 = m.insert(k, text);
    let s2 = s.push(k);
    assert forall|i: int, j: int| 0 <= i < j < s2.len() implies s2[i] < s2[j] by {
        if j == s2.len() - 1 {
            assert(s.to_set().contains(s[i]));
        } else {
            assert(s2[i] == s[i] && s2[j] == s[j]);
        }
    }
    assert forall|x: usize| s2.to_set().contains(x) == m2.dom().contains(x) by {
        if x == k {
            assert(s2[s2.len() - 1] == x);
        } else if m.dom().contains(x) {
            assert(s.to_set().contains(x));
            let i = choose|i: int| 0 <= i < s.len() && s[i] == x;
            assert(s2[i] == x);
        }
        if s2.to_set().contains(x) && x != k {
            let i = choose|i: int| 0 <= i < s2.len() && s2[i] == x;
            assert(s[i] == x);
            assert(s.to_set().contains(x));
        }
    }
    assert(s2.to_set() =~= m2.dom());
    lemma_indexes_in_order(m2, s2);
    let e = transcripts_in_order(m);
    let e2 = transcripts_in_order(m2);
    assert forall|i: int| 0 <= i < s.len() implies s[i] != k by {
        assert(s.to_set().contains(s[i]));
    }
    assert(e2.drop_last() =~= e);
    assert(e2.last() == text);
}

/// Every chunk that produced text has that text, whole, in the assembled
/// transcript.
pub proof fn lemma_assembled_holds_every_transcript(m: Map<usize, Option<String>>, k: usize, t: String)
    requires
        m.dom().finite(),
        m.contains_key(k),
        m[k] == Some(t),
        t@.len() > 0,
    ensures
        exists|i: int|
            0 <= i && i + t@.len() <= joined(transcripts_in_order(m)).len()
                && #[trigger] joined(transcripts_in_order(m)).subrange(i, i + t@.len()) == t@,
{
    let s = lemma_ascending_exists(m.dom());
    lemma_indexes_in_order(m, s);
    assert(s.to_set().contains(k));
    let j = choose|j: int| 0 <= j < s.len() && s[j] == k;
    let e = transcripts_in_order(m);
    assert(e[j] == Some(t));
    lemma_joined_contains(e, j, t);
}

/// `usize` chunk indexes are ordered as the map expects.
proof fn lemma_index_keys_obey_order()
    ensures
        key_obeys_cmp_spec::<usize>(),
{
    assert(obeys_cmp::<usize>());
}

/// Keys handed out in the map's increasing order are ascending.
proof fn lemma_index_keys_ascending(s: Seq<usize>)
    requires
        increasing_seq(s),
    ensures
        ascending(s),
{
    assert(obeys_cmp::<usize>());
    assert forall|i: int, j: int| 0 <= i < j < s.len() implies s[i] < s[j] by {
        assert(s[i].cmp_spec(&s[j]) is Less);
    }
}

/// Chunk transcripts may complete in any order: recording the transcripts
/// of two different chunks gives the same transcripts either way round.
pub proof fn lemma_transcripts_commute(
    m: Map<usize, Option<String>>,
    i: usize,
    x: Option<String>,
    j: usize,
    y: Option<String>,
)
    requires
        i != j,
    ensures
        m.insert(i, x).insert(j, y) == m.insert(j, y).insert(i, x),
        transcripts_in_order(m.insert(i, x).insert(j, y)) == transcripts_in_order(m.insert(j, y).insert(i, x)),
{
    assert(m.insert(i, x).insert(j, y) =~= m.insert(j, y).insert(i, x));
}

/// A chunk's transcript recorded twice keeps the later one.
pub proof fn lemma_transcript_rewrite(m: Map<usize, Option<String>>, i: usize, x: Option<String>, y: Option<String>)
    ensures
        m.insert(i, x).insert(i, y) == m.insert(i, y),
        transcripts_in_order(m.insert(i, x).insert(i, y)) == transcripts_in_order(m.insert(i, y)),
{
    assert(m.insert(i, x).insert(i, y) =~= m.insert(i, y));
}

/// Per-chunk transcripts of a chunked recording, keyed by chunk index
/// (`None`: the chunk produced no text). Completion order is irrelevant:
/// the map keeps them in index order.
pub struct ChunkTranscripts {
    transcripts: BTreeMap<usize, Option<String>>,
}

impl View for ChunkTranscripts {
    type V = Map<usize, Option<String>>;

    closed spec fn view(&self) -> Map<usize, Option<String>> {
        self.transcripts@
    }
}

impl ChunkTranscripts {
    pub fn new() -> (r: Self)
        ensures
            r@ == Map::<usize, Option<String>>::empty(),
    {
        ChunkTranscripts { transcripts: BTreeMap::new() }
    }

    /// Record chunk `index`'s transcript, replacing an earlier one for the
    /// same index.
    pub fn insert(&mut self, index: usize, text: Option<String>)
        ensures
            final(self)@ == old(self)@.insert(index, text),
    {
        self.transcripts.insert(index, text);
    }

    /// Join the chunk transcripts in chunk-index order with single spaces,
    /// skipping chunks that produced no text.
    pub fn assemble(&self) -> (r: String)
        ensures
            r@ == joined(transcripts_in_order(self@)),
    {
        let mut out = String::new();
        let values = self.transcripts.values();
        let ghost m = self@;
        let ghost all: Seq<Option<String>> = transcripts_in_order(m);
        proof {
            lemma_index_keys_obey_order();
            let key_seq = choose|key_seq: Seq<usize>|
                {
                    &&& increasing_seq(key_seq)
                    &&& key_seq.to_set() == m.dom()
                    &&& key_seq.no_duplicates()
                    &&& IteratorSpec::remaining(&values) == key_seq.map(|i: int, k| &m[k])
                };
            lemma_index_keys_ascending(key_seq);
            let chosen = indexes_in_order(m);
            assert(ascending(chosen) && chosen.to_set() == m.dom());
            lemma_ascending_unique(chosen, key_seq);
            assert(values.remaining().unref() =~= all);
        }
        let ghost mut done: Seq<Option<String>> = Seq::empty();
        for t in it: values
            invariant
                it.seq().unref() == all,
                done == all.subrange(0, it.index()),
                out@ == joined(done),
            ensures
                done == all,
        {
            proof {
                assert(all.subrange(0, it.index() + 1).drop_last() =~= done);
            }
            match t {
                Some(t) => {
                    if !t.as_str().is_empty() {
                        if !out.as_str().is_empty() {
                            out.push(' ');
                        }
                        out.append(t.as_str());
                    }
                },
                None => {},
            }
            proof {
                done = all.subrange(0, it.index() + 1);
            }
        }
        out
    }
}


/// Whether the trimmed `s` is empty (it holds only white space).
pub fn is_blank(s: &str) -> (r: bool)
    ensures
        r == (trim(s@).len() == 0),
{
    let c = chars_of(s);
    trim_chars(c.as_slice()).len() == 0
}

/// The engine label stored with a history entry: the OpenRouter model (or
/// its default) for OpenRouter, the API model (or plain "API") for the API
/// engine, else the local model's name (its id when the name is unknown);
/// `None` when no model is selected.
pub open spec fn model_label_spec(
    selected_model: Seq<char>,
    openrouter_model: Seq<char>,
    api_model: Seq<char>,
    local_name: Option<Seq<char>>,
) -> Option<Seq<char>> {
    if selected_model.len() == 0 {
        None
    } else if selected_model == OPENROUTER_MODEL@ {
        let m = trim(openrouter_model);
        let m = if m.len() == 0 {
            "openai/whisper-large-v3"@
        } else {
            m
        };
        Some(m + " — OpenRouter"@)
    } else if selected_model == API_MODEL@ {
        let m = trim(api_model);
        if m.len() == 0 {
            Some("API"@)
        } else {
            Some(m + " — API"@)
        }
    } else {
        let name = match local_name {
            Some(n) => n,
            None => selected_model,
        };
        Some(name + " — local"@)
    }
}

/// Label the engine/model a take was transcribed with.
pub fn model_label(
    selected_model: &str,
    openrouter_model: &str,
    api_model: &str,
    local_name: Option<String>,
) -> (r: Option<String>)
    ensures
        match r {
            Some(l) => model_label_spec(
                selected_model@,
                openrouter_model@,
                api_model@,
                match local_name {
                    Some(n) => Some(n@),
                    None => None,
                },
            ) == Some(l@),
            None => model_label_spec(
                selected_model@,
                openrouter_model@,
                api_model@,
                match local_name {
                    Some(n) => Some(n@),
                    None => None,
                },
            ) is None,
        },
{
    if selected_model.is_empty() {
        return None;
    }
    if str_eq(selected_model, OPENROUTER_MODEL) {
        let m = trim_chars(chars_of(openrouter_model).as_slice());
        let mut label = if m.len() == 0 {
            "openai/whisper-large-v3".to_owned()
        } else {
            string_of(m.as_slice())
        };
        label.append(" — OpenRouter");
        return Some(label);
    }
    if str_eq(selected_model, API_MODEL) {
        let m = trim_chars(chars_of(api_model).as_slice());
        if m.len() == 0 {
            return Some("API".to_owned());
        }
        let mut label = string_of(m.as_slice());
        label.append(" — API");
        return Some(label);
    }
    let mut label = match local_name {
        Some(n) => n,
        None => selected_model.to_owned(),
    };
    label.append(" — local");
    Some(label)
}

/// A configured post-processing provider.
#[derive(Clone, Debug)]
pub struct PostProcessProvider {
    pub id: String,
    pub model: String,
    pub base_url: String,
    pub api_key: String,
    pub supports_structured_output: bool,
}

/// A saved post-processing prompt.
#[derive(Clone, Debug)]
pub struct PostProcessPrompt {
    pub id: String,
    pub prompt: String,
}

/// Why post-processing is skipped.
#[derive(Clone, Copy, Debug, PartialEq, Eq, Structural)]
pub enum PostProcessSkip {
    NoProvider,
    NoModel,
    NoPromptSelected,
    PromptNotFound,
    EmptyPrompt,
}

/// The chat request post-processing sends: trusted instructions as the
/// system message, the transcript as delimited data in the user message.
pub struct PostProcessRequest {
    pub system_prompt: String,
    pub user_content: String,
    /// Ask for structured (JSON schema) output first.
    pub structured: bool,
}

/// Index of the first prompt whose id is `id`.
pub open spec fn prompt_index(prompts: Seq<PostProcessPrompt>, id: Seq<char>) -> Option<int>
    decreases prompts.len(),
{
    if prompts.len() == 0 {
        None
    } else {
        match prompt_index(prompts.drop_last(), id) {
            Some(i) => Some(i),
            None => if prompts.last().id@ == id {
                Some(prompts.len() - 1)
            } else {
                None
            },
        }
    }
}

proof fn lemma_prompt_index(prompts: Seq<PostProcessPrompt>, id: Seq<char>)
    ensures
        prompt_index(prompts, id) matches Some(i) ==> 0 <= i < prompts.len() && prompts[i].id@ == id,
    decreases prompts.len(),
{
    if prompts.len() > 0 {
        lemma_prompt_index(prompts.drop_last(), id);
    }
}

/// Index of the first prompt whose id is `id`.
fn find_prompt(prompts: &[PostProcessPrompt], id: &str) -> (r: Option<usize>)
    ensures
        match r {
            Some(f) => prompt_index(prompts@, id@) == Some(f as int),
            None => prompt_index(prompts@, id@) is None,
        },
        r matches Some(f) ==> f < prompts@.len() && prompts@[f as int].id@ == id@,
{
    let mut found: Option<usize> = None;
    let mut k: usize = 0;
    while k < prompts.len()
        invariant
            k <= prompts@.len(),
            match found {
                Some(f) => prompt_index(prompts@.subrange(0, k as int), id@) == Some(f as int),
                None => prompt_index(prompts@.subrange(0, k as int), id@) is None,
            },
        decreases prompts@.len() - k,
    {
        proof {
            let t = prompts@.subrange(0, k as int + 1);
            assert(t.drop_last() =~= prompts@.subrange(0, k as int));
        }
        if found.is_none() && str_eq(prompts[k].id.as_str(), id) {
            found = Some(k);
        }
        k = k + 1;
    }
    proof {
        assert(prompts@.subrange(0, prompts@.len() as int) =~= prompts@);
        lemma_prompt_index(prompts@, id@);
    }
    found
}

/// Whether post-processing runs and with which prompt: a provider must be
/// selected and have a model, a prompt must be selected, exist and be
/// non-blank.
pub open spec fn post_process_prompt(
    provider: Option<PostProcessProvider>,
    selected_prompt_id: Option<Seq<char>>,
    prompts: Seq<PostProcessPrompt>,
) -> Result<Seq<char>, PostProcessSkip> {
    match provider {
        None => Err(PostProcessSkip::NoProvider),
        Some(p) => if trim(p.model@).len() == 0 {
            Err(PostProcessSkip::NoModel)
        } else {
            match selected_prompt_id {
                None => Err(PostProcessSkip::NoPromptSelected),
                Some(id) => match prompt_index(prompts, id) {
                    None => Err(PostProcessSkip::PromptNotFound),
                    Some(i) => if trim(prompts[i].prompt@).len() == 0 {
                        Err(PostProcessSkip::EmptyPrompt)
                    } else {
                        Ok(prompts[i].prompt@)
                    },
                },
            }
        },
    }
}

/// Build the post-processing request for `transcription`, or say why it is
/// skipped.
pub fn plan_post_process(
    provider: Option<&PostProcessProvider>,
    selected_prompt_id: Option<&str>,
    prompts: &[PostProcessPrompt],
    transcription: &str,
) -> (r: Result<PostProcessRequest, PostProcessSkip>)
    ensures
        ({
            let p = match provider {
                Some(p) => Some(*p),
                None => None,
            };
            let id = match selected_prompt_id {
                Some(i) => Some(i@),
                None => None,
            };
            match (r, post_process_prompt(p, id, prompts@)) {
                (Ok(req), Ok(prompt)) => {
                    &&& req.system_prompt@ == system_prompt_spec(prompt)
                    &&& req.user_content@ == user_message_spec(transcription@)
                    &&& req.structured == p->0.supports_structured_output
                },
                (Err(e), Err(f)) => e == f,
                _ => false,
            }
        }),
{
    let provider = match provider {
        Some(p) => p,
        None => return Err(PostProcessSkip::NoProvider),
    };
    if is_blank(provider.model.as_str()) {
        return Err(PostProcessSkip::NoModel);
    }
    let id = match selected_prompt_id {
        Some(i) => i,
        None => return Err(PostProcessSkip::NoPromptSelected),
    };
    let found = find_prompt(prompts, id);
    let prompt = match found {
        Some(f) => &prompts[f],
        None => return Err(PostProcessSkip::PromptNotFound),
    };
    if is_blank(prompt.prompt.as_str()) {
        return Err(PostProcessSkip::EmptyPrompt);
    }
    Ok(
        PostProcessRequest {
            system_prompt: build_system_prompt(prompt.prompt.as_str()),
            user_content: build_transcript_user_message(transcription),
            structured: provider.supports_structured_output,
        },
    )
}


/// The string value of field `field` in the JSON object `text` (`None` when
/// `text` is not JSON or the field is missing or not a string), as
/// serde_json reads it.
pub uninterp spec fn json_string_field(text: Seq<char>, field: Seq<char>) -> Option<Seq<char>>;

/// `serde_json::from_str::<Value>(text)`, then the field `field` as a
/// string. Only names the result as a function of the two strings.
#[verifier::external_body]
pub(crate) fn json_string_field_of(text: &str, field: &str) -> (r: Option<String>)
    ensures
        match r {
            Some(s) => json_string_field(text@, field@) == Some(s@),
            None => json_string_field(text@, field@) is None,
        },
{
    match serde_json::from_str::<serde_json::Value>(text) {
        Ok(value) => match value.get(field) {
            Some(v) => v.as_str().map(|s| s.to_owned()),
            None => None,
        },
        Err(_) => None,
    }
}

/// The field structured post-processing output carries its text in.
pub const TRANSCRIPTION_FIELD: &'static str = "transcription";

/// The text of a structured-output answer: the `transcription` field when
/// the answer is JSON carrying it, else the raw answer, cleaned either way.
pub open spec fn structured_text(content: Seq<char>) -> Seq<char> {
    match json_string_field(content, TRANSCRIPTION_FIELD@) {
        Some(f) => f,
        None => content,
    }
}

/// Extract and clean the text of a structured-output answer.
pub fn structured_output_text(content: &str) -> (r: String)
    ensures
        r@ == trim(remove_think_blocks(without_invisible(structured_text(content@)))),
{
    match json_string_field_of(content, TRANSCRIPTION_FIELD) {
        Some(field) => clean_model_output(field.as_str()),
        None => clean_model_output(content),
    }
}

/// What a chat-completion request returned.
pub enum ChatReply {
    /// The answer's text.
    Content(String),
    /// The API answered without content.
    NoContent,
    /// The request failed.
    Failed,
}

/// The next move of post-processing after the structured request.
pub enum PostProcessStep {
    /// Send the plain (legacy) request, with the same system prompt and
    /// delimited transcript.
    SendLegacy,
    /// Post-processing is over with this result (`None`: keep the
    /// transcription).
    Done(Option<String>),
}

/// After the structured (JSON schema) request: an answer is read through
/// its `transcription` field and cleaned; an empty answer ends
/// post-processing without a result; a failed request falls back to the
/// legacy request.
pub fn after_structured_reply(reply: ChatReply) -> (r: PostProcessStep)
    ensures
        match reply {
            ChatReply::Content(c) => r matches PostProcessStep::Done(Some(t))
                && t@ == trim(remove_think_blocks(without_invisible(structured_text(c@)))),
            ChatReply::NoContent => r matches PostProcessStep::Done(None),
            ChatReply::Failed => r is SendLegacy,
        },
{
    match reply {
        ChatReply::Content(c) => PostProcessStep::Done(Some(structured_output_text(c.as_str()))),
        ChatReply::NoContent => PostProcessStep::Done(None),
        ChatReply::Failed => PostProcessStep::SendLegacy,
    }
}

/// After the legacy request: an answer is cleaned and is the result; no
/// content or a failure leaves the transcription as it is (`None`).
pub fn after_legacy_reply(reply: ChatReply) -> (r: Option<String>)
    ensures
        match reply {
            ChatReply::Content(c) => r matches Some(t) && t@ == trim(remove_think_blocks(without_invisible(c@))),
            _ => r is None,
        },
{
    match reply {
        ChatReply::Content(c) => Some(clean_model_output(c.as_str())),
        _ => None,
    }
}

/// The Chinese script conversion of `text` by OpenCC: Traditional (Taiwan)
/// to Simplified when `to_simplified`, else Simplified to Traditional
/// (Taiwan), character level; `None` when the converter cannot be built.
pub uninterp spec fn opencc_conversion(to_simplified: bool, text: Seq<char>) -> Option<Seq<char>>;

/// `OpenCC::from_config` with the built-in `tw2s` or `s2tw` configuration,
/// then `convert`. Only names the result as a function of the direction and
/// the text.
#[verifier::external_body]
fn opencc_convert(to_simplified: bool, text: &str) -> (r: Option<String>)
    ensures
        match r {
            Some(s) => opencc_conversion(to_simplified, text@) == Some(s@),
            None => opencc_conversion(to_simplified, text@) is None,
        },
{
    let config = if to_simplified { BuiltinConfig::Tw2s } else { BuiltinConfig::S2tw };
    match OpenCC::from_config(config) {
        Ok(converter) => Some(converter.convert(text)),
        Err(_) => None,
    }
}

/// Convert the transcript to the selected Chinese script: `zh-Hans` gets
/// Simplified, `zh-Hant` Traditional; any other language is left alone
/// (`None`), as is a transcript whose converter cannot be built.
pub fn maybe_convert_chinese_variant(selected_language: &str, transcription: &str) -> (r: Option<String>)
    ensures
        selected_language@ == "zh-Hans"@ ==> match r {
            Some(s) => opencc_conversion(true, transcription@) == Some(s@),
            None => opencc_conversion(true, transcription@) is None,
        },
        selected_language@ == "zh-Hant"@ ==> match r {
            Some(s) => opencc_conversion(false, transcription@) == Some(s@),
            None => opencc_conversion(false, transcription@) is None,
        },
        selected_language@ != "zh-Hans"@ && selected_language@ != "zh-Hant"@ ==> r is None,
{
    let is_simplified = str_eq(selected_language, "zh-Hans");
    let is_traditional = str_eq(selected_language, "zh-Hant");
    proof {
        reveal_strlit("zh-Hans");
        reveal_strlit("zh-Hant");
        assert("zh-Hans"@ != "zh-Hant"@) by {
            assert("zh-Hans"@[6] != "zh-Hant"@[6]);
        }
    }
    if !is_simplified && !is_traditional {
        return None;
    }
    opencc_convert(is_simplified, transcription)
}

/// Samples (at 16 kHz) below which a take without text is an accidental tap
/// and gets no history row: about one second.
pub const MIN_SAMPLES_TO_SAVE: u64 = 16_000;

/// The prompt text of the selected post-processing prompt, when one is
/// selected and exists.
pub open spec fn selected_prompt_text(
    selected_prompt_id: Option<Seq<char>>,
    prompts: Seq<PostProcessPrompt>,
) -> Option<Seq<char>> {
    match selected_prompt_id {
        Some(id) => match prompt_index(prompts, id) {
            Some(i) => Some(prompts[i].prompt@),
            None => None,
        },
        None => None,
    }
}

/// The text a take ends with, and what its history row records beside the
/// raw transcription.
pub struct TakeText {
    /// The text that is delivered.
    pub final_text: String,
    /// The post-processed text, or the converted text when only the Chinese
    /// script conversion changed the transcription.
    pub post_processed_text: Option<String>,
    /// The prompt that post-processing ran with.
    pub post_process_prompt: Option<String>,
}

/// The text a take ends with, from the raw `transcription`, the outcome of
/// the Chinese script conversion (`converted`) and of post-processing
/// (`processed`, which ran on the converted text): post-processed text wins
/// and is recorded with its prompt; otherwise the converted text (or the
/// transcription) is delivered, and recorded as post-processed only when it
/// differs from the transcription.
pub fn take_text(
    transcription: &str,
    converted: Option<String>,
    processed: Option<String>,
    selected_prompt_id: Option<&str>,
    prompts: &[PostProcessPrompt],
) -> (r: TakeText)
    ensures
        ({
            let base = match converted {
                Some(c) => c@,
                None => transcription@,
            };
            match processed {
                Some(p) => {
                    &&& r.final_text@ == p@
                    &&& r.post_processed_text matches Some(t) && t@ == p@
                    &&& match selected_prompt_text(
                        match selected_prompt_id {
                            Some(i) => Some(i@),
                            None => None,
                        },
                        prompts@,
                    ) {
                        Some(q) => r.post_process_prompt matches Some(t) && t@ == q,
                        None => r.post_process_prompt is None,
                    }
                },
                None => {
                    &&& r.final_text@ == base
                    &&& (base != transcription@ ==> (r.post_processed_text matches Some(t) && t@ == base))
                    &&& (base == transcription@ ==> r.post_processed_text is None)
                    &&& r.post_process_prompt is None
                },
            }
        }),
{
    let final_text = match converted {
        Some(c) => c,
        None => transcription.to_owned(),
    };
    match processed {
        Some(p) => {
            let prompt = match selected_prompt_id {
                Some(id) => match find_prompt(prompts, id) {
                    Some(f) => Some(prompts[f].prompt.clone()),
                    None => None,
                },
                None => None,
            };
            let recorded = p.clone();
            TakeText { final_text: p, post_processed_text: Some(recorded), post_process_prompt: prompt }
        },
        None => {
            let changed = !str_eq(final_text.as_str(), transcription);
            let recorded = if changed {
                Some(final_text.clone())
            } else {
                None
            };
            TakeText { final_text, post_processed_text: recorded, post_process_prompt: None }
        },
    }
}

/// How a take ends once its transcription is known.
#[derive(Clone, Copy, Debug, PartialEq, Eq, Structural)]
pub struct TakeEnd {
    /// Surface the transcription engine's failure to the user.
    pub report_failure: bool,
    /// Write a history row for the take (pointing at its audio).
    pub save_history: bool,
    /// Deliver the final text.
    pub deliver: bool,
}

/// The end of a chunked take; `None` when it produced no audio (back to
/// idle, nothing saved). An engine failure is surfaced when it left the
/// transcript empty; a history row is written unless the take is both
/// shorter than [`MIN_SAMPLES_TO_SAVE`] and textless (its files are then
/// removed); non-empty final text is delivered.
pub fn chunked_take_end(
    produced_audio: bool,
    raw_text: &str,
    engine_failed: bool,
    total_samples: u64,
    final_text: &str,
) -> (r: Option<TakeEnd>)
    ensures
        !produced_audio ==> r is None,
        produced_audio ==> r == Some(
            TakeEnd {
                report_failure: raw_text@.len() == 0 && engine_failed,
                save_history: total_samples >= MIN_SAMPLES_TO_SAVE || raw_text@.len() > 0,
                deliver: final_text@.len() > 0,
            },
        ),
{
    if !produced_audio {
        return None;
    }
    let raw_empty = raw_text.unicode_len() == 0;
    Some(
        TakeEnd {
            report_failure: raw_empty && engine_failed,
            save_history: total_samples >= MIN_SAMPLES_TO_SAVE || !raw_empty,
            deliver: final_text.unicode_len() > 0,
        },
    )
}

/// The transcription a single-shot take ends with: the full-audio pass, or,
/// when that failed, the live preview captured in live mode if it holds
/// text; otherwise the failure.
pub fn final_transcription(
    full_pass: Result<String, String>,
    use_live: bool,
    live_text: Option<String>,
) -> (r: Result<String, String>)
    ensures
        match full_pass {
            Ok(t) => r == Ok::<String, String>(t),
            Err(e) => match live_text {
                Some(l) => if use_live && l@.len() > 0 {
                    r == Ok::<String, String>(l)
                } else {
                    r == Err::<String, String>(e)
                },
                None => r == Err::<String, String>(e),
            },
        },
{
    match full_pass {
        Ok(t) => Ok(t),
        Err(e) => match live_text {
            Some(l) => if use_live && l.unicode_len() > 0 {
                Ok(l)
            } else {
                Err(e)
            },
            None => Err(e),
        },
    }
}

/// The end of a single-shot take: text is saved and delivered; an empty
/// transcript or a failure (which is surfaced) keeps only the audio, and
/// only when the take, trailing silence padding excluded
/// (`effective_samples`), reaches [`MIN_SAMPLES_TO_SAVE`].
pub fn single_shot_take_end(result: &Result<String, String>, effective_samples: u64) -> (r: TakeEnd)
    ensures
        r == match result {
            Ok(t) => if t@.len() > 0 {
                TakeEnd { report_failure: false, save_history: true, deliver: true }
            } else {
                TakeEnd { report_failure: false, save_history: effective_samples >= MIN_SAMPLES_TO_SAVE, deliver: false }
            },
            Err(_) => TakeEnd {
                report_failure: true,
                save_history: effective_samples >= MIN_SAMPLES_TO_SAVE,
                deliver: false,
            },
        },
{
    let long_enough = effective_samples >= MIN_SAMPLES_TO_SAVE;
    match result {
        Ok(t) => if t.unicode_len() > 0 {
            TakeEnd { report_failure: false, save_history: true, deliver: true }
        } else {
            TakeEnd { report_failure: false, save_history: long_enough, deliver: false }
        },
        Err(_) => TakeEnd { report_failure: true, save_history: long_enough, deliver: false },
    }
}

} // verus!
