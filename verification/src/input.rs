//! Direct typing and synthesized-key hygiene: how a transcript is split
//! into paced batches and Return/Tab keys, which modifier releases are
//! injected before a paste, and the bounded wait for a trigger key to be
//! physically released.
use crate::clipboard::{DELIVERY_ABORTED, DELIVERY_ABORTED_PARTIAL};
use crate::text::{chars_of, string_of};
use vstd::prelude::*;

verus! {

/// `run` split into consecutive batches of `chunk_chars` characters (the
/// last may be shorter); no batches for an empty run; the whole run as one
/// batch when `chunk_chars` is 0 ("never split").
pub open spec fn chunks(run: Seq<char>, chunk_chars: nat) -> Seq<Seq<char>>
    decreases run.len(),
{
    if run.len() == 0 {
        Seq::empty()
    } else if chunk_chars == 0 || run.len() <= chunk_chars {
        seq![run]
    } else {
        seq![run.subrange(0, chunk_chars as int)] + chunks(
            run.subrange(chunk_chars as int, run.len() as int),
            chunk_chars,
        )
    }
}

/// Concatenation of a sequence of character sequences.
pub open spec fn concat(parts: Seq<Seq<char>>) -> Seq<char>
    decreases parts.len(),
{
    if parts.len() == 0 {
        Seq::empty()
    } else {
        parts[0] + concat(parts.drop_first())
    }
}

/// Batching loses and invents nothing: the batches concatenate back to the
/// run, every batch is non-empty, none is longer than `chunk_chars` (when
/// splitting), and all but the last are exactly `chunk_chars` long.
pub proof fn lemma_chunks_partition(run: Seq<char>, chunk_chars: nat)
    ensures
        concat(chunks(run, chunk_chars)) == run,
        forall|i: int|
            0 <= i < chunks(run, chunk_chars).len() ==> (#[trigger] chunks(run, chunk_chars)[i]).len()
                > 0,
        chunk_chars > 0 ==> forall|i: int|
            0 <= i < chunks(run, chunk_chars).len() ==> (#[trigger] chunks(run, chunk_chars)[i]).len()
                <= chunk_chars,
        chunk_chars > 0 ==> forall|i: int|
            0 <= i < chunks(run, chunk_chars).len() - 1 ==> (#[trigger] chunks(
                run,
                chunk_chars,
            )[i]).len() == chunk_chars,
    decreases run.len(),
{
    let c = chunks(run, chunk_chars);
    if run.len() == 0 {
        assert(run =~= Seq::<char>::empty());
    } else if chunk_chars == 0 || run.len() <= chunk_chars {
        assert(c =~= seq![run]);
        assert(c.drop_first() =~= Seq::<Seq<char>>::empty());
        assert(concat(c.drop_first()) == Seq::<char>::empty());
        assert(run + Seq::<char>::empty() =~= run);
        assert(concat(c) == c[0] + concat(c.drop_first()));
    } else {
        let rest = run.subrange(chunk_chars as int, run.len() as int);
        lemma_chunks_partition(rest, chunk_chars);
        assert(c.drop_first() =~= chunks(rest, chunk_chars));
        assert(run.subrange(0, chunk_chars as int) + rest =~= run);
        assert(concat(c) == c[0] + concat(c.drop_first()));
        assert forall|i: int| 0 <= i < c.len() implies (#[trigger] c[i]).len() > 0 by {
            if i > 0 {
                assert(c[i] == chunks(rest, chunk_chars)[i - 1]);
            }
        }
        assert forall|i: int| 0 <= i < c.len() implies (#[trigger] c[i]).len() <= chunk_chars by {
            if i > 0 {
                assert(c[i] == chunks(rest, chunk_chars)[i - 1]);
            }
        }
        assert forall|i: int| 0 <= i < c.len() - 1 implies (#[trigger] c[i]).len() == chunk_chars by {
            if i > 0 {
                assert(c[i] == chunks(rest, chunk_chars)[i - 1]);
            }
        }
    }
}

fn copy_chars(s: &[char], lo: usize, hi: usize) -> (r: Vec<char>)
    requires
        lo <= hi <= s@.len(),
    ensures
        r@ == s@.subrange(lo as int, hi as int),
{
    let mut out: Vec<char> = Vec::new();
    let mut k: usize = lo;
    while k < hi
        invariant
            lo <= k <= hi <= s@.len(),
            out@ == s@.subrange(lo as int, k as int),
        decreases hi - k,
    {
        out.push(s[k]);
        k = k + 1;
        proof {
            assert(out@ =~= s@.subrange(lo as int, k as int));
        }
    }
    out
}

/// The character batches of `run` (see [`chunks`]).
pub fn chunk_chars_of(run: &[char], chunk_chars: usize) -> (r: Vec<Vec<char>>)
    ensures
        r@.map_values(|b: Vec<char>| b@) == chunks(run@, chunk_chars as nat),
{
    let mut out: Vec<Vec<char>> = Vec::new();
    if run.len() == 0 {
        proof {
            assert(out@.map_values(|b: Vec<char>| b@) =~= chunks(run@, chunk_chars as nat));
        }
        return out;
    }
    if chunk_chars == 0 {
        out.push(copy_chars(run, 0, run.len()));
        proof {
            assert(run@.subrange(0, run@.len() as int) =~= run@);
            assert(out@.map_values(|b: Vec<char>| b@) =~= chunks(run@, chunk_chars as nat));
        }
        return out;
    }
    let mut start: usize = 0;
    proof {
        assert(run@.subrange(0, run@.len() as int) =~= run@);
        assert(out@.map_values(|b: Vec<char>| b@) + chunks(run@.subrange(0, run@.len() as int), chunk_chars as nat)
            =~= chunks(run@, chunk_chars as nat));
    }
    while start < run.len()
        invariant
            chunk_chars > 0,
            start <= run@.len(),
            out@.map_values(|b: Vec<char>| b@) + chunks(
                run@.subrange(start as int, run@.len() as int),
                chunk_chars as nat,
            ) == chunks(run@, chunk_chars as nat),
        decreases run@.len() - start,
    {
        let rest = Ghost(run@.subrange(start as int, run@.len() as int));
        let ghost before = out@.map_values(|b: Vec<char>| b@);
        if run.len() - start <= chunk_chars {
            out.push(copy_chars(run, start, run.len()));
            proof {
                assert(chunks(rest@, chunk_chars as nat) == seq![rest@]);
                assert(out@.map_values(|b: Vec<char>| b@) =~= before.push(rest@));
                assert(run@.subrange(run@.len() as int, run@.len() as int) =~= Seq::<char>::empty());
                assert(before + seq![rest@] =~= before.push(rest@));
                assert(before.push(rest@) + Seq::<Seq<char>>::empty() =~= before.push(rest@));
            }
            start = run.len();
        } else {
            let end = start + chunk_chars;
            out.push(copy_chars(run, start, end));
            proof {
                let head = run@.subrange(start as int, end as int);
                assert(rest@.subrange(0, chunk_chars as int) =~= head);
                assert(rest@.subrange(chunk_chars as int, rest@.len() as int) =~= run@.subrange(
                    end as int,
                    run@.len() as int,
                ));
                assert(out@.map_values(|b: Vec<char>| b@) =~= before.push(head));
                assert(before + (seq![head] + chunks(
                    run@.subrange(end as int, run@.len() as int),
                    chunk_chars as nat,
                )) =~= before.push(head) + chunks(
                    run@.subrange(end as int, run@.len() as int),
                    chunk_chars as nat,
                ));
            }
            start = end;
        }
    }
    proof {
        assert(run@.subrange(run@.len() as int, run@.len() as int) =~= Seq::<char>::empty());
        assert(out@.map_values(|b: Vec<char>| b@) + Seq::<Seq<char>>::empty() =~= out@.map_values(
            |b: Vec<char>| b@,
        ));
    }
    out
}

/// Split a run of ordinary text into the batches direct typing injects,
/// by character (a multi-byte character is never torn).
pub fn chunk_run(run: &str, chunk_chars: usize) -> (r: Vec<String>)
    ensures
        r@.map_values(|b: String| b@) == chunks(run@, chunk_chars as nat),
{
    let chars = chars_of(run);
    let batches = chunk_chars_of(chars.as_slice(), chunk_chars);
    let mut out: Vec<String> = Vec::new();
    let mut i: usize = 0;
    while i < batches.len()
        invariant
            i <= batches@.len(),
            out@.len() == i,
            forall|k: int| 0 <= k < i ==> (#[trigger] out@[k])@ == batches@[k]@,
        decreases batches@.len() - i,
    {
        let s = string_of(batches[i].as_slice());
        out.push(s);
        i = i + 1;
    }
    proof {
        assert(out@.map_values(|b: String| b@) =~= batches@.map_values(|b: Vec<char>| b@));
    }
    out
}


/// One key event of a transcript typed directly.
#[derive(Clone, Copy, Debug, PartialEq, Eq, Structural)]
pub enum TypingKey {
    Glyph(char),
    Return,
    Tab,
}

/// The keys one character types: a CR or LF is Return, a tab is Tab, a NUL
/// (which cannot be typed) nothing, anything else itself.
pub open spec fn keys_of_char(c: char) -> Seq<TypingKey> {
    if c == '\r' || c == '\n' {
        seq![TypingKey::Return]
    } else if c == '\t' {
        seq![TypingKey::Tab]
    } else if c == '\0' {
        Seq::empty()
    } else {
        seq![TypingKey::Glyph(c)]
    }
}

/// How many characters the key at the start of `t` consumes: a CRLF pair
/// is consumed whole (one Return), anything else one character.
pub open spec fn consumed(t: Seq<char>) -> int {
    if t.len() > 1 && t[0] == '\r' && t[1] == '\n' {
        2
    } else {
        1
    }
}

/// The keys a transcript types (see [`keys_of_char`]; a CRLF pair is one
/// Return).
pub open spec fn typing_keys(t: Seq<char>) -> Seq<TypingKey>
    decreases t.len(),
{
    if t.len() == 0 {
        Seq::empty()
    } else {
        keys_of_char(t[0]) + typing_keys(t.subrange(consumed(t), t.len() as int))
    }
}

/// One step of [`typing_keys`] at index `i` of `t`.
proof fn lemma_keys_at(t: Seq<char>, i: int)
    requires
        0 <= i < t.len(),
    ensures
        ({
            let n = if i + 1 < t.len() && t[i] == '\r' && t[i + 1] == '\n' {
                2int
            } else {
                1int
            };
            typing_keys(t.subrange(i, t.len() as int)) == keys_of_char(t[i]) + typing_keys(
                t.subrange(i + n, t.len() as int),
            )
        }),
{
    let rest = t.subrange(i, t.len() as int);
    assert(rest[0] == t[i]);
    if i + 1 < t.len() {
        assert(rest[1] == t[i + 1]);
    }
    let n = consumed(rest);
    assert(rest.subrange(n, rest.len() as int) =~= t.subrange(i + n, t.len() as int));
}

/// An ordinary character types itself.
proof fn lemma_glyph_keys(c: char, tail: Seq<TypingKey>)
    requires
        c != '\r' && c != '\n' && c != '\t' && c != '\0',
    ensures
        (keys_of_char(c) + tail).len() > 0,
        (keys_of_char(c) + tail)[0] == TypingKey::Glyph(c),
        (keys_of_char(c) + tail).drop_first() == tail,
{
    assert(!(c == '\r' || c == '\n'));
    assert(keys_of_char(c) == seq![TypingKey::Glyph(c)]);
    assert((keys_of_char(c) + tail).drop_first() =~= tail);
}

/// The typing steps from index `i` of `t`, unfolded by one character.
proof fn lemma_steps_at(t: Seq<char>, i: int, run: Seq<char>, n: nat)
    requires
        0 <= i < t.len(),
    ensures
        ({
            let c = t[i];
            let next = if i + 1 < t.len() && c == '\r' && t[i + 1] == '\n' {
                i + 2
            } else {
                i + 1
            };
            let tail = typing_keys(t.subrange(next, t.len() as int));
            typing_steps(typing_keys(t.subrange(i, t.len() as int)), run, n) == if c == '\r' || c
                == '\n' {
                batch_steps(run, n) + seq![StepView::Return] + typing_steps(tail, Seq::empty(), n)
            } else if c == '\t' {
                batch_steps(run, n) + seq![StepView::Tab] + typing_steps(tail, Seq::empty(), n)
            } else if c == '\0' {
                typing_steps(tail, run, n)
            } else {
                typing_steps(tail, run.push(c), n)
            }
        }),
{
    lemma_keys_at(t, i);
    let c = t[i];
    let next = if i + 1 < t.len() && c == '\r' && t[i + 1] == '\n' {
        i + 2
    } else {
        i + 1
    };
    let tail = typing_keys(t.subrange(next, t.len() as int));
    let ks = keys_of_char(c) + tail;
    if c == '\r' || c == '\n' {
        assert(keys_of_char(c) == seq![TypingKey::Return]);
        assert(ks[0] == TypingKey::Return);
        assert(ks.drop_first() =~= tail);
    } else if c == '\t' {
        assert(keys_of_char(c) == seq![TypingKey::Tab]);
        assert(ks[0] == TypingKey::Tab);
        assert(ks.drop_first() =~= tail);
    } else if c == '\0' {
        assert(keys_of_char(c) =~= Seq::<TypingKey>::empty());
        assert(ks =~= tail);
    } else {
        lemma_glyph_keys(c, tail);
    }
}

/// One injection of a direct-typing delivery.
#[derive(Clone, Debug)]
pub enum TypingStep {
    /// A batch of ordinary text, injected at once.
    Text(String),
    Return,
    Tab,
}

/// The abstract value of a [`TypingStep`].
pub enum StepView {
    Text(Seq<char>),
    Return,
    Tab,
}

pub open spec fn step_view(s: TypingStep) -> StepView {
    match s {
        TypingStep::Text(t) => StepView::Text(t@),
        TypingStep::Return => StepView::Return,
        TypingStep::Tab => StepView::Tab,
    }
}

/// The text batches of a run.
pub open spec fn batch_steps(run: Seq<char>, chunk_chars: nat) -> Seq<StepView> {
    chunks(run, chunk_chars).map_values(|c: Seq<char>| StepView::Text(c))
}

/// The injections for `keys`, with `run` the ordinary text gathered so far:
/// runs of ordinary text are flushed as batches before each Return or Tab
/// and at the end.
pub open spec fn typing_steps(keys: Seq<TypingKey>, run: Seq<char>, chunk_chars: nat) -> Seq<StepView>
    decreases keys.len(),
{
    if keys.len() == 0 {
        batch_steps(run, chunk_chars)
    } else {
        match keys[0] {
            TypingKey::Glyph(c) => typing_steps(keys.drop_first(), run.push(c), chunk_chars),
            TypingKey::Return => batch_steps(run, chunk_chars) + seq![StepView::Return] + typing_steps(
                keys.drop_first(),
                Seq::empty(),
                chunk_chars,
            ),
            TypingKey::Tab => batch_steps(run, chunk_chars) + seq![StepView::Tab] + typing_steps(
                keys.drop_first(),
                Seq::empty(),
                chunk_chars,
            ),
        }
    }
}

/// A character that a text batch may carry: no line break, tab or NUL.
pub open spec fn plain(c: char) -> bool {
    c != '\r' && c != '\n' && c != '\t' && c != '\0'
}

/// A well-formed injection: a text batch is non-empty, no longer than the
/// batch size (when splitting), and holds only plain characters.
pub open spec fn step_ok(s: StepView, chunk_chars: nat) -> bool {
    match s {
        StepView::Text(t) => t.len() > 0 && (chunk_chars > 0 ==> t.len() <= chunk_chars) && forall|i: int|
            0 <= i < t.len() ==> plain(#[trigger] t[i]),
        _ => true,
    }
}

proof fn lemma_glyphs_plain(t: Seq<char>)
    ensures
        forall|i: int| 0 <= i < typing_keys(t).len() ==> (#[trigger] typing_keys(t)[i] matches TypingKey::Glyph(c) ==> plain(c)),
    decreases t.len(),
{
    if t.len() > 0 {
        let rest = t.subrange(consumed(t), t.len() as int);
        lemma_glyphs_plain(rest);
        let k = keys_of_char(t[0]);
        let ks = typing_keys(t);
        assert(ks == k + typing_keys(rest));
        assert forall|i: int| 0 <= i < ks.len() implies (#[trigger] ks[i] matches TypingKey::Glyph(c) ==> plain(c)) by {
            if i < k.len() {
                let c0 = t[0];
                if c0 == '\r' || c0 == '\n' {
                    assert(k == seq![TypingKey::Return]);
                } else if c0 == '\t' {
                    assert(k == seq![TypingKey::Tab]);
                } else if c0 == '\0' {
                    assert(k.len() == 0);
                } else {
                    lemma_glyph_keys(c0, typing_keys(rest));
                    assert(ks[0] == TypingKey::Glyph(c0));
                }
            } else {
                assert(ks[i] == typing_keys(rest)[i - k.len()]);
            }
        }
    }
}

proof fn lemma_chunks_plain(run: Seq<char>, chunk_chars: nat)
    requires
        forall|i: int| 0 <= i < run.len() ==> plain(#[trigger] run[i]),
    ensures
        forall|i: int, j: int|
            0 <= i < chunks(run, chunk_chars).len() && 0 <= j < chunks(run, chunk_chars)[i].len()
                ==> plain(#[trigger] chunks(run, chunk_chars)[i][j]),
    decreases run.len(),
{
    let c = chunks(run, chunk_chars);
    if run.len() == 0 {
    } else if chunk_chars == 0 || run.len() <= chunk_chars {
        assert(c == seq![run]);
    } else {
        let head = run.subrange(0, chunk_chars as int);
        let rest = run.subrange(chunk_chars as int, run.len() as int);
        assert forall|i: int| 0 <= i < rest.len() implies plain(#[trigger] rest[i]) by {
            assert(rest[i] == run[i + chunk_chars]);
        }
        lemma_chunks_plain(rest, chunk_chars);
        assert forall|i: int, j: int| 0 <= i < c.len() && 0 <= j < c[i].len() implies plain(#[trigger] c[i][j]) by {
            if i == 0 {
                assert(c[0] == head);
                assert(head[j] == run[j]);
            } else {
                assert(c[i] == chunks(rest, chunk_chars)[i - 1]);
            }
        }
    }
}

proof fn lemma_batches_ok(run: Seq<char>, chunk_chars: nat)
    requires
        forall|i: int| 0 <= i < run.len() ==> plain(#[trigger] run[i]),
    ensures
        forall|i: int| 0 <= i < batch_steps(run, chunk_chars).len() ==> step_ok(#[trigger] batch_steps(run, chunk_chars)[i], chunk_chars),
{
    lemma_chunks_partition(run, chunk_chars);
    lemma_chunks_plain(run, chunk_chars);
    let c = chunks(run, chunk_chars);
    assert forall|i: int| 0 <= i < batch_steps(run, chunk_chars).len() implies step_ok(#[trigger] batch_steps(run, chunk_chars)[i], chunk_chars) by {
        assert(batch_steps(run, chunk_chars)[i] == StepView::Text(c[i]));
        assert(c[i].len() > 0);
        assert forall|j: int| 0 <= j < c[i].len() implies plain(#[trigger] c[i][j]) by {}
    }
}

proof fn lemma_steps_ok(keys: Seq<TypingKey>, run: Seq<char>, chunk_chars: nat)
    requires
        forall|i: int| 0 <= i < keys.len() ==> (#[trigger] keys[i] matches TypingKey::Glyph(c) ==> plain(c)),
        forall|i: int| 0 <= i < run.len() ==> plain(#[trigger] run[i]),
    ensures
        forall|i: int| 0 <= i < typing_steps(keys, run, chunk_chars).len() ==> step_ok(#[trigger] typing_steps(keys, run, chunk_chars)[i], chunk_chars),
    decreases keys.len(),
{
    let steps = typing_steps(keys, run, chunk_chars);
    if keys.len() == 0 {
        lemma_batches_ok(run, chunk_chars);
        assert(steps == batch_steps(run, chunk_chars));
    } else {
        let rest = keys.drop_first();
        assert forall|i: int| 0 <= i < rest.len() implies (#[trigger] rest[i] matches TypingKey::Glyph(c) ==> plain(c)) by {
            assert(rest[i] == keys[i + 1]);
        }
        match keys[0] {
            TypingKey::Glyph(c) => {
                let r2 = run.push(c);
                assert forall|i: int| 0 <= i < r2.len() implies plain(#[trigger] r2[i]) by {
                    if i < run.len() {
                        assert(r2[i] == run[i]);
                    }
                }
                lemma_steps_ok(rest, r2, chunk_chars);
                assert(steps == typing_steps(rest, r2, chunk_chars));
            },
            TypingKey::Return | TypingKey::Tab => {
                lemma_batches_ok(run, chunk_chars);
                lemma_steps_ok(rest, Seq::empty(), chunk_chars);
                let b = batch_steps(run, chunk_chars);
                let key = if keys[0] == TypingKey::Return { StepView::Return } else { StepView::Tab };
                let tail = typing_steps(rest, Seq::empty(), chunk_chars);
                assert(steps == b + seq![key] + tail);
                assert forall|i: int| 0 <= i < steps.len() implies step_ok(#[trigger] steps[i], chunk_chars) by {
                    if i < b.len() {
                        assert(steps[i] == b[i]);
                    } else if i == b.len() {
                        assert(steps[i] == key);
                    } else {
                        assert(steps[i] == tail[i - b.len() - 1]);
                    }
                }
            },
        }
    }
}

/// Direct typing never hands a line break, tab or NUL to a text batch, and
/// never injects an empty or oversized batch: every injection of a typed
/// transcript is a well-formed step (see [`step_ok`]).
pub proof fn lemma_typed_batches_hold_no_breaks(text: Seq<char>, chunk_chars: nat)
    ensures
        forall|i: int|
            0 <= i < typing_steps(typing_keys(text), Seq::empty(), chunk_chars).len() ==> step_ok(
                #[trigger] typing_steps(typing_keys(text), Seq::empty(), chunk_chars)[i],
                chunk_chars,
            ),
{
    lemma_glyphs_plain(text);
    lemma_steps_ok(typing_keys(text), Seq::empty(), chunk_chars);
}

fn flush_run(run: &[char], chunk_chars: usize, out: &mut Vec<TypingStep>)
    ensures
        final(out)@.map_values(|s: TypingStep| step_view(s)) == old(out)@.map_values(
            |s: TypingStep| step_view(s),
        ) + batch_steps(run@, chunk_chars as nat),
{
    let batches = chunk_chars_of(run, chunk_chars);
    let ghost base = old(out)@.map_values(|s: TypingStep| step_view(s));
    let mut i: usize = 0;
    while i < batches.len()
        invariant
            i <= batches@.len(),
            batches@.map_values(|b: Vec<char>| b@) == chunks(run@, chunk_chars as nat),
            out@.len() == old(out)@.len() + i,
            forall|k: int| 0 <= k < old(out)@.len() ==> #[trigger] out@[k] == old(out)@[k],
            forall|k: int|
                0 <= k < i ==> step_view(#[trigger] out@[old(out)@.len() + k]) == StepView::Text(
                    batches@[k]@,
                ),
        decreases batches@.len() - i,
    {
        let text = string_of(batches[i].as_slice());
        out.push(TypingStep::Text(text));
        i = i + 1;
    }
    proof {
        let n = old(out)@.len();
        assert forall|k: int| 0 <= k < out@.len() implies step_view(#[trigger] out@[k])
            == (base + batch_steps(run@, chunk_chars as nat))[k] by {
            if k < n {
                assert(out@[k] == old(out)@[k]);
            } else {
                assert(step_view(out@[n + (k - n)]) == StepView::Text(batches@[k - n]@));
                assert(batches@.map_values(|b: Vec<char>| b@)[k - n] == batches@[k - n]@);
            }
        }
        assert(out@.map_values(|s: TypingStep| step_view(s)) =~= base + batch_steps(
            run@,
            chunk_chars as nat,
        ));
    }
}

/// The injections that type `text` directly: batches of ordinary text (see
/// [`chunk_run`]) and explicit Return/Tab keys, never a raw line break or
/// tab inside a batch.
pub fn typing_plan(text: &str, chunk_chars: usize) -> (r: Vec<TypingStep>)
    ensures
        r@.map_values(|s: TypingStep| step_view(s)) == typing_steps(
            typing_keys(text@),
            Seq::empty(),
            chunk_chars as nat,
        ),
{
    let t = chars_of(text);
    let mut out: Vec<TypingStep> = Vec::new();
    let mut run: Vec<char> = Vec::new();
    let mut i: usize = 0;
    let ghost goal = typing_steps(typing_keys(t@), Seq::empty(), chunk_chars as nat);
    proof {
        assert(t@.subrange(0, t@.len() as int) =~= t@);
        assert(out@.map_values(|s: TypingStep| step_view(s)) + goal =~= goal);
    }
    while i < t.len()
        invariant
            t@ == text@,
            i <= t@.len(),
            goal == typing_steps(typing_keys(t@), Seq::empty(), chunk_chars as nat),
            out@.map_values(|s: TypingStep| step_view(s)) + typing_steps(
                typing_keys(t@.subrange(i as int, t@.len() as int)),
                run@,
                chunk_chars as nat,
            ) == goal,
        decreases t@.len() - i,
    {
        let c = t[i];
        let ghost before = out@.map_values(|s: TypingStep| step_view(s));
        let ghost run_old = run@;
        let next = if c == '\r' && i + 1 < t.len() && t[i + 1] == '\n' {
            i + 2
        } else {
            i + 1
        };
        proof {
            lemma_steps_at(t@, i as int, run_old, chunk_chars as nat);
        }
        if c == '\r' || c == '\n' || c == '\t' {
            let ghost key_view = if c == '\t' {
                StepView::Tab
            } else {
                StepView::Return
            };
            flush_run(run.as_slice(), chunk_chars, &mut out);
            if c == '\t' {
                out.push(TypingStep::Tab);
            } else {
                out.push(TypingStep::Return);
            }
            proof {
                assert(out@.map_values(|s: TypingStep| step_view(s)) =~= before + batch_steps(
                    run_old,
                    chunk_chars as nat,
                ) + seq![key_view]);
            }
            run.clear();
            proof {
                assert(run@ =~= Seq::<char>::empty());
            }
        } else if c == '\0' {
        } else {
            run.push(c);
        }
        i = next;
    }
    flush_run(run.as_slice(), chunk_chars, &mut out);
    proof {
        assert(t@.subrange(t@.len() as int, t@.len() as int) =~= Seq::<char>::empty());
    }
    out
}

/// Whether a direct-typing delivery has already typed a text batch into
/// the target: it decides the pause before a batch and which abort error a
/// refused re-check raises.
pub struct DirectTyping {
    pub sent_a_batch: bool,
}

impl DirectTyping {
    /// Nothing typed yet.
    pub fn new() -> (r: Self)
        ensures
            !r.sent_a_batch,
    {
        DirectTyping { sent_a_batch: false }
    }

    /// The pause before injecting `step`: `chunk_delay_ms` before every text
    /// batch after the first (never before the first, never before a key);
    /// `0` means no pause.
    pub fn pause_before(&self, step: &TypingStep, chunk_delay_ms: u64) -> (r: u64)
        ensures
            r == if (step is Text) && self.sent_a_batch {
                chunk_delay_ms
            } else {
                0
            },
    {
        match step {
            TypingStep::Text(_) => if self.sent_a_batch {
                chunk_delay_ms
            } else {
                0
            },
            _ => 0,
        }
    }

    /// The error a refused re-check raises: the partial sentinel once a
    /// text batch has landed, the plain one before.
    pub fn abort_error(&self) -> (r: &'static str)
        ensures
            r@ == if self.sent_a_batch {
                DELIVERY_ABORTED_PARTIAL@
            } else {
                DELIVERY_ABORTED@
            },
    {
        if self.sent_a_batch {
            DELIVERY_ABORTED_PARTIAL
        } else {
            DELIVERY_ABORTED
        }
    }

    /// Record that `step` was injected; a Return or Tab key does not count
    /// as typed text.
    pub fn record(&mut self, step: &TypingStep)
        ensures
            final(self).sent_a_batch == (old(self).sent_a_batch || step is Text),
    {
        if let TypingStep::Text(_) = step {
            self.sent_a_batch = true;
        }
    }
}

/// Where a direct-typing delivery of a plan stands.
#[derive(Clone, Copy, Debug, PartialEq, Eq, Structural)]
pub struct TypingRun {
    /// Index of the next plan step.
    pub next: usize,
    /// A validity check before step `next` was asked for and not yet
    /// answered.
    pub awaiting: bool,
    /// A text batch was injected.
    pub sent_a_batch: bool,
    /// The delivery is over: every step injected, or aborted.
    pub over: bool,
}

/// What a direct-typing delivery does next.
#[derive(Clone, Copy, Debug, PartialEq, Eq, Structural)]
pub enum TypingAction {
    /// Wait `pause_ms`, then ask whether the delivery may go on; the answer
    /// is handed to the next [`TypingRun::advance`].
    Check { pause_ms: u64 },
    /// Wait `pause_ms`, then inject plan step `index`.
    Inject { index: usize, pause_ms: u64 },
    /// Stop with the abort error (see [`abort_message`]); nothing more is
    /// injected.
    Abort { partial: bool },
    /// Nothing is left to do.
    Done,
}

/// The pause before plan step `step` (see [`DirectTyping::pause_before`]).
pub open spec fn pause_spec(step: StepView, sent_a_batch: bool, chunk_delay_ms: u64) -> u64 {
    if (step is Text) && sent_a_batch {
        chunk_delay_ms
    } else {
        0
    }
}

/// One move of a delivery of `plan`. `checking`: every injection is
/// preceded by a validity check; `answer`: the answer to the check asked
/// for by the previous move (read only then). An answered check lets the
/// step through or aborts (partially once a text batch landed); without
/// checks each step is injected in turn; after the last step, or after an
/// abort, the delivery is over.
pub open spec fn typing_next(
    s: TypingRun,
    plan: Seq<StepView>,
    checking: bool,
    answer: bool,
    chunk_delay_ms: u64,
) -> (TypingRun, TypingAction) {
    if s.over {
        (s, TypingAction::Done)
    } else if s.awaiting {
        if answer {
            (
                TypingRun {
                    next: (s.next + 1) as usize,
                    awaiting: false,
                    sent_a_batch: s.sent_a_batch || plan[s.next as int] is Text,
                    over: false,
                },
                TypingAction::Inject { index: s.next, pause_ms: 0 },
            )
        } else {
            (TypingRun { awaiting: false, over: true, ..s }, TypingAction::Abort { partial: s.sent_a_batch })
        }
    } else if s.next >= plan.len() {
        (TypingRun { over: true, ..s }, TypingAction::Done)
    } else {
        let pause = pause_spec(plan[s.next as int], s.sent_a_batch, chunk_delay_ms);
        if checking {
            (TypingRun { awaiting: true, ..s }, TypingAction::Check { pause_ms: pause })
        } else {
            (
                TypingRun {
                    next: (s.next + 1) as usize,
                    sent_a_batch: s.sent_a_batch || plan[s.next as int] is Text,
                    ..s
                },
                TypingAction::Inject { index: s.next, pause_ms: pause },
            )
        }
    }
}

/// The error an aborted delivery returns.
pub fn abort_message(partial: bool) -> (r: &'static str)
    ensures
        r@ == if partial {
            DELIVERY_ABORTED_PARTIAL@
        } else {
            DELIVERY_ABORTED@
        },
{
    if partial {
        DELIVERY_ABORTED_PARTIAL
    } else {
        DELIVERY_ABORTED
    }
}

impl TypingRun {
    /// Nothing delivered yet.
    pub fn new() -> (r: Self)
        ensures
            r == (TypingRun { next: 0, awaiting: false, sent_a_batch: false, over: false }),
    {
        TypingRun { next: 0, awaiting: false, sent_a_batch: false, over: false }
    }

    /// A run over a plan of `len` steps: the next step is within the plan,
    /// and a pending check stands before an actual step.
    pub open spec fn wf(&self, len: nat) -> bool {
        &&& self.next <= len
        &&& self.awaiting ==> self.next < len
    }

    /// Take the next move (see [`typing_next`]).
    pub fn advance(&mut self, plan: &[TypingStep], checking: bool, answer: bool, chunk_delay_ms: u64) -> (r: TypingAction)
        requires
            old(self).wf(plan@.len()),
        ensures
            final(self).wf(plan@.len()),
            (*final(self), r) == typing_next(
                *old(self),
                plan@.map_values(|t: TypingStep| step_view(t)),
                checking,
                answer,
                chunk_delay_ms,
            ),
    {
        let ghost view = plan@.map_values(|t: TypingStep| step_view(t));
        if self.over {
            return TypingAction::Done;
        }
        if self.awaiting {
            if answer {
                let i = self.next;
                let text = match &plan[i] {
                    TypingStep::Text(_) => true,
                    _ => false,
                };
                proof {
                    assert(view[i as int] == step_view(plan@[i as int]));
                }
                self.next = i + 1;
                self.awaiting = false;
                self.sent_a_batch = self.sent_a_batch || text;
                return TypingAction::Inject { index: i, pause_ms: 0 };
            } else {
                self.awaiting = false;
                self.over = true;
                return TypingAction::Abort { partial: self.sent_a_batch };
            }
        }
        if self.next >= plan.len() {
            self.over = true;
            return TypingAction::Done;
        }
        let i = self.next;
        let text = match &plan[i] {
            TypingStep::Text(_) => true,
            _ => false,
        };
        proof {
            assert(view[i as int] == step_view(plan@[i as int]));
        }
        let pause = if text && self.sent_a_batch {
            chunk_delay_ms
        } else {
            0
        };
        if checking {
            self.awaiting = true;
            TypingAction::Check { pause_ms: pause }
        } else {
            self.next = i + 1;
            self.sent_a_batch = self.sent_a_batch || text;
            TypingAction::Inject { index: i, pause_ms: pause }
        }
    }
}

/// The moves of a delivery of `plan` from the start, the move of call `i`
/// given `answers[i]`, with the state it ends in.
pub open spec fn typing_trace(
    plan: Seq<StepView>,
    checking: bool,
    answers: Seq<bool>,
    chunk_delay_ms: u64,
) -> (TypingRun, Seq<TypingAction>)
    decreases answers.len(),
{
    if answers.len() == 0 {
        (TypingRun { next: 0, awaiting: false, sent_a_batch: false, over: false }, Seq::empty())
    } else {
        let (s, t) = typing_trace(plan, checking, answers.drop_last(), chunk_delay_ms);
        let (s2, a) = typing_next(s, plan, checking, answers.last(), chunk_delay_ms);
        (s2, t.push(a))
    }
}

/// Whether the moves `t` injected a text batch of `plan`.
pub open spec fn typed_text(plan: Seq<StepView>, t: Seq<TypingAction>) -> bool
    decreases t.len(),
{
    if t.len() == 0 {
        false
    } else {
        typed_text(plan, t.drop_last()) || match t.last() {
            TypingAction::Inject { index, .. } => 0 <= index < plan.len() && plan[index as int] is Text,
            _ => false,
        }
    }
}

/// Whether the moves `t` include an abort or the end of the delivery.
pub open spec fn ended(t: Seq<TypingAction>) -> bool
    decreases t.len(),
{
    if t.len() == 0 {
        false
    } else {
        ended(t.drop_last()) || t.last() is Abort || t.last() is Done
    }
}

proof fn lemma_prefix_of_push<A>(t: Seq<A>, a: A, j: int)
    requires
        0 <= j <= t.len(),
    ensures
        t.push(a).subrange(0, j) == t.subrange(0, j),
{
    assert(t.push(a).subrange(0, j) =~= t.subrange(0, j));
}

/// Direct typing checks before every injection and stops at a refusal:
/// with checks on, every injection directly follows a check answered yes;
/// once the delivery has ended (a refusal or the last step), every later
/// move is `Done`, so nothing more is injected; an abort is partial exactly
/// when a text batch was injected before it; steps are injected in plan
/// order, each once; and when every check is answered yes there is no
/// abort.
pub proof fn lemma_typing_checks_before_every_injection(
    plan: Seq<StepView>,
    checking: bool,
    answers: Seq<bool>,
    chunk_delay_ms: u64,
)
    ensures
        ({
            let (s, t) = typing_trace(plan, checking, answers, chunk_delay_ms);
            &&& t.len() == answers.len()
            &&& s.wf(plan.len())
            &&& s.sent_a_batch == typed_text(plan, t)
            &&& s.over == ended(t)
            &&& s.awaiting ==> t.len() > 0 && t.last() is Check
            &&& forall|j: int|
                0 <= j < t.len() && checking && (#[trigger] t[j]) is Inject ==> j > 0 && t[j - 1] is Check
                    && answers[j]
            &&& forall|j: int| 0 <= j < t.len() && ended(t.subrange(0, j)) ==> (#[trigger] t[j]) is Done
            &&& forall|j: int|
                0 <= j < t.len() && (#[trigger] t[j]) is Abort ==> (t[j]->partial <==> typed_text(
                    plan,
                    t.subrange(0, j),
                ))
            &&& forall|j: int|
                0 <= j < t.len() && (#[trigger] t[j]) is Inject ==> t[j]->index < plan.len()
            &&& (forall|i: int| 0 <= i < answers.len() ==> #[trigger] answers[i]) ==> forall|j: int|
                0 <= j < t.len() ==> !((#[trigger] t[j]) is Abort)
        }),
    decreases answers.len(),
{
    if answers.len() > 0 {
        let front = answers.drop_last();
        lemma_typing_checks_before_every_injection(plan, checking, front, chunk_delay_ms);
        let (s, t) = typing_trace(plan, checking, front, chunk_delay_ms);
        let ans = answers.last();
        let (s2, a) = typing_next(s, plan, checking, ans, chunk_delay_ms);
        let t2 = t.push(a);
        let n = t.len() as int;
        assert(t2.drop_last() =~= t);
        assert(t2.last() == a);
        assert(t2.subrange(0, n) =~= t);
        assert forall|j: int| 0 <= j < n implies #[trigger] t2.subrange(0, j) == t.subrange(0, j) by {
            lemma_prefix_of_push(t, a, j);
        }
        assert forall|j: int| 0 <= j < n implies #[trigger] answers[j] == front[j] by {}
        assert(answers[n] == ans);
        if forall|i: int| 0 <= i < answers.len() ==> #[trigger] answers[i] {
            assert forall|i: int| 0 <= i < front.len() implies #[trigger] front[i] by {
                assert(answers[i] == front[i]);
            }
        }
    }
}

/// The modifier key-ups injected before a paste, as (virtual key, extended
/// key flag): left and right Ctrl, Alt, Shift and Win, with the extended
/// flag on right Ctrl and right Alt.
pub open spec fn modifier_releases() -> Seq<(u16, bool)> {
    seq![
        (0xA2u16, false),
        (0xA3u16, true),
        (0xA4u16, false),
        (0xA5u16, true),
        (0xA0u16, false),
        (0xA1u16, false),
        (0x5Bu16, false),
        (0x5Cu16, false),
    ]
}

/// The key-up events that release every still-held modifier, both sides
/// of each (see [`modifier_releases`]).
pub fn force_release_modifiers() -> (r: Vec<(u16, bool)>)
    ensures
        r@ == modifier_releases(),
{
    let r = vec![
        (0xA2u16, false),
        (0xA3u16, true),
        (0xA4u16, false),
        (0xA5u16, true),
        (0xA0u16, false),
        (0xA1u16, false),
        (0x5Bu16, false),
        (0x5Cu16, false),
    ];
    proof {
        assert(r@ =~= modifier_releases());
    }
    r
}

/// The modifier virtual keys: generic, left and right Shift/Ctrl/Alt, and
/// both Win keys.
pub open spec fn is_modifier_spec(vk: i32) -> bool {
    vk == 0x10 || vk == 0x11 || vk == 0x12 || (0xA0 <= vk <= 0xA5) || vk == 0x5B || vk == 0x5C
}

pub fn is_modifier_vk(vk: i32) -> (r: bool)
    ensures
        r == is_modifier_spec(vk),
{
    vk == 0x10 || vk == 0x11 || vk == 0x12 || (0xA0 <= vk && vk <= 0xA5) || vk == 0x5B || vk
        == 0x5C
}

/// The generic modifiers and both Win keys, polled while waiting for the
/// shortcut's modifiers to come up.
pub open spec fn generic_modifiers() -> Seq<i32> {
    seq![0x10i32, 0x11i32, 0x12i32, 0x5Bi32, 0x5Ci32]
}

/// Whether the trigger key counts as held, given the virtual keys that are
/// down now: the known primary key itself, or, when it is unknown, any
/// non-modifier key from 0x08 to 0xFE.
pub open spec fn trigger_held(primary_vk: Option<i32>, down: Seq<i32>) -> bool {
    match primary_vk {
        Some(vk) => down.contains(vk),
        None => exists|i: int|
            0 <= i < down.len() && 0x08 <= #[trigger] down[i] <= 0xFE && !is_modifier_spec(down[i]),
    }
}

/// Whether any shortcut modifier is down (see [`generic_modifiers`]).
pub open spec fn modifiers_held(down: Seq<i32>) -> bool {
    exists|i: int| 0 <= i < down.len() && generic_modifiers().contains(#[trigger] down[i])
}

pub fn key_held(primary_vk: Option<i32>, down: &[i32]) -> (r: bool)
    ensures
        r == trigger_held(primary_vk, down@),
{
    let mut i: usize = 0;
    while i < down.len()
        invariant
            i <= down@.len(),
            match primary_vk {
                Some(vk) => forall|k: int| 0 <= k < i ==> down@[k] != vk,
                None => forall|k: int|
                    0 <= k < i ==> !(0x08 <= #[trigger] down@[k] <= 0xFE && !is_modifier_spec(
                        down@[k],
                    )),
            },
        decreases down@.len() - i,
    {
        let vk = down[i];
        match primary_vk {
            Some(p) => {
                if vk == p {
                    proof {
                        assert(down@[i as int] == p);
                    }
                    return true;
                }
            },
            None => {
                if 0x08 <= vk && vk <= 0xFE && !is_modifier_vk(vk) {
                    return true;
                }
            },
        }
        i = i + 1;
    }
    proof {
        if let Some(vk) = primary_vk {
            assert(!down@.contains(vk));
        }
    }
    false
}

pub fn any_modifier_held(down: &[i32]) -> (r: bool)
    ensures
        r == modifiers_held(down@),
{
    let mut i: usize = 0;
    while i < down.len()
        invariant
            i <= down@.len(),
            forall|k: int| 0 <= k < i ==> !generic_modifiers().contains(#[trigger] down@[k]),
        decreases down@.len() - i,
    {
        let vk = down[i];
        if vk == 0x10 || vk == 0x11 || vk == 0x12 || vk == 0x5B || vk == 0x5C {
            proof {
                let g = generic_modifiers();
                if vk == 0x10 { assert(g[0] == vk); }
                if vk == 0x11 { assert(g[1] == vk); }
                if vk == 0x12 { assert(g[2] == vk); }
                if vk == 0x5B { assert(g[3] == vk); }
                if vk == 0x5C { assert(g[4] == vk); }
            }
            return true;
        }
        proof {
            let g = generic_modifiers();
            assert forall|j: int| 0 <= j < g.len() implies g[j] != vk by {}
        }
        i = i + 1;
    }
    false
}

/// A bounded wait for keys to come up: done once they have been clear for
/// 10 ms without interruption, or at the deadline whatever their state.
pub struct ReleaseWait {
    pub deadline_ms: u64,
    pub clear_since_ms: Option<u64>,
}

/// The continuous clear time that ends a wait.
pub const RELEASE_GRACE_MS: u64 = 10;

impl ReleaseWait {
    /// A wait started at `now_ms` that gives up `timeout_ms` later.
    pub fn new(now_ms: u64, timeout_ms: u64) -> (r: Self)
        ensures
            r.deadline_ms == if now_ms + timeout_ms <= u64::MAX {
                (now_ms + timeout_ms) as u64
            } else {
                u64::MAX
            },
            r.clear_since_ms is None,
    {
        ReleaseWait { deadline_ms: now_ms.saturating_add(timeout_ms), clear_since_ms: None }
    }

    /// One poll at `now_ms`, `held` telling whether a watched key is down;
    /// `true` when the wait is over. A held key restarts the clear period.
    pub fn step(&mut self, now_ms: u64, held: bool) -> (done: bool)
        ensures
            final(self).deadline_ms == old(self).deadline_ms,
            final(self).clear_since_ms == if held {
                None
            } else {
                match old(self).clear_since_ms {
                    Some(t) => Some(t),
                    None => Some(now_ms),
                }
            },
            done == ((!held && match old(self).clear_since_ms {
                Some(t) => now_ms >= t + RELEASE_GRACE_MS,
                None => false,
            }) || now_ms >= old(self).deadline_ms),
    {
        if held {
            self.clear_since_ms = None;
        } else {
            match self.clear_since_ms {
                Some(t) => {
                    if now_ms >= t && now_ms - t >= RELEASE_GRACE_MS {
                        return true;
                    }
                },
                None => {
                    self.clear_since_ms = Some(now_ms);
                },
            }
        }
        now_ms >= self.deadline_ms
    }
}

/// One poll of the wait for the shortcut's trigger key to be physically
/// released, `down` being the virtual keys down at `now_ms` (see
/// [`trigger_held`]); `true` when the wait is over.
pub fn wait_for_key_released(wait: &mut ReleaseWait, primary_vk: Option<i32>, down: &[i32], now_ms: u64) -> (done: bool)
    ensures
        final(wait).deadline_ms == old(wait).deadline_ms,
        ({
            let held = trigger_held(primary_vk, down@);
            &&& final(wait).clear_since_ms == if held {
                None
            } else {
                match old(wait).clear_since_ms {
                    Some(t) => Some(t),
                    None => Some(now_ms),
                }
            }
            &&& done == ((!held && match old(wait).clear_since_ms {
                Some(t) => now_ms >= t + RELEASE_GRACE_MS,
                None => false,
            }) || now_ms >= old(wait).deadline_ms)
        }),
{
    let held = key_held(primary_vk, down);
    wait.step(now_ms, held)
}

/// One poll of the wait for the shortcut's modifiers to be physically
/// released (see [`modifiers_held`]); `true` when the wait is over.
pub fn wait_for_modifiers_released(wait: &mut ReleaseWait, down: &[i32], now_ms: u64) -> (done: bool)
    ensures
        final(wait).deadline_ms == old(wait).deadline_ms,
        ({
            let held = modifiers_held(down@);
            &&& final(wait).clear_since_ms == if held {
                None
            } else {
                match old(wait).clear_since_ms {
                    Some(t) => Some(t),
                    None => Some(now_ms),
                }
            }
            &&& done == ((!held && match old(wait).clear_since_ms {
                Some(t) => now_ms >= t + RELEASE_GRACE_MS,
                None => false,
            }) || now_ms >= old(wait).deadline_ms)
        }),
{
    let held = any_modifier_held(down);
    wait.step(now_ms, held)
}

} // verus!
