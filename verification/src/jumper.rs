//! Jump slots: bookmarks of desktop text fields that a finished dictation
//! can be delivered into. Slot 0 is the hot slot ("Hot 1"), slots 1 to 9 are
//! static bookmarks and slot 10 is the second hot slot ("Hot 2").
//!
//! Every write to a slot (set, clear, even clearing an already empty slot)
//! allocates a fresh capture generation, kept apart from the slot's target so
//! that an empty -> set -> clear cycle is still visible as a change. Writers
//! that plan a capture well before committing it snapshot the generation up
//! front and commit with a compare-and-swap, so a fresher write always wins.
use crate::text::{decimal, eq_ignore_ascii_case, eq_ignore_ascii_case_spec, str_eq, with_number};
use std::collections::hash_map::DefaultHasher;
use std::hash::{BuildHasher, BuildHasherDefault};
use vstd::prelude::*;

verus! {

/// Number of jump slots (index 0 = Hot 1, 1 to 9 = static, 10 = Hot 2).
pub const SLOT_COUNT: usize = 11;

/// The hot slot index (Hot 1).
pub const HOT: usize = 0;

/// The second hot slot index (Hot 2).
pub const HOT2: usize = 10;

/// Per-slot cursor gating: whether slot `slot`'s captured cursor is kept,
/// read from the per-slot flags. An out-of-range slot or a short list reads
/// as `false`.
pub fn slot_save_cursor(slots: &[bool], slot: usize) -> (r: bool)
    ensures
        r == (slot < slots@.len() && slots@[slot as int]),
{
    if slot < slots.len() {
        slots[slot]
    } else {
        false
    }
}

/// How a saved cursor position is restored.
#[derive(Clone, Copy, Debug, PartialEq, Eq, Structural)]
pub enum CursorMode {
    /// Relative to the target window's client area (the default).
    AppRelative,
    /// The absolute screen pixel.
    ScreenAbsolute,
}

/// Per-slot cursor mode: the mode for slot `slot`, or the default
/// (`AppRelative`) for an out-of-range slot or a short list.
pub fn slot_cursor_mode(modes: &[CursorMode], slot: usize) -> (r: CursorMode)
    ensures
        r == if slot < modes@.len() {
            modes@[slot as int]
        } else {
            CursorMode::AppRelative
        },
{
    if slot < modes.len() {
        modes[slot]
    } else {
        CursorMode::AppRelative
    }
}

/// The abstract contents of the slot storage.
pub struct SlotsView<T> {
    /// The live target of each slot.
    pub targets: Seq<Option<T>>,
    /// The capture generation of each slot (0 = never written).
    pub generations: Seq<u64>,
    /// The next generation to hand out.
    pub next_generation: u64,
}

/// Slot storage: the live targets and their capture generations, in
/// separate arrays, plus the generation allocator.
pub struct SlotState<T> {
    pub targets: Vec<Option<T>>,
    pub generations: Vec<u64>,
    pub next_generation: u64,
}

impl<T> View for SlotState<T> {
    type V = SlotsView<T>;

    open spec fn view(&self) -> SlotsView<T> {
        SlotsView {
            targets: self.targets@,
            generations: self.generations@,
            next_generation: self.next_generation,
        }
    }
}

/// The generation allocator's successor (it wraps, as the atomic counter
/// it models does).
pub open spec fn bump(g: u64) -> u64 {
    vstd::wrapping::u64_specs::wrapping_add(g, 1)
}

/// Every generation handed out so far is below the allocator, which has
/// not wrapped: a freshly allocated generation differs from all of them.
pub open spec fn generations_fresh<T>(v: SlotsView<T>) -> bool {
    &&& 1 <= v.next_generation
    &&& forall|i: int| 0 <= i < v.generations.len() ==> #[trigger] v.generations[i] < v.next_generation
}

/// The view after an unconditional write of `target` into `slot`.
pub open spec fn written<T>(v: SlotsView<T>, slot: int, target: Option<T>) -> SlotsView<T> {
    SlotsView {
        targets: v.targets.update(slot, target),
        generations: v.generations.update(slot, v.next_generation),
        next_generation: bump(v.next_generation),
    }
}

impl<T> SlotState<T> {
    /// Both arrays have one entry per slot, and every generation handed out
    /// is below the allocator (see [`generations_fresh`]).
    pub open spec fn wf(&self) -> bool {
        &&& self@.targets.len() == SLOT_COUNT
        &&& self@.generations.len() == SLOT_COUNT
        &&& generations_fresh(self@)
    }

    /// All slots empty, every generation 0 ("never written"), the allocator
    /// at 1.
    pub fn new() -> (r: Self)
        ensures
            r.wf(),
            r@.targets == Seq::new(SLOT_COUNT as nat, |i: int| None::<T>),
            r@.generations == Seq::new(SLOT_COUNT as nat, |i: int| 0u64),
            r@.next_generation == 1,
            generations_fresh(r@),
    {
        let mut targets: Vec<Option<T>> = Vec::new();
        let mut generations: Vec<u64> = Vec::new();
        let mut i: usize = 0;
        while i < SLOT_COUNT
            invariant
                i <= SLOT_COUNT,
                targets@ == Seq::new(i as nat, |k: int| None::<T>),
                generations@ == Seq::new(i as nat, |k: int| 0u64),
            decreases SLOT_COUNT - i,
        {
            targets.push(None);
            generations.push(0);
            i = i + 1;
            proof {
                assert(targets@ =~= Seq::new(i as nat, |k: int| None::<T>));
                assert(generations@ =~= Seq::new(i as nat, |k: int| 0u64));
            }
        }
        SlotState { targets, generations, next_generation: 1 }
    }

    /// Allocate a generation (the allocator's value before the bump).
    pub fn next_generation(&mut self) -> (g: u64)
        requires
            old(self).wf(),
            old(self)@.next_generation < u64::MAX,
        ensures
            final(self).wf(),
            g == old(self)@.next_generation,
            final(self)@ == (SlotsView { next_generation: bump(g), ..old(self)@ }),
    {
        let g = self.next_generation;
        self.next_generation = self.next_generation.wrapping_add(1);
        g
    }

    /// The allocator's current value (the generation the next write gets).
    pub fn peek_next_generation(&self) -> (r: u64)
        ensures
            r == self@.next_generation,
    {
        self.next_generation
    }

    /// A slot's current capture generation; `0` for an out-of-range slot.
    pub fn current_generation(&self, slot: usize) -> (r: u64)
        requires
            self.wf(),
        ensures
            r == if slot < SLOT_COUNT {
                self@.generations[slot as int]
            } else {
                0
            },
    {
        if slot < self.generations.len() {
            self.generations[slot]
        } else {
            0
        }
    }

    /// The target in `slot`, if the slot is in range and occupied.
    pub fn get(&self, slot: usize) -> (r: Option<&T>)
        requires
            self.wf(),
        ensures
            r == if slot < SLOT_COUNT {
                match self@.targets[slot as int] {
                    Some(t) => Some(&t),
                    None => None,
                }
            } else {
                None
            },
    {
        if slot < self.targets.len() {
            match &self.targets[slot] {
                Some(t) => Some(t),
                None => None,
            }
        } else {
            None
        }
    }

    /// A slot's target and its generation, read together so the two cannot
    /// drift apart.
    pub fn get_slot_with_generation(&self, slot: usize) -> (r: Option<(&T, u64)>)
        requires
            self.wf(),
        ensures
            r == if slot < SLOT_COUNT {
                match self@.targets[slot as int] {
                    Some(t) => Some((&t, self@.generations[slot as int])),
                    None => None,
                }
            } else {
                None
            },
    {
        if slot < self.targets.len() {
            match &self.targets[slot] {
                Some(t) => Some((t, self.generations[slot])),
                None => None,
            }
        } else {
            None
        }
    }

    /// `slot`'s generation if it is currently empty, else `None` (also for
    /// an out-of-range slot): "observed empty" and "its generation" in one
    /// read, so a write landing in between cannot be absorbed.
    pub fn empty_generation(&self, slot: usize) -> (r: Option<u64>)
        requires
            self.wf(),
        ensures
            r == if slot < SLOT_COUNT && self@.targets[slot as int] is None {
                Some(self@.generations[slot as int])
            } else {
                None
            },
    {
        if slot >= self.targets.len() {
            return None;
        }
        if self.targets[slot].is_some() {
            return None;
        }
        Some(self.generations[slot])
    }

    /// Compare-and-swap commit: store `target` in `slot` only if the slot's
    /// generation is still `expected` (whether or not it is occupied), and
    /// return the freshly allocated generation; `None` on a stale race,
    /// leaving the state untouched.
    pub fn cas_commit(&mut self, slot: usize, expected: u64, target: T) -> (r: Option<u64>)
        requires
            old(self).wf(),
            old(self)@.next_generation < u64::MAX,
            slot < SLOT_COUNT,
        ensures
            final(self).wf(),
            r is Some ==> final(self)@.generations[slot as int] > old(self)@.generations[slot as int],
            old(self)@.generations[slot as int] == expected ==> {
                &&& r == Some(old(self)@.next_generation)
                &&& final(self)@ == written(old(self)@, slot as int, Some(target))
            },
            old(self)@.generations[slot as int] != expected ==> {
                &&& r is None
                &&& final(self)@ == old(self)@
            },
    {
        if self.generations[slot] != expected {
            return None;
        }
        let g = self.next_generation();
        self.generations.set(slot, g);
        self.targets.set(slot, Some(target));
        Some(g)
    }

    /// Manual (authoritative) capture: always stores `target`, allocating a
    /// fresh generation. Returns that generation.
    pub fn set(&mut self, slot: usize, target: T) -> (g: u64)
        requires
            old(self).wf(),
            old(self)@.next_generation < u64::MAX,
            slot < SLOT_COUNT,
        ensures
            final(self).wf(),
            final(self)@.generations[slot as int] > old(self)@.generations[slot as int],
            g == old(self)@.next_generation,
            final(self)@ == written(old(self)@, slot as int, Some(target)),
    {
        let g = self.next_generation();
        self.generations.set(slot, g);
        self.targets.set(slot, Some(target));
        g
    }

    /// Clear a slot, bumping its generation even if it was already empty.
    /// Out-of-range slots are ignored.
    pub fn clear(&mut self, slot: usize)
        requires
            old(self).wf(),
            old(self)@.next_generation < u64::MAX,
        ensures
            final(self).wf(),
            slot < SLOT_COUNT ==> final(self)@.generations[slot as int] > old(self)@.generations[slot as int],
            slot < SLOT_COUNT ==> final(self)@ == written(old(self)@, slot as int, None),
            slot >= SLOT_COUNT ==> final(self)@ == old(self)@,
    {
        if slot >= SLOT_COUNT {
            return;
        }
        let g = self.next_generation();
        self.targets.set(slot, None);
        self.generations.set(slot, g);
    }

    /// Deferred clear: clears only if the slot's generation is still
    /// `expected`, so a deferred clear never wipes a fresher capture.
    /// Returns whether it cleared.
    pub fn clear_if_unchanged(&mut self, slot: usize, expected: u64) -> (r: bool)
        requires
            old(self).wf(),
            old(self)@.next_generation < u64::MAX,
        ensures
            final(self).wf(),
            r ==> final(self)@.generations[slot as int] > expected,
            r == (slot < SLOT_COUNT && old(self)@.generations[slot as int] == expected),
            r ==> final(self)@ == written(old(self)@, slot as int, None),
            !r ==> final(self)@ == old(self)@,
    {
        if slot >= SLOT_COUNT {
            return false;
        }
        if self.generations[slot] != expected {
            return false;
        }
        let g = self.next_generation();
        self.targets.set(slot, None);
        self.generations.set(slot, g);
        true
    }
}


/// Every write to a slot hands it a generation above every generation
/// allocated before, leaves the other slots alone, and keeps all
/// generations below the allocator (until the 64-bit allocator would wrap).
pub proof fn lemma_write_is_fresh<T>(v: SlotsView<T>, slot: int, target: Option<T>)
    requires
        generations_fresh(v),
        v.next_generation < u64::MAX,
        0 <= slot < v.generations.len(),
    ensures
        generations_fresh(written(v, slot, target)),
        written(v, slot, target).generations[slot] == v.next_generation,
        forall|i: int|
            0 <= i < v.generations.len() ==> #[trigger] v.generations[i] < written(
                v,
                slot,
                target,
            ).generations[slot],
        forall|i: int|
            0 <= i < v.generations.len() && i != slot ==> #[trigger] written(v, slot, target).generations[i]
                == v.generations[i],
{
    let w = written(v, slot, target);
    assert forall|i: int| 0 <= i < w.generations.len() implies #[trigger] w.generations[i]
        < w.next_generation by {
        if i != slot {
            assert(v.generations[i] < v.next_generation);
        }
    }
}

/// A snapshot of a slot's generation taken before any later write to that
/// slot (set or clear, even a clear that leaves it empty again) can never
/// match again: a deferred compare-and-swap holding it is rejected.
pub proof fn lemma_stale_snapshot_rejected<T>(
    v: SlotsView<T>,
    slot: int,
    first: Option<T>,
    then: Option<T>,
)
    requires
        generations_fresh(v),
        v.next_generation < u64::MAX - 1,
        0 <= slot < v.generations.len(),
    ensures
        written(v, slot, first).generations[slot] != v.generations[slot],
        written(written(v, slot, first), slot, then).generations[slot] != v.generations[slot],
        written(written(v, slot, first), slot, then).generations[slot] > written(
            v,
            slot,
            first,
        ).generations[slot],
{
    lemma_write_is_fresh(v, slot, first);
    lemma_write_is_fresh(written(v, slot, first), slot, then);
}

/// A take's delivery intent: the slot (if any) its single paste should
/// deliver into, captured once per take and then owned by that take.
#[derive(Clone, Copy, Debug, PartialEq, Eq, Structural)]
pub struct DeliveryIntent(pub Option<usize>);

impl DeliveryIntent {
    /// No anchored delivery for this take's paste.
    pub fn none() -> (r: DeliveryIntent)
        ensures
            r.0 is None,
    {
        DeliveryIntent(None)
    }
}

/// The one-shot arming mailbox for anchored delivery: the slot whose target
/// the next take's paste should deliver into, or -1 for none.
pub struct DeliveryMailbox {
    slot: isize,
}

impl View for DeliveryMailbox {
    type V = isize;

    closed spec fn view(&self) -> isize {
        self.slot
    }
}

impl DeliveryMailbox {
    /// An empty mailbox.
    pub fn new() -> (r: Self)
        ensures
            r@ == -1,
    {
        DeliveryMailbox { slot: -1 }
    }
}

/// Arm delivery into `slot` for the next take; out-of-range slots are
/// dropped.
pub fn request_delivery(mailbox: &mut DeliveryMailbox, slot: usize)
    ensures
        final(mailbox)@ == if slot < SLOT_COUNT {
            slot as isize
        } else {
            old(mailbox)@
        },
{
    if slot < SLOT_COUNT {
        mailbox.slot = slot as isize;
    }
}

/// Disarm delivery.
pub fn clear_delivery_request(mailbox: &mut DeliveryMailbox)
    ensures
        final(mailbox)@ == -1,
{
    mailbox.slot = -1;
}

/// Consume the mailbox into a take-owned intent, leaving it disarmed.
pub fn take_delivery_intent(mailbox: &mut DeliveryMailbox) -> (r: DeliveryIntent)
    ensures
        final(mailbox)@ == -1,
        r.0 == intent_of(old(mailbox)@),
{
    let slot = mailbox.slot;
    mailbox.slot = -1;
    if slot >= 0 {
        DeliveryIntent(Some(slot as usize))
    } else {
        DeliveryIntent(None)
    }
}

/// The intent a take gets from a mailbox holding `m`.
pub open spec fn intent_of(m: isize) -> Option<usize> {
    if m >= 0 {
        Some(m as usize)
    } else {
        None
    }
}

/// Taking the intent is a one-shot: the take that consumes an armed request
/// gets its slot, the take right after it sees no delivery, and a request
/// armed after a take reaches only the next take.
pub proof fn lemma_delivery_intent_one_shot(slot: usize)
    requires
        slot < SLOT_COUNT,
    ensures
        intent_of(slot as isize) == Some(slot),
        intent_of(-1isize) is None,
{
}

/// Deferred "on finish" side-action, executed only after the take's paste
/// fully completed.
#[derive(Clone, Copy, Debug, PartialEq, Eq, Structural)]
pub enum PostTakeAction {
    /// Capture the foreground field into the slot.
    SetSlot,
    /// Empty the slot.
    Clear,
}

/// An armed post-take action: the action, its slot, the slot's generation
/// when it was armed, and the driving flow's cursor policy.
pub type ArmedAction = (PostTakeAction, usize, Option<u64>, bool);

/// The one-shot mailbox for the deferred on-finish action.
pub struct PostTakeMailbox {
    armed: Option<ArmedAction>,
}

impl View for PostTakeMailbox {
    type V = Option<ArmedAction>;

    closed spec fn view(&self) -> Option<ArmedAction> {
        self.armed
    }
}

impl PostTakeMailbox {
    /// An empty mailbox.
    pub fn new() -> (r: Self)
        ensures
            r@ is None,
    {
        PostTakeMailbox { armed: None }
    }
}

/// A slot's generation snapshot for a deferred writer: always present for
/// a live slot store (`0` = never written or out of range).
pub fn slot_generation<T>(slots: &SlotState<T>, slot: usize) -> (r: Option<u64>)
    requires
        slots.wf(),
    ensures
        r == Some(
            if slot < SLOT_COUNT {
                slots@.generations[slot as int]
            } else {
                0u64
            },
        ),
{
    Some(slots.current_generation(slot))
}

/// Arm `action` on `slot` with the slot's current generation as its
/// snapshot; an out-of-range slot is refused and the mailbox left as is.
pub fn arm_post_take_action<T>(
    mailbox: &mut PostTakeMailbox,
    slots: &SlotState<T>,
    action: PostTakeAction,
    slot: usize,
    save_cursor: bool,
)
    requires
        slots.wf(),
    ensures
        slot < SLOT_COUNT ==> final(mailbox)@ == Some(
            (action, slot, Some(slots@.generations[slot as int]), save_cursor),
        ),
        slot >= SLOT_COUNT ==> final(mailbox)@ == old(mailbox)@,
{
    if slot < SLOT_COUNT {
        let expected = slot_generation(slots, slot);
        mailbox.armed = Some((action, slot, expected, save_cursor));
    }
}

/// Consume the armed action (one-shot).
pub fn take_post_take_action(mailbox: &mut PostTakeMailbox) -> (r: Option<ArmedAction>)
    ensures
        r == old(mailbox)@,
        final(mailbox)@ is None,
{
    let r = mailbox.armed;
    mailbox.armed = None;
    r
}

/// Disarm the deferred action.
pub fn clear_post_take_action(mailbox: &mut PostTakeMailbox)
    ensures
        final(mailbox)@ is None,
{
    mailbox.armed = None;
}

/// Execute a take's deferred action after its paste completed. `captured`
/// is the foreground capture made for a `Set` (`None` when capture was
/// refused). Both variants commit only if the slot's generation still
/// equals the snapshot taken when the action was armed, so a slot touched
/// in the meantime is left alone. Returns whether the slot was written.
pub fn run_post_take_action<T>(
    slots: &mut SlotState<T>,
    action: Option<ArmedAction>,
    captured: Option<T>,
) -> (r: bool)
    requires
        old(slots).wf(),
        old(slots)@.next_generation < u64::MAX,
        action matches Some((PostTakeAction::SetSlot, slot, _, _)) ==> slot < SLOT_COUNT,
    ensures
        final(slots).wf(),
        match action {
            Some((PostTakeAction::SetSlot, slot, expected, _)) => {
                let e = match expected {
                    Some(g) => g,
                    None => 0u64,
                };
                &&& r == (captured is Some && old(slots)@.generations[slot as int] == e)
                &&& r ==> final(slots)@ == written(old(slots)@, slot as int, captured)
                &&& !r ==> final(slots)@ == old(slots)@
            },
            Some((PostTakeAction::Clear, slot, expected, _)) => {
                let e = match expected {
                    Some(g) => g,
                    None => 0u64,
                };
                &&& r == (slot < SLOT_COUNT && old(slots)@.generations[slot as int] == e)
                &&& r ==> final(slots)@ == written(old(slots)@, slot as int, None)
                &&& !r ==> final(slots)@ == old(slots)@
            },
            None => !r && final(slots)@ == old(slots)@,
        },
{
    match action {
        Some((PostTakeAction::SetSlot, slot, expected, _save_cursor)) => {
            let e = match expected {
                Some(g) => g,
                None => 0,
            };
            match captured {
                Some(t) => slots.cas_commit(slot, e, t).is_some(),
                None => false,
            }
        },
        Some((PostTakeAction::Clear, slot, expected, _save_cursor)) => {
            let e = match expected {
                Some(g) => g,
                None => 0,
            };
            slots.clear_if_unchanged(slot, e)
        },
        None => false,
    }
}


/// What the UI shows for an occupied slot (never the window title).
/// `stale` = the slot only exists as a persisted identity whose window has
/// not been found yet.
#[derive(Clone, Debug, PartialEq, Eq)]
pub struct AnchorStatus {
    pub app: String,
    pub control_class: String,
    pub stale: bool,
}

/// The durable identity of a captured field: window and control handles,
/// owning process and thread, window and control classes, and the
/// executable's name.
#[derive(Clone, Debug)]
pub struct TargetIdentity {
    pub hwnd: isize,
    pub control: isize,
    pub pid: u32,
    pub tid: u32,
    pub window_class: String,
    pub control_class: String,
    pub app: String,
}

/// The identity persisted for a slot (no handles: those die with their
/// windows).
#[derive(Clone, Debug)]
pub struct SavedIdentity {
    pub app: String,
    pub window_class: String,
    pub control_class: String,
}

/// An armed anchored delivery: the window that was in front before the
/// jump, and the verified identity of the target it jumped to.
#[derive(Clone, Debug)]
pub struct DeliveryGuard {
    pub prev_foreground: isize,
    pub target: TargetIdentity,
    pub slot: usize,
}

/// Outcome of preparing an anchored delivery inside the paste pipeline.
pub enum BeginDelivery {
    /// No delivery requested: proceed with a normal paste at current focus.
    NoAnchor,
    /// Target activated and focused: paste now, then finish the delivery.
    Ready(DeliveryGuard),
    /// A delivery was requested but could not be verified: do not paste blind.
    Failed { reason: String },
}

/// Edit-control style bit of a password box.
pub const ES_PASSWORD: i32 = 0x0020;

/// Whether a recycled-handle check passes: the live window's process,
/// thread and class, and the live control's process and class, all match
/// the identity snapshotted when the delivery began (the control's thread
/// is deliberately not compared: multi-threaded hosts run a control on a
/// different thread than its window).
pub fn guard_identity_still_matches(
    live_window_pid: u32,
    live_window_tid: u32,
    live_window_class: &str,
    live_control_pid: u32,
    live_control_class: &str,
    expected_pid: u32,
    expected_tid: u32,
    expected_window_class: &str,
    expected_control_class: &str,
) -> (r: bool)
    ensures
        r == (live_window_pid == expected_pid && live_window_tid == expected_tid
            && live_window_class@ == expected_window_class@ && live_control_pid == expected_pid
            && live_control_class@ == expected_control_class@),
{
    live_window_pid == expected_pid && live_window_tid == expected_tid && str_eq(
        live_window_class,
        expected_window_class,
    ) && live_control_pid == expected_pid && str_eq(live_control_class, expected_control_class)
}

/// A persisted disambiguation hint: a keyed fingerprint of the identity it
/// was saved for, and a keyed hash of the window title at save time.
#[derive(Clone, Copy, Debug, PartialEq, Eq, Structural)]
pub struct SlotHint {
    pub identity_fp: u64,
    pub title_hash: u64,
}

/// A hint is usable only for the identity it was saved with.
pub fn hint_is_valid_for(hint: &SlotHint, current_identity_fp: u64) -> (r: bool)
    ensures
        r == (hint.identity_fp == current_identity_fp),
{
    hint.identity_fp == current_identity_fp
}

/// Persisting the slot identities of a snapshot may proceed only once the
/// hints file (written first) landed.
pub fn snapshot_may_persist_identities(hints_write_succeeded: bool) -> (r: bool)
    ensures
        r == hints_write_succeeded,
{
    hints_write_succeeded
}

/// A snapshot writes the identities only if persistence is still enabled
/// at the moment of the write.
pub fn snapshot_should_write_identities(persist_currently_enabled: bool) -> (r: bool)
    ensures
        r == persist_currently_enabled,
{
    persist_currently_enabled
}

/// The keyed hash `DefaultHasher` gives of (`key`, `data`).
pub uninterp spec fn keyed_hash_of(key: Seq<u8>, data: Seq<char>) -> u64;

#[verifier::external_type_specification]
#[verifier::external_body]
#[verifier::reject_recursive_types(H)]
pub struct ExBuildHasherDefault<H>(BuildHasherDefault<H>);

/// `BuildHasherDefault::<DefaultHasher>::default()`: the builder of
/// `DefaultHasher::new()` hashers (a fixed, unseeded algorithm; the builder
/// holds nothing). Nothing is claimed of it.
#[verifier::external_body]
fn default_hasher_builder() -> BuildHasherDefault<DefaultHasher> {
    BuildHasherDefault::<DefaultHasher>::default()
}

/// `BuildHasher::hash_one` of the pair (`key`, `data`): a fresh hasher fed
/// the key and then the string, and its `finish`. The contract only names
/// the result as a function of the two inputs (the builder holds no state);
/// nothing about its value is claimed.
#[verifier::external_body]
fn hash_key_and_data(builder: &BuildHasherDefault<DefaultHasher>, key: &[u8; 16], data: &str) -> (r: u64)
    ensures
        r == keyed_hash_of(key@, data@),
{
    builder.hash_one((key, data))
}

/// Keyed hash of `data` under this install's 16-byte key, so that a hash
/// alone cannot be matched against a table of common strings.
pub fn keyed_hash(key: &[u8; 16], data: &str) -> (r: u64)
    ensures
        r == keyed_hash_of(key@, data@),
{
    let builder = default_hasher_builder();
    hash_key_and_data(&builder, key, data)
}

/// The string a slot identity is fingerprinted as: app, window class and
/// control class joined by NUL characters.
pub open spec fn identity_text(app: Seq<char>, window_class: Seq<char>, control_class: Seq<char>) -> Seq<char> {
    app + seq!['\0'] + window_class + seq!['\0'] + control_class
}

/// Keyed fingerprint of a slot's identity, used to detect a hint that no
/// longer belongs to the identity currently saved for its slot.
pub fn identity_fingerprint(key: &[u8; 16], app: &str, window_class: &str, control_class: &str) -> (r: u64)
    ensures
        r == keyed_hash_of(key@, identity_text(app@, window_class@, control_class@)),
{
    let mut s = String::new();
    s.append(app);
    s.push('\0');
    s.append(window_class);
    s.push('\0');
    s.append(control_class);
    proof {
        assert(s@ =~= identity_text(app@, window_class@, control_class@));
    }
    keyed_hash(key, s.as_str())
}

/// Layout version of the hints file this code reads and writes.
pub const HINTS_FORMAT_VERSION: u32 = 2;

/// A hints file is read only in the current layout version: an older or
/// unknown layout counts as no file at all, never as a misread one.
pub fn hints_version_accepted(version: u32) -> (r: bool)
    ensures
        r == (version == HINTS_FORMAT_VERSION),
{
    version == HINTS_FORMAT_VERSION
}

/// Keyed hash of a window's title; `None` for an untitled window, which is
/// never matched against a saved hint.
pub fn title_hash_of(key: &[u8; 16], title: &str) -> (r: Option<u64>)
    ensures
        title@.len() == 0 ==> r is None,
        title@.len() > 0 ==> r == Some(keyed_hash_of(key@, title@)),
{
    if title.unicode_len() == 0 {
        None
    } else {
        Some(keyed_hash(key, title))
    }
}

/// The hint saved for a slot's target: the keyed fingerprint of its
/// identity and the keyed hash of its window title; none when the window
/// has no title hash.
pub fn slot_hint_for(
    key: &[u8; 16],
    app: &str,
    window_class: &str,
    control_class: &str,
    title_hash: Option<u64>,
) -> (r: Option<SlotHint>)
    ensures
        match title_hash {
            None => r is None,
            Some(t) => r == Some(
                SlotHint {
                    identity_fp: keyed_hash_of(key@, identity_text(app@, window_class@, control_class@)),
                    title_hash: t,
                },
            ),
        },
{
    match title_hash {
        None => None,
        Some(t) => Some(
            SlotHint { identity_fp: identity_fingerprint(key, app, window_class, control_class), title_hash: t },
        ),
    }
}

/// One client-rect dimension (`hi - lo`) computed without overflow: `None`
/// for a degenerate (non-positive) axis, else the size saturated to
/// `i32::MAX`.
pub fn client_dim(hi: i32, lo: i32) -> (r: Option<i32>)
    ensures
        r == if hi - lo <= 0 {
            None
        } else if hi - lo > i32::MAX {
            Some(i32::MAX)
        } else {
            Some((hi - lo) as i32)
        },
{
    let d: i64 = hi as i64 - lo as i64;
    if d <= 0 {
        return None;
    }
    if d > i32::MAX as i64 {
        Some(i32::MAX)
    } else {
        Some(d as i32)
    }
}

/// Clamp `v` into a monitor rect edge `[lo, hi)` (the far edge is one past
/// the last valid pixel); a degenerate rect clamps to `lo`.
pub fn clamp_into_rect_1d(v: i32, lo: i32, hi: i32) -> (r: i32)
    ensures
        r == if hi <= lo {
            lo
        } else if v < lo {
            lo
        } else if v > hi - 1 {
            (hi - 1) as i32
        } else {
            v
        },
{
    if hi <= lo {
        return lo;
    }
    if v < lo {
        lo
    } else if v > hi - 1 {
        hi - 1
    } else {
        v
    }
}

/// Outcome of one COM initialization attempt, decided from its HRESULT.
#[derive(Clone, Copy, Debug, PartialEq, Eq, Structural)]
pub enum ComInitOutcome {
    /// Success (`S_OK` or `S_FALSE`): must be paired with one uninitialize.
    Owned,
    /// `RPC_E_CHANGED_MODE`: initialized elsewhere in another mode; COM is
    /// usable but this call did nothing to undo.
    AlreadyInitializedElsewhere,
    /// Any other failure.
    Failed,
}

/// `RPC_E_CHANGED_MODE` (0x80010106) as a signed HRESULT.
pub const RPC_E_CHANGED_MODE: i32 = -2147417850;

/// Classify a `CoInitializeEx` HRESULT.
pub fn classify_com_init(hr: i32) -> (r: ComInitOutcome)
    ensures
        r == if hr >= 0 {
            ComInitOutcome::Owned
        } else if hr == RPC_E_CHANGED_MODE {
            ComInitOutcome::AlreadyInitializedElsewhere
        } else {
            ComInitOutcome::Failed
        },
{
    if hr >= 0 {
        ComInitOutcome::Owned
    } else if hr == RPC_E_CHANGED_MODE {
        ComInitOutcome::AlreadyInitializedElsewhere
    } else {
        ComInitOutcome::Failed
    }
}

/// The password verdict of a UI Automation query about the focused element,
/// trusted only when that element belongs to process `pid`: `None` (could
/// not determine) when the query failed, the element's process is unknown,
/// negative or another one.
pub fn uia_password_verdict(focused_pid: Option<i32>, pid: u32, is_password: Option<bool>) -> (r: Option<bool>)
    ensures
        r == match focused_pid {
            Some(p) => if p >= 0 && p as u32 == pid {
                is_password
            } else {
                None
            },
            None => None,
        },
{
    match focused_pid {
        Some(p) => {
            if p < 0 || p as u32 != pid {
                None
            } else {
                is_password
            }
        },
        None => None,
    }
}


/// Whether `class` names a classic Win32 edit control (`Edit`, any case).
pub open spec fn is_edit_class(class: Seq<char>) -> bool {
    eq_ignore_ascii_case_spec(class, seq!['E', 'd', 'i', 't'])
}

/// Whether a window style carries the password bit.
pub open spec fn is_password_style(style: i32) -> bool {
    style & ES_PASSWORD != 0
}

fn is_edit(class: &str) -> (r: bool)
    ensures
        r == is_edit_class(class@),
{
    let edit = "Edit";
    proof {
        reveal_strlit("Edit");
        assert(edit@ =~= seq!['E', 'd', 'i', 't']);
    }
    eq_ignore_ascii_case(class, edit)
}

fn owned(s: &str) -> (r: String)
    ensures
        r@ == s@,
{
    s.to_owned()
}

/// What the live window system says about a saved target's handles right
/// now, read immediately before a delivery is revalidated.
pub struct LiveTargetFacts {
    pub window_alive: bool,
    pub window_pid: u32,
    pub window_tid: u32,
    pub control_alive: bool,
    pub control_pid: u32,
    pub control_tid: u32,
    pub control_class: String,
    pub control_style: i32,
    /// UI Automation's password verdict for the focused element of the
    /// target's process (`None`: could not determine).
    pub uia_password: Option<bool>,
}

/// Revalidation of a stored target before delivery (handle values get
/// recycled, so a live handle is no proof it is still the same window or
/// field). `Err((reason, window_gone))`; `window_gone` marks the cases where
/// the slot may be cleared.
pub open spec fn validate_spec(t: TargetIdentity, live: LiveTargetFacts) -> Result<(), (Seq<char>, bool)> {
    if !live.window_alive {
        Err(("target window no longer exists"@, true))
    } else if live.window_pid != t.pid || live.window_tid != t.tid {
        Err(("target window was replaced by another"@, true))
    } else if !live.control_alive {
        Err(("target field no longer exists"@, false))
    } else if live.control_pid != t.pid || live.control_tid == 0 {
        Err(("target field was replaced by another"@, false))
    } else if live.control_class@ != t.control_class@ {
        Err(("target field changed type"@, false))
    } else if is_edit_class(t.control_class@) && is_password_style(live.control_style) {
        Err(("target field became a password field"@, false))
    } else if live.uia_password == Some(true) {
        Err(("target field became a password field"@, false))
    } else {
        Ok(())
    }
}

/// Revalidate the stored target `t` against the live facts.
pub fn validate(t: &TargetIdentity, live: &LiveTargetFacts) -> (r: Result<(), (String, bool)>)
    ensures
        match (r, validate_spec(*t, *live)) {
            (Ok(()), Ok(())) => true,
            (Err((reason, gone)), Err((spec_reason, spec_gone))) => reason@ == spec_reason && gone
                == spec_gone,
            _ => false,
        },
{
    if !live.window_alive {
        return Err((owned("target window no longer exists"), true));
    }
    if live.window_pid != t.pid || live.window_tid != t.tid {
        return Err((owned("target window was replaced by another"), true));
    }
    if !live.control_alive {
        return Err((owned("target field no longer exists"), false));
    }
    if live.control_pid != t.pid || live.control_tid == 0 {
        return Err((owned("target field was replaced by another"), false));
    }
    if !str_eq(live.control_class.as_str(), t.control_class.as_str()) {
        return Err((owned("target field changed type"), false));
    }
    if is_edit(t.control_class.as_str()) && live.control_style & ES_PASSWORD != 0 {
        return Err((owned("target field became a password field"), false));
    }
    if live.uia_password == Some(true) {
        return Err((owned("target field became a password field"), false));
    }
    Ok(())
}

/// What the window system reported about the foreground at capture time.
pub struct CaptureFacts {
    /// The foreground window (0 = none).
    pub foreground: isize,
    /// Its owning process and thread (thread 0 = could not identify).
    pub pid: u32,
    pub tid: u32,
    /// This tool's own process.
    pub own_pid: u32,
    /// The thread's focused control, when `GetGUIThreadInfo` succeeded and
    /// reported one (0 = none).
    pub focused: Option<isize>,
    /// Class of the control that will be captured, its style, and the UI
    /// Automation password verdict for it.
    pub control_class: String,
    pub control_style: i32,
    pub uia_password: Option<bool>,
    pub window_class: String,
    /// Executable stem of the owning process, if it could be read.
    pub process_name: Option<String>,
}

/// The control a capture records: the focused control when one was
/// reported, else the top-level window.
pub open spec fn captured_control(f: CaptureFacts) -> isize {
    match f.focused {
        Some(c) => if c != 0 {
            c
        } else {
            f.foreground
        },
        None => f.foreground,
    }
}

/// Capture-time refusals, in order: no foreground window, an unidentifiable
/// one, this tool's own windows, a password field (classic edit style bit
/// or UI Automation verdict).
pub open spec fn capture_refusal(slot: usize, f: CaptureFacts) -> Option<Seq<char>> {
    if slot >= SLOT_COUNT {
        Some("invalid jump slot "@ + decimal(slot as nat))
    } else if f.foreground == 0 {
        Some("no foreground window"@)
    } else if f.tid == 0 {
        Some("could not identify the foreground window"@)
    } else if f.pid == f.own_pid {
        Some("cannot anchor Handy Tool's own windows"@)
    } else if is_edit_class(f.control_class@) && is_password_style(f.control_style) {
        Some("refusing to anchor a password field"@)
    } else if f.uia_password == Some(true) {
        Some("refusing to anchor a password field"@)
    } else {
        None
    }
}

/// Turn capture-time facts into a target identity for `slot`, or the
/// reason the capture is refused. The app name falls back to `unknown`.
pub fn capture_target(slot: usize, f: CaptureFacts) -> (r: Result<TargetIdentity, String>)
    ensures
        match r {
            Ok(t) => {
                &&& capture_refusal(slot, f) is None
                &&& t.hwnd == f.foreground
                &&& t.control == captured_control(f)
                &&& t.pid == f.pid
                &&& t.tid == f.tid
                &&& t.window_class@ == f.window_class@
                &&& t.control_class@ == f.control_class@
                &&& t.app@ == match f.process_name {
                    Some(n) => n@,
                    None => "unknown"@,
                }
            },
            Err(reason) => capture_refusal(slot, f) == Some(reason@),
        },
{
    if slot >= SLOT_COUNT {
        let msg = with_number("invalid jump slot ", slot as u64, "");
        proof {
            reveal_strlit("");
            assert(msg@ =~= "invalid jump slot "@ + decimal(slot as nat));
        }
        return Err(msg);
    }
    if f.foreground == 0 {
        return Err(owned("no foreground window"));
    }
    if f.tid == 0 {
        return Err(owned("could not identify the foreground window"));
    }
    if f.pid == f.own_pid {
        return Err(owned("cannot anchor Handy Tool's own windows"));
    }
    if is_edit(f.control_class.as_str()) && f.control_style & ES_PASSWORD != 0 {
        return Err(owned("refusing to anchor a password field"));
    }
    if f.uia_password == Some(true) {
        return Err(owned("refusing to anchor a password field"));
    }
    let control = match f.focused {
        Some(c) => if c != 0 {
            c
        } else {
            f.foreground
        },
        None => f.foreground,
    };
    let app = match f.process_name {
        Some(n) => n,
        None => owned("unknown"),
    };
    Ok(TargetIdentity {
        hwnd: f.foreground,
        control,
        pid: f.pid,
        tid: f.tid,
        window_class: f.window_class,
        control_class: f.control_class,
        app,
    })
}

/// What the window system says about focus right before a keystroke.
pub struct FocusFacts {
    /// The foreground window now.
    pub foreground: isize,
    /// Whether the captured control's handle is still a live window.
    pub control_alive: bool,
    /// The control's thread (0 = gone).
    pub control_thread: u32,
    /// `GetGUIThreadInfo` for that thread: `None` when the call failed,
    /// else the focused handle (0 = no focus reported).
    pub focus: Option<isize>,
    /// The foreground window read again when no focus was reported.
    pub foreground_again: isize,
    /// Whether the control's class is `Edit` and its current style.
    pub control_is_edit: bool,
    pub control_style: i32,
}

/// The per-keystroke recheck of an active delivery: the target window is
/// still foreground, the captured control is still alive and holds focus
/// (or the thread reports no focus at all while the window is foreground:
/// remote-desktop canvases), and it has not turned into a password box.
/// Anything that cannot be verified fails closed.
pub open spec fn still_foreground_spec(guard: DeliveryGuard, f: FocusFacts) -> bool {
    &&& f.foreground == guard.target.hwnd
    &&& f.control_alive
    &&& f.control_thread != 0
    &&& f.focus matches Some(h) && (h == guard.target.control || (h == 0 && f.foreground_again
        == guard.target.hwnd))
    &&& !(f.control_is_edit && is_password_style(f.control_style))
}

/// Whether an active delivery may send its next keystroke.
pub fn guard_still_foreground(guard: &DeliveryGuard, f: &FocusFacts) -> (r: bool)
    ensures
        r == still_foreground_spec(*guard, *f),
{
    if f.foreground != guard.target.hwnd {
        return false;
    }
    if !f.control_alive {
        return false;
    }
    if f.control_thread == 0 {
        return false;
    }
    let focus_ok = match f.focus {
        None => false,
        Some(h) => h == guard.target.control || (h == 0 && f.foreground_again == guard.target.hwnd),
    };
    if !focus_ok {
        return false;
    }
    if f.control_is_edit && f.control_style & ES_PASSWORD != 0 {
        return false;
    }
    true
}

/// Whether focusing the target control counts as verified: the control
/// itself has focus, or some control inside the target window does, or the
/// target window is at least foreground (remote canvases manage their own
/// inner focus).
pub fn focus_accepted(
    focus_query_ok: bool,
    focused: isize,
    focused_root: isize,
    control: isize,
    root: isize,
    foreground: isize,
) -> (r: bool)
    ensures
        r == ((focus_query_ok && (focused == control || (focused != 0 && focused_root == root)))
            || foreground == root),
{
    if focus_query_ok {
        if focused == control {
            return true;
        }
        if focused != 0 && focused_root == root {
            return true;
        }
    }
    foreground == root
}

/// Whether a finished delivery hands the foreground back to the window that
/// was in front before the jump: only when the flow asks for it, the target
/// is still in front (the user did not move away), and the previous window
/// is a different, still live window.
pub fn should_return_focus(
    guard: &DeliveryGuard,
    return_focus: bool,
    current_foreground: isize,
    prev_alive: bool,
) -> (r: bool)
    ensures
        r == (return_focus && current_foreground == guard.target.hwnd && guard.prev_foreground != 0
            && guard.prev_foreground != guard.target.hwnd && prev_alive),
{
    return_focus && current_foreground == guard.target.hwnd && guard.prev_foreground != 0
        && guard.prev_foreground != guard.target.hwnd && prev_alive
}

/// Begin an anchored delivery for a take's intent: no intent, no anchor.
/// Otherwise the slot to deliver into.
pub fn delivery_slot(intent: DeliveryIntent) -> (r: Option<usize>)
    ensures
        r == intent.0,
{
    intent.0
}

/// The guard for a delivery that passed every check: the foreground before
/// the jump, and the validated target's identity verbatim.
pub fn ready_delivery(prev_foreground: isize, target: &TargetIdentity, slot: usize) -> (r: BeginDelivery)
    ensures
        r matches BeginDelivery::Ready(g) && g.prev_foreground == prev_foreground && g.slot == slot
            && g.target.hwnd == target.hwnd && g.target.control == target.control && g.target.pid
            == target.pid && g.target.tid == target.tid && g.target.app@ == target.app@
            && g.target.window_class@ == target.window_class@ && g.target.control_class@
            == target.control_class@,
{
    BeginDelivery::Ready(
        DeliveryGuard {
            prev_foreground,
            target: TargetIdentity {
                hwnd: target.hwnd,
                control: target.control,
                pid: target.pid,
                tid: target.tid,
                window_class: target.window_class.clone(),
                control_class: target.control_class.clone(),
                app: target.app.clone(),
            },
            slot,
        },
    )
}


/// Slot count of the hints file before the static range grew (Hot 2 was
/// then at index 5).
pub const PRE_EXPANSION_SLOTS: usize = 6;

/// Index of Hot 2 in a pre-expansion hints file.
pub const OLD_HOT2: usize = 5;

/// The per-slot hints of a loaded hints file brought to [`SLOT_COUNT`]
/// entries: a pre-expansion file (exactly six entries) grows with its Hot 2
/// hint moved from index 5 to [`HOT2`]; any other length is cut or padded
/// with empty hints.
pub open spec fn migrated_hints(slots: Seq<Option<SlotHint>>) -> Seq<Option<SlotHint>> {
    if slots.len() == PRE_EXPANSION_SLOTS {
        Seq::new(
            SLOT_COUNT as nat,
            |i: int|
                if i == HOT2 {
                    slots[OLD_HOT2 as int]
                } else if i < PRE_EXPANSION_SLOTS && i != OLD_HOT2 {
                    slots[i]
                } else {
                    None
                },
        )
    } else {
        Seq::new(
            SLOT_COUNT as nat,
            |i: int|
                if i < slots.len() {
                    slots[i]
                } else {
                    None
                },
        )
    }
}

/// Bring loaded hints to the current slot layout.
pub fn migrate_hint_slots(slots: Vec<Option<SlotHint>>) -> (r: Vec<Option<SlotHint>>)
    ensures
        r@ == migrated_hints(slots@),
{
    let mut out: Vec<Option<SlotHint>> = Vec::new();
    let mut i: usize = 0;
    let pre = slots.len() == PRE_EXPANSION_SLOTS;
    while i < SLOT_COUNT
        invariant
            i <= SLOT_COUNT,
            pre == (slots@.len() == PRE_EXPANSION_SLOTS),
            out@ == migrated_hints(slots@).subrange(0, i as int),
        decreases SLOT_COUNT - i,
    {
        let h = if pre {
            if i == HOT2 {
                slots[OLD_HOT2]
            } else if i < PRE_EXPANSION_SLOTS && i != OLD_HOT2 {
                slots[i]
            } else {
                None
            }
        } else if i < slots.len() {
            slots[i]
        } else {
            None
        };
        out.push(h);
        i = i + 1;
        proof {
            assert(out@ =~= migrated_hints(slots@).subrange(0, i as int));
        }
    }
    proof {
        assert(migrated_hints(slots@).subrange(0, SLOT_COUNT as int) =~= migrated_hints(slots@));
    }
    out
}

/// The candidates (in window Z-order) whose title hash equals `hint`.
pub open spec fn hint_matches(candidates: Seq<isize>, title_hashes: Seq<Option<u64>>, hint: u64) -> Seq<isize>
    decreases candidates.len(),
{
    if candidates.len() == 0 {
        Seq::empty()
    } else {
        let rest = hint_matches(candidates.drop_last(), title_hashes.drop_last(), hint);
        if title_hashes.last() == Some(hint) {
            rest.push(candidates.last())
        } else {
            rest
        }
    }
}

/// The usable title hint of a slot: the saved hint's title hash, only if
/// the hint was saved for the identity being resolved.
pub open spec fn usable_hint(saved: Option<SlotHint>, current_fp: u64) -> Option<u64> {
    match saved {
        Some(h) => if h.identity_fp == current_fp {
            Some(h.title_hash)
        } else {
            None
        },
        None => None,
    }
}

/// Which live window a persisted slot identity resolves to. One candidate:
/// that one. Several: the unique one whose title matches the usable hint;
/// failing that, the topmost one only when an ambiguous guess is allowed
/// (the explicit jump, where the user sees where they land), else none.
pub open spec fn chosen_candidate(
    candidates: Seq<isize>,
    title_hashes: Seq<Option<u64>>,
    saved: Option<SlotHint>,
    current_fp: u64,
    allow_ambiguous_fallback: bool,
) -> Option<isize> {
    if candidates.len() == 0 {
        None
    } else if candidates.len() == 1 {
        Some(candidates[0])
    } else {
        let matches = match usable_hint(saved, current_fp) {
            Some(h) => hint_matches(candidates, title_hashes, h),
            None => Seq::empty(),
        };
        if matches.len() == 1 {
            Some(matches[0])
        } else if allow_ambiguous_fallback {
            Some(candidates[0])
        } else {
            None
        }
    }
}

proof fn lemma_hint_matches_none(candidates: Seq<isize>, title_hashes: Seq<Option<u64>>, hint: u64)
    requires
        candidates.len() == title_hashes.len(),
        forall|i: int| 0 <= i < title_hashes.len() ==> title_hashes[i] != Some(hint),
    ensures
        hint_matches(candidates, title_hashes, hint).len() == 0,
    decreases candidates.len(),
{
    if candidates.len() > 0 {
        assert(title_hashes.last() == title_hashes[title_hashes.len() - 1]);
        lemma_hint_matches_none(candidates.drop_last(), title_hashes.drop_last(), hint);
    }
}

proof fn lemma_hint_matches_unique(candidates: Seq<isize>, title_hashes: Seq<Option<u64>>, hint: u64, j: int)
    requires
        candidates.len() == title_hashes.len(),
        0 <= j < title_hashes.len(),
        title_hashes[j] == Some(hint),
        forall|i: int| 0 <= i < title_hashes.len() && i != j ==> title_hashes[i] != Some(hint),
    ensures
        hint_matches(candidates, title_hashes, hint) == seq![candidates[j]],
    decreases candidates.len(),
{
    let n = candidates.len() - 1;
    if j == n {
        lemma_hint_matches_none(candidates.drop_last(), title_hashes.drop_last(), hint);
        assert(hint_matches(candidates.drop_last(), title_hashes.drop_last(), hint) =~= Seq::<isize>::empty());
        assert(seq![candidates[j]] =~= Seq::<isize>::empty().push(candidates.last()));
    } else {
        assert(title_hashes.last() == title_hashes[n]);
        assert(title_hashes.drop_last()[j] == title_hashes[j]);
        assert(candidates.drop_last()[j] == candidates[j]);
        lemma_hint_matches_unique(candidates.drop_last(), title_hashes.drop_last(), hint, j);
    }
}

proof fn lemma_hint_matches_two(candidates: Seq<isize>, title_hashes: Seq<Option<u64>>, hint: u64, i: int, j: int)
    requires
        candidates.len() == title_hashes.len(),
        0 <= i < j < title_hashes.len(),
        title_hashes[i] == Some(hint),
        title_hashes[j] == Some(hint),
    ensures
        hint_matches(candidates, title_hashes, hint).len() >= 2,
    decreases candidates.len(),
{
    let n = candidates.len() - 1;
    assert(title_hashes.drop_last()[i] == title_hashes[i]);
    if j == n {
        lemma_hint_matches_some(candidates.drop_last(), title_hashes.drop_last(), hint, i);
    } else {
        assert(title_hashes.drop_last()[j] == title_hashes[j]);
        lemma_hint_matches_two(candidates.drop_last(), title_hashes.drop_last(), hint, i, j);
    }
}

proof fn lemma_hint_matches_some(candidates: Seq<isize>, title_hashes: Seq<Option<u64>>, hint: u64, i: int)
    requires
        candidates.len() == title_hashes.len(),
        0 <= i < title_hashes.len(),
        title_hashes[i] == Some(hint),
    ensures
        hint_matches(candidates, title_hashes, hint).len() >= 1,
    decreases candidates.len(),
{
    let n = candidates.len() - 1;
    if i != n {
        assert(title_hashes.drop_last()[i] == title_hashes[i]);
        lemma_hint_matches_some(candidates.drop_last(), title_hashes.drop_last(), hint, i);
    }
}

/// No live window of the identity resolves to nothing; a single one
/// resolves to itself, whatever the hint and the fallback switch.
pub proof fn lemma_few_candidates_resolution(
    candidates: Seq<isize>,
    title_hashes: Seq<Option<u64>>,
    saved: Option<SlotHint>,
    current_fp: u64,
    allow_ambiguous_fallback: bool,
)
    requires
        candidates.len() <= 1,
    ensures
        candidates.len() == 0 ==> chosen_candidate(candidates, title_hashes, saved, current_fp, allow_ambiguous_fallback) is None,
        candidates.len() == 1 ==> chosen_candidate(candidates, title_hashes, saved, current_fp, allow_ambiguous_fallback)
            == Some(candidates[0]),
{
}

/// Resolving among several windows of the identity: when exactly one
/// window's title matches the hint saved for this identity, that window is
/// chosen, whether or not an ambiguous guess is allowed.
pub proof fn lemma_unique_hint_match_wins(
    candidates: Seq<isize>,
    title_hashes: Seq<Option<u64>>,
    saved: SlotHint,
    current_fp: u64,
    allow_ambiguous_fallback: bool,
    j: int,
)
    requires
        candidates.len() == title_hashes.len(),
        candidates.len() >= 2,
        saved.identity_fp == current_fp,
        0 <= j < candidates.len(),
        title_hashes[j] == Some(saved.title_hash),
        forall|i: int| 0 <= i < title_hashes.len() && i != j ==> title_hashes[i] != Some(saved.title_hash),
    ensures
        chosen_candidate(candidates, title_hashes, Some(saved), current_fp, allow_ambiguous_fallback)
            == Some(candidates[j]),
{
    lemma_hint_matches_unique(candidates, title_hashes, saved.title_hash, j);
}

/// Resolving among several windows when the hint does not single one out
/// (no hint for this identity, no window matching it, or several): the
/// topmost window when an ambiguous guess is allowed, else none.
pub proof fn lemma_ambiguous_resolution(
    candidates: Seq<isize>,
    title_hashes: Seq<Option<u64>>,
    saved: Option<SlotHint>,
    current_fp: u64,
    allow_ambiguous_fallback: bool,
)
    requires
        candidates.len() == title_hashes.len(),
        candidates.len() >= 2,
        match saved {
            Some(h) => h.identity_fp != current_fp
                || (forall|i: int| 0 <= i < title_hashes.len() ==> title_hashes[i] != Some(h.title_hash))
                || (exists|i: int, j: int|
                0 <= i < j < title_hashes.len() && title_hashes[i] == Some(h.title_hash) && title_hashes[j]
                    == Some(h.title_hash)),
            None => true,
        },
    ensures
        chosen_candidate(candidates, title_hashes, saved, current_fp, allow_ambiguous_fallback)
            == if allow_ambiguous_fallback {
            Some(candidates[0])
        } else {
            None
        },
{
    if let Some(h) = saved {
        if h.identity_fp == current_fp {
            if forall|i: int| 0 <= i < title_hashes.len() ==> title_hashes[i] != Some(h.title_hash) {
                lemma_hint_matches_none(candidates, title_hashes, h.title_hash);
            } else {
                let (i, j) = choose|i: int, j: int|
                    0 <= i < j < title_hashes.len() && title_hashes[i] == Some(h.title_hash) && title_hashes[j]
                        == Some(h.title_hash);
                lemma_hint_matches_two(candidates, title_hashes, h.title_hash, i, j);
            }
        }
    }
}

/// Pick the live window a persisted identity resolves to; `title_hashes[i]`
/// is the keyed title hash of `candidates[i]`.
pub fn choose_candidate(
    candidates: &[isize],
    title_hashes: &[Option<u64>],
    saved: Option<SlotHint>,
    current_fp: u64,
    allow_ambiguous_fallback: bool,
) -> (r: Option<isize>)
    requires
        candidates@.len() == title_hashes@.len(),
    ensures
        r == chosen_candidate(candidates@, title_hashes@, saved, current_fp, allow_ambiguous_fallback),
{
    if candidates.len() == 0 {
        return None;
    }
    if candidates.len() == 1 {
        return Some(candidates[0]);
    }
    let hint = match saved {
        Some(h) => if hint_is_valid_for(&h, current_fp) {
            Some(h.title_hash)
        } else {
            None
        },
        None => None,
    };
    let mut matches: Vec<isize> = Vec::new();
    if let Some(h) = hint {
        let mut i: usize = 0;
        while i < candidates.len()
            invariant
                i <= candidates@.len(),
                candidates@.len() == title_hashes@.len(),
                matches@ == hint_matches(
                    candidates@.subrange(0, i as int),
                    title_hashes@.subrange(0, i as int),
                    h,
                ),
            decreases candidates@.len() - i,
        {
            proof {
                let c = candidates@.subrange(0, i as int + 1);
                let t = title_hashes@.subrange(0, i as int + 1);
                assert(c.drop_last() =~= candidates@.subrange(0, i as int));
                assert(t.drop_last() =~= title_hashes@.subrange(0, i as int));
            }
            if title_hashes[i] == Some(h) {
                matches.push(candidates[i]);
            }
            i = i + 1;
        }
        proof {
            assert(candidates@.subrange(0, candidates@.len() as int) =~= candidates@);
            assert(title_hashes@.subrange(0, title_hashes@.len() as int) =~= title_hashes@);
        }
    }
    if matches.len() == 1 {
        Some(matches[0])
    } else if allow_ambiguous_fallback {
        Some(candidates[0])
    } else {
        None
    }
}

/// The UI's view of the slots: each live slot as it is; with persistence on,
/// an empty slot that still has a saved identity shows that identity as
/// stale.
pub open spec fn merged_status(
    live: Option<AnchorStatus>,
    persist: bool,
    saved: Option<SavedIdentity>,
) -> Option<(Seq<char>, Seq<char>, bool)> {
    match live {
        Some(s) => Some((s.app@, s.control_class@, s.stale)),
        None => if persist {
            match saved {
                Some(id) => Some((id.app@, id.control_class@, true)),
                None => None,
            }
        } else {
            None
        },
    }
}

/// Merge live slot statuses with persisted identities (index = slot).
pub fn statuses(
    live: Vec<Option<AnchorStatus>>,
    persist: bool,
    saved: &[Option<SavedIdentity>],
) -> (r: Vec<Option<AnchorStatus>>)
    ensures
        r@.len() == live@.len(),
        forall|i: int|
            0 <= i < live@.len() ==> match (#[trigger] r@[i], merged_status(
                live@[i],
                persist,
                if i < saved@.len() {
                    saved@[i]
                } else {
                    None
                },
            )) {
                (Some(s), Some((app, class, stale))) => s.app@ == app && s.control_class@ == class
                    && s.stale == stale,
                (None, None) => true,
                _ => false,
            },
{
    let mut out: Vec<Option<AnchorStatus>> = Vec::new();
    let mut i: usize = 0;
    while i < live.len()
        invariant
            i <= live@.len(),
            out@.len() == i,
            forall|k: int|
                0 <= k < i ==> match (#[trigger] out@[k], merged_status(
                    live@[k],
                    persist,
                    if k < saved@.len() {
                        saved@[k]
                    } else {
                        None
                    },
                )) {
                    (Some(s), Some((app, class, stale))) => s.app@ == app && s.control_class@
                        == class && s.stale == stale,
                    (None, None) => true,
                    _ => false,
                },
        decreases live@.len() - i,
    {
        let entry: Option<AnchorStatus> = match &live[i] {
            Some(st) => Some(
                AnchorStatus {
                    app: st.app.clone(),
                    control_class: st.control_class.clone(),
                    stale: st.stale,
                },
            ),
            None => {
                if persist && i < saved.len() {
                    match &saved[i] {
                        Some(id) => Some(
                            AnchorStatus {
                                app: id.app.clone(),
                                control_class: id.control_class.clone(),
                                stale: true,
                            },
                        ),
                        None => None,
                    }
                } else {
                    None
                }
            },
        };
        out.push(entry);
        i = i + 1;
    }
    out
}

/// How a slot mutation reaches the persisted store.
#[derive(Clone, Copy, Debug, PartialEq, Eq, Structural)]
pub enum PersistPlan {
    /// Persistence is off: write nothing.
    Skip,
    /// Write the identity (the hint step, attempted first, is done).
    WriteIdentity,
    /// A set whose hint write failed: abort, leaving the saved identity
    /// as it was, so a hint never pairs with a newer identity than the one
    /// it describes.
    Abort,
}

/// Persist ordering of one slot: with persistence on, the hint is written
/// first; a set proceeds to the identity only if that hint landed, while a
/// clear proceeds regardless (no identity means the hint is never read).
pub fn persist_plan(persist: bool, is_set: bool, hint_written: bool) -> (r: PersistPlan)
    ensures
        r == if !persist {
            PersistPlan::Skip
        } else if is_set && !hint_written {
            PersistPlan::Abort
        } else {
            PersistPlan::WriteIdentity
        },
{
    if !persist {
        PersistPlan::Skip
    } else if is_set && !hint_written {
        PersistPlan::Abort
    } else {
        PersistPlan::WriteIdentity
    }
}


/// Why a delivery or jump into an empty slot fails.
pub fn slot_not_set_reason(slot: usize) -> (r: String)
    ensures
        r@ == "jump slot "@ + decimal(slot as nat) + " is not set"@,
{
    with_number("jump slot ", slot as u64, " is not set")
}

} // verus!
