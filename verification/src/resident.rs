//! One prepared value kept across proofs: a zkey is parsed and uploaded once
//! and the result is kept under the file's identity. And the decisions of a
//! device backend that may hold a key resident or stream it.

use vstd::prelude::*;

use crate::budget;
use crate::budget::{Budget, Mode};
use crate::text;

verus! {

/// Environment variable: `0` turns the cache off.
pub const RESIDENT_ENV: &'static str = "RISC0_GROTH16_RESIDENT";

/// The words that turn residency off.
pub open spec fn off(value: Seq<char>) -> bool {
    value == "0"@ || value == "false"@ || value == "off"@
}

fn is_off(value: &str) -> (r: bool)
    ensures
        r == off(value@),
{
    text::same(value, "0") || text::same(value, "false") || text::same(value, "off")
}

/// Whether the cache is enabled by the configured value (default: yes).
pub fn enabled(value: Option<&str>) -> (r: bool)
    ensures
        r == !(value matches Some(v) && off(v@)),
{
    match value {
        Some(v) => !is_off(v),
        None => true,
    }
}

/// What the configured value asks for. Absent means AUTO: resident or
/// streaming is chosen from the memory budget against the device's free
/// memory. `0`/`false`/`off` forces streaming; anything else forces resident.
#[derive(Clone, Copy, Debug, PartialEq, Eq, Structural)]
pub enum Choice {
    /// Decide from the budget and the device's free memory.
    Auto,
    /// The operator pinned the path (`true` = resident, `false` = streaming).
    Force(bool),
}

/// The three-way choice of the configured value.
pub fn choice(value: Option<&str>) -> (r: Choice)
    ensures
        r == (match value {
            None => Choice::Auto,
            Some(v) => Choice::Force(!off(v@)),
        }),
{
    match value {
        None => Choice::Auto,
        Some(v) => Choice::Force(!is_off(v)),
    }
}

/// Residency is turned off by the digit `0` and by the lower-case words `false` and `off`, and by
/// nothing else.
pub proof fn lemma_off_words(value: Seq<char>)
    ensures
        off(value) <==> value == seq!['0'] || value == seq!['o', 'f', 'f'] || value == seq![
            'f',
            'a',
            'l',
            's',
            'e',
        ],
{
    reveal_strlit("0");
    reveal_strlit("false");
    reveal_strlit("off");
    assert("0"@ =~= seq!['0']);
    assert("off"@ =~= seq!['o', 'f', 'f']);
    assert("false"@ =~= seq!['f', 'a', 'l', 's', 'e']);
}

/// A zkey file's identity: path, length and modification time (nanoseconds
/// since the epoch), enough to notice a replaced file at the same path.
#[derive(Clone, Debug)]
pub struct Key {
    path: String,
    len: u64,
    modified: Option<i128>,
}

impl Key {
    /// What the key is made of.
    pub closed spec fn parts(self) -> (Seq<char>, u64, Option<i128>) {
        (self.path@, self.len, self.modified)
    }

    /// The identity of a file with these metadata.
    pub fn of(path: String, len: u64, modified: Option<i128>) -> (r: Self)
        ensures
            r.parts() == (path@, len, modified),
    {
        Self { path, len, modified }
    }

    /// Whether two keys are of the same file in the same state.
    pub fn same(&self, other: &Self) -> (r: bool)
        ensures
            r == (self.parts() == other.parts()),
    {
        let times = match (&self.modified, &other.modified) {
            (Some(a), Some(b)) => *a == *b,
            (None, None) => true,
            _ => false,
        };
        times && self.len == other.len && text::same(self.path.as_str(), other.path.as_str())
    }
}

impl PartialEq for Key {
    fn eq(&self, other: &Self) -> (r: bool) {
        self.same(other)
    }
}

impl vstd::std_specs::cmp::PartialEqSpecImpl for Key {
    open spec fn obeys_eq_spec() -> bool {
        true
    }

    open spec fn eq_spec(&self, other: &Self) -> bool {
        self.parts() == other.parts()
    }
}

impl Eq for Key {

}

/// One cached value, keyed; `get_or_prepare` returns the cached value for
/// the same key and rebuilds it for a different one.
pub struct Cache<T> {
    slot: Option<(Key, T)>,
}

impl<T> Cache<T> {
    /// What is held, with the parts of its key.
    pub closed spec fn held(self) -> Option<((Seq<char>, u64, Option<i128>), T)> {
        match self.slot {
            Some((key, value)) => Some((key.parts(), value)),
            None => None,
        }
    }

    /// The value held for this key.
    pub open spec fn held_for(self, key: Key) -> Option<T> {
        match self.held() {
            Some((parts, value)) => if parts == key.parts() {
                Some(value)
            } else {
                None
            },
            None => None,
        }
    }

    /// An empty cache.
    pub fn new() -> (r: Self)
        ensures
            r.held() is None,
    {
        Self { slot: None }
    }

    /// The cached value for `key`, if it is the one currently held: a
    /// non-preparing peek, so that a caller can skip its probe once a resident
    /// zkey is already up.
    pub fn peek(&self, key: &Key) -> (r: Option<&T>)
        ensures
            match r {
                Some(v) => self.held_for(*key) == Some(*v),
                None => self.held_for(*key) is None,
            },
    {
        match &self.slot {
            Some((k, v)) => if k.same(key) {
                Some(v)
            } else {
                None
            },
            None => None,
        }
    }

    /// Drop what is held.
    pub fn evict(&mut self)
        ensures
            final(self).held() is None,
    {
        self.slot = None;
    }

    /// The value for `key`, building it with `prepare` when absent or stale. A
    /// stale value is dropped before the new one is built, and a failure to
    /// build leaves the cache empty.
    pub fn get_or_prepare<E, F: FnOnce() -> Result<T, E>>(&mut self, key: Key, prepare: F) -> (r:
        Result<&T, E>)
        requires
            prepare.requires(()),
        ensures
            match old(self).held_for(key) {
                Some(v) => r matches Ok(held) && *held == v && final(self).held() == old(
                    self,
                ).held(),
                None => match r {
                    Ok(v) => prepare.ensures((), Ok::<T, E>(*v)) && final(self).held() == Some(
                        (key.parts(), *v),
                    ),
                    Err(e) => prepare.ensures((), Err::<T, E>(e)) && final(self).held() is None,
                },
            },
    {
        if self.peek(&key).is_none() {
            // free the stale value before the new one goes up
            self.slot = None;
            match prepare() {
                Ok(v) => {
                    self.slot = Some((key, v));
                },
                Err(e) => {
                    return Err(e);
                },
            }
        }
        let held = self.slot.as_ref().unwrap();
        Ok(&held.1)
    }
}

impl<T> Default for Cache<T> {
    fn default() -> (r: Self)
        ensures
            r.held() is None,
    {
        Self::new()
    }
}

// ---- resident or streaming ---------------------------------------------------------------------

/// The path that AUTO takes for the usable device bytes: what the budget chooses, so none where
/// not even streaming fits, and streaming where the free memory is unknown.
pub open spec fn auto_mode_of(budget: Budget, usable: Option<usize>) -> Option<Mode> {
    match usable {
        Some(bytes) => budget.dims().mode(bytes as int),
        None => Some(Mode::Streaming),
    }
}

/// The path that AUTO takes.
pub fn auto_mode(budget: &Budget, usable: Option<usize>) -> (r: Option<Mode>)
    requires
        budget.wf(),
        budget.dims().resident_peak() <= usize::MAX,
        budget.dims().num_public < usize::MAX,
    ensures
        r == auto_mode_of(*budget, usable),
        r == Some(Mode::Resident) <==> (usable matches Some(bytes)
            && budget.dims().resident_peak() <= bytes),
        r is None <==> (usable matches Some(bytes) && bytes < budget.dims().streaming_peak()),
{
    proof {
        if let Some(bytes) = usable {
            budget::lemma_mode_fits(budget.dims(), bytes as int);
        }
    }
    match usable {
        Some(bytes) => budget.choose_mode(bytes),
        None => Some(Mode::Streaming),
    }
}

/// AUTO finds no path exactly where the free memory is known and not even the streaming peak
/// fits in it.
pub proof fn lemma_auto_fails_fast(budget: Budget, usable: Option<usize>)
    ensures
        auto_mode_of(budget, usable) is None <==> (usable matches Some(bytes) && bytes
            < budget.dims().resident_peak() && bytes < budget.dims().streaming_peak()),
{
}

/// What AUTO takes fits the memory that is free, and it takes the resident path wherever that
/// fits.
pub proof fn lemma_auto_fits(budget: Budget, usable: Option<usize>)
    ensures
        auto_mode_of(budget, usable) == Some(Mode::Resident) <==> (usable matches Some(bytes)
            && budget.dims().resident_peak() <= bytes),
        auto_mode_of(budget, usable) == Some(Mode::Streaming) <==> match usable {
            Some(bytes) => budget.dims().streaming_peak() <= bytes < budget.dims().resident_peak(),
            None => true,
        },
{
    if let Some(bytes) = usable {
        budget::lemma_mode_fits(budget.dims(), bytes as int);
    }
}

/// What a device backend has learnt.
#[derive(Clone, Copy, Debug, PartialEq, Eq, Structural)]
pub enum Event {
    /// A proof was asked for, with this choice; whether the key is resident already.
    Asked(Choice, bool),
    /// The key was loaded and the device's memory read: the budget's path, none where the proof
    /// does not fit even streaming.
    Probed(Option<Mode>),
    /// The attempt to prove with a resident key succeeded.
    ResidentDone,
    /// It failed; whether for want of device memory.
    ResidentFailed(bool),
}

/// What it does next.
#[derive(Clone, Copy, Debug, PartialEq, Eq, Structural)]
pub enum Action {
    /// Prove against the key that is resident already.
    ProveCached,
    /// Get the resident key from the cache, preparing it where needed, and prove against it.
    PrepareAndProve,
    /// Load the key and prove with nothing resident.
    LoadAndStream,
    /// Load the key, read the device's free memory and let the budget choose.
    Probe,
    /// Prove with nothing resident, with the key that was loaded.
    Stream,
    /// Upload the loaded key, keep it, and prove against it.
    TryResident,
    /// Drop what is resident, load the key again, and prove with nothing resident.
    EvictAndStream,
    /// The proof is made.
    Done,
    /// Report the error.
    Fail,
}

/// The decision table. A forced path is taken as it is. AUTO keeps using a resident key, and
/// otherwise goes by the budget, failing fast where nothing fits; a resident attempt that runs out of memory (another tenant took
/// it since the probe) falls back to streaming, and no other error does.
pub open spec fn decided(event: Event) -> Action {
    match event {
        Event::Asked(Choice::Force(false), _) => Action::LoadAndStream,
        Event::Asked(Choice::Force(true), _) => Action::PrepareAndProve,
        Event::Asked(Choice::Auto, true) => Action::ProveCached,
        Event::Asked(Choice::Auto, false) => Action::Probe,
        Event::Probed(Some(Mode::Streaming)) => Action::Stream,
        Event::Probed(Some(Mode::Resident)) => Action::TryResident,
        Event::Probed(None) => Action::Fail,
        Event::ResidentDone => Action::Done,
        Event::ResidentFailed(true) => Action::EvictAndStream,
        Event::ResidentFailed(false) => Action::Fail,
    }
}

/// The action proves against a key that is, or is to be, resident.
pub open spec fn proves_resident(a: Action) -> bool {
    a == Action::ProveCached || a == Action::PrepareAndProve || a == Action::TryResident
}

/// The action proves with nothing resident.
pub open spec fn proves_streaming(a: Action) -> bool {
    a == Action::LoadAndStream || a == Action::Stream || a == Action::EvictAndStream
}

/// The action loads the key from its file.
pub open spec fn loads(a: Action) -> bool {
    a == Action::LoadAndStream || a == Action::Probe || a == Action::EvictAndStream
}

/// A forced path is taken whatever is resident. AUTO uses a key that is resident, probes where
/// none is, follows the budget, and streams after an attempt that ran out of memory, dropping
/// what is resident; every other failure is reported.
pub proof fn lemma_decisions(resident: bool, cached: bool, mode: Option<Mode>, oom: bool)
    ensures
        proves_resident(decided(Event::Asked(Choice::Force(resident), cached))) == resident,
        proves_streaming(decided(Event::Asked(Choice::Force(resident), cached))) == !resident,
        loads(decided(Event::Asked(Choice::Force(resident), cached))) == !resident,
        proves_resident(decided(Event::Asked(Choice::Auto, cached))) == cached,
        loads(decided(Event::Asked(Choice::Auto, cached))) == !cached,
        !proves_streaming(decided(Event::Asked(Choice::Auto, cached))),
        decided(Event::Asked(Choice::Auto, true)) != decided(
            Event::Asked(Choice::Force(true), true),
        ),
        proves_resident(decided(Event::Probed(mode))) <==> mode == Some(Mode::Resident),
        proves_streaming(decided(Event::Probed(mode))) <==> mode == Some(Mode::Streaming),
        decided(Event::Probed(mode)) == Action::Fail <==> mode is None,
        !loads(decided(Event::Probed(mode))),
        decided(Event::ResidentDone) == Action::Done,
        proves_streaming(decided(Event::ResidentFailed(oom))) == oom,
        loads(decided(Event::ResidentFailed(oom))) == oom,
        decided(Event::ResidentFailed(oom)) == Action::EvictAndStream <==> oom,
        decided(Event::ResidentFailed(oom)) == Action::Fail <==> !oom,
{
}

/// What a device backend does next.
pub fn decide(event: Event) -> (r: Action)
    ensures
        r == decided(event),
{
    match event {
        Event::Asked(Choice::Force(resident), _) => if resident {
            Action::PrepareAndProve
        } else {
            Action::LoadAndStream
        },
        Event::Asked(Choice::Auto, cached) => if cached {
            Action::ProveCached
        } else {
            Action::Probe
        },
        Event::Probed(mode) => match mode {
            Some(Mode::Streaming) => Action::Stream,
            Some(Mode::Resident) => Action::TryResident,
            None => Action::Fail,
        },
        Event::ResidentDone => Action::Done,
        Event::ResidentFailed(oom) => if oom {
            Action::EvictAndStream
        } else {
            Action::Fail
        },
    }
}

/// An error message of a device that is out of memory.
pub open spec fn oom_text(message: Seq<char>) -> bool {
    let s = text::lowered(message);
    ||| exists|i: int| text::stands_at(s, text::points("out of memory"@), i)
    ||| exists|i: int| text::stands_at(s, text::points("outofmemory"@), i)
    ||| exists|i: int| text::stands_at(s, text::points("drivererror(2"@), i)
}

/// Whether an error is a device out-of-memory (another tenant took the
/// memory), so that AUTO falls back to streaming rather than failing the proof.
pub fn is_oom(message: &str) -> (r: bool)
    ensures
        r == oom_text(message@),
{
    let a = text::contains_ignoring_case(message, "out of memory");
    let b = text::contains_ignoring_case(message, "outofmemory");
    let c = text::contains_ignoring_case(message, "drivererror(2");
    a || b || c
}

/// The texts by which a device says that it is out of memory.
pub open spec fn oom_words(s: Seq<char>) -> bool {
    ||| text::spells(s, "out of memory"@)
    ||| text::spells(s, "outofmemory"@)
    ||| text::spells(s, "drivererror(2"@)
}

/// None of them has a letter in upper case.
proof fn lemma_oom_words()
    ensures
        text::uncapitalized("out of memory"@),
        text::uncapitalized("outofmemory"@),
        text::uncapitalized("drivererror(2"@),
{
    reveal_strlit("out of memory");
    reveal_strlit("outofmemory");
    reveal_strlit("drivererror(2");
}

/// A message is one of a device out of memory exactly where one of these texts stands somewhere
/// in it, in any mixture of cases.
pub proof fn lemma_oom_is_said(message: Seq<char>)
    ensures
        oom_text(message) <==> exists|i: int, j: int|
            0 <= i <= j <= message.len() && oom_words(#[trigger] message.subrange(i, j)),
{
    lemma_oom_words();
    let s = text::lowered(message);
    assert forall|i: int, w: Seq<char>|
        text::uncapitalized(w) && #[trigger] text::stands_at(s, text::points(w), i) implies 0 <= i
        && i + w.len() <= message.len() && text::spells(
        message.subrange(i, i + w.len()),
        w,
    ) by {
        let part = message.subrange(i, i + w.len());
        assert(text::lowered(part) =~= s.subrange(i, i + w.len()));
        text::lemma_spelled(part, w);
    }
    if oom_text(message) {
        let w = if exists|i: int| text::stands_at(s, text::points("out of memory"@), i) {
            "out of memory"@
        } else if exists|i: int| text::stands_at(s, text::points("outofmemory"@), i) {
            "outofmemory"@
        } else {
            "drivererror(2"@
        };
        let i = choose|i: int| text::stands_at(s, text::points(w), i);
        assert(oom_words(message.subrange(i, i + w.len())));
    }
    if exists|i: int, j: int|
        0 <= i <= j <= message.len() && oom_words(#[trigger] message.subrange(i, j)) {
        let (i, j) = choose|i: int, j: int|
            0 <= i <= j <= message.len() && oom_words(#[trigger] message.subrange(i, j));
        let part = message.subrange(i, j);
        let w = if text::spells(part, "out of memory"@) {
            "out of memory"@
        } else if text::spells(part, "outofmemory"@) {
            "outofmemory"@
        } else {
            "drivererror(2"@
        };
        text::lemma_spelled(part, w);
        assert(text::lowered(part) =~= s.subrange(i, j));
        assert(text::stands_at(s, text::points(w), i));
    }
}

} // verus!
