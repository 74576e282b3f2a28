//! The session cache: output that a command showed a moment ago, unchanged,
//! is not shown again.
//!
//! The cache is a list of entries, one per command line, keyed by a hash of
//! the command line and holding a hash of the output last shown for it and
//! when that was.  Loading and saving the list is left to the caller.

use vstd::prelude::*;
use crate::text::{chars_of, decimal, push_decimal, push_str, string_of};

verus! {

/// How long, in seconds, unchanged output stays omitted.
pub const SESSION_TTL_SECS: u64 = 30;

/// What the cache remembers of one command line.
pub struct SessionEntry {
    pub cmd_hash: u64,
    pub out_hash: u64,
    pub timestamp: u64,
    pub output: String,
}

/// The cache: its entries, in the order in which they were made.
pub struct SessionState {
    pub entries: Vec<SessionEntry>,
}

/// An entry as plain values: command hash, output hash, time, output.
pub type EntryModel = (u64, u64, u64, Seq<char>);

impl View for SessionEntry {
    type V = EntryModel;

    open spec fn view(&self) -> EntryModel {
        (self.cmd_hash, self.out_hash, self.timestamp, self.output@)
    }
}

impl View for SessionState {
    type V = Seq<EntryModel>;

    open spec fn view(&self) -> Seq<EntryModel> {
        self.entries@.map_values(|e: SessionEntry| e@)
    }
}

impl SessionState {
    /// An empty cache.
    pub fn new() -> (res: SessionState)
        ensures
            res@ == Seq::<EntryModel>::empty(),
    {
        let res = SessionState { entries: Vec::new() };
        assert(res@ =~= Seq::<EntryModel>::empty());
        res
    }
}

/// The hash of a text by `std`'s `DefaultHasher` made with `new()`.
pub uninterp spec fn str_hash(s: Seq<char>) -> u64;

/// `BuildHasher::hash_one` with `DefaultHasher`s made by `default()` (that
/// is, by `new()`): the text fed through `Hash for str`, then `finish()`.
/// Such a hasher has fixed keys, so the hash is a function of the text
/// alone; nothing is claimed of its value.
#[verifier::external_body]
pub fn stable_hash(value: &str) -> (res: u64)
    ensures
        res == str_hash(value@),
{
    let build = std::hash::BuildHasherDefault::<std::collections::hash_map::DefaultHasher>::default();
    std::hash::BuildHasher::hash_one(&build, value)
}

/// `SystemTime::elapsed` on `UNIX_EPOCH`, in whole seconds; 0 when the clock
/// stands before the epoch.  The clock is read, so nothing is claimed of the
/// value.
#[verifier::external_body]
pub fn now_secs() -> (res: u64) {
    std::time::UNIX_EPOCH.elapsed().map_or(0, |d| d.as_secs())
}

/// The first index at or after `i` of an entry for the command hash `h`.
pub open spec fn entry_for(es: Seq<EntryModel>, h: u64, i: int) -> Option<int>
    decreases es.len() - i,
{
    if i < 0 || i >= es.len() {
        None
    } else if es[i].0 == h {
        Some(i)
    } else {
        entry_for(es, h, i + 1)
    }
}

/// `a - b`, or 0 when `b` is the larger (`u64::saturating_sub`).
pub open spec fn saturating_diff(a: u64, b: u64) -> u64 {
    if a >= b {
        (a - b) as u64
    } else {
        0
    }
}

/// Whether the output with hash `oh` of the command with hash `ch` was shown
/// less than the time to live before `now`; then the seconds since.
pub open spec fn omitted_age(es: Seq<EntryModel>, ch: u64, oh: u64, now: u64) -> Option<u64> {
    match entry_for(es, ch, 0) {
        Some(j) => if es[j].1 == oh && saturating_diff(now, es[j].2) <= SESSION_TTL_SECS {
            Some(saturating_diff(now, es[j].2))
        } else {
            None
        },
        None => None,
    }
}

/// The cache after the output `f` with hash `oh` of the command with hash
/// `ch` is shown at `now`: the command's first entry updated, or a new entry
/// at the end.
pub open spec fn recorded(es: Seq<EntryModel>, ch: u64, oh: u64, now: u64, f: Seq<char>) -> Seq<
    EntryModel,
> {
    match entry_for(es, ch, 0) {
        Some(j) => es.update(j, (ch, oh, now, f)),
        None => es.push((ch, oh, now, f)),
    }
}

/// The notice shown in place of output that was omitted.
pub open spec fn omitted_notice(age: u64) -> Seq<char> {
    "[unchanged output omitted; last shown "@ + decimal(age as nat) + "s ago]\n"@
}

/// What is shown for the output `f` (hash `oh`) of the command with hash
/// `ch` at `now`, and whether the cache was updated.
pub open spec fn session_shown(es: Seq<EntryModel>, ch: u64, oh: u64, now: u64, f: Seq<char>) -> (
    Seq<char>,
    bool,
) {
    match omitted_age(es, ch, oh, now) {
        Some(age) => (omitted_notice(age), false),
        None => (f, true),
    }
}

/// The cache that `session_shown` leaves.
pub open spec fn session_after(es: Seq<EntryModel>, ch: u64, oh: u64, now: u64, f: Seq<char>) -> Seq<
    EntryModel,
> {
    match omitted_age(es, ch, oh, now) {
        Some(_) => es,
        None => recorded(es, ch, oh, now, f),
    }
}

/// Looks the command up in the cache: output unchanged since it was shown
/// less than the time to live ago is replaced by a notice and the cache left
/// as it is; other output is shown and recorded.  Returns what to show and
/// whether the cache changed.
pub fn apply_session(state: &mut SessionState, cmd_hash: u64, out_hash: u64, now: u64, filtered: &str)
    -> (res: (String, bool))
    ensures
        (res.0@, res.1) == session_shown(old(state)@, cmd_hash, out_hash, now, filtered@),
        final(state)@ == session_after(old(state)@, cmd_hash, out_hash, now, filtered@),
{
    let ghost es = state@;
    let mut j: usize = 0;
    while j < state.entries.len() && state.entries[j].cmd_hash != cmd_hash
        invariant
            j <= state.entries@.len(),
            state@ == es,
            entry_for(es, cmd_hash, 0) == entry_for(es, cmd_hash, j as int),
        decreases state.entries@.len() - j,
    {
        j += 1;
    }
    if j < state.entries.len() {
        let ts = state.entries[j].timestamp;
        let age = now.saturating_sub(ts);
        if state.entries[j].out_hash == out_hash && age <= SESSION_TTL_SECS {
            let mut out: Vec<char> = Vec::new();
            push_str(&mut out, "[unchanged output omitted; last shown ");
            push_decimal(&mut out, age);
            push_str(&mut out, "s ago]\n");
            assert(out@ =~= omitted_notice(age));
            return (string_of(out.as_slice()), false);
        }
        let entry = SessionEntry {
            cmd_hash,
            out_hash,
            timestamp: now,
            output: string_of(chars_of(filtered).as_slice()),
        };
        state.entries.set(j, entry);
        assert(state@ =~= es.update(j as int, (cmd_hash, out_hash, now, filtered@)));
    } else {
        let entry = SessionEntry {
            cmd_hash,
            out_hash,
            timestamp: now,
            output: string_of(chars_of(filtered).as_slice()),
        };
        state.entries.push(entry);
        assert(state@ =~= es.push((cmd_hash, out_hash, now, filtered@)));
    }
    (string_of(chars_of(filtered).as_slice()), true)
}

/// The session step for the command line `cmd` and its filtered output, at
/// the time the clock gives: the hashes of both are looked up and recorded
/// as `apply_session` says.
pub fn maybe_apply_session(cmd: &str, filtered: &str, state: &mut SessionState) -> (res: (
    String,
    bool,
))
    ensures
        exists|now: u64|
            (res.0@, res.1) == session_shown(old(state)@, str_hash(cmd@), str_hash(filtered@), now, filtered@)
                && final(state)@ == session_after(old(state)@, str_hash(cmd@), str_hash(filtered@), now, filtered@),
{
    let cmd_hash = stable_hash(cmd);
    let out_hash = stable_hash(filtered);
    let now = now_secs();
    apply_session(state, cmd_hash, out_hash, now, filtered)
}

/// What `entry_for` returns is an entry for `h` with none before it; `None`
/// means that there is no entry for `h`.
pub proof fn lemma_entry_for(es: Seq<EntryModel>, h: u64, i: int)
    requires
        0 <= i,
    ensures
        entry_for(es, h, i) matches Some(j) ==> i <= j < es.len() && es[j].0 == h && forall|k: int|
            i <= k < j ==> es[k].0 != h,
        entry_for(es, h, i) is None ==> forall|k: int| i <= k < es.len() ==> es[k].0 != h,
    decreases es.len() - i,
{
    if i < es.len() && es[i].0 != h {
        lemma_entry_for(es, h, i + 1);
    }
}

/// An entry for `h` with none before it is what `entry_for` finds.
pub proof fn lemma_entry_for_first(es: Seq<EntryModel>, h: u64, i: int, j: int)
    requires
        0 <= i <= j < es.len(),
        es[j].0 == h,
        forall|k: int| i <= k < j ==> es[k].0 != h,
    ensures
        entry_for(es, h, i) == Some(j),
    decreases j - i,
{
    if i < j {
        lemma_entry_for_first(es, h, i + 1, j);
    }
}

/// After recording, the command's entry holds what was recorded.
pub proof fn lemma_recorded_entry(es: Seq<EntryModel>, ch: u64, oh: u64, now: u64, f: Seq<char>)
    ensures
        ({
            let r = recorded(es, ch, oh, now, f);
            entry_for(r, ch, 0) matches Some(j) && r[j] == (ch, oh, now, f)
        }),
{
    lemma_entry_for(es, ch, 0);
    let r = recorded(es, ch, oh, now, f);
    match entry_for(es, ch, 0) {
        Some(j) => {
            lemma_entry_for_first(r, ch, 0, j);
        },
        None => {
            lemma_entry_for_first(r, ch, 0, es.len() as int);
        },
    }
}

/// Output that was just shown for a command is omitted when the same output
/// of the same command comes again within the time to live: the notice gives
/// the seconds since it was shown, and the cache stays as it is.
pub proof fn law_repeat_within_ttl_is_omitted(
    es: Seq<EntryModel>,
    ch: u64,
    oh: u64,
    t: u64,
    f: Seq<char>,
    later: u64,
    f2: Seq<char>,
)
    requires
        session_shown(es, ch, oh, t, f).1,
        t <= later,
        later - t <= SESSION_TTL_SECS,
    ensures
        session_shown(session_after(es, ch, oh, t, f), ch, oh, later, f2) == (
            omitted_notice((later - t) as u64),
            false,
        ),
        session_after(session_after(es, ch, oh, t, f), ch, oh, later, f2) == session_after(
            es,
            ch,
            oh,
            t,
            f,
        ),
{
    lemma_recorded_entry(es, ch, oh, t, f);
}

/// No two entries of the cache are for the same command.
pub open spec fn one_entry_per_command(es: Seq<EntryModel>) -> bool {
    forall|i: int, j: int| 0 <= i < j < es.len() ==> es[i].0 != es[j].0
}

/// The session step keeps the cache to one entry per command.
pub proof fn law_one_entry_per_command(
    es: Seq<EntryModel>,
    ch: u64,
    oh: u64,
    now: u64,
    f: Seq<char>,
)
    requires
        one_entry_per_command(es),
    ensures
        one_entry_per_command(session_after(es, ch, oh, now, f)),
{
    lemma_entry_for(es, ch, 0);
}

/// Output is shown, and recorded in place of the command's entry, when the
/// command's first entry holds other output, or output shown more than the
/// time to live ago.
pub proof fn law_changed_or_stale_output_is_shown(
    es: Seq<EntryModel>,
    ch: u64,
    oh: u64,
    now: u64,
    f: Seq<char>,
    j: int,
)
    requires
        0 <= j < es.len(),
        es[j].0 == ch,
        forall|k: int| 0 <= k < j ==> es[k].0 != ch,
        es[j].1 != oh || (now >= es[j].2 && now - es[j].2 > SESSION_TTL_SECS),
    ensures
        session_shown(es, ch, oh, now, f) == (f, true),
        session_after(es, ch, oh, now, f) == es.update(j, (ch, oh, now, f)),
{
    lemma_entry_for_first(es, ch, 0, j);
}

/// Output of a command that has no entry is shown, and a new entry for it
/// is added at the end.
pub proof fn law_unseen_command_is_shown(es: Seq<EntryModel>, ch: u64, oh: u64, now: u64, f: Seq<char>)
    requires
        forall|k: int| 0 <= k < es.len() ==> es[k].0 != ch,
    ensures
        session_shown(es, ch, oh, now, f) == (f, true),
        session_after(es, ch, oh, now, f) == es.push((ch, oh, now, f)),
{
    lemma_entry_for(es, ch, 0);
}

/// Output equal to what the command's first entry holds, shown no more than
/// the time to live ago (or at a later clock reading), is replaced by a
/// notice of the seconds since, and the cache is left as it is.
pub proof fn law_unchanged_recent_output_is_omitted(
    es: Seq<EntryModel>,
    ch: u64,
    oh: u64,
    now: u64,
    f: Seq<char>,
    j: int,
)
    requires
        0 <= j < es.len(),
        es[j].0 == ch,
        forall|k: int| 0 <= k < j ==> es[k].0 != ch,
        es[j].1 == oh,
        now < es[j].2 || now - es[j].2 <= SESSION_TTL_SECS,
    ensures
        session_shown(es, ch, oh, now, f) == (
            "[unchanged output omitted; last shown "@ + decimal(
                if now >= es[j].2 {
                    (now - es[j].2) as nat
                } else {
                    0
                },
            ) + "s ago]\n"@,
            false,
        ),
        session_after(es, ch, oh, now, f) == es,
{
    lemma_entry_for_first(es, ch, 0, j);
}

} // verus!
