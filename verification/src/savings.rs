//! The savings log: one line per command run, with the sizes of its output
//! before and after filtering, and the summary of the log by command.
//!
//! A log line is `time TAB command TAB original TAB filtered TAB percent%
//! TAB exit=code`.  Appending the line to the log file, and reading the file,
//! is left to the caller.

use vstd::prelude::*;
use crate::text::{
    chars_of, decimal, is_digit, lemma_decimal, lemma_parse_decimal, lemma_split_concat,
    lemma_split_cons, lemma_split_no_sep, lines, lines_of, parse_usize, parse_usize_chars,
    push_chars, push_decimal, push_str, split, split_at_char, strip_cr, string_of, views, words,
    words_of,
};

verus! {

/// `part` as a whole percentage of `whole`, rounded down; 0 of nothing.
pub open spec fn percent_of(part: nat, whole: nat) -> nat {
    if whole == 0 {
        0
    } else {
        part * 100 / whole
    }
}

/// `a - b`, or 0 when `b` is the larger.
pub open spec fn saved(a: nat, b: nat) -> nat {
    if a > b {
        (a - b) as nat
    } else {
        0
    }
}

/// The share of the output that filtering saved, in whole percent.
pub open spec fn savings(original: nat, filtered: nat) -> nat {
    percent_of(saved(original, filtered), original)
}

/// `part * 100 / whole`, 0 when `whole` is 0.
pub fn percent(part: usize, whole: usize) -> (res: usize)
    requires
        whole != 0 ==> part * 100 <= usize::MAX,
    ensures
        res == percent_of(part as nat, whole as nat),
{
    if whole == 0 {
        0
    } else {
        part * 100 / whole
    }
}

/// The share of the output that filtering saved, in whole percent.
pub fn savings_percent(original: usize, filtered: usize) -> (res: usize)
    requires
        saved(original as nat, filtered as nat) * 100 <= usize::MAX,
    ensures
        res == savings(original as nat, filtered as nat),
{
    if original > filtered {
        percent(original - filtered, original)
    } else {
        0
    }
}

/// The log line for one run, with the newline that ends it.
pub open spec fn log_line(now: u64, command: Seq<char>, original: usize, filtered: usize, exit_code: u8)
    -> Seq<char> {
    decimal(now as nat) + seq!['\t'] + command + seq!['\t'] + decimal(original as nat) + seq!['\t']
        + decimal(filtered as nat) + seq!['\t'] + decimal(savings(original as nat, filtered as nat))
        + "%\texit="@ + decimal(exit_code as nat) + seq!['\n']
}

/// The log line for a run of `command` at `now` whose output of `original`
/// bytes was filtered to `filtered` bytes, and which exited with
/// `exit_code`.
pub fn log_record(now: u64, command: &str, original: usize, filtered: usize, exit_code: u8) -> (res:
    String)
    requires
        saved(original as nat, filtered as nat) * 100 <= usize::MAX,
    ensures
        res@ == log_line(now, command@, original, filtered, exit_code),
{
    let mut out: Vec<char> = Vec::new();
    push_decimal(&mut out, now);
    out.push('\t');
    push_str(&mut out, command);
    out.push('\t');
    push_decimal(&mut out, original as u64);
    out.push('\t');
    push_decimal(&mut out, filtered as u64);
    out.push('\t');
    push_decimal(&mut out, savings_percent(original, filtered) as u64);
    push_str(&mut out, "%\texit=");
    push_decimal(&mut out, exit_code as u64);
    out.push('\n');
    assert(out@ =~= log_line(now, command@, original, filtered, exit_code));
    string_of(out.as_slice())
}

/// What a run logged: its command line and the sizes of its output.
pub struct LogEntry {
    pub command: String,
    pub original: usize,
    pub filtered: usize,
}

impl View for LogEntry {
    type V = (Seq<char>, usize, usize);

    open spec fn view(&self) -> (Seq<char>, usize, usize) {
        (self.command@, self.original, self.filtered)
    }
}

/// The number that `s` holds, or 0 when it holds none.
pub open spec fn number_or_zero(s: Seq<char>) -> usize {
    match parse_usize(s) {
        Some(n) => n,
        None => 0,
    }
}

/// What a log line records: nothing when it has fewer than six fields; else
/// its second field and the numbers in its third and fourth (0 for a field
/// that holds no number).
pub open spec fn parsed_line(line: Seq<char>) -> Option<(Seq<char>, usize, usize)> {
    let parts = split(line, '\t');
    if parts.len() < 6 {
        None
    } else {
        Some((parts[1], number_or_zero(parts[2]), number_or_zero(parts[3])))
    }
}

fn number_or_zero_of(s: &[char]) -> (res: usize)
    ensures
        res == number_or_zero(s@),
{
    match parse_usize_chars(s) {
        Some(n) => n,
        None => 0,
    }
}

fn parse_line_chars(line: &[char]) -> (res: Option<LogEntry>)
    ensures
        res matches Some(e) ==> parsed_line(line@) == Some(e@),
        res is None ==> parsed_line(line@) is None,
{
    let parts = split_at_char(line, '\t');
    if parts.len() < 6 {
        return None;
    }
    proof {
        assert(views(parts@)[1] == parts@[1]@);
        assert(views(parts@)[2] == parts@[2]@);
        assert(views(parts@)[3] == parts@[3]@);
    }
    let command = string_of(parts[1].as_slice());
    let original = number_or_zero_of(parts[2].as_slice());
    let filtered = number_or_zero_of(parts[3].as_slice());
    Some(LogEntry { command, original, filtered })
}

/// What the log line `line` records.
pub fn parse_log_line(line: &str) -> (res: Option<LogEntry>)
    ensures
        res matches Some(e) ==> parsed_line(line@) == Some(e@),
        res is None ==> parsed_line(line@) is None,
{
    let c = chars_of(line);
    parse_line_chars(c.as_slice())
}

/// The words joined with single spaces.
pub open spec fn join_words(ws: Seq<Seq<char>>) -> Seq<char>
    decreases ws.len(),
{
    if ws.len() == 0 {
        seq![]
    } else if ws.len() == 1 {
        ws[0]
    } else {
        join_words(ws.drop_last()) + seq![' '] + ws.last()
    }
}

/// The key under which a command line is counted: its first two words,
/// joined by a space.
pub open spec fn command_key(command: Seq<char>) -> Seq<char> {
    let ws = words(command);
    join_words(if ws.len() <= 2 {
        ws
    } else {
        ws.take(2)
    })
}

fn command_key_chars(command: &[char]) -> (res: Vec<char>)
    ensures
        res@ == command_key(command@),
{
    let ws = words_of(command);
    let ghost all = views(ws@);
    let mut out: Vec<char> = Vec::new();
    if ws.len() >= 1 {
        push_chars(&mut out, ws[0].as_slice());
        if ws.len() >= 2 {
            out.push(' ');
            push_chars(&mut out, ws[1].as_slice());
        }
    }
    proof {
        let k = if all.len() <= 2 {
            all
        } else {
            all.take(2)
        };
        if k.len() == 1 {
            assert(join_words(k) == all[0]);
        } else if k.len() == 2 {
            assert(k.drop_last().len() == 1);
            assert(join_words(k.drop_last()) == all[0]);
        }
        assert(out@ =~= join_words(k));
    }
    out
}

/// The key under which the command line `command` is counted.
pub fn command_key_of(command: &str) -> (res: String)
    ensures
        res@ == command_key(command@),
{
    let c = chars_of(command);
    let k = command_key_chars(c.as_slice());
    string_of(k.as_slice())
}

// ---------------------------------------------------------------------------
// The summary of the log
// ---------------------------------------------------------------------------

/// What the lines of a log record, in order; lines with fewer than six
/// fields record nothing.
pub open spec fn logged(ls: Seq<Seq<char>>) -> Seq<(Seq<char>, usize, usize)>
    decreases ls.len(),
{
    if ls.len() == 0 {
        seq![]
    } else {
        let r = logged(ls.drop_last());
        match parsed_line(ls.last()) {
            Some(e) => r.push(e),
            None => r,
        }
    }
}

/// What the log `contents` records.
pub open spec fn log_entries(contents: Seq<char>) -> Seq<(Seq<char>, usize, usize)> {
    logged(lines(contents))
}

/// The sum of the output sizes before filtering.
pub open spec fn sum_original(es: Seq<(Seq<char>, usize, usize)>) -> nat
    decreases es.len(),
{
    if es.len() == 0 {
        0
    } else {
        sum_original(es.drop_last()) + es.last().1 as nat
    }
}

/// The sum of the output sizes after filtering.
pub open spec fn sum_filtered(es: Seq<(Seq<char>, usize, usize)>) -> nat
    decreases es.len(),
{
    if es.len() == 0 {
        0
    } else {
        sum_filtered(es.drop_last()) + es.last().2 as nat
    }
}

/// A row of the summary: the command key, how many runs it had, and the
/// sums of its output sizes before and after filtering.
pub type Row = (Seq<char>, nat, nat, nat);

/// The index at or after `i` of the row for `key`.
pub open spec fn row_index(rs: Seq<Row>, key: Seq<char>, i: int) -> Option<int>
    decreases rs.len() - i,
{
    if i < 0 || i >= rs.len() {
        None
    } else if rs[i].0 == key {
        Some(i)
    } else {
        row_index(rs, key, i + 1)
    }
}

/// The rows with one more run of `key` counted.
pub open spec fn add_run(rs: Seq<Row>, key: Seq<char>, original: nat, filtered: nat) -> Seq<Row> {
    match row_index(rs, key, 0) {
        Some(j) => rs.update(j, (key, rs[j].1 + 1, rs[j].2 + original, rs[j].3 + filtered)),
        None => rs.push((key, 1, original, filtered)),
    }
}

/// The runs of the log counted by command key, keys in order of their first
/// run.
pub open spec fn by_command(es: Seq<(Seq<char>, usize, usize)>) -> Seq<Row>
    decreases es.len(),
{
    if es.len() == 0 {
        seq![]
    } else {
        add_run(by_command(es.drop_last()), command_key(es.last().0), es.last().1 as nat, es.last().2 as nat)
    }
}

/// The bytes that filtering saved for a row.
pub open spec fn row_saved(r: Row) -> nat {
    saved(r.2, r.3)
}

/// The rows stand in order of the bytes saved, most first.
pub open spec fn sorted_by_saved(rs: Seq<Row>) -> bool {
    forall|i: int, j: int| 0 <= i < j < rs.len() ==> row_saved(rs[i]) >= row_saved(rs[j])
}

/// The sum of the run counts of the rows.
pub open spec fn sum_counts(rs: Seq<Row>) -> nat
    decreases rs.len(),
{
    if rs.len() == 0 {
        0
    } else {
        sum_counts(rs.drop_last()) + rs.last().1
    }
}

/// One row of the summary.
pub struct CommandStats {
    pub key: String,
    pub count: usize,
    pub original: usize,
    pub filtered: usize,
}

impl View for CommandStats {
    type V = Row;

    open spec fn view(&self) -> Row {
        (self.key@, self.count as nat, self.original as nat, self.filtered as nat)
    }
}

impl CommandStats {
    /// The bytes that filtering saved for this command.
    pub fn saved(&self) -> (res: usize)
        ensures
            res == row_saved(self@),
    {
        if self.original > self.filtered {
            self.original - self.filtered
        } else {
            0
        }
    }
}

/// The rows as plain values.
pub open spec fn rows_of(v: Seq<CommandStats>) -> Seq<Row> {
    v.map_values(|r: CommandStats| r@)
}

/// The summary of the log: the totals, the number of runs, and one row per
/// command key, most saved first.
pub struct SavingsSummary {
    pub total_original: usize,
    pub total_filtered: usize,
    pub commands: usize,
    pub rows: Vec<CommandStats>,
}

impl SavingsSummary {
    /// The bytes that filtering saved over the whole log.
    pub fn total_saved(&self) -> (res: usize)
        ensures
            res == saved(self.total_original as nat, self.total_filtered as nat),
    {
        self.total_original.saturating_sub(self.total_filtered)
    }
}

struct Acc {
    key: Vec<char>,
    count: usize,
    original: usize,
    filtered: usize,
}

impl View for Acc {
    type V = Row;

    closed spec fn view(&self) -> Row {
        (self.key@, self.count as nat, self.original as nat, self.filtered as nat)
    }
}

spec fn accs_of(v: Seq<Acc>) -> Seq<Row> {
    v.map_values(|a: Acc| a@)
}

proof fn lemma_sums_grow(es: Seq<(Seq<char>, usize, usize)>, i: int)
    requires
        0 <= i <= es.len(),
    ensures
        sum_original(es.take(i)) <= sum_original(es),
        sum_filtered(es.take(i)) <= sum_filtered(es),
    decreases es.len() - i,
{
    if i < es.len() {
        lemma_sums_grow(es, i + 1);
        assert(es.take(i + 1).drop_last() =~= es.take(i));
    } else {
        assert(es.take(i) =~= es);
    }
}

proof fn lemma_row_index(rs: Seq<Row>, key: Seq<char>, i: int)
    requires
        0 <= i,
    ensures
        row_index(rs, key, i) matches Some(j) ==> i <= j < rs.len() && rs[j].0 == key,
    decreases rs.len() - i,
{
    if i < rs.len() && rs[i].0 != key {
        lemma_row_index(rs, key, i + 1);
    }
}

/// Adding a run keeps each row's sums within the totals and its count
/// within the number of runs; the counts sum to the number of runs.
proof fn lemma_by_command_bounds(es: Seq<(Seq<char>, usize, usize)>)
    ensures
        forall|k: int|
            0 <= k < by_command(es).len() ==> #[trigger] by_command(es)[k].1 <= es.len()
                && by_command(es)[k].2 <= sum_original(es) && by_command(es)[k].3 <= sum_filtered(
                es,
            ),
    decreases es.len(),
{
    if es.len() > 0 {
        lemma_by_command_bounds(es.drop_last());
        lemma_row_index(
            by_command(es.drop_last()),
            command_key(es.last().0),
            0,
        );
    }
}

/// The entries that the log's lines record, or `None` when the totals do
/// not fit in a `usize`.
fn parse_entries(ls: &Vec<Vec<char>>) -> (res: Option<(Vec<LogEntry>, usize, usize)>)
    ensures
        match res {
            Some((es, o, f)) => es@.map_values(|e: LogEntry| e@) == logged(views(ls@))
                && o == sum_original(logged(views(ls@))) && f == sum_filtered(logged(views(ls@))),
            None => sum_original(logged(views(ls@))) > usize::MAX || sum_filtered(
                logged(views(ls@)),
            ) > usize::MAX,
        },
{
    let ghost all = views(ls@);
    let mut es: Vec<LogEntry> = Vec::new();
    let mut total_o: usize = 0;
    let mut total_f: usize = 0;
    let mut i: usize = 0;
    while i < ls.len()
        invariant
            i <= ls@.len(),
            all == views(ls@),
            es@.map_values(|e: LogEntry| e@) == logged(all.take(i as int)),
            total_o == sum_original(logged(all.take(i as int))),
            total_f == sum_filtered(logged(all.take(i as int))),
        decreases ls@.len() - i,
    {
        proof {
            assert(all.take(i + 1).drop_last() =~= all.take(i as int));
            assert(all.take(i + 1).last() == ls@[i as int]@);
        }
        match parse_line_chars(ls[i].as_slice()) {
            Some(e) => {
                let ghost prev = logged(all.take(i as int));
                proof {
                    assert(prev.push(e@).drop_last() =~= prev);
                    assert(es@.push(e).map_values(|e: LogEntry| e@) =~= prev.push(e@));
                }
                let o = total_o.checked_add(e.original);
                let f = total_f.checked_add(e.filtered);
                match (o, f) {
                    (Some(o), Some(f)) => {
                        total_o = o;
                        total_f = f;
                        es.push(e);
                    },
                    _ => {
                        proof {
                            let full = logged(all);
                            assert(all.take(ls@.len() as int) =~= all);
                            lemma_logged_prefix(all, i + 1);
                        }
                        return None;
                    },
                }
            },
            None => {},
        }
        i += 1;
    }
    assert(all.take(i as int) =~= all);
    Some((es, total_o, total_f))
}

/// The entries of a prefix of the lines are a prefix of the entries.
proof fn lemma_logged_prefix(ls: Seq<Seq<char>>, i: int)
    requires
        0 <= i <= ls.len(),
    ensures
        sum_original(logged(ls.take(i))) <= sum_original(logged(ls)),
        sum_filtered(logged(ls.take(i))) <= sum_filtered(logged(ls)),
    decreases ls.len() - i,
{
    if i < ls.len() {
        lemma_logged_prefix(ls, i + 1);
        assert(ls.take(i + 1).drop_last() =~= ls.take(i));
        let r = logged(ls.take(i));
        if let Some(e) = parsed_line(ls.take(i + 1).last()) {
            assert(r.push(e).drop_last() =~= r);
        }
    } else {
        assert(ls.take(i) =~= ls);
    }
}

/// The rows of the entries `es`, keys in order of their first run.
fn group_entries(es: &Vec<LogEntry>, Ghost(model): Ghost<Seq<(Seq<char>, usize, usize)>>) -> (res: Vec<Acc>)
    requires
        model == es@.map_values(|e: LogEntry| e@),
        sum_original(model) <= usize::MAX,
        sum_filtered(model) <= usize::MAX,
    ensures
        accs_of(res@) == by_command(model),
{
    let mut gs: Vec<Acc> = Vec::new();
    let mut i: usize = 0;
    while i < es.len()
        invariant
            i <= es@.len(),
            model == es@.map_values(|e: LogEntry| e@),
            sum_original(model) <= usize::MAX,
            sum_filtered(model) <= usize::MAX,
            accs_of(gs@) == by_command(model.take(i as int)),
        decreases es@.len() - i,
    {
        let ghost pre = model.take(i as int);
        proof {
            assert(model.take(i + 1).drop_last() =~= pre);
            assert(model.take(i + 1).last() == es@[i as int]@);
            lemma_by_command_bounds(pre);
            lemma_sums_grow(model, i as int);
            lemma_sums_grow(model, i + 1);
            assert(sum_original(model.take(i + 1)) == sum_original(pre) + es@[i as int].original);
            assert(sum_filtered(model.take(i + 1)) == sum_filtered(pre) + es@[i as int].filtered);
        }
        let e = &es[i];
        let key = command_key_chars(chars_of(e.command.as_str()).as_slice());
        let mut j: usize = 0;
        while j < gs.len() && !crate::filters::same_chars(gs[j].key.as_slice(), key.as_slice())
            invariant
                j <= gs@.len(),
                row_index(accs_of(gs@), key@, 0) == row_index(accs_of(gs@), key@, j as int),
            decreases gs@.len() - j,
        {
            assert(accs_of(gs@)[j as int] == gs@[j as int]@);
            j += 1;
        }
        if j < gs.len() {
            proof {
                assert(accs_of(gs@)[j as int] == gs@[j as int]@);
                assert(row_index(accs_of(gs@), key@, j as int) == Some(j as int));
                assert(0 <= j < by_command(pre).len());
                assert(by_command(pre)[j as int].1 <= pre.len());
            }
            let g = Acc {
                key,
                count: gs[j].count + 1,
                original: gs[j].original + e.original,
                filtered: gs[j].filtered + e.filtered,
            };
            let ghost before = gs@;
            gs.set(j, g);
            proof {
                assert(accs_of(gs@) =~= accs_of(before).update(j as int, g@));
            }
        } else {
            let g = Acc { key, count: 1, original: e.original, filtered: e.filtered };
            let ghost before = gs@;
            gs.push(g);
            proof {
                assert(accs_of(gs@) =~= accs_of(before).push(g@));
            }
        }
        i += 1;
    }
    assert(model.take(i as int) =~= model);
    gs
}

/// The rows in order of the bytes saved, most first.
fn sort_rows(gs: Vec<Acc>) -> (res: Vec<CommandStats>)
    ensures
        rows_of(res@).to_multiset() == accs_of(gs@).to_multiset(),
        sorted_by_saved(rows_of(res@)),
{
    let mut out: Vec<CommandStats> = Vec::new();
    let mut k: usize = 0;
    assert(rows_of(out@) =~= accs_of(gs@).take(0));
    while k < gs.len()
        invariant
            k <= gs@.len(),
            rows_of(out@).to_multiset() == accs_of(gs@).take(k as int).to_multiset(),
            sorted_by_saved(rows_of(out@)),
        decreases gs@.len() - k,
    {
        let g = &gs[k];
        let row = CommandStats {
            key: string_of(g.key.as_slice()),
            count: g.count,
            original: g.original,
            filtered: g.filtered,
        };
        let s = row.saved();
        let mut p: usize = 0;
        while p < out.len() && out[p].saved() >= s
            invariant
                p <= out@.len(),
                forall|q: int| 0 <= q < p ==> row_saved(rows_of(out@)[q]) >= row_saved(row@),
                s == row_saved(row@),
            decreases out@.len() - p,
        {
            p += 1;
        }
        let ghost before = rows_of(out@);
        proof {
            if p < out@.len() {
                assert(row_saved(before[p as int]) < row_saved(row@));
            }
        }
        out.insert(p, row);
        proof {
            let after = rows_of(out@);
            assert(after =~= before.insert(p as int, row@));
            vstd::seq_lib::to_multiset_insert(before, p as int, row@);
            assert(accs_of(gs@).take(k + 1) =~= accs_of(gs@).take(k as int).push(gs@[k as int]@));
            vstd::seq_lib::to_multiset_build(accs_of(gs@).take(k as int), gs@[k as int]@);
            assert(row@ == gs@[k as int]@);
            assert forall|i: int, j: int| 0 <= i < j < after.len() implies row_saved(after[i])
                >= row_saved(after[j]) by {
                if j < p {
                } else if j == p {
                } else if i == p {
                    assert(row_saved(before[j - 1]) <= row_saved(before[p as int]));
                } else if i < p {
                } else {
                }
            }
        }
        k += 1;
    }
    assert(accs_of(gs@).take(k as int) =~= accs_of(gs@));
    out
}

/// The summary of the log `contents`: the totals of the output sizes, the
/// number of runs, and the rows by command key, most saved first.  `None`
/// when a total does not fit in a `usize`.
pub fn summarize_log(contents: &str) -> (res: Option<SavingsSummary>)
    ensures
        ({
            let es = log_entries(contents@);
            match res {
                Some(s) => s.total_original == sum_original(es) && s.total_filtered == sum_filtered(es)
                    && s.commands == sum_counts(by_command(es)) && rows_of(s.rows@).to_multiset()
                    == by_command(es).to_multiset() && sorted_by_saved(rows_of(s.rows@)),
                None => sum_original(es) > usize::MAX || sum_filtered(es) > usize::MAX,
            }
        }),
{
    let c = chars_of(contents);
    let ls = lines_of(c.as_slice());
    let (es, total_original, total_filtered) = match parse_entries(&ls) {
        Some(r) => r,
        None => return None,
    };
    let ghost model = es@.map_values(|e: LogEntry| e@);
    let gs = group_entries(&es, Ghost(model));
    proof {
        law_counts_sum_to_runs(model);
    }
    let commands = es.len();
    let rows = sort_rows(gs);
    Some(SavingsSummary { total_original, total_filtered, commands, rows })
}

/// Every run of the log is counted in exactly one row: the counts of the
/// rows sum to the number of runs.
pub proof fn law_counts_sum_to_runs(es: Seq<(Seq<char>, usize, usize)>)
    ensures
        sum_counts(by_command(es)) == es.len(),
    decreases es.len(),
{
    if es.len() > 0 {
        law_counts_sum_to_runs(es.drop_last());
        let rs = by_command(es.drop_last());
        let e = es.last();
        let key = command_key(e.0);
        lemma_row_index(rs, key, 0);
        match row_index(rs, key, 0) {
            Some(j) => {
                lemma_sum_counts_update(rs, j, (key, rs[j].1 + 1, rs[j].2 + e.1 as nat, rs[j].3 + e.2 as nat));
            },
            None => {
                assert(rs.push((key, 1nat, e.1 as nat, e.2 as nat)).drop_last() =~= rs);
            },
        }
    }
}

proof fn lemma_sum_counts_update(rs: Seq<Row>, j: int, r: Row)
    requires
        0 <= j < rs.len(),
    ensures
        sum_counts(rs.update(j, r)) == sum_counts(rs) - rs[j].1 + r.1,
    decreases rs.len(),
{
    let u = rs.update(j, r);
    if j == rs.len() - 1 {
        assert(u.drop_last() =~= rs.drop_last());
    } else {
        lemma_sum_counts_update(rs.drop_last(), j, r);
        assert(u.drop_last() =~= rs.drop_last().update(j, r));
    }
}

// ---------------------------------------------------------------------------
// Reading back what was logged
// ---------------------------------------------------------------------------

/// `s` holds no `c`.
pub open spec fn lacks(s: Seq<char>, c: char) -> bool {
    forall|i: int| 0 <= i < s.len() ==> s[i] != c
}

proof fn lemma_lacks_concat(a: Seq<char>, b: Seq<char>, c: char)
    requires
        lacks(a, c),
        lacks(b, c),
    ensures
        lacks(a + b, c),
{
    assert forall|i: int| 0 <= i < (a + b).len() implies (a + b)[i] != c by {
        if i >= a.len() {
            assert((a + b)[i] == b[i - a.len()]);
        }
    }
}

proof fn lemma_decimal_lacks(n: nat, c: char)
    requires
        !is_digit(c),
    ensures
        lacks(decimal(n), c),
{
    lemma_decimal(n);
    assert forall|i: int| 0 <= i < decimal(n).len() implies decimal(n)[i] != c by {
        assert(is_digit(decimal(n)[i]));
    }
}

/// The body of a log line, the line without its newline, in the pieces that
/// its tabs separate.
spec fn log_body(now: u64, cmd: Seq<char>, o: usize, f: usize, code: u8) -> Seq<char> {
    let tab = seq!['\t'];
    let e = seq!['e', 'x', 'i', 't', '='] + decimal(code as nat);
    let d3p = decimal(savings(o as nat, f as nat)).push('%');
    decimal(now as nat) + tab + (cmd + tab + (decimal(o as nat) + tab + (decimal(f as nat) + tab + (d3p
        + tab + e))))
}

proof fn lemma_log_body(now: u64, cmd: Seq<char>, o: usize, f: usize, code: u8)
    ensures
        log_line(now, cmd, o, f, code) == log_body(now, cmd, o, f, code).push('\n'),
{
    reveal_strlit("%\texit=");
    assert("%\texit="@ =~= seq!['%', '\t', 'e', 'x', 'i', 't', '=']);
    assert(log_line(now, cmd, o, f, code) =~= log_body(now, cmd, o, f, code).push('\n'));
}

proof fn lemma_log_body_fields(now: u64, cmd: Seq<char>, o: usize, f: usize, code: u8)
    requires
        lacks(cmd, '\t'),
    ensures
        parsed_line(log_body(now, cmd, o, f, code)) == Some((cmd, o, f)),
{
    let tab = seq!['\t'];
    let d0 = decimal(now as nat);
    let d1 = decimal(o as nat);
    let d2 = decimal(f as nat);
    let d3 = decimal(savings(o as nat, f as nat));
    let d4 = decimal(code as nat);
    let e = seq!['e', 'x', 'i', 't', '='] + d4;
    let d3p = d3.push('%');
    lemma_decimal_lacks(now as nat, '\t');
    lemma_decimal_lacks(o as nat, '\t');
    lemma_decimal_lacks(f as nat, '\t');
    lemma_decimal_lacks(savings(o as nat, f as nat), '\t');
    lemma_decimal_lacks(code as nat, '\t');
    lemma_lacks_concat(d3, seq!['%'], '\t');
    assert(d3p =~= d3 + seq!['%']);
    lemma_lacks_concat(seq!['e', 'x', 'i', 't', '='], d4, '\t');
    lemma_parse_decimal(o as nat);
    lemma_parse_decimal(f as nat);
    lemma_split_no_sep(e, '\t');
    lemma_split_cons(d3p, e, '\t');
    lemma_split_cons(d2, d3p + tab + e, '\t');
    lemma_split_cons(d1, d2 + tab + (d3p + tab + e), '\t');
    lemma_split_cons(cmd, d1 + tab + (d2 + tab + (d3p + tab + e)), '\t');
    lemma_split_cons(d0, cmd + tab + (d1 + tab + (d2 + tab + (d3p + tab + e))), '\t');
    let parts = split(log_body(now, cmd, o, f, code), '\t');
    assert(parts =~= seq![d0, cmd, d1, d2, d3p, e]);
}

proof fn lemma_log_body_one_line(now: u64, cmd: Seq<char>, o: usize, f: usize, code: u8)
    requires
        lacks(cmd, '\n'),
    ensures
        lacks(log_body(now, cmd, o, f, code), '\n'),
        log_body(now, cmd, o, f, code).len() > 0,
        log_body(now, cmd, o, f, code).last() != '\r',
{
    let tab = seq!['\t'];
    let d0 = decimal(now as nat);
    let d1 = decimal(o as nat);
    let d2 = decimal(f as nat);
    let d3 = decimal(savings(o as nat, f as nat));
    let d4 = decimal(code as nat);
    let e = seq!['e', 'x', 'i', 't', '='] + d4;
    let d3p = d3.push('%');
    lemma_decimal_lacks(now as nat, '\n');
    lemma_decimal_lacks(o as nat, '\n');
    lemma_decimal_lacks(f as nat, '\n');
    lemma_decimal_lacks(savings(o as nat, f as nat), '\n');
    lemma_decimal_lacks(code as nat, '\n');
    lemma_decimal(code as nat);
    assert(d3p =~= d3 + seq!['%']);
    lemma_lacks_concat(d3, seq!['%'], '\n');
    lemma_lacks_concat(seq!['e', 'x', 'i', 't', '='], d4, '\n');
    lemma_lacks_concat(d3p, tab, '\n');
    lemma_lacks_concat(d3p + tab, e, '\n');
    lemma_lacks_concat(d2, tab, '\n');
    lemma_lacks_concat(d2 + tab, d3p + tab + e, '\n');
    lemma_lacks_concat(d1, tab, '\n');
    lemma_lacks_concat(d1 + tab, d2 + tab + (d3p + tab + e), '\n');
    lemma_lacks_concat(cmd, tab, '\n');
    lemma_lacks_concat(cmd + tab, d1 + tab + (d2 + tab + (d3p + tab + e)), '\n');
    lemma_lacks_concat(d0, tab, '\n');
    lemma_lacks_concat(d0 + tab, cmd + tab + (d1 + tab + (d2 + tab + (d3p + tab + e))), '\n');
    let b = log_body(now, cmd, o, f, code);
    assert(b.last() == d4.last());
    assert(is_digit(d4[d4.len() - 1]));
}

/// The lines of a log that is empty or ends with a newline, followed by a
/// line that holds no other newline and does not end with a carriage return.
proof fn lemma_lines_append(log: Seq<char>, l: Seq<char>)
    requires
        log.len() == 0 || log.last() == '\n',
        lacks(l, '\n'),
        l.len() > 0 && l.last() != '\r',
    ensures
        lines(log + l.push('\n')) == lines(log).push(l),
{
    let empty = Seq::<char>::empty();
    lemma_split_no_sep(empty, '\n');
    lemma_split_cons(l, empty, '\n');
    assert(l.push('\n') =~= l + seq!['\n'] + empty);
    let tail = split(l.push('\n'), '\n');
    assert(tail == seq![l, empty]);
    if log.len() == 0 {
        assert(log + l.push('\n') =~= l.push('\n'));
        assert(lines(log) =~= Seq::<Seq<char>>::empty());
        assert(tail.drop_last().map_values(|x: Seq<char>| strip_cr(x)) =~= seq![l]);
        assert(lines(log + l.push('\n')) =~= seq![l]);
    } else {
        let p = log.drop_last();
        assert(log =~= p + seq!['\n'] + empty);
        lemma_split_concat(p, empty, '\n');
        assert(log + l.push('\n') =~= p + seq!['\n'] + l.push('\n'));
        lemma_split_concat(p, l.push('\n'), '\n');
        let sp = split(p, '\n');
        assert(split(log, '\n') == sp + seq![empty]);
        assert(split(log + l.push('\n'), '\n') == sp + tail);
        assert((sp + seq![empty]).drop_last() =~= sp);
        assert((sp + tail).drop_last() =~= sp.push(l));
        assert(sp.push(l).map_values(|x: Seq<char>| strip_cr(x)) =~= sp.map_values(
            |x: Seq<char>| strip_cr(x),
        ).push(l));
    }
}

/// Appending a run's log line to the log adds that run, as written, to what
/// the log records: its command line and its output sizes read back as they
/// were written, when the command line holds no tab and no newline and the
/// log is empty or ends with a newline.
pub proof fn law_log_line_reads_back(
    log: Seq<char>,
    now: u64,
    cmd: Seq<char>,
    original: usize,
    filtered: usize,
    exit_code: u8,
)
    requires
        log.len() == 0 || log.last() == '\n',
        lacks(cmd, '\t'),
        lacks(cmd, '\n'),
    ensures
        log_entries(log + log_line(now, cmd, original, filtered, exit_code)) == log_entries(
            log,
        ).push((cmd, original, filtered)),
{
    let l = log_body(now, cmd, original, filtered, exit_code);
    lemma_log_body(now, cmd, original, filtered, exit_code);
    lemma_log_body_fields(now, cmd, original, filtered, exit_code);
    lemma_log_body_one_line(now, cmd, original, filtered, exit_code);
    lemma_lines_append(log, l);
    let ls = lines(log);
    assert(ls.push(l).drop_last() =~= ls);
}

} // verus!
