//! The output filters: what a command's output is shortened to before it is
//! shown, chosen by the command that produced it.

use vstd::prelude::*;
use crate::text::{
    chars_of, contains, decimal, has_prefix_str, has_substring_str, join_lines, lines, lines_of,
    lower, lowercased, push_chars, push_decimal, push_lines, push_str, starts_with, string_of,
    trim, trim_start, trimmed, trimmed_start, views,
};

verus! {

/// Output shorter than this many bytes is shown as it is.
pub const SMALL_OUTPUT_THRESHOLD: usize = 80;

/// Output longer than this many bytes is not shown at all.
pub const MAX_OUTPUT: usize = 16777216;

/// The number of bytes that UTF-8 takes for `c`.
pub open spec fn utf8_width(c: char) -> nat {
    let u = c as u32;
    if u < 0x80 {
        1
    } else if u < 0x800 {
        2
    } else if u < 0x10000 {
        3
    } else {
        4
    }
}

/// The number of bytes of `s` in UTF-8 (`str::len`).
pub open spec fn byte_len(s: Seq<char>) -> nat
    decreases s.len(),
{
    if s.len() == 0 {
        0
    } else {
        byte_len(s.drop_last()) + utf8_width(s.last())
    }
}

/// Whether `s` takes more than `limit` bytes in UTF-8.
pub fn exceeds_bytes(s: &[char], limit: usize) -> (res: bool)
    ensures
        res == (byte_len(s@) > limit),
{
    let mut total: usize = 0;
    let mut i: usize = 0;
    while i < s.len()
        invariant
            i <= s@.len(),
            total == byte_len(s@.take(i as int)),
            total <= limit,
        decreases s@.len() - i,
    {
        let u = s[i] as u32;
        let w: usize = if u < 0x80 {
            1
        } else if u < 0x800 {
            2
        } else if u < 0x10000 {
            3
        } else {
            4
        };
        assert(s@.take(i + 1).drop_last() =~= s@.take(i as int));
        if w > limit - total {
            proof {
                lemma_byte_len_grows(s@, i + 1);
                assert(s@.take(s@.len() as int) =~= s@);
            }
            return true;
        }
        total = total + w;
        i += 1;
    }
    assert(s@.take(i as int) =~= s@);
    false
}

/// A text takes no fewer bytes than any of its prefixes.
pub proof fn lemma_byte_len_grows(s: Seq<char>, i: int)
    requires
        0 <= i <= s.len(),
    ensures
        byte_len(s.take(i)) <= byte_len(s),
    decreases s.len() - i,
{
    if i < s.len() {
        lemma_byte_len_grows(s, i + 1);
        assert(s.take(i + 1).drop_last() =~= s.take(i));
    } else {
        assert(s.take(i) =~= s);
    }
}

/// The first `n` items of `s`, or all of them when there are fewer.
pub open spec fn first_n<A>(s: Seq<A>, n: nat) -> Seq<A> {
    if s.len() <= n {
        s
    } else {
        s.take(n as int)
    }
}

/// Whether two character slices are equal.
pub fn same_chars(a: &[char], b: &[char]) -> (res: bool)
    ensures
        res == (a@ == b@),
{
    if a.len() != b.len() {
        return false;
    }
    let mut i: usize = 0;
    while i < a.len()
        invariant
            a@.len() == b@.len(),
            i <= a@.len(),
            forall|j: int| 0 <= j < i ==> a@[j] == b@[j],
        decreases a@.len() - i,
    {
        if a[i] != b[i] {
            return false;
        }
        i += 1;
    }
    assert(a@ =~= b@);
    true
}

// ---------------------------------------------------------------------------
// Keeping the first lines
// ---------------------------------------------------------------------------

/// A heading that gives the number of lines and how many are shown, then the
/// first `keep` lines; the output itself when it has no more than `keep`
/// lines.
pub open spec fn lines_summary(s: Seq<char>, keep: nat, label: Seq<char>) -> Seq<char> {
    let ls = lines(s);
    if ls.len() <= keep {
        s
    } else {
        "["@ + label + ": "@ + decimal(ls.len()) + " total, showing first "@ + decimal(keep)
            + "]\n"@ + join_lines(ls.take(keep as int))
    }
}

fn summarize_line_list(stdout: &str, ls: &Vec<Vec<char>>, keep: usize, label: &str) -> (res:
    String)
    requires
        views(ls@) == lines(stdout@),
    ensures
        res@ == lines_summary(stdout@, keep as nat, label@),
{
    if ls.len() <= keep {
        return string_of(chars_of(stdout).as_slice());
    }
    let mut out: Vec<char> = Vec::new();
    push_str(&mut out, "[");
    push_str(&mut out, label);
    push_str(&mut out, ": ");
    push_decimal(&mut out, ls.len() as u64);
    push_str(&mut out, " total, showing first ");
    push_decimal(&mut out, keep as u64);
    push_str(&mut out, "]\n");
    push_lines(&mut out, ls, keep);
    assert(out@ =~= lines_summary(stdout@, keep as nat, label@));
    string_of(out.as_slice())
}

/// The output cut to its first `keep` lines under a heading that names them
/// with `label`; the output itself when it has no more than `keep` lines.
pub fn summarize_lines(stdout: &str, keep: usize, label: &str) -> (res: String)
    ensures
        res@ == lines_summary(stdout@, keep as nat, label@),
{
    let c = chars_of(stdout);
    let ls = lines_of(c.as_slice());
    summarize_line_list(stdout, &ls, keep, label)
}

// ---------------------------------------------------------------------------
// Diffs
// ---------------------------------------------------------------------------

/// A line that a diff summary keeps: a file header, a hunk header, an added
/// or a removed line.
pub open spec fn is_diff_line(l: Seq<char>) -> bool {
    starts_with(l, "+++"@) || starts_with(l, "---"@) || starts_with(l, "@@"@) || starts_with(
        l,
        "+"@,
    ) || starts_with(l, "-"@)
}

/// The lines of `ls` that a diff summary keeps.
pub open spec fn diff_lines(ls: Seq<Seq<char>>) -> Seq<Seq<char>>
    decreases ls.len(),
{
    if ls.len() == 0 {
        seq![]
    } else {
        let r = diff_lines(ls.drop_last());
        if is_diff_line(ls.last()) {
            r.push(ls.last())
        } else {
            r
        }
    }
}

/// The kept lines of a diff, each followed by a newline; the output itself
/// when no line is kept.
pub open spec fn diff_summary(s: Seq<char>) -> Seq<char> {
    let out = join_lines(diff_lines(lines(s)));
    if out.len() == 0 {
        s
    } else {
        out
    }
}

/// The headers and changed lines of a diff.
pub fn summarize_diff(stdout: &str) -> (res: String)
    ensures
        res@ == diff_summary(stdout@),
{
    let c = chars_of(stdout);
    let ls = lines_of(c.as_slice());
    let ghost all = views(ls@);
    let mut out: Vec<char> = Vec::new();
    let mut i: usize = 0;
    while i < ls.len()
        invariant
            i <= ls@.len(),
            all == views(ls@),
            out@ == join_lines(diff_lines(all.take(i as int))),
        decreases ls@.len() - i,
    {
        let l = ls[i].as_slice();
        let keep = has_prefix_str(l, "+++") || has_prefix_str(l, "---") || has_prefix_str(l, "@@")
            || has_prefix_str(l, "+") || has_prefix_str(l, "-");
        proof {
            assert(all.take(i + 1).drop_last() =~= all.take(i as int));
            assert(all.take(i + 1).last() == l@);
            let f = diff_lines(all.take(i as int));
            assert(f.push(l@).drop_last() =~= f);
        }
        if keep {
            push_chars(&mut out, l);
            out.push('\n');
        }
        i += 1;
    }
    assert(all.take(i as int) =~= all);
    if out.len() == 0 {
        string_of(c.as_slice())
    } else {
        string_of(out.as_slice())
    }
}

// ---------------------------------------------------------------------------
// Source code
// ---------------------------------------------------------------------------

/// A line that opens an item of Rust source: after its indentation it starts
/// with one of the item keywords.
pub open spec fn is_item_line(l: Seq<char>) -> bool {
    let t = trim_start(l);
    starts_with(t, "fn "@) || starts_with(t, "pub fn "@) || starts_with(t, "struct "@)
        || starts_with(t, "enum "@) || starts_with(t, "impl "@) || starts_with(t, "mod "@)
        || starts_with(t, "use "@)
}

/// The lines of `ls` that open an item.
pub open spec fn item_lines(ls: Seq<Seq<char>>) -> Seq<Seq<char>>
    decreases ls.len(),
{
    if ls.len() == 0 {
        seq![]
    } else {
        let r = item_lines(ls.drop_last());
        if is_item_line(ls.last()) {
            r.push(ls.last())
        } else {
            r
        }
    }
}

/// The item lines of a source file, each followed by a newline; when there
/// is none, the first 80 lines under a "file preview" heading.
pub open spec fn code_summary(s: Seq<char>) -> Seq<char> {
    let out = join_lines(item_lines(lines(s)));
    if out.len() == 0 {
        lines_summary(s, 80, "file preview"@)
    } else {
        out
    }
}

/// The outline of a source file: the lines that open its items.
pub fn summarize_code(stdout: &str) -> (res: String)
    ensures
        res@ == code_summary(stdout@),
{
    let c = chars_of(stdout);
    let ls = lines_of(c.as_slice());
    let ghost all = views(ls@);
    let mut out: Vec<char> = Vec::new();
    let mut i: usize = 0;
    while i < ls.len()
        invariant
            i <= ls@.len(),
            all == views(ls@),
            out@ == join_lines(item_lines(all.take(i as int))),
        decreases ls@.len() - i,
    {
        let l = ls[i].as_slice();
        let t = trimmed_start(l);
        let ts = t.as_slice();
        let keep = has_prefix_str(ts, "fn ") || has_prefix_str(ts, "pub fn ") || has_prefix_str(
            ts,
            "struct ",
        ) || has_prefix_str(ts, "enum ") || has_prefix_str(ts, "impl ") || has_prefix_str(
            ts,
            "mod ",
        ) || has_prefix_str(ts, "use ");
        proof {
            assert(all.take(i + 1).drop_last() =~= all.take(i as int));
            assert(all.take(i + 1).last() == l@);
            let f = item_lines(all.take(i as int));
            assert(f.push(l@).drop_last() =~= f);
        }
        if keep {
            push_chars(&mut out, l);
            out.push('\n');
        }
        i += 1;
    }
    assert(all.take(i as int) =~= all);
    if out.len() == 0 {
        summarize_line_list(stdout, &ls, 80, "file preview")
    } else {
        string_of(out.as_slice())
    }
}

// ---------------------------------------------------------------------------
// Test runs
// ---------------------------------------------------------------------------

/// A line that reports a failure: its lower-case form names a failure, an
/// error or a panic.
pub open spec fn is_failure_line(l: Seq<char>) -> bool {
    let w = lower(l);
    contains(w, "fail"@) || contains(w, "error"@) || contains(w, "panic"@)
}

/// A line that sums a test run up.
pub open spec fn is_result_line(l: Seq<char>) -> bool {
    let w = lower(l);
    contains(w, "test result"@) || contains(w, "passed"@) || contains(w, "failed"@)
}

/// The failure lines of `ls`, in order.
pub open spec fn failure_lines(ls: Seq<Seq<char>>) -> Seq<Seq<char>>
    decreases ls.len(),
{
    if ls.len() == 0 {
        seq![]
    } else {
        let r = failure_lines(ls.drop_last());
        if is_failure_line(ls.last()) {
            r.push(ls.last())
        } else {
            r
        }
    }
}

/// The last line of `ls` that sums a test run up.
pub open spec fn last_result_line(ls: Seq<Seq<char>>) -> Option<Seq<char>>
    decreases ls.len(),
{
    if ls.len() == 0 {
        None
    } else if is_result_line(ls.last()) {
        Some(ls.last())
    } else {
        last_result_line(ls.drop_last())
    }
}

/// With no failure line: the last result line, trimmed, or "[tests passed]".
/// Else a heading, the first 20 failure lines and the last result line.
pub open spec fn test_summary(s: Seq<char>) -> Seq<char> {
    let ls = lines(s);
    let failures = failure_lines(ls);
    let result = last_result_line(ls);
    if failures.len() == 0 {
        match result {
            Some(r) => trim(r).push('\n'),
            None => "[tests passed]\n"@,
        }
    } else {
        "[test failures]\n"@ + join_lines(first_n(failures, 20)) + match result {
            Some(r) => r.push('\n'),
            None => seq![],
        }
    }
}

/// The failures and the result line of a test run.
pub fn summarize_test_output(stdout: &str) -> (res: String)
    ensures
        res@ == test_summary(stdout@),
{
    let c = chars_of(stdout);
    let ls = lines_of(c.as_slice());
    let ghost all = views(ls@);
    let mut failures: Vec<Vec<char>> = Vec::new();
    let mut summary: Option<usize> = None;
    let mut i: usize = 0;
    while i < ls.len()
        invariant
            i <= ls@.len(),
            all == views(ls@),
            views(failures@) == failure_lines(all.take(i as int)),
            match summary {
                Some(k) => k < i && last_result_line(all.take(i as int)) == Some(all[k as int]),
                None => last_result_line(all.take(i as int)) is None,
            },
        decreases ls@.len() - i,
    {
        let l = ls[i].as_slice();
        let w = lowercased(l);
        let ws = w.as_slice();
        let failure = has_substring_str(ws, "fail") || has_substring_str(ws, "error")
            || has_substring_str(ws, "panic");
        let result = has_substring_str(ws, "test result") || has_substring_str(ws, "passed")
            || has_substring_str(ws, "failed");
        proof {
            assert(all.take(i + 1).drop_last() =~= all.take(i as int));
            assert(all.take(i + 1).last() == l@);
            let f = failure_lines(all.take(i as int));
            assert(f.push(l@).drop_last() =~= f);
            crate::text::lemma_views_push(failures@, ls@[i as int]);
        }
        if failure {
            failures.push(ls[i].clone());
        }
        if result {
            summary = Some(i);
        }
        i += 1;
    }
    assert(all.take(i as int) =~= all);
    let mut out: Vec<char> = Vec::new();
    if failures.len() == 0 {
        match summary {
            Some(k) => {
                let t = trimmed(ls[k].as_slice());
                push_chars(&mut out, t.as_slice());
                out.push('\n');
            },
            None => {
                push_str(&mut out, "[tests passed]\n");
            },
        }
    } else {
        push_str(&mut out, "[test failures]\n");
        let n = if failures.len() < 20 {
            failures.len()
        } else {
            20
        };
        push_lines(&mut out, &failures, n);
        proof {
            assert(views(failures@).take(n as int) =~= first_n(views(failures@), 20));
        }
        match summary {
            Some(k) => {
                push_chars(&mut out, ls[k].as_slice());
                out.push('\n');
            },
            None => {},
        }
    }
    assert(out@ =~= test_summary(stdout@));
    string_of(out.as_slice())
}

// ---------------------------------------------------------------------------
// Repeated lines
// ---------------------------------------------------------------------------

/// The runs of equal consecutive lines of `ls`: each line with the number of
/// times it stands in a row.
pub open spec fn runs(ls: Seq<Seq<char>>) -> Seq<(Seq<char>, nat)>
    decreases ls.len(),
{
    if ls.len() == 0 {
        seq![]
    } else {
        let r = runs(ls.drop_last());
        if r.len() > 0 && r.last().0 == ls.last() {
            r.update(r.len() - 1, (ls.last(), r.last().1 + 1))
        } else {
            r.push((ls.last(), 1))
        }
    }
}

/// How one run is shown: a note of the repeat count when the line stands
/// more than once, then the line itself unless it is empty.
pub open spec fn run_text(line: Seq<char>, count: nat) -> Seq<char> {
    (if count > 1 {
        "[previous line repeated "@ + decimal(count) + "x]\n"@
    } else {
        seq![]
    }) + (if line.len() > 0 {
        line.push('\n')
    } else {
        seq![]
    })
}

/// The runs shown one after the other.
pub open spec fn runs_text(r: Seq<(Seq<char>, nat)>) -> Seq<char>
    decreases r.len(),
{
    if r.len() == 0 {
        seq![]
    } else {
        runs_text(r.drop_last()) + run_text(r.last().0, r.last().1)
    }
}

/// Each run of equal lines shown once, with its repeat count; the output
/// itself when that shows nothing.
pub open spec fn deduped(s: Seq<char>) -> Seq<char> {
    let out = runs_text(runs(lines(s)));
    if out.len() == 0 {
        s
    } else {
        out
    }
}

/// Appends how a run is shown.
fn push_run(out: &mut Vec<char>, line: &[char], count: usize)
    ensures
        final(out)@ == old(out)@ + run_text(line@, count as nat),
{
    if count > 1 {
        push_str(out, "[previous line repeated ");
        push_decimal(out, count as u64);
        push_str(out, "x]\n");
    }
    if line.len() > 0 {
        push_chars(out, line);
        out.push('\n');
    }
    assert(final(out)@ =~= old(out)@ + run_text(line@, count as nat));
}

/// Equal consecutive lines shown once, with a note of how often they stood
/// in a row.
pub fn dedupe_repeated_lines(stdout: &str) -> (res: String)
    ensures
        res@ == deduped(stdout@),
{
    let c = chars_of(stdout);
    let ls = lines_of(c.as_slice());
    let ghost all = views(ls@);
    let mut out: Vec<char> = Vec::new();
    let mut prev: Vec<char> = Vec::new();
    let mut count: usize = 0;
    let mut i: usize = 0;
    while i < ls.len()
        invariant
            i <= ls@.len(),
            all == views(ls@),
            count <= i,
            i == 0 ==> prev@.len() == 0 && count == 0 && out@.len() == 0,
            i > 0 ==> runs(all.take(i as int)).len() > 0 && runs(all.take(i as int)).last() == (
                prev@,
                count as nat,
            ) && out@ == runs_text(runs(all.take(i as int)).drop_last()),
        decreases ls@.len() - i,
    {
        let l = ls[i].as_slice();
        proof {
            assert(all.take(i + 1).drop_last() =~= all.take(i as int));
            assert(all.take(i + 1).last() == l@);
        }
        if same_chars(l, prev.as_slice()) {
            proof {
                let r = runs(all.take(i as int));
                if i == 0 {
                    assert(all.take(0) =~= Seq::<Seq<char>>::empty());
                    assert(runs(all.take(1)) =~= seq![(l@, 1nat)]);
                    assert(runs(all.take(1)).drop_last() =~= Seq::<(Seq<char>, nat)>::empty());
                } else {
                    let r2 = r.update(r.len() - 1, (l@, (count + 1) as nat));
                    assert(runs(all.take(i + 1)) == r2);
                    assert(r2.drop_last() =~= r.drop_last());
                }
            }
            count += 1;
        } else {
            let ghost before = out@;
            push_run(&mut out, prev.as_slice(), count);
            proof {
                let r = runs(all.take(i as int));
                if i == 0 {
                    assert(run_text(prev@, 0) =~= Seq::<char>::empty());
                    assert(out@ =~= Seq::<char>::empty());
                    assert(all.take(0) =~= Seq::<Seq<char>>::empty());
                    assert(runs(all.take(1)) =~= seq![(l@, 1nat)]);
                    assert(runs(all.take(1)).drop_last() =~= Seq::<(Seq<char>, nat)>::empty());
                } else {
                    assert(runs(all.take(i + 1)) == r.push((l@, 1nat)));
                    assert(r.push((l@, 1nat)).drop_last() =~= r);
                    assert(r.drop_last().push(r.last()) =~= r);
                    assert(runs_text(r) == runs_text(r.drop_last()) + run_text(prev@, count as nat));
                }
            }
            prev = chars_of_slice(l);
            count = 1;
        }
        i += 1;
    }
    assert(all.take(i as int) =~= all);
    if i > 0 {
        push_run(&mut out, prev.as_slice(), count);
        proof {
            let r = runs(all);
            assert(r.drop_last().push(r.last()) =~= r);
            assert(runs_text(r) == runs_text(r.drop_last()) + run_text(prev@, count as nat));
        }
    } else {
        assert(all =~= Seq::<Seq<char>>::empty());
    }
    if out.len() == 0 {
        string_of(c.as_slice())
    } else {
        string_of(out.as_slice())
    }
}

/// A copy of the characters of `s`.
fn chars_of_slice(s: &[char]) -> (res: Vec<char>)
    ensures
        res@ == s@,
{
    let mut out: Vec<char> = Vec::new();
    push_chars(&mut out, s);
    assert(out@ =~= s@);
    out
}

// ---------------------------------------------------------------------------
// Choosing the filter
// ---------------------------------------------------------------------------

/// What the output `s` of the command line `cmd` is shortened to: short
/// output as it is; listings, searches, test runs, diffs and source files
/// by their own filters, chosen by how the command line starts; anything else
/// with repeated lines folded.
pub open spec fn filtered(cmd: Seq<char>, s: Seq<char>) -> Seq<char> {
    if byte_len(s) < SMALL_OUTPUT_THRESHOLD {
        s
    } else if starts_with(cmd, "ls"@) {
        lines_summary(s, 20, "directory entries"@)
    } else if starts_with(cmd, "find"@) || starts_with(cmd, "grep"@) {
        lines_summary(s, 40, "matches"@)
    } else if starts_with(cmd, "cargo test"@) || starts_with(cmd, "pytest"@) || starts_with(
        cmd,
        "go test"@,
    ) {
        test_summary(s)
    } else if starts_with(cmd, "git diff"@) {
        diff_summary(s)
    } else if starts_with(cmd, "cat"@) {
        code_summary(s)
    } else {
        deduped(s)
    }
}

/// The output of the command line `cmd`, shortened by the filter that suits
/// the command.
pub fn apply_filters(cmd: &str, stdout: &str) -> (res: String)
    ensures
        res@ == filtered(cmd@, stdout@),
{
    let sc = chars_of(stdout);
    if !exceeds_bytes(sc.as_slice(), SMALL_OUTPUT_THRESHOLD - 1) {
        return string_of(sc.as_slice());
    }
    let cc = chars_of(cmd);
    let c = cc.as_slice();
    if has_prefix_str(c, "ls") {
        return summarize_lines(stdout, 20, "directory entries");
    }
    if has_prefix_str(c, "find") || has_prefix_str(c, "grep") {
        return summarize_lines(stdout, 40, "matches");
    }
    if has_prefix_str(c, "cargo test") || has_prefix_str(c, "pytest") || has_prefix_str(
        c,
        "go test",
    ) {
        return summarize_test_output(stdout);
    }
    if has_prefix_str(c, "git diff") {
        return summarize_diff(stdout);
    }
    if has_prefix_str(c, "cat") {
        return summarize_code(stdout);
    }
    dedupe_repeated_lines(stdout)
}

/// The notice shown in place of output over the size limit.
pub const OVERSIZE_NOTICE: &'static str =
    "[ztk: command output exceeded 16MB cap, raw output suppressed]\n";

/// Output over `MAX_OUTPUT` bytes replaced by a notice; other output as it is.
pub open spec fn capped(s: Seq<char>) -> Seq<char> {
    if byte_len(s) > MAX_OUTPUT {
        OVERSIZE_NOTICE@
    } else {
        s
    }
}

/// The captured output of a command, or the notice when it is over the size
/// limit.
pub fn cap_output(stdout: String) -> (res: String)
    ensures
        res@ == capped(stdout@),
{
    if exceeds_bytes(chars_of(stdout.as_str()).as_slice(), MAX_OUTPUT) {
        string_of(chars_of(OVERSIZE_NOTICE).as_slice())
    } else {
        stdout
    }
}

/// The exit status to report for a command that exited with `code` (`None`
/// when a signal ended it): 1 when there is none, else the code held to
/// `0..=255`.
pub open spec fn exit_status(code: Option<i32>) -> u8 {
    let c: int = match code {
        Some(c) => c as int,
        None => 1,
    };
    if c < 0 {
        0
    } else if c > 255 {
        255
    } else {
        c as u8
    }
}

/// The exit status to report for a command that exited with `code`.
pub fn exit_code_byte(code: Option<i32>) -> (res: u8)
    ensures
        res == exit_status(code),
{
    let c: i32 = match code {
        Some(c) => c,
        None => 1,
    };
    if c < 0 {
        0
    } else if c > 255 {
        255
    } else {
        c as u8
    }
}

/// What printing `s` shows: `s`, then a newline unless it ends with one.
pub open spec fn printed(s: Seq<char>) -> Seq<char> {
    if s.len() > 0 && s.last() == '\n' {
        s
    } else {
        s.push('\n')
    }
}

/// The text to print for the output `s`: it always ends with a newline.
pub fn printed_output(s: &str) -> (res: String)
    ensures
        res@ == printed(s@),
{
    let mut out = chars_of(s);
    let n = out.len();
    if n == 0 || out[n - 1] != '\n' {
        out.push('\n');
    }
    string_of(out.as_slice())
}

// ---------------------------------------------------------------------------
// Laws
// ---------------------------------------------------------------------------

/// Test runs go to the test summary: a command line that starts with
/// "cargo test", "pytest" or "go test" gets the summary of a test run for
/// any output of 80 bytes or more.
pub proof fn law_test_runs_are_summarized(cmd: Seq<char>, s: Seq<char>)
    requires
        byte_len(s) >= SMALL_OUTPUT_THRESHOLD,
        starts_with(cmd, "cargo test"@) || starts_with(cmd, "pytest"@) || starts_with(
            cmd,
            "go test"@,
        ),
    ensures
        filtered(cmd, s) == test_summary(s),
{
    reveal_strlit("cargo test");
    reveal_strlit("pytest");
    reveal_strlit("go test");
    reveal_strlit("ls");
    reveal_strlit("find");
    reveal_strlit("grep");
    if starts_with(cmd, "cargo test"@) {
        assert(cmd[0] == cmd.subrange(0, 10)[0]);
    } else if starts_with(cmd, "pytest"@) {
        assert(cmd[0] == cmd.subrange(0, 6)[0]);
    } else {
        assert(cmd[0] == cmd.subrange(0, 7)[0]);
        assert(cmd[1] == cmd.subrange(0, 7)[1]);
    }
    if starts_with(cmd, "ls"@) {
        assert(cmd[0] == cmd.subrange(0, 2)[0]);
    }
    if starts_with(cmd, "find"@) {
        assert(cmd[0] == cmd.subrange(0, 4)[0]);
    }
    if starts_with(cmd, "grep"@) {
        assert(cmd[0] == cmd.subrange(0, 4)[0]);
        assert(cmd[1] == cmd.subrange(0, 4)[1]);
    }
}

/// The failure lines are the lines that the given predicate keeps, when it
/// keeps exactly the lines whose lower-case form names a failure, an error
/// or a panic.
proof fn lemma_failure_lines_filter(ls: Seq<Seq<char>>, p: spec_fn(Seq<char>) -> bool)
    requires
        forall|l: Seq<char>|
            #[trigger] p(l) == (contains(lower(l), "fail"@) || contains(lower(l), "error"@)
                || contains(lower(l), "panic"@)),
    ensures
        failure_lines(ls) == ls.filter(p),
    decreases ls.len(),
{
    reveal(Seq::filter);
    if ls.len() > 0 {
        lemma_failure_lines_filter(ls.drop_last(), p);
        assert(p(ls.last()) == is_failure_line(ls.last()));
    }
}

/// Every failure line of a test run is listed: when there are no more than
/// 20 lines whose lower-case form contains "fail", "error" or "panic", the
/// summary opens with the failure heading and all of those lines, each
/// followed by a newline, in the order of the output.
pub proof fn law_failure_lines_are_listed(s: Seq<char>)
    requires
        0 < lines(s).filter(
            |l: Seq<char>|
                contains(lower(l), "fail"@) || contains(lower(l), "error"@) || contains(
                    lower(l),
                    "panic"@,
                ),
        ).len() <= 20,
    ensures
        starts_with(
            test_summary(s),
            "[test failures]\n"@ + join_lines(
                lines(s).filter(
                    |l: Seq<char>|
                        contains(lower(l), "fail"@) || contains(lower(l), "error"@) || contains(
                            lower(l),
                            "panic"@,
                        ),
                ),
            ),
        ),
{
    let p = |l: Seq<char>|
        contains(lower(l), "fail"@) || contains(lower(l), "error"@) || contains(lower(l), "panic"@);
    lemma_failure_lines_filter(lines(s), p);
    let f = failure_lines(lines(s));
    let head = "[test failures]\n"@ + join_lines(f);
    let tail = match last_result_line(lines(s)) {
        Some(r) => r.push('\n'),
        None => seq![],
    };
    assert(first_n(f, 20) == f);
    assert(test_summary(s) == head + tail);
    assert((head + tail).subrange(0, head.len() as int) =~= head);
}

/// Lines joined with newlines are empty only when there are no lines.
proof fn lemma_join_lines_empty(ls: Seq<Seq<char>>)
    ensures
        join_lines(ls).len() == 0 <==> ls.len() == 0,
{
    if ls.len() > 0 {
        assert(join_lines(ls).len() == join_lines(ls.drop_last()).len() + ls.last().len() + 1);
    }
}

proof fn lemma_item_lines_filter(ls: Seq<Seq<char>>, p: spec_fn(Seq<char>) -> bool)
    requires
        forall|l: Seq<char>|
            #[trigger] p(l) == (starts_with(trim_start(l), "fn "@) || starts_with(
                trim_start(l),
                "pub fn "@,
            ) || starts_with(trim_start(l), "struct "@) || starts_with(trim_start(l), "enum "@)
                || starts_with(trim_start(l), "impl "@) || starts_with(trim_start(l), "mod "@)
                || starts_with(trim_start(l), "use "@)),
    ensures
        item_lines(ls) == ls.filter(p),
    decreases ls.len(),
{
    reveal(Seq::filter);
    if ls.len() > 0 {
        lemma_item_lines_filter(ls.drop_last(), p);
        assert(p(ls.last()) == is_item_line(ls.last()));
    }
}

/// The outline of a source file is exactly its item lines: every line that,
/// after its indentation, starts with "fn ", "pub fn ", "struct ", "enum ",
/// "impl ", "mod " or "use ", each followed by a newline, in the order of the
/// file; a file with no such line gets the preview of its first 80 lines.
pub proof fn law_outline_is_the_item_lines(s: Seq<char>)
    ensures
        ({
            let items = lines(s).filter(
                |l: Seq<char>|
                    starts_with(trim_start(l), "fn "@) || starts_with(trim_start(l), "pub fn "@)
                        || starts_with(trim_start(l), "struct "@) || starts_with(
                        trim_start(l),
                        "enum "@,
                    ) || starts_with(trim_start(l), "impl "@) || starts_with(
                        trim_start(l),
                        "mod "@,
                    ) || starts_with(trim_start(l), "use "@),
            );
            code_summary(s) == if items.len() > 0 {
                join_lines(items)
            } else {
                lines_summary(s, 80, "file preview"@)
            }
        }),
{
    let p = |l: Seq<char>|
        starts_with(trim_start(l), "fn "@) || starts_with(trim_start(l), "pub fn "@)
            || starts_with(trim_start(l), "struct "@) || starts_with(trim_start(l), "enum "@)
            || starts_with(trim_start(l), "impl "@) || starts_with(trim_start(l), "mod "@)
            || starts_with(trim_start(l), "use "@);
    lemma_item_lines_filter(lines(s), p);
    lemma_join_lines_empty(item_lines(lines(s)));
}

/// A line that starts with "+++" or "---" starts with '+' or '-'.
proof fn lemma_diff_line(l: Seq<char>)
    ensures
        is_diff_line(l) == (starts_with(l, "+"@) || starts_with(l, "-"@) || starts_with(l, "@@"@)),
{
    reveal_strlit("+++");
    reveal_strlit("---");
    reveal_strlit("+");
    reveal_strlit("-");
    if starts_with(l, "+++"@) {
        assert(l.subrange(0, 1) =~= "+"@);
    }
    if starts_with(l, "---"@) {
        assert(l.subrange(0, 1) =~= "-"@);
    }
}

proof fn lemma_diff_lines_filter(ls: Seq<Seq<char>>, p: spec_fn(Seq<char>) -> bool)
    requires
        forall|l: Seq<char>|
            #[trigger] p(l) == (starts_with(l, "+"@) || starts_with(l, "-"@) || starts_with(
                l,
                "@@"@,
            )),
    ensures
        diff_lines(ls) == ls.filter(p),
    decreases ls.len(),
{
    reveal(Seq::filter);
    if ls.len() > 0 {
        lemma_diff_lines_filter(ls.drop_last(), p);
        lemma_diff_line(ls.last());
        assert(p(ls.last()) == is_diff_line(ls.last()));
    }
}

/// The diff summary holds every changed line and hunk header, however many:
/// exactly the lines that start with '+', '-' or "@@", each followed by a
/// newline, in the order of the diff; a diff with no such line is shown as
/// it is.
pub proof fn law_diff_keeps_every_change(s: Seq<char>)
    ensures
        ({
            let changes = lines(s).filter(
                |l: Seq<char>| starts_with(l, "+"@) || starts_with(l, "-"@) || starts_with(l, "@@"@),
            );
            diff_summary(s) == if changes.len() > 0 {
                join_lines(changes)
            } else {
                s
            }
        }),
{
    let p = |l: Seq<char>| starts_with(l, "+"@) || starts_with(l, "-"@) || starts_with(l, "@@"@);
    lemma_diff_lines_filter(lines(s), p);
    lemma_join_lines_empty(diff_lines(lines(s)));
}

/// Lines that are not empty and differ from their neighbours are runs of one,
/// shown as they are.
proof fn lemma_distinct_lines_runs(ls: Seq<Seq<char>>)
    requires
        forall|i: int| 0 <= i < ls.len() ==> #[trigger] ls[i].len() > 0,
        forall|i: int| 0 < i < ls.len() ==> #[trigger] ls[i] != ls[i - 1],
    ensures
        runs(ls).len() == ls.len(),
        ls.len() > 0 ==> runs(ls).last() == (ls.last(), 1nat),
        runs_text(runs(ls)) == join_lines(ls),
    decreases ls.len(),
{
    if ls.len() > 0 {
        let p = ls.drop_last();
        assert forall|i: int| 0 <= i < p.len() implies #[trigger] p[i].len() > 0 by {
            assert(p[i] == ls[i]);
        }
        assert forall|i: int| 0 < i < p.len() implies #[trigger] p[i] != p[i - 1] by {
            assert(p[i] == ls[i]);
            assert(p[i - 1] == ls[i - 1]);
        }
        lemma_distinct_lines_runs(p);
        let r = runs(p);
        let n = ls.len() as int;
        if n > 1 {
            assert(r.last().0 == ls[n - 2]);
            assert(ls[n - 1] != ls[n - 2]);
        }
        let r2 = r.push((ls.last(), 1nat));
        assert(runs(ls) == r2);
        assert(r2.drop_last() =~= r);
        assert(ls[n - 1].len() > 0);
        assert(run_text(ls.last(), 1) =~= ls.last() + seq!['\n']);
    }
}

/// Only equal neighbouring lines are folded: output whose lines are all
/// non-empty, with no line equal to the one before it, is shown line by
/// line, each followed by a newline, with no repeat note.
pub proof fn law_distinct_lines_are_kept(s: Seq<char>)
    requires
        lines(s).len() > 0,
        forall|i: int| 0 <= i < lines(s).len() ==> #[trigger] lines(s)[i].len() > 0,
        forall|i: int| 0 < i < lines(s).len() ==> #[trigger] lines(s)[i] != lines(s)[i - 1],
    ensures
        deduped(s) == join_lines(lines(s)),
{
    lemma_distinct_lines_runs(lines(s));
    lemma_join_lines_empty(lines(s));
}

/// Which filter output gets: output under 80 bytes is shown as it is;
/// longer output of "ls" is cut to 20 lines, of "find" and "grep" to 40, of
/// "git diff" to its changes, of "cat" to its outline; output of a command
/// line that starts with none of the known commands has its repeated lines
/// folded.
pub proof fn law_filter_routes(cmd: Seq<char>, s: Seq<char>)
    ensures
        byte_len(s) < SMALL_OUTPUT_THRESHOLD ==> filtered(cmd, s) == s,
        byte_len(s) >= SMALL_OUTPUT_THRESHOLD && starts_with(cmd, "ls"@) ==> filtered(cmd, s)
            == lines_summary(s, 20, "directory entries"@),
        byte_len(s) >= SMALL_OUTPUT_THRESHOLD && (starts_with(cmd, "find"@) || starts_with(
            cmd,
            "grep"@,
        )) ==> filtered(cmd, s) == lines_summary(s, 40, "matches"@),
        byte_len(s) >= SMALL_OUTPUT_THRESHOLD && starts_with(cmd, "git diff"@) ==> filtered(cmd, s)
            == diff_summary(s),
        byte_len(s) >= SMALL_OUTPUT_THRESHOLD && starts_with(cmd, "cat"@) ==> filtered(cmd, s)
            == code_summary(s),
        byte_len(s) >= SMALL_OUTPUT_THRESHOLD && !starts_with(cmd, "ls"@) && !starts_with(
            cmd,
            "find"@,
        ) && !starts_with(cmd, "grep"@) && !starts_with(cmd, "cargo test"@) && !starts_with(
            cmd,
            "pytest"@,
        ) && !starts_with(cmd, "go test"@) && !starts_with(cmd, "git diff"@) && !starts_with(
            cmd,
            "cat"@,
        ) ==> filtered(cmd, s) == deduped(s),
{
    reveal_strlit("ls");
    reveal_strlit("find");
    reveal_strlit("grep");
    reveal_strlit("cargo test");
    reveal_strlit("pytest");
    reveal_strlit("go test");
    reveal_strlit("git diff");
    reveal_strlit("cat");
    if starts_with(cmd, "ls"@) {
        lemma_head(cmd, "ls"@);
    }
    if starts_with(cmd, "find"@) {
        lemma_head(cmd, "find"@);
    }
    if starts_with(cmd, "grep"@) {
        lemma_head(cmd, "grep"@);
    }
    if starts_with(cmd, "cargo test"@) {
        lemma_head(cmd, "cargo test"@);
    }
    if starts_with(cmd, "pytest"@) {
        lemma_head(cmd, "pytest"@);
    }
    if starts_with(cmd, "go test"@) {
        lemma_head(cmd, "go test"@);
    }
    if starts_with(cmd, "git diff"@) {
        lemma_head(cmd, "git diff"@);
    }
    if starts_with(cmd, "cat"@) {
        lemma_head(cmd, "cat"@);
    }
}

/// The first three characters of a text that starts with `p` are `p`'s.
proof fn lemma_head(s: Seq<char>, p: Seq<char>)
    requires
        starts_with(s, p),
        p.len() >= 2,
    ensures
        s[0] == p[0],
        s[1] == p[1],
        p.len() >= 3 ==> s[2] == p[2],
{
    assert(s[0] == s.subrange(0, p.len() as int)[0]);
    assert(s[1] == s.subrange(0, p.len() as int)[1]);
    if p.len() >= 3 {
        assert(s[2] == s.subrange(0, p.len() as int)[2]);
    }
}

/// The last line of `ls` that sums a test run up is the one at `k` when the
/// line at `k` does and none after it does.
proof fn lemma_last_result_line(ls: Seq<Seq<char>>, k: int)
    requires
        0 <= k < ls.len(),
        is_result_line(ls[k]),
        forall|j: int| k < j < ls.len() ==> !is_result_line(#[trigger] ls[j]),
    ensures
        last_result_line(ls) == Some(ls[k]),
    decreases ls.len(),
{
    if k < ls.len() - 1 {
        assert(ls.drop_last()[k] == ls[k]);
        assert forall|j: int| k < j < ls.drop_last().len() implies !is_result_line(
            #[trigger] ls.drop_last()[j],
        ) by {
            assert(ls.drop_last()[j] == ls[j]);
        }
        lemma_last_result_line(ls.drop_last(), k);
    }
}

proof fn lemma_no_result_line(ls: Seq<Seq<char>>)
    requires
        forall|j: int| 0 <= j < ls.len() ==> !is_result_line(#[trigger] ls[j]),
    ensures
        last_result_line(ls) is None,
    decreases ls.len(),
{
    if ls.len() > 0 {
        assert forall|j: int| 0 <= j < ls.drop_last().len() implies !is_result_line(
            #[trigger] ls.drop_last()[j],
        ) by {
            assert(ls.drop_last()[j] == ls[j]);
        }
        assert(!is_result_line(ls[ls.len() - 1]));
        lemma_no_result_line(ls.drop_last());
    }
}

/// The summary of a test run whose last result line (a line whose
/// lower-case form contains "test result", "passed" or "failed") stands at
/// `k`: with no failure line it is that line trimmed; else the failure
/// heading, the first 20 failure lines, then that line.
pub proof fn law_test_summary_with_result(s: Seq<char>, k: int)
    requires
        0 <= k < lines(s).len(),
        contains(lower(lines(s)[k]), "test result"@) || contains(lower(lines(s)[k]), "passed"@)
            || contains(lower(lines(s)[k]), "failed"@),
        forall|j: int|
            k < j < lines(s).len() ==> !(contains(lower(#[trigger] lines(s)[j]), "test result"@)
                || contains(lower(lines(s)[j]), "passed"@) || contains(lower(lines(s)[j]), "failed"@)),
    ensures
        ({
            let failures = lines(s).filter(
                |l: Seq<char>|
                    contains(lower(l), "fail"@) || contains(lower(l), "error"@) || contains(
                        lower(l),
                        "panic"@,
                    ),
            );
            test_summary(s) == if failures.len() == 0 {
                trim(lines(s)[k]).push('\n')
            } else {
                "[test failures]\n"@ + join_lines(first_n(failures, 20)) + lines(s)[k].push('\n')
            }
        }),
{
    let p = |l: Seq<char>|
        contains(lower(l), "fail"@) || contains(lower(l), "error"@) || contains(lower(l), "panic"@);
    lemma_failure_lines_filter(lines(s), p);
    lemma_last_result_line(lines(s), k);
}

/// The summary of a test run with no result line: "[tests passed]" when no
/// line names a failure, an error or a panic; else the failure heading and
/// the first 20 such lines.
pub proof fn law_test_summary_without_result(s: Seq<char>)
    requires
        forall|j: int|
            0 <= j < lines(s).len() ==> !(contains(lower(#[trigger] lines(s)[j]), "test result"@)
                || contains(lower(lines(s)[j]), "passed"@) || contains(lower(lines(s)[j]), "failed"@)),
    ensures
        ({
            let failures = lines(s).filter(
                |l: Seq<char>|
                    contains(lower(l), "fail"@) || contains(lower(l), "error"@) || contains(
                        lower(l),
                        "panic"@,
                    ),
            );
            test_summary(s) == if failures.len() == 0 {
                "[tests passed]\n"@
            } else {
                "[test failures]\n"@ + join_lines(first_n(failures, 20))
            }
        }),
{
    let p = |l: Seq<char>|
        contains(lower(l), "fail"@) || contains(lower(l), "error"@) || contains(lower(l), "panic"@);
    lemma_failure_lines_filter(lines(s), p);
    lemma_no_result_line(lines(s));
    let f = failure_lines(lines(s));
    assert("[test failures]\n"@ + join_lines(first_n(f, 20)) + Seq::<char>::empty() =~= "[test failures]\n"@
        + join_lines(first_n(f, 20)));
}

proof fn lemma_equal_lines_runs(ls: Seq<Seq<char>>, l: Seq<char>)
    requires
        ls.len() > 0,
        forall|i: int| 0 <= i < ls.len() ==> #[trigger] ls[i] == l,
    ensures
        runs(ls) == seq![(l, ls.len())],
    decreases ls.len(),
{
    if ls.len() > 1 {
        assert forall|i: int| 0 <= i < ls.drop_last().len() implies #[trigger] ls.drop_last()[i]
            == l by {
            assert(ls.drop_last()[i] == ls[i]);
        }
        lemma_equal_lines_runs(ls.drop_last(), l);
        assert(ls[ls.len() - 1] == l);
        assert(runs(ls) =~= seq![(l, ls.len())]);
    } else {
        assert(ls.drop_last() =~= Seq::<Seq<char>>::empty());
        assert(runs(ls.drop_last()) == Seq::<(Seq<char>, nat)>::empty());
        assert(ls[0] == l);
        assert(ls.last() == l);
        assert(runs(ls) == Seq::<(Seq<char>, nat)>::empty().push((l, 1nat)));
        assert(runs(ls) =~= seq![(l, 1nat)]);
    }
}

/// Equal neighbouring lines are folded into one with their count: output of
/// two or more copies of one non-empty line shows a note of the count, then
/// the line once.
pub proof fn law_repeated_line_is_folded(s: Seq<char>)
    requires
        lines(s).len() >= 2,
        lines(s)[0].len() > 0,
        forall|i: int| 0 <= i < lines(s).len() ==> #[trigger] lines(s)[i] == lines(s)[0],
    ensures
        deduped(s) == "[previous line repeated "@ + decimal(lines(s).len()) + "x]\n"@ + lines(s)[0]
            + seq!['\n'],
{
    let ls = lines(s);
    lemma_equal_lines_runs(ls, ls[0]);
    let r = runs(ls);
    assert(r.drop_last() =~= Seq::<(Seq<char>, nat)>::empty());
    assert(runs_text(r) == runs_text(r.drop_last()) + run_text(ls[0], ls.len()));
    assert(runs_text(r) =~= "[previous line repeated "@ + decimal(ls.len()) + "x]\n"@ + ls[0]
        + seq!['\n']);
    reveal_strlit("[previous line repeated ");
}

/// `byte_len` adds up over concatenation.
proof fn lemma_byte_len_concat(a: Seq<char>, b: Seq<char>)
    ensures
        byte_len(a + b) == byte_len(a) + byte_len(b),
    decreases b.len(),
{
    if b.len() > 0 {
        lemma_byte_len_concat(a, b.drop_last());
        assert((a + b).drop_last() =~= a + b.drop_last());
    } else {
        assert(a + b =~= a);
    }
}

proof fn lemma_scalar_width(c: char)
    ensures
        vstd::utf8::encode_scalar(c as u32).len() == utf8_width(c),
{
}

/// The byte length used to tell short output from long is the length of the
/// output's UTF-8 encoding, what `str::len` gives.
pub proof fn law_byte_len_is_utf8_length(s: Seq<char>)
    ensures
        byte_len(s) == vstd::utf8::encode_utf8(s).len(),
    decreases s.len(),
{
    if s.len() > 0 {
        law_byte_len_is_utf8_length(s.drop_first());
        assert(s =~= seq![s[0]] + s.drop_first());
        lemma_byte_len_concat(seq![s[0]], s.drop_first());
        assert(seq![s[0]].drop_last() =~= Seq::<char>::empty());
        assert(byte_len(Seq::<char>::empty()) == 0);
        assert(byte_len(seq![s[0]]) == utf8_width(s[0]));
        lemma_scalar_width(s[0]);
        assert(vstd::utf8::encode_utf8(s) == vstd::utf8::encode_scalar(s[0] as u32)
            + vstd::utf8::encode_utf8(s.drop_first()));
    }
}

/// A listing with more lines than are kept is cut to its first `keep` lines
/// under a heading that gives the label, the number of lines and `keep`;
/// a listing with no more lines than that is shown as it is.
pub proof fn law_listing_keeps_first_lines(s: Seq<char>, keep: nat, label: Seq<char>)
    ensures
        lines(s).len() <= keep ==> lines_summary(s, keep, label) == s,
        lines(s).len() > keep ==> lines_summary(s, keep, label) == "["@ + label + ": "@ + decimal(
            lines(s).len(),
        ) + " total, showing first "@ + decimal(keep) + "]\n"@ + join_lines(
            lines(s).subrange(0, keep as int),
        ),
{
}

/// Output over the size limit is replaced by the notice; output within it is
/// kept as it is.
pub proof fn law_cap(s: Seq<char>)
    ensures
        byte_len(s) <= MAX_OUTPUT ==> capped(s) == s,
        byte_len(s) > MAX_OUTPUT ==> capped(s) == OVERSIZE_NOTICE@,
{
}

/// Exit codes in `0..=255` are reported as they are, lower codes as 0,
/// higher as 255, and a missing code as 1.
pub proof fn law_exit_status(code: Option<i32>)
    ensures
        code is None ==> exit_status(code) == 1,
        forall|c: i32| code == Some(c) && 0 <= c <= 255 ==> exit_status(code) == c,
        forall|c: i32| code == Some(c) && c < 0 ==> exit_status(code) == 0,
        forall|c: i32| code == Some(c) && c > 255 ==> exit_status(code) == 255,
{
}

/// Lines with no equal neighbour each make a run of one.
proof fn lemma_distinct_runs(ls: Seq<Seq<char>>, p: spec_fn(Seq<char>) -> bool)
    requires
        forall|i: int| 0 < i < ls.len() ==> #[trigger] ls[i] != ls[i - 1],
        forall|l: Seq<char>| #[trigger] p(l) == (l.len() > 0),
    ensures
        runs(ls).len() == ls.len(),
        ls.len() > 0 ==> runs(ls).last() == (ls.last(), 1nat),
        runs_text(runs(ls)) == join_lines(ls.filter(p)),
    decreases ls.len(),
{
    reveal(Seq::filter);
    if ls.len() > 0 {
        let q = ls.drop_last();
        assert forall|i: int| 0 < i < q.len() implies #[trigger] q[i] != q[i - 1] by {
            assert(q[i] == ls[i]);
            assert(q[i - 1] == ls[i - 1]);
        }
        lemma_distinct_runs(q, p);
        let r = runs(q);
        let n = ls.len() as int;
        if n > 1 {
            assert(r.last().0 == ls[n - 2]);
            assert(ls[n - 1] != ls[n - 2]);
        }
        let r2 = r.push((ls.last(), 1nat));
        assert(runs(ls) == r2);
        assert(r2.drop_last() =~= r);
        let f = q.filter(p);
        if ls.last().len() > 0 {
            assert(f.push(ls.last()).drop_last() =~= f);
            assert(run_text(ls.last(), 1) =~= ls.last() + seq!['\n']);
        } else {
            assert(run_text(ls.last(), 1) =~= Seq::<char>::empty());
            assert(runs_text(r2) =~= runs_text(r));
        }
    }
}

/// Lines with no equal neighbour are shown each once, with no repeat note;
/// empty lines are left out, and output with nothing else to show is shown
/// as it is.
pub proof fn law_distinct_lines_skip_empty(s: Seq<char>)
    requires
        forall|i: int| 0 < i < lines(s).len() ==> #[trigger] lines(s)[i] != lines(s)[i - 1],
    ensures
        ({
            let shown = lines(s).filter(|l: Seq<char>| l.len() > 0);
            deduped(s) == if shown.len() > 0 {
                join_lines(shown)
            } else {
                s
            }
        }),
{
    let p = |l: Seq<char>| l.len() > 0;
    lemma_distinct_runs(lines(s), p);
    lemma_join_lines_empty(lines(s).filter(p));
}

} // verus!
