//! The managed settings block of a configuration file: whether a file holds
//! it, the file with the block added, and the file with the block taken out.
//!
//! Reading and writing the file is left to the caller; these functions take
//! the file's text and say what it becomes.

use vstd::prelude::*;
use crate::text::{chars_of, contains, find, find_from, lemma_find_from, lemma_find_from_first, has_substring_str, occurs_at, push_chars, push_str, slice_chars, string_of};

verus! {

/// The line that opens the managed block.
pub const BEGIN_MARKER: &'static str = "# ztk managed start";

/// The line that closes the managed block.
pub const END_MARKER: &'static str = "# ztk managed end";

/// The managed block, as it is added to a file.
pub const MANAGED_BLOCK: &'static str =
    "# ztk managed start\n[ztk]\nenabled = true\nsession_ttl_secs = 30\n# ztk managed end\n";

/// Three newlines in a row: a run of blank lines that removal shortens.
pub const TRIPLE_NEWLINE: &'static str = "\n\n\n";

/// The file holds both markers.
pub open spec fn holds_block(c: Seq<char>) -> bool {
    contains(c, BEGIN_MARKER@) && contains(c, END_MARKER@)
}

/// Whether `content` holds both markers of the managed block.
pub fn has_managed_block(content: &str) -> (res: bool)
    ensures
        res == holds_block(content@),
{
    let c = chars_of(content);
    has_substring_str(c.as_slice(), BEGIN_MARKER) && has_substring_str(c.as_slice(), END_MARKER)
}

/// The text before the block is added: `c`, with a `'\n'` after it when it is
/// not empty and does not end with one.
pub open spec fn terminated(c: Seq<char>) -> Seq<char> {
    if c.len() > 0 && c.last() != '\n' {
        c.push('\n')
    } else {
        c
    }
}

/// What adding the managed block makes of the file `c`: nothing when it
/// holds both markers already, else the file with the block after it.
pub open spec fn added_block(c: Seq<char>) -> Option<Seq<char>> {
    if holds_block(c) {
        None
    } else {
        Some(terminated(c) + MANAGED_BLOCK@)
    }
}

/// The text after the block's end marker, without one `'\n'` that starts it.
pub open spec fn drop_leading_newline(r: Seq<char>) -> Seq<char> {
    if r.len() > 0 && r[0] == '\n' {
        r.drop_first()
    } else {
        r
    }
}

/// `s` with every newline that follows two newlines left out: each run of
/// three or more newlines becomes two.
pub open spec fn collapse_blank_runs(s: Seq<char>) -> Seq<char>
    decreases s.len(),
{
    if s.len() == 0 {
        seq![]
    } else {
        let r = collapse_blank_runs(s.drop_last());
        let n = s.len() as int;
        if s[n - 1] == '\n' && n >= 3 && s[n - 2] == '\n' && s[n - 3] == '\n' {
            r
        } else {
            r.push(s[n - 1])
        }
    }
}

/// What removing the managed block makes of the file `c`: nothing when it
/// has no begin marker, or no end marker after the first begin marker; else
/// the text before the begin marker joined to the text after the end marker
/// (less one `'\n'` that starts it), with runs of blank lines shortened.
pub open spec fn removed_block(c: Seq<char>) -> Option<Seq<char>> {
    match find_from(c, BEGIN_MARKER@, 0) {
        None => None,
        Some(start) => match find_from(c, END_MARKER@, start) {
            None => None,
            Some(e) => {
                let end = e + END_MARKER@.len();
                Some(
                    collapse_blank_runs(
                        c.subrange(0, start) + drop_leading_newline(c.subrange(end, c.len() as int)),
                    ),
                )
            },
        },
    }
}

/// `s` with each run of three or more newlines made two.
pub fn collapse_blank_lines(s: &[char]) -> (res: Vec<char>)
    ensures
        res@ == collapse_blank_runs(s@),
        !contains(res@, TRIPLE_NEWLINE@),
{
    let mut out: Vec<char> = Vec::new();
    let mut i: usize = 0;
    while i < s.len()
        invariant
            i <= s@.len(),
            out@ == collapse_blank_runs(s@.take(i as int)),
        decreases s@.len() - i,
    {
        let c = s[i];
        let drop = c == '\n' && i >= 2 && s[i - 1] == '\n' && s[i - 2] == '\n';
        proof {
            let t = s@.take(i + 1);
            assert(t.drop_last() =~= s@.take(i as int));
        }
        if !drop {
            out.push(c);
        }
        i += 1;
    }
    assert(s@.take(s@.len() as int) =~= s@);
    proof {
        lemma_collapse_no_triple(s@);
    }
    out
}

/// After collapsing, no three newlines stand in a row; the output ends in as
/// many newlines as the input does, up to two.
pub proof fn lemma_collapse_no_triple(s: Seq<char>)
    ensures
        !contains(collapse_blank_runs(s), TRIPLE_NEWLINE@),
{
    lemma_collapse_tail(s);
    let r = collapse_blank_runs(s);
    reveal_strlit("\n\n\n");
    assert forall|i: int| !occurs_at(r, TRIPLE_NEWLINE@, i) by {
        if occurs_at(r, TRIPLE_NEWLINE@, i) {
            assert(r.subrange(i, i + 3)[0] == '\n');
            assert(r.subrange(i, i + 3)[1] == '\n');
            assert(r.subrange(i, i + 3)[2] == '\n');
            lemma_collapse_no_triple_at(s, i);
        }
    }
}

/// The number of newlines that end `s`, counted up to three.
pub open spec fn trailing_newlines(s: Seq<char>) -> int {
    if s.len() >= 3 && s[s.len() - 1] == '\n' && s[s.len() - 2] == '\n' && s[s.len() - 3]
        == '\n' {
        3
    } else if s.len() >= 2 && s[s.len() - 1] == '\n' && s[s.len() - 2] == '\n' {
        2
    } else if s.len() >= 1 && s[s.len() - 1] == '\n' {
        1
    } else {
        0
    }
}

proof fn lemma_collapse_tail(s: Seq<char>)
    ensures
        trailing_newlines(collapse_blank_runs(s)) == if trailing_newlines(s) >= 2 {
            2
        } else {
            trailing_newlines(s)
        },
    decreases s.len(),
{
    if s.len() > 0 {
        lemma_collapse_tail(s.drop_last());
    }
}

proof fn lemma_collapse_no_triple_at(s: Seq<char>, i: int)
    requires
        0 <= i,
        i + 3 <= collapse_blank_runs(s).len(),
    ensures
        !(collapse_blank_runs(s)[i] == '\n' && collapse_blank_runs(s)[i + 1] == '\n'
            && collapse_blank_runs(s)[i + 2] == '\n'),
    decreases s.len(),
{
    let r = collapse_blank_runs(s);
    if !(r[i] == '\n' && r[i + 1] == '\n' && r[i + 2] == '\n') {
        return;
    }
    let n = s.len() as int;
    let p = collapse_blank_runs(s.drop_last());
    lemma_collapse_tail(s.drop_last());
    if s[n - 1] == '\n' && n >= 3 && s[n - 2] == '\n' && s[n - 3] == '\n' {
        lemma_collapse_no_triple_at(s.drop_last(), i);
    } else {
        if i + 3 <= p.len() {
            lemma_collapse_no_triple_at(s.drop_last(), i);
        } else {
            // the triple ends with the character just pushed
            assert(r == p.push(s[n - 1]));
            assert(i + 3 == r.len());
            assert(trailing_newlines(p) >= 2);
            assert(s.drop_last()[n - 2] == '\n');
            assert(s.drop_last()[n - 3] == '\n');
        }
    }
}

/// The file `content` with the managed block added, or `None` when it holds
/// the block already and stays as it is.
pub fn with_managed_block(content: &str) -> (res: Option<String>)
    ensures
        res matches Some(s) ==> added_block(content@) == Some(s@),
        res is None ==> added_block(content@) is None,
{
    if has_managed_block(content) {
        return None;
    }
    let mut out = chars_of(content);
    let n = out.len();
    if n > 0 && out[n - 1] != '\n' {
        out.push('\n');
    }
    push_str(&mut out, MANAGED_BLOCK);
    Some(string_of(out.as_slice()))
}

/// The file `content` with the managed block taken out, or `None` when it
/// has no block to take out and stays as it is.
pub fn without_managed_block(content: &str) -> (res: Option<String>)
    ensures
        res matches Some(s) ==> removed_block(content@) == Some(s@),
        res is None ==> removed_block(content@) is None,
{
    let c = chars_of(content);
    let begin = chars_of(BEGIN_MARKER);
    let end_marker = chars_of(END_MARKER);
    let start = match find(c.as_slice(), begin.as_slice(), 0) {
        Some(k) => k,
        None => return None,
    };
    let e = match find(c.as_slice(), end_marker.as_slice(), start) {
        Some(k) => k,
        None => return None,
    };
    proof {
        lemma_find_from(c@, end_marker@, start as int);
        assert(occurs_at(c@, end_marker@, e as int));
        assert(e + end_marker@.len() <= c.len());
    }
    let end = e + end_marker.len();
    let mut joined = slice_chars(c.as_slice(), 0, start);
    let from = if end < c.len() && c[end] == '\n' {
        end + 1
    } else {
        end
    };
    let rest = slice_chars(c.as_slice(), from, c.len());
    proof {
        assert(rest@ =~= drop_leading_newline(c@.subrange(end as int, c@.len() as int)));
    }
    push_chars(&mut joined, rest.as_slice());
    let collapsed = collapse_blank_lines(joined.as_slice());
    Some(string_of(collapsed.as_slice()))
}

/// Collapsing changes nothing in a text without three newlines in a row.
pub proof fn lemma_collapse_identity(s: Seq<char>)
    requires
        !contains(s, TRIPLE_NEWLINE@),
    ensures
        collapse_blank_runs(s) == s,
    decreases s.len(),
{
    reveal_strlit("\n\n\n");
    if s.len() > 0 {
        let n = s.len() as int;
        let p = s.drop_last();
        assert forall|j: int| !occurs_at(p, TRIPLE_NEWLINE@, j) by {
            if occurs_at(p, TRIPLE_NEWLINE@, j) {
                assert(s.subrange(j, j + 3) =~= p.subrange(j, j + 3));
                assert(occurs_at(s, TRIPLE_NEWLINE@, j));
            }
        }
        lemma_collapse_identity(p);
        if s[n - 1] == '\n' && n >= 3 && s[n - 2] == '\n' && s[n - 3] == '\n' {
            assert(s.subrange(n - 3, n) =~= TRIPLE_NEWLINE@);
            assert(occurs_at(s, TRIPLE_NEWLINE@, n - 3));
        }
        assert(p.push(s[n - 1]) =~= s);
    }
}

/// Where the begin and end markers stand in the text `t` followed by the
/// block, when `t` is empty or ends with a newline.
proof fn lemma_block_markers(t: Seq<char>)
    requires
        t.len() == 0 || t.last() == '\n',
    ensures
        occurs_at(t + MANAGED_BLOCK@, BEGIN_MARKER@, t.len() as int),
        occurs_at(t + MANAGED_BLOCK@, END_MARKER@, t.len() + 63int),
        forall|j: int| t.len() <= j < t.len() + 63 ==> !occurs_at(t + MANAGED_BLOCK@, END_MARKER@, j),
        MANAGED_BLOCK@.len() == 81,
        MANAGED_BLOCK@[80] == '\n',
        END_MARKER@.len() == 17,
        forall|j: int|
            0 <= j < t.len() && j + BEGIN_MARKER@.len() > t.len() - 1 ==> !occurs_at(
                t + MANAGED_BLOCK@,
                BEGIN_MARKER@,
                j,
            ),
{
    reveal_strlit("# ztk managed start\n[ztk]\nenabled = true\nsession_ttl_secs = 30\n# ztk managed end\n");
    reveal_strlit("# ztk managed start");
    reveal_strlit("# ztk managed end");
    let a = t + MANAGED_BLOCK@;
    let n = t.len() as int;
    let b = MANAGED_BLOCK@;
    assert(a.subrange(n, n + 19) =~= BEGIN_MARKER@);
    assert(a.subrange(n + 63, n + 80) =~= END_MARKER@);
    assert forall|j: int| n <= j < n + 63 implies !occurs_at(a, END_MARKER@, j) by {
        if j == n {
            assert(a.subrange(j, j + 17)[14] != END_MARKER@[14]);
        } else {
            assert(a[j] == b[j - n]);
            assert(b[j - n] != '#');
            assert(a.subrange(j, j + 17)[0] != END_MARKER@[0]);
        }
    }
    assert forall|j: int|
        0 <= j < n && j + BEGIN_MARKER@.len() > n - 1 implies !occurs_at(a, BEGIN_MARKER@, j) by {
        assert(a[n - 1] == '\n');
        assert(BEGIN_MARKER@[n - 1 - j] != '\n');
        assert(a.subrange(j, j + 19)[n - 1 - j] != BEGIN_MARKER@[n - 1 - j]);
    }
}

/// Adding the block is idempotent: a file to which the block was added holds
/// it, and a second addition leaves the file as it is.
pub proof fn law_add_idempotent(c: Seq<char>)
    ensures
        added_block(c) matches Some(a) ==> holds_block(a) && added_block(a) is None,
{
    if let Some(a) = added_block(c) {
        lemma_block_markers(terminated(c));
    }
}

/// Removing the block undoes adding it: a file with no begin marker and no
/// three newlines in a row gets back the text it had, ended by a newline.
pub proof fn law_remove_undoes_add(c: Seq<char>)
    requires
        !contains(c, BEGIN_MARKER@),
        !contains(c, TRIPLE_NEWLINE@),
    ensures
        added_block(c) == Some(terminated(c) + MANAGED_BLOCK@),
        removed_block(terminated(c) + MANAGED_BLOCK@) == Some(terminated(c)),
{
    let t = terminated(c);
    let a = t + MANAGED_BLOCK@;
    let n = t.len() as int;
    reveal_strlit("# ztk managed start");
    reveal_strlit("\n\n\n");
    lemma_block_markers(t);
    // no begin marker before the block
    assert forall|j: int| 0 <= j < n implies !occurs_at(a, BEGIN_MARKER@, j) by {
        if j + BEGIN_MARKER@.len() <= n - 1 || (t == c && j + BEGIN_MARKER@.len() <= n) {
            if occurs_at(a, BEGIN_MARKER@, j) {
                assert(c.subrange(j, j + 19) =~= a.subrange(j, j + 19));
                assert(occurs_at(c, BEGIN_MARKER@, j));
            }
        }
    }
    lemma_find_from_first(a, BEGIN_MARKER@, 0, n);
    lemma_find_from_first(a, END_MARKER@, n, n + 63);
    assert(a.subrange(n + 80, a.len() as int) =~= seq!['\n']);
    assert(drop_leading_newline(seq!['\n']) =~= Seq::<char>::empty());
    assert(a.subrange(0, n) + Seq::<char>::empty() =~= t);
    // the text ended by a newline has no three newlines in a row
    assert forall|j: int| !occurs_at(t, TRIPLE_NEWLINE@, j) by {
        if occurs_at(t, TRIPLE_NEWLINE@, j) {
            if t == c {
            } else {
                if j + 3 <= c.len() {
                    assert(c.subrange(j, j + 3) =~= t.subrange(j, j + 3));
                    assert(occurs_at(c, TRIPLE_NEWLINE@, j));
                } else {
                    assert(t.subrange(j, j + 3)[1] == c.last());
                }
            }
        }
    }
    lemma_collapse_identity(t);
}

/// Adding the block leaves a file as it is exactly when the file holds both
/// markers; any other file gets the block after its text, with a newline
/// put between when the text does not end with one.
pub proof fn law_add_skips_only_complete_blocks(c: Seq<char>)
    ensures
        added_block(c) is None <==> contains(c, BEGIN_MARKER@) && contains(c, END_MARKER@),
        !(contains(c, BEGIN_MARKER@) && contains(c, END_MARKER@)) ==> added_block(c) == Some(
            c + (if c.len() > 0 && c[c.len() - 1] != '\n' {
                seq!['\n']
            } else {
                Seq::<char>::empty()
            }) + MANAGED_BLOCK@,
        ),
{
    if c.len() > 0 && c[c.len() - 1] != '\n' {
        assert(c.push('\n') =~= c + seq!['\n']);
    } else {
        assert(c + Seq::<char>::empty() =~= c);
    }
}

} // verus!
