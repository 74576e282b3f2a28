use tokensawe::filters::{
    apply_filters, cap_output, dedupe_repeated_lines, exit_code_byte, printed_output,
    summarize_code, summarize_diff, summarize_lines, summarize_test_output, MAX_OUTPUT,
};

fn numbered(prefix: &str, n: usize) -> String {
    let mut s = String::new();
    for i in 0..n {
        s.push_str(&format!("{prefix}{i}\n"));
    }
    s
}

#[test]
fn diff_summary_keeps_hunks() {
    let input = "diff --git a b\n--- a\n+++ b\n@@ -1 +1 @@\n-old\n+new\n";
    let out = summarize_diff(input);
    assert!(out.contains("+new"));
    assert!(!out.contains("diff --git"));
}

#[test]
fn diff_summary_exact() {
    let input = "diff --git a b\nindex 1..2\n--- a\n+++ b\n@@ -1 +1 @@\n context\n-old\n+new";
    assert_eq!(summarize_diff(input), "--- a\n+++ b\n@@ -1 +1 @@\n-old\n+new\n");
}

#[test]
fn diff_summary_without_changes_is_unchanged() {
    let input = "nothing to see\nhere\n";
    assert_eq!(summarize_diff(input), input);
}

#[test]
fn summarize_lines_cuts_long_listings() {
    let input = numbered("f", 25);
    let mut expected = String::from("[directory entries: 25 total, showing first 20]\n");
    expected.push_str(&numbered("f", 20));
    assert_eq!(summarize_lines(&input, 20, "directory entries"), expected);
}

#[test]
fn summarize_lines_keeps_short_listings() {
    let input = "a\nb\r\nc";
    assert_eq!(summarize_lines(input, 3, "matches"), input);
    assert_eq!(summarize_lines(input, 2, "matches"), "[matches: 3 total, showing first 2]\na\nb\n");
}

#[test]
fn short_output_passes_through() {
    assert_eq!(apply_filters("ls", "a\nb\n"), "a\nb\n");
    let thirty_wide: String = std::iter::repeat('é').take(30).collect();
    assert_eq!(apply_filters("echo", &thirty_wide), thirty_wide);
}

#[test]
fn byte_length_decides_what_is_short() {
    // 41 two-byte characters are 82 bytes: long enough to be filtered.
    let wide: String = std::iter::repeat('é').take(41).collect();
    let filtered = apply_filters("echo", &wide);
    assert_eq!(filtered, format!("{wide}\n"));
}

#[test]
fn ls_output_is_summarized() {
    let input = numbered("entry", 25);
    let out = apply_filters("ls -la", &input);
    assert!(out.starts_with("[directory entries: 25 total, showing first 20]\n"));
    assert_eq!(out.lines().count(), 21);
}

#[test]
fn grep_output_is_summarized() {
    let input = numbered("match", 45);
    let out = apply_filters("grep -r foo", &input);
    assert!(out.starts_with("[matches: 45 total, showing first 40]\n"));
    let out = apply_filters("find .", &input);
    assert!(out.starts_with("[matches: 45 total, showing first 40]\n"));
}

#[test]
fn test_output_with_failures() {
    let input = "running 2 tests\ntest a ... ok\ntest b ... FAILED\nfailures:\n\ntest result: FAILED. 1 passed; 1 failed\n";
    let expected = "[test failures]\ntest b ... FAILED\nfailures:\ntest result: FAILED. 1 passed; 1 failed\ntest result: FAILED. 1 passed; 1 failed\n";
    assert_eq!(summarize_test_output(input), expected);
    assert_eq!(apply_filters("cargo test", input), expected);
}

#[test]
fn test_output_without_failures() {
    let input = "collecting ...\n  ==== 3 passed in 0.12s ====  \n";
    assert_eq!(summarize_test_output(input), "==== 3 passed in 0.12s ====\n");
    assert_eq!(summarize_test_output("all good\n"), "[tests passed]\n");
}

#[test]
fn test_output_keeps_twenty_failures() {
    let input = numbered("error ", 25);
    let mut expected = String::from("[test failures]\n");
    expected.push_str(&numbered("error ", 20));
    assert_eq!(summarize_test_output(&input), expected);
}

#[test]
fn code_summary_keeps_items() {
    let input = "use std::io;\n\nfn main() {\n    let x = 1;\n}\n  pub fn helper() {}\nstruct S;\n";
    assert_eq!(summarize_code(input), "use std::io;\nfn main() {\n  pub fn helper() {}\nstruct S;\n");
}

#[test]
fn code_summary_falls_back_to_preview() {
    let input = numbered("line ", 90);
    let out = summarize_code(&input);
    assert!(out.starts_with("[file preview: 90 total, showing first 80]\nline 0\n"));
    let short = "just text\n";
    assert_eq!(summarize_code(short), short);
}

#[test]
fn dedupe_folds_runs() {
    let input = "a\na\na\nb\n\n\nc";
    assert_eq!(
        dedupe_repeated_lines(input),
        "[previous line repeated 3x]\na\nb\n[previous line repeated 2x]\nc\n"
    );
}

#[test]
fn dedupe_edge_cases() {
    assert_eq!(dedupe_repeated_lines("\n\nx"), "[previous line repeated 2x]\nx\n");
    assert_eq!(dedupe_repeated_lines("\n\n"), "[previous line repeated 2x]\n");
    assert_eq!(dedupe_repeated_lines(""), "");
    assert_eq!(dedupe_repeated_lines("\n"), "\n");
    assert_eq!(dedupe_repeated_lines("x\r\nx\n"), "[previous line repeated 2x]\nx\n");
}

#[test]
fn other_commands_are_deduplicated() {
    let line = "the same long line of output, repeated";
    let input = format!("{line}\n{line}\n{line}\n");
    assert_eq!(apply_filters("make", &input), format!("[previous line repeated 3x]\n{line}\n"));
}

#[test]
fn cat_and_git_diff_are_routed() {
    let code = "fn a() {}\n// a comment that is long enough to pass the threshold of eighty bytes\n";
    assert_eq!(apply_filters("cat src/lib.rs", code), "fn a() {}\n");
    let diff = "diff --git a/x b/x\n--- a/x\n+++ b/x\n@@ -1 +1 @@\n-the old line of the file\n+the new line of the file\n";
    assert_eq!(
        apply_filters("git diff", diff),
        "--- a/x\n+++ b/x\n@@ -1 +1 @@\n-the old line of the file\n+the new line of the file\n"
    );
}

#[test]
fn oversize_output_is_replaced() {
    assert_eq!(cap_output(String::from("small")), "small");
    let big = "a".repeat(MAX_OUTPUT + 1);
    assert_eq!(cap_output(big), "[ztk: command output exceeded 16MB cap, raw output suppressed]\n");
    let exact = "a".repeat(MAX_OUTPUT);
    assert_eq!(cap_output(exact.clone()), exact);
}

#[test]
fn exit_codes_are_held_to_a_byte() {
    assert_eq!(exit_code_byte(Some(0)), 0);
    assert_eq!(exit_code_byte(Some(3)), 3);
    assert_eq!(exit_code_byte(Some(300)), 255);
    assert_eq!(exit_code_byte(Some(-1)), 0);
    assert_eq!(exit_code_byte(None), 1);
}

#[test]
fn printed_output_ends_with_newline() {
    assert_eq!(printed_output("abc"), "abc\n");
    assert_eq!(printed_output("abc\n"), "abc\n");
    assert_eq!(printed_output(""), "\n");
}
