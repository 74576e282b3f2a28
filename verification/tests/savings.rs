use tokensawe::savings::{
    command_key_of, log_record, parse_log_line, percent, savings_percent, summarize_log,
};

#[test]
fn savings_are_whole_percent() {
    assert_eq!(savings_percent(100, 25), 75);
    assert_eq!(savings_percent(3, 2), 33);
    assert_eq!(savings_percent(10, 20), 0);
    assert_eq!(savings_percent(0, 0), 0);
    assert_eq!(percent(1, 0), 0);
    assert_eq!(percent(1, 3), 33);
}

#[test]
fn log_record_format() {
    assert_eq!(
        log_record(1700000000, "git diff", 200, 50, 0),
        "1700000000\tgit diff\t200\t50\t75%\texit=0\n"
    );
    assert_eq!(log_record(5, "ls", 10, 20, 255), "5\tls\t10\t20\t0%\texit=255\n");
}

#[test]
fn log_record_reads_back() {
    let line = log_record(1700000000, "cargo test --all", 1234, 56, 1);
    let entry = parse_log_line(line.trim_end_matches('\n')).unwrap();
    assert_eq!(entry.command, "cargo test --all");
    assert_eq!(entry.original, 1234);
    assert_eq!(entry.filtered, 56);
}

#[test]
fn short_lines_record_nothing() {
    assert!(parse_log_line("1\tls\t2\t3\t4%").is_none());
    assert!(parse_log_line("").is_none());
}

#[test]
fn unreadable_numbers_count_as_zero() {
    let entry = parse_log_line("t\tcmd\tx\t+7\ty\tz").unwrap();
    assert_eq!(entry.command, "cmd");
    assert_eq!(entry.original, 0);
    assert_eq!(entry.filtered, 7);
    let entry = parse_log_line("t\tcmd\t-3\t99999999999999999999999\ty\tz").unwrap();
    assert_eq!(entry.original, 0);
    assert_eq!(entry.filtered, 0);
}

#[test]
fn command_keys_are_two_words() {
    assert_eq!(command_key_of("cargo  test --all"), "cargo test");
    assert_eq!(command_key_of("ls"), "ls");
    assert_eq!(command_key_of("  git\tdiff HEAD~1 "), "git diff");
    assert_eq!(command_key_of("   "), "");
}

#[test]
fn log_summary_groups_and_orders() {
    let contents = "1\tgit diff HEAD\t100\t10\t90%\texit=0\n1\tls -la\t50\t40\t20%\texit=0\n2\tgit diff\t300\t100\t66%\texit=1\nbad line\n";
    let s = summarize_log(contents).unwrap();
    assert_eq!(s.total_original, 450);
    assert_eq!(s.total_filtered, 150);
    assert_eq!(s.commands, 3);
    assert_eq!(s.rows.len(), 2);
    assert_eq!(s.rows[0].key, "git diff");
    assert_eq!(s.rows[0].count, 2);
    assert_eq!(s.rows[0].original, 400);
    assert_eq!(s.rows[0].filtered, 110);
    assert_eq!(s.rows[0].saved(), 290);
    assert_eq!(s.rows[1].key, "ls -la");
    assert_eq!(s.rows[1].saved(), 10);
}

#[test]
fn log_summary_orders_by_saved_bytes() {
    let contents = "1\ta\t10\t9\t10%\texit=0\n1\tb\t100\t0\t100%\texit=0\n1\tc\t50\t0\t100%\texit=0\n";
    let s = summarize_log(contents).unwrap();
    let keys: Vec<&str> = s.rows.iter().map(|r| r.key.as_str()).collect();
    assert_eq!(keys, vec!["b", "c", "a"]);
}

#[test]
fn empty_log_summary() {
    let s = summarize_log("").unwrap();
    assert_eq!(s.total_original, 0);
    assert_eq!(s.commands, 0);
    assert!(s.rows.is_empty());
}

#[test]
fn log_summary_overflow_is_refused() {
    let max = usize::MAX;
    let contents = format!("1\ta\t{max}\t0\t0%\texit=0\n1\ta\t1\t0\t0%\texit=0\n");
    assert!(summarize_log(&contents).is_none());
}

#[test]
fn appended_record_is_read_back_by_the_summary() {
    let mut log = String::new();
    log.push_str(&log_record(1, "git status", 300, 100, 0));
    log.push_str(&log_record(2, "git status -s", 200, 200, 0));
    let s = summarize_log(&log).unwrap();
    assert_eq!(s.commands, 2);
    assert_eq!(s.rows.len(), 1);
    assert_eq!(s.rows[0].key, "git status");
    assert_eq!(s.rows[0].original, 500);
    assert_eq!(s.rows[0].filtered, 300);
}
