use tokensawe::hooks::{has_managed_block, with_managed_block, without_managed_block, MANAGED_BLOCK};

#[test]
fn add_managed_block_is_idempotent() {
    let content = "name = \"demo\"\n";
    let first = with_managed_block(content).unwrap();
    assert_eq!(first, format!("{content}{MANAGED_BLOCK}"));
    assert!(has_managed_block(&first));
    assert_eq!(with_managed_block(&first), None);
    assert_eq!(first.matches("# ztk managed start").count(), 1);
    assert!(first.contains("[ztk]"));
}

#[test]
fn add_terminates_the_last_line() {
    assert_eq!(with_managed_block("x").unwrap(), format!("x\n{MANAGED_BLOCK}"));
    assert_eq!(with_managed_block("").unwrap(), MANAGED_BLOCK);
}

#[test]
fn add_needs_both_markers_to_skip() {
    let only_begin = "# ztk managed start\n";
    assert!(!has_managed_block(only_begin));
    assert!(with_managed_block(only_begin).is_some());
}

#[test]
fn remove_managed_block_preserves_other_content() {
    let content = format!("before\n{MANAGED_BLOCK}after\n");
    assert_eq!(without_managed_block(&content).unwrap(), "before\nafter\n");
}

#[test]
fn rm_command_removes_only_managed_block() {
    let content = "before = true\n# ztk managed start\n[ztk]\nenabled = true\nsession_ttl_secs = 30\n# ztk managed end\nafter = true\n";
    assert_eq!(without_managed_block(content).unwrap(), "before = true\nafter = true\n");
}

#[test]
fn remove_without_markers_changes_nothing() {
    assert_eq!(without_managed_block("plain\n"), None);
    assert_eq!(without_managed_block("# ztk managed start\nno end\n"), None);
    assert_eq!(without_managed_block("# ztk managed end\n# ztk managed start\n"), None);
}

#[test]
fn remove_shortens_blank_runs() {
    let content = format!("a\n\n{MANAGED_BLOCK}\n\nb");
    assert_eq!(without_managed_block(&content).unwrap(), "a\n\nb");
    let content = format!("a\n\n\n\nb\n{MANAGED_BLOCK}");
    assert_eq!(without_managed_block(&content).unwrap(), "a\n\nb\n");
}

#[test]
fn remove_undoes_add() {
    for original in ["", "x = 1\n", "x = 1", "a\n\nb\n"] {
        let added = with_managed_block(original).unwrap();
        let removed = without_managed_block(&added).unwrap();
        let expected = if original.is_empty() || original.ends_with('\n') {
            original.to_string()
        } else {
            format!("{original}\n")
        };
        assert_eq!(removed, expected);
    }
}

#[test]
fn add_command_updates_file_and_is_idempotent() {
    let content = "name = \"demo\"\n";
    let updated = with_managed_block(content).unwrap();
    assert!(updated.contains("# ztk managed start"));
    assert!(updated.contains("[ztk]"));
    assert!(updated.starts_with(content));
    assert_eq!(with_managed_block(&updated), None);
    assert_eq!(updated.matches("# ztk managed start").count(), 1);
}
