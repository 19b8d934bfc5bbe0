use mdlive::api::{
    restore_source, restored_content, snapshot_files,
    check_create, check_move, check_tracked_file, default_new_file_content, history_entry, io_error, not_tracked_error, prune_snapshots,
    snapshot_path, snapshot_preview, sort_history_newest_first, validate_existing_path,
    validate_new_path, HistoryEntry,
};

#[test]
fn existing_paths_are_checked() {
    let e = validate_existing_path("/w", "../etc/passwd", Some("/etc/passwd".to_string())).unwrap_err();
    assert_eq!((e.status, e.message.as_str()), (403, "path traversal not allowed"));
    let e = validate_existing_path("/w", "missing.md", None).unwrap_err();
    assert_eq!((e.status, e.message.as_str()), (404, "file not found"));
    let e = validate_existing_path("/w", "link.md", Some("/elsewhere/x.md".to_string())).unwrap_err();
    assert_eq!((e.status, e.message.as_str()), (403, "path outside base directory"));
    assert_eq!(validate_existing_path("/w", "a.md", Some("/w/a.md".to_string())).unwrap(), "/w/a.md");
}

#[test]
fn new_paths_are_checked() {
    let e = validate_new_path("/w", "a/../../b.md").unwrap_err();
    assert_eq!(e.status, 403);
    let e = validate_new_path("/w", "notes.txt").unwrap_err();
    assert_eq!((e.status, e.message.as_str()), (400, "only .md and .markdown extensions allowed"));
    assert_eq!(validate_new_path("/w", "archive/test1.md").unwrap(), "/w/archive/test1.md");
    assert_eq!(not_tracked_error().status, 404);
    let io = io_error("failed to delete", "denied");
    assert_eq!((io.status, io.message.as_str()), (500, "failed to delete: denied"));
}

#[test]
fn new_file_content_and_snapshot_paths() {
    assert_eq!(default_new_file_content("/w/docs/plan.md"), "# plan\n");
    assert_eq!(default_new_file_content("/"), "# new\n");
    assert_eq!(snapshot_path("/w/.mdlive", "docs/a.md", "1700000000"), "/w/.mdlive/history/docs/a.md/1700000000.md");
}

#[test]
fn history_entries_and_previews() {
    let e = history_entry("/h/a.md/1700000000.md", "# Title\r\nbody").unwrap();
    assert_eq!(e.timestamp, "1700000000");
    assert_eq!(e.preview, "# Title");
    assert!(history_entry("/h/a.md/1700000000.txt", "x").is_none());
    assert!(history_entry("/h/a.md/1700000000.MD", "x").is_none());
    assert_eq!(snapshot_preview(""), "");
    assert_eq!(snapshot_preview("no newline\r"), "no newline\r");
    let long: String = "x".repeat(100);
    assert_eq!(snapshot_preview(&long).len(), 80);
}

#[test]
fn history_is_listed_newest_first() {
    let mk = |t: &str, p: &str| HistoryEntry { timestamp: t.to_string(), preview: p.to_string() };
    let sorted = sort_history_newest_first(vec![mk("100", "a"), mk("300", "b"), mk("200", "c"), mk("300", "d")]);
    let ts: Vec<(String, String)> = sorted.into_iter().map(|e| (e.timestamp, e.preview)).collect();
    assert_eq!(
        ts,
        vec![
            ("300".to_string(), "b".to_string()),
            ("300".to_string(), "d".to_string()),
            ("200".to_string(), "c".to_string()),
            ("100".to_string(), "a".to_string())
        ]
    );
}

#[test]
fn pruning_keeps_the_newest_twenty() {
    let few: Vec<String> = (0..20).map(|i| format!("/h/{}.md", 1000 + i)).collect();
    assert!(prune_snapshots(&few).is_empty());
    let many: Vec<String> = (0..23).rev().map(|i| format!("/h/{}.md", 1000 + i)).collect();
    assert_eq!(prune_snapshots(&many), vec!["/h/1000.md", "/h/1001.md", "/h/1002.md"]);
}

#[test]
fn requests_on_tracked_files_are_checked_in_order() {
    let e = check_tracked_file("/w", "../x.md", None, false).unwrap_err();
    assert_eq!((e.status, e.message.as_str()), (403, "path traversal not allowed"));
    let e = check_tracked_file("/w", "x.md", None, true).unwrap_err();
    assert_eq!((e.status, e.message.as_str()), (404, "file not found"));
    let e = check_tracked_file("/w", "x.md", Some("/w/x.md".to_string()), false).unwrap_err();
    assert_eq!((e.status, e.message.as_str()), (404, "file not tracked"));
    assert_eq!(check_tracked_file("/w", "x.md", Some("/w/x.md".to_string()), true).unwrap(), "/w/x.md");
}

#[test]
fn moves_are_checked_in_order() {
    let ok = check_move("/w", "a.md", Some("/w/a.md".to_string()), "archive/a.md", true, false).unwrap();
    assert_eq!(ok, ("/w/a.md".to_string(), "/w/archive/a.md".to_string()));
    let e = check_move("/w", "a.md", None, "b.txt", false, true).unwrap_err();
    assert_eq!(e.status, 404);
    let e = check_move("/w", "a.md", Some("/w/a.md".to_string()), "b.txt", false, true).unwrap_err();
    assert_eq!((e.status, e.message.as_str()), (400, "only .md and .markdown extensions allowed"));
    let e = check_move("/w", "a.md", Some("/w/a.md".to_string()), "b.md", false, true).unwrap_err();
    assert_eq!((e.status, e.message.as_str()), (404, "file not tracked"));
    let e = check_move("/w", "a.md", Some("/w/a.md".to_string()), "b.md", true, true).unwrap_err();
    assert_eq!((e.status, e.message.as_str()), (409, "target already exists"));
}

#[test]
fn creations_are_checked_in_order() {
    assert_eq!(check_create("/w", "new.md", false).unwrap(), "/w/new.md");
    let e = check_create("/w", "new.md", true).unwrap_err();
    assert_eq!((e.status, e.message.as_str()), (409, "file already exists"));
    let e = check_create("/w", "../new.md", false).unwrap_err();
    assert_eq!(e.status, 403);
    let e = check_create("/w", "new.rs", false).unwrap_err();
    assert_eq!(e.status, 400);
}

#[test]
fn only_md_files_are_snapshots() {
    let listed = vec!["/h/2.md".to_string(), "/h/notes.txt".to_string(), "/h/1.md".to_string(), "/h/md".to_string()];
    assert_eq!(snapshot_files(&listed), vec!["/h/2.md".to_string(), "/h/1.md".to_string()]);
}

#[test]
fn restores_need_history_and_a_readable_version() {
    let e = restore_source(None, "a.md", "1700000000").unwrap_err();
    assert_eq!((e.status, e.message.as_str()), (404, "history not available"));
    assert_eq!(
        restore_source(Some("/w/.mdlive".to_string()), "a.md", "1700000000").unwrap(),
        "/w/.mdlive/history/a.md/1700000000.md"
    );
    let e = restored_content(None).unwrap_err();
    assert_eq!((e.status, e.message.as_str()), (404, "version not found"));
    assert_eq!(restored_content(Some("old text".to_string())).unwrap(), "old text");
}
