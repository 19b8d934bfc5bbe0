use mdlive::watcher::{handle_file_event, EventPath, FileEventKind, RenameMode, WatchAction};

fn p(path: &str, is_file: bool, exists: bool) -> EventPath {
    EventPath { path: path.to_string(), is_file, exists }
}

fn show(actions: &[WatchAction]) -> Vec<String> {
    actions
        .iter()
        .map(|a| match a {
            WatchAction::MarkdownChanged(p) => format!("md:{p}"),
            WatchAction::Reload => "reload".to_string(),
        })
        .collect()
}

#[test]
fn create_and_modify_of_markdown_are_taken_in() {
    let paths = vec![p("/w/a.md", true, true), p("/w/b.txt", true, true)];
    assert_eq!(show(&handle_file_event(FileEventKind::Create, &paths)), vec!["md:/w/a.md"]);
    assert_eq!(show(&handle_file_event(FileEventKind::ModifyData, &paths)), vec!["md:/w/a.md"]);
    assert!(handle_file_event(FileEventKind::ModifyOther, &paths).is_empty());
}

#[test]
fn markdown_removal_is_ignored_image_changes_reload() {
    let paths = vec![p("/w/a.md", false, false), p("/w/pic.png", true, true), p("/w/gone.png", false, false)];
    assert_eq!(show(&handle_file_event(FileEventKind::Remove, &paths)), vec!["reload", "reload"]);
    assert_eq!(show(&handle_file_event(FileEventKind::ModifyOther, &paths)), vec!["reload"]);
    assert!(handle_file_event(FileEventKind::Other, &paths).is_empty());
}

#[test]
fn renames_count_for_the_new_path() {
    let both = vec![p("/w/a.md~", true, true), p("/w/a.md", true, true)];
    assert_eq!(show(&handle_file_event(FileEventKind::ModifyName(RenameMode::Both), &both)), vec!["md:/w/a.md"]);
    let to = vec![p("/w/b.md", true, true)];
    assert_eq!(show(&handle_file_event(FileEventKind::ModifyName(RenameMode::To), &to)), vec!["md:/w/b.md"]);
    assert!(handle_file_event(FileEventKind::ModifyName(RenameMode::From), &to).is_empty());
    let gone = vec![p("/w/b.md", false, false)];
    assert!(handle_file_event(FileEventKind::ModifyName(RenameMode::Any), &gone).is_empty());
    assert_eq!(show(&handle_file_event(FileEventKind::ModifyName(RenameMode::Any), &to)), vec!["md:/w/b.md"]);
    let not_md = vec![p("/w/b.txt", true, true)];
    assert!(handle_file_event(FileEventKind::ModifyName(RenameMode::To), &not_md).is_empty());
}

#[test]
fn events_inside_mdlive_are_ignored() {
    let paths = vec![p("/w/.mdlive/history/a.md/1.md", true, true), p("/w/a.md", true, true)];
    assert!(handle_file_event(FileEventKind::Create, &paths).is_empty());
}

#[test]
fn removed_image_reloads_but_missing_created_image_does_not() {
    let gone = vec![p("/w/img/logo.svg", false, false)];
    assert_eq!(show(&handle_file_event(FileEventKind::Remove, &gone)), vec!["reload"]);
    assert!(handle_file_event(FileEventKind::Create, &gone).is_empty());
    let here = vec![p("/w/img/logo.svg", true, true)];
    assert_eq!(show(&handle_file_event(FileEventKind::Create, &here)), vec!["reload"]);
}
