use mdlive::cli::{handoff_body, handoff_request, handoff_succeeded, launch_agent_plist, pid_lines};
use mdlive::desktop::{
    cli_destination, escape_js_single_quoted, get_server_url, menu_command, recent_menu_entries,
    shorten_path_with, workspace_switch_script, MenuCommand, MenuEntry,
};
use mdlive::host::{browsable_host, format_host, next_port_after_in_use, PortError};
use mdlive::static_files::{check_etag, check_static_file, static_etag};
use mdlive::workspace::{browse_entries, expand_tilde, mode_name, plan_served_path, plan_workspace, EntryKind, RawEntry, TargetKind};
use mdlive::RecentWorkspace;

#[test]
fn test_format_host() {
    assert_eq!(format_host("127.0.0.1", 3000, false), "127.0.0.1:3000");
    assert_eq!(format_host("192.168.1.1", 8080, false), "192.168.1.1:8080");
    assert_eq!(format_host("localhost", 3000, false), "localhost:3000");
    assert_eq!(format_host("example.com", 80, false), "example.com:80");
    assert_eq!(format_host("::1", 3000, true), "[::1]:3000");
    assert_eq!(format_host("2001:db8::1", 8080, true), "[2001:db8::1]:8080");
}

#[test]
fn test_browsable_host() {
    assert_eq!(browsable_host("0.0.0.0", Some(vec![0, 0, 0, 0]), None), "127.0.0.1");
    assert_eq!(browsable_host("::", None, Some(vec![0; 8])), "::1");
    assert_eq!(browsable_host("127.0.0.1", Some(vec![127, 0, 0, 1]), None), "127.0.0.1");
    assert_eq!(browsable_host("::1", None, Some(vec![0, 0, 0, 0, 0, 0, 0, 1])), "::1");
    assert_eq!(browsable_host("192.168.1.1", Some(vec![192, 168, 1, 1]), None), "192.168.1.1");
    assert_eq!(browsable_host("localhost", None, None), "localhost");
    assert_eq!(browsable_host("example.com", None, None), "example.com");
}

#[test]
fn port_search_stays_in_window() {
    assert_eq!(next_port_after_in_use(3000, 3000), Ok(3001));
    assert_eq!(next_port_after_in_use(3000, 3098), Ok(3099));
    assert_eq!(next_port_after_in_use(3000, 3099), Err(PortError::NoneFree { start: 3000, last: 3099 }));
    assert_eq!(next_port_after_in_use(65535, 65535), Err(PortError::RangeExhausted));
    assert_eq!(PortError::NoneFree { start: 3000, last: 3099 }.message(), "no available port found after trying 3000-3099");
    assert_eq!(PortError::RangeExhausted.message(), "port range exhausted");
}

#[test]
fn etags_are_matched_by_any_listed_tag() {
    let tag = static_etag();
    assert_eq!(tag, "\"2.0.0\"");
    assert!(check_etag(Some("\"2.0.0\"")));
    assert!(check_etag(Some("\"x\", \t\"2.0.0\" ")));
    assert!(!check_etag(Some("\"different-etag\"")));
    assert!(!check_etag(Some("\"2.0.0")));
    assert!(!check_etag(None));
    assert_eq!(check_static_file("/w", Some("/w/img/a.png".to_string())).unwrap(), "/w/img/a.png");
    assert_eq!(check_static_file("/w", Some("/etc/x.png".to_string())).unwrap_err().status, 403);
    assert_eq!(check_static_file("/w", None).unwrap_err().status, 404);
}

#[test]
fn workspace_paths_and_plans() {
    assert_eq!(expand_tilde("~/notes", Some("/home/u".to_string())), "/home/u/notes");
    assert_eq!(expand_tilde("~", Some("/home/u".to_string())), "/home/u/");
    assert_eq!(expand_tilde("~//abs", Some("/home/u".to_string())), "/abs");
    assert_eq!(expand_tilde("~/notes", None), "~/notes");
    assert_eq!(expand_tilde("/x", Some("/home/u".to_string())), "/x");
    let f = plan_workspace(TargetKind::File, "/d/a.md".to_string(), "/d".to_string(), Ok(vec![])).unwrap();
    assert_eq!((f.base_dir.as_str(), f.files.len(), f.directory_mode), ("/d", 1, false));
    let d = plan_workspace(TargetKind::Dir, "/d".to_string(), "/".to_string(), Ok(vec!["/d/a.md".to_string()])).unwrap();
    assert!(d.directory_mode);
    let e = plan_workspace(TargetKind::Dir, "/d".to_string(), "/".to_string(), Ok(vec![])).unwrap_err();
    assert!(e.message.contains("no supported files"));
    let e = plan_workspace(TargetKind::Dir, "/d".to_string(), "/".to_string(), Err("denied".to_string())).unwrap_err();
    assert_eq!(e.message, "failed to scan directory: denied");
    let e = plan_workspace(TargetKind::Missing, "/nope".to_string(), "/".to_string(), Ok(vec![])).unwrap_err();
    assert_eq!((e.status, e.message.as_str()), (400, "path does not exist"));
    assert_eq!(mode_name(true), "directory");
    assert_eq!(mode_name(false), "file");
}

#[test]
fn browse_lists_directories_first_and_hides_dotfiles() {
    let e = |n: &str, k: EntryKind| RawEntry { name: n.to_string(), path: format!("/d/{n}"), kind: k };
    let listed = browse_entries(vec![
        e("b.md", EntryKind::File),
        e("Zeta", EntryKind::Dir),
        e(".git", EntryKind::Dir),
        e("A.txt", EntryKind::File),
        e("alpha", EntryKind::Dir),
        e("main.rs", EntryKind::File),
        e("sock", EntryKind::Other),
    ]);
    let names: Vec<(String, bool)> = listed.into_iter().map(|b| (b.name, b.is_dir)).collect();
    assert_eq!(
        names,
        vec![
            ("alpha".to_string(), true),
            ("Zeta".to_string(), true),
            ("A.txt".to_string(), false),
            ("b.md".to_string(), false)
        ]
    );
}

#[test]
fn desktop_menu_and_scripts() {
    assert_eq!(shorten_path_with("/Users/me/notes", "/Users/me"), "~/notes");
    assert_eq!(shorten_path_with("/other/notes", "/Users/me"), "/other/notes");
    assert_eq!(shorten_path_with("/x", ""), "/x");
    assert_eq!(escape_js_single_quoted("a'b\\c"), "a\\'b\\\\c");
    let script = workspace_switch_script("it's");
    assert!(script.contains("body:JSON.stringify({path:'it\\'s'})"));
    assert!(script.starts_with("function __sw(){fetch('/api/workspace/switch',"));
    assert_eq!(get_server_url(Some(3005)), "http://127.0.0.1:3005");
    assert_eq!(get_server_url(None), "http://127.0.0.1:3000");
    let r = |p: &str, m: &str| RecentWorkspace { path: p.to_string(), mode: m.to_string(), last_opened: 0 };
    let menu = recent_menu_entries(&vec![r("/h/d", "directory"), r("/h/f.md", "file")], "/h");
    let shown: Vec<String> = menu
        .iter()
        .map(|m| match m {
            MenuEntry::Item { label, id } => format!("{label}|{id}"),
            MenuEntry::Separator => "-".to_string(),
        })
        .collect();
    assert_eq!(shown, vec!["~/f.md|recent:/h/f.md", "-", "~/d|recent:/h/d", "-", "Clear Recent|clear_recent"]);
    assert!(recent_menu_entries(&vec![], "/h").is_empty());
    let only = recent_menu_entries(&vec![r("/h/d", "directory")], "/h");
    assert_eq!(only.len(), 3);
    assert!(matches!(menu_command("open_file"), MenuCommand::OpenFile));
    assert!(matches!(menu_command("open_folder"), MenuCommand::OpenFolder));
    assert!(matches!(menu_command("clear_recent"), MenuCommand::ClearRecent));
    assert!(matches!(menu_command("other"), MenuCommand::Nothing));
    match menu_command("recent:/h/d") {
        MenuCommand::OpenRecent(p) => assert_eq!(p, "/h/d"),
        _ => panic!("expected a recent entry"),
    }
    assert_eq!(cli_destination(true, true), "/opt/homebrew/bin/mdlive");
    assert_eq!(cli_destination(false, false), "/usr/local/bin/mdlive");
}

#[test]
fn handoff_requests_and_launch_agent() {
    assert_eq!(handoff_body("/a \"b\""), "{\"path\":\"/a \\\"b\\\"\"}");
    let req = handoff_request("/é", 3000);
    assert!(req.starts_with("POST /api/workspace/switch HTTP/1.1\r\nHost: 127.0.0.1:3000\r\n"));
    assert!(req.contains("Content-Length: 14\r\n"));
    assert!(req.ends_with("\r\n\r\n{\"path\":\"/é\"}"));
    assert!(handoff_succeeded("HTTP/1.1 200 OK\r\n\r\n{\"success\":true}"));
    assert!(!handoff_succeeded("HTTP/1.1 400\r\n\r\n{\"success\":false}"));
    let plist = launch_agent_plist("/usr/bin/mdlive", "127.0.0.1", 3000);
    assert!(plist.contains("<string>/usr/bin/mdlive</string>\n        <string>-H</string>\n        <string>127.0.0.1</string>"));
    assert!(plist.contains("<string>3000</string>"));
    assert_eq!(pid_lines("{\n\t\"PID\" = 42;\r\n\t\"Label\" = x;\n  pid here  "), vec!["\"PID\" = 42;", "pid here"]);
    assert!(pid_lines("").is_empty());
}

#[test]
fn handoff_body_escapes_the_path_as_json() {
    assert_eq!(handoff_body("a\"b\\c\n\t\u{1}é"), "{\"path\":\"a\\\"b\\\\c\\n\\t\\u0001é\"}");
}

#[test]
fn browsable_host_is_a_fixed_point() {
    let first = browsable_host("0.0.0.0", Some(vec![0, 0, 0, 0]), None);
    assert_eq!(browsable_host(&first, Some(vec![127, 0, 0, 1]), None), first);
    let first6 = browsable_host("::", None, Some(vec![0; 8]));
    assert_eq!(browsable_host(&first6, None, Some(vec![0, 0, 0, 0, 0, 0, 0, 1])), first6);
    assert_eq!(browsable_host("example.com", None, None), "example.com");
}

#[test]
fn command_line_paths_are_planned() {
    let p = plan_served_path(TargetKind::File, "/w/a.md".to_string(), "/w".to_string(), Ok(vec![])).unwrap();
    assert_eq!((p.base_dir.as_str(), p.files, p.directory_mode), ("/w", vec!["/w/a.md".to_string()], false));
    let p = plan_served_path(TargetKind::Dir, "/w".to_string(), String::new(), Ok(vec!["/w/x.md".to_string()])).unwrap();
    assert_eq!((p.base_dir.as_str(), p.directory_mode), ("/w", true));
    assert_eq!(
        plan_served_path(TargetKind::Dir, "/w".to_string(), String::new(), Ok(vec![])).unwrap_err(),
        "No supported files found in directory (.md, .txt, .json)"
    );
    assert_eq!(
        plan_served_path(TargetKind::Dir, "/w".to_string(), String::new(), Err("denied".to_string())).unwrap_err(),
        "denied"
    );
    assert_eq!(
        plan_served_path(TargetKind::Missing, "/nope".to_string(), String::new(), Ok(vec![])).unwrap_err(),
        "Path must be a file or directory"
    );
}
