use mdlive::pages::{editor_page_context, has_mermaid, markdown_page_context, new_file_name, root_file, route_file, FileRoute};
use mdlive::state::{first_message, markdown_to_html, tracking_key, FileData, MarkdownState};
use mdlive::watcher::{change_step, ChangeStep};
use mdlive::ServerMessage;

#[test]
fn markdown_renders_gfm_raw_html_and_strips_front_matter() {
    let html = markdown_to_html("# Hello World\n\nThis is **bold** text.");
    assert!(html.contains("<h1>Hello World</h1>"));
    assert!(html.contains("<strong>bold</strong>"));
    let table = markdown_to_html("| Name | Age |\n|------|-----|\n| John | 30  |\n\n~~deleted text~~");
    assert!(table.contains("<table>"));
    assert!(table.contains("<td>John</td>"));
    assert!(table.contains("<del>deleted text</del>"));
    let raw = markdown_to_html("<div class=\"highlight\">\n<p>kept</p>\n</div>");
    assert!(raw.contains("<div class=\"highlight\">"));
    assert!(!raw.contains("&lt;div"));
    let front = markdown_to_html("---\ntitle: Test Post\nauthor: Name\n---\n\n# Test Post\n");
    assert!(!front.contains("title: Test Post"));
    assert!(front.contains("<h1>Test Post</h1>"));
    let toml = markdown_to_html("+++\ntitle = \"Test Post\"\n+++\n\n# Test Post\n");
    assert!(!toml.contains("title = \"Test Post\""));
}

#[test]
fn tracking_key_is_path_below_base() {
    assert_eq!(tracking_key("/w/docs/a.md", "/w"), "docs/a.md");
    assert_eq!(tracking_key("/w/a.md", "/w/"), "a.md");
    assert_eq!(tracking_key("/other/a.md", "/w"), "/other/a.md");
    assert_eq!(tracking_key("/wx/a.md", "/w"), "/wx/a.md");
}

#[test]
fn tracked_files_add_refresh_remove() {
    let mut s = MarkdownState::new("/w".to_string(), true);
    assert_eq!(s.mdlive_dir(), Some("/w/.mdlive".to_string()));
    assert!(s.show_navigation());
    assert!(s.add_tracked_file("b.md".to_string(), "/w/b.md".to_string(), 10, "# B"));
    assert!(s.add_tracked_file("a.md".to_string(), "/w/a.md".to_string(), 10, "# A"));
    assert!(!s.add_tracked_file("a.md".to_string(), "/w/a.md".to_string(), 99, "# Again"));
    assert_eq!(s.tracked_count(), 2);
    assert_eq!(s.get_sorted_filenames(), vec!["a.md".to_string(), "b.md".to_string()]);
    assert_eq!(root_file(&s), Some("a.md".to_string()));
    assert!(s.tracked_file("a.md").unwrap().html.contains("<h1>A</h1>"));
    assert!(!s.needs_refresh("a.md", 10));
    assert!(s.needs_refresh("a.md", 11));
    assert!(!s.needs_refresh("zzz.md", 11));
    s.update_file("a.md", 11, "# A2");
    let t = s.tracked_file("a.md").unwrap();
    assert!(t.html.contains("<h1>A2</h1>"));
    assert_eq!(t.last_modified, 11);
    assert_eq!(t.path, "/w/a.md");
    assert!(s.remove_tracked_file("a.md"));
    assert!(!s.remove_tracked_file("a.md"));
    assert!(!s.is_tracked("a.md"));
    assert_eq!(s.get_sorted_filenames(), vec!["b.md".to_string()]);
    assert_eq!(root_file(&s), Some("b.md".to_string()));
    assert!(s.remove_tracked_file("b.md"));
    assert_eq!(root_file(&s), None);
}

#[test]
fn change_step_refreshes_adds_or_ignores() {
    let mut dir = MarkdownState::new("/w".to_string(), true);
    dir.add_tracked_file("a.md".to_string(), "/w/a.md".to_string(), 1, "x");
    assert_eq!(change_step(&dir, "a.md"), ChangeStep::Refresh);
    assert_eq!(change_step(&dir, "new.md"), ChangeStep::Add);
    let single = MarkdownState::new("/w".to_string(), false);
    assert_eq!(change_step(&single, "new.md"), ChangeStep::Ignore);
    assert!(!single.show_navigation());
}

#[test]
fn page_context_and_routes() {
    let mut s = MarkdownState::new("/w".to_string(), false);
    s.add_tracked_file("m.md".to_string(), "/w/m.md".to_string(), 1, "```mermaid\ngraph TD\n```\n");
    s.add_tracked_file("p.md".to_string(), "/w/p.md".to_string(), 1, "```javascript\nx\n```\n");
    let c = markdown_page_context(&s, "m.md").unwrap();
    assert!(c.mermaid_enabled);
    assert!(!c.show_navigation);
    assert!(c.has_history);
    assert!(!markdown_page_context(&s, "p.md").unwrap().mermaid_enabled);
    assert!(markdown_page_context(&s, "none.md").is_none());
    let e = editor_page_context(&s, "new.md", true);
    assert!(e.editor_mode && e.new_file_mode && !e.has_history);
    assert!(editor_page_context(&s, "m.md", false).has_history);
    assert!(has_mermaid("<code class=\"language-mermaid\">"));
    assert!(!has_mermaid("<code class=\"language-rust\">"));
    assert_eq!(route_file("a.md"), FileRoute::Markdown);
    assert_eq!(route_file("a.markdown"), FileRoute::Markdown);
    assert_eq!(route_file("a.MD"), FileRoute::NotFound);
    assert_eq!(route_file("img/a.PNG"), FileRoute::Image);
    assert_eq!(route_file("secret.txt"), FileRoute::NotFound);
    assert_eq!(new_file_name(""), "new.md");
    assert_eq!(new_file_name("docs"), "docs/new.md");
    assert_eq!(ServerMessage::Reload, ServerMessage::Reload);
}

#[test]
fn loading_tracks_each_file_under_its_key_and_the_later_of_two_wins() {
    let files = vec![
        FileData { path: "/w/a.md".to_string(), modified: 1, content: "# First".to_string() },
        FileData { path: "/w/docs/b.md".to_string(), modified: 2, content: "# B".to_string() },
        FileData { path: "/w/a.md".to_string(), modified: 3, content: "# Second".to_string() },
        FileData { path: "/elsewhere/c.md".to_string(), modified: 4, content: "c".to_string() },
    ];
    let s = MarkdownState::with_files("/w".to_string(), true, &files);
    assert_eq!(
        s.get_sorted_filenames(),
        vec!["/elsewhere/c.md".to_string(), "a.md".to_string(), "docs/b.md".to_string()]
    );
    let a = s.tracked_file("a.md").unwrap();
    assert_eq!(a.last_modified, 3);
    assert!(a.html.contains("<h1>Second</h1>"));
    assert_eq!(s.tracked_file("docs/b.md").unwrap().path, "/w/docs/b.md");
    assert!(s.is_directory_mode());
    assert_eq!(s.mdlive_dir(), Some("/w/.mdlive".to_string()));
}

#[test]
fn daemon_with_a_workspace_announces_it_first() {
    let w = MarkdownState::new("/w".to_string(), true);
    assert_eq!(
        first_message(true, Some(&w)),
        Some(ServerMessage::WorkspaceChanged { base_dir: "/w".to_string(), file: None })
    );
    assert_eq!(first_message(false, Some(&w)), None);
    assert_eq!(first_message(true, None), None);
}
