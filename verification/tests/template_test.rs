use mdlive::state::MarkdownState;
use mdlive::template::{render_editor, render_markdown, render_new_file_editor, render_root, serve_editor};
use mdlive::tree::FileInfo;

const TEMPLATE: &str = "{{ current_file }}|{{ mermaid_enabled }}|{{ show_navigation }}|{{ has_history }}|\
{{ editor_mode }}|{{ new_file_mode }}|{{ content|safe }}|{{ raw_content }}|\
{% for n in tree %}{{ n.name }}{% if n.is_dir %}[{% for c in n.children %}{{ c.path }}@{{ c.modified }};{% endfor %}]{% endif %},{% endfor %}";

fn info(name: &str, modified: u64, created: u64) -> FileInfo {
    FileInfo { name: name.to_string(), modified, created }
}

fn workspace(directory_mode: bool) -> MarkdownState {
    let mut s = MarkdownState::new("/w".to_string(), directory_mode);
    s.add_tracked_file("b.md".to_string(), "/w/b.md".to_string(), 1, "# B");
    s.add_tracked_file(
        "a.md".to_string(),
        "/w/a.md".to_string(),
        1,
        "```mermaid\ngraph TD;\n```",
    );
    s.add_tracked_file("docs/c.md".to_string(), "/w/docs/c.md".to_string(), 1, "text");
    s
}

fn infos() -> Vec<FileInfo> {
    vec![info("a.md", 5, 1), info("b.md", 6, 2), info("docs/c.md", 7, 3)]
}

#[test]
fn markdown_page_is_rendered_with_its_values() {
    let s = workspace(true);
    let (status, page) = render_markdown(TEMPLATE, &s, "b.md", &infos());
    assert_eq!(status, 200);
    assert_eq!(page, "b.md|False|True|True|False|False|<h1>B</h1>||a.md,b.md,docs[docs&#x2f;c.md@7;],");
    let (status, page) = render_markdown(TEMPLATE, &s, "a.md", &infos());
    assert_eq!(status, 200);
    assert!(page.starts_with("a.md|True|"));
    assert!(page.contains("class=\"language-mermaid\""));
}

#[test]
fn single_file_pages_have_no_tree() {
    let mut s = MarkdownState::new("/w".to_string(), false);
    s.add_tracked_file("note.md".to_string(), "/w/note.md".to_string(), 1, "<b>x</b> & y");
    let (status, page) = render_markdown(TEMPLATE, &s, "note.md", &[info("note.md", 1, 1)]);
    assert_eq!(status, 200);
    assert!(page.starts_with("note.md|False|False|True|False|False|<p><b>x</b> &amp; y</p>"));
    assert!(page.ends_with("||"));
}

#[test]
fn unknown_pages_are_not_found() {
    let s = workspace(true);
    assert_eq!(render_markdown(TEMPLATE, &s, "zzz.md", &infos()), (404, "File not found".to_string()));
    assert_eq!(serve_editor(TEMPLATE, &s, "zzz.md", "", &infos()), (404, "File not found".to_string()));
}

#[test]
fn editor_pages_escape_raw_text() {
    let s = workspace(false);
    let (status, page) = render_editor(TEMPLATE, &s, "b.md", "# B <tag>", &[]);
    assert_eq!(status, 200);
    assert_eq!(page, "b.md|False|False|True|True|False||# B &lt;tag&gt;|");
}

#[test]
fn new_file_editor_needs_directory_mode() {
    let s = workspace(false);
    assert_eq!(
        render_new_file_editor(TEMPLATE, &s, "docs", &[]),
        (400, "New file only available in directory mode".to_string())
    );
    let d = workspace(true);
    let (status, page) = render_new_file_editor(TEMPLATE, &d, "docs", &infos());
    assert_eq!(status, 200);
    assert!(page.starts_with("docs&#x2f;new.md|False|True|False|True|True|||"));
}

#[test]
fn root_page_shows_first_file_or_fails() {
    let s = workspace(true);
    let (status, page) = render_root(TEMPLATE, &s, &infos());
    assert_eq!(status, 200);
    assert!(page.starts_with("a.md|"));
    let empty = MarkdownState::new("/w".to_string(), true);
    assert_eq!(render_root(TEMPLATE, &empty, &[]), (500, "No files available to serve".to_string()));
}

#[test]
fn broken_templates_are_reported() {
    let s = workspace(true);
    let (status, message) = render_markdown("{% if %}", &s, "b.md", &infos());
    assert_eq!(status, 500);
    assert!(message.starts_with("Template error: "));
    let (status, message) = render_markdown("{{ current_file|nosuchfilter }}", &s, "b.md", &infos());
    assert_eq!(status, 500);
    assert!(message.starts_with("Template error: ") || message.starts_with("Rendering error: "));
}

#[test]
fn editor_renders_for_any_name_and_serving_needs_a_tracked_file() {
    let s = workspace(false);
    let (status, page) = render_editor(TEMPLATE, &s, "other.md", "text", &[]);
    assert_eq!(status, 200);
    assert_eq!(page, "other.md|False|False|True|True|False||text|");
    assert_eq!(serve_editor(TEMPLATE, &s, "b.md", "text", &[]), render_editor(TEMPLATE, &s, "b.md", "text", &[]));
}
