//! Which page a request gets and what the page template is told.
use vstd::prelude::*;
use crate::order::{lex_lt, strictly_sorted};
use crate::paths::{is_image_file, is_image_path};
use crate::state::{strings_view, MarkdownState};
use crate::text::{contains_seq, ends_with, str_contains, str_ends_with};

verus! {

/// The marker the markdown renderer puts on a mermaid code block.
pub open spec fn mermaid_marker() -> Seq<char> {
    "class=\"language-mermaid\""@
}

/// Whether rendered HTML holds a mermaid diagram, so that the page loads mermaid.
pub fn has_mermaid(html: &str) -> (r: bool)
    ensures
        r == contains_seq(html@, mermaid_marker()),
{
    str_contains(html, "class=\"language-mermaid\"")
}

/// What a request for a path below the root is answered with.
#[derive(Debug, Clone, Copy, PartialEq, Eq, Structural)]
pub enum FileRoute {
    /// A markdown page (for a tracked file).
    Markdown,
    /// An image read from the base directory.
    Image,
    /// Nothing: `404 Not Found`.
    NotFound,
}

/// The route for a requested path: names ending in `.md` or `.markdown`
/// (exactly so) are pages, images are files, anything else is not served.
pub open spec fn route_of(filepath: Seq<char>) -> FileRoute {
    if ends_with(filepath, ".md"@) || ends_with(filepath, ".markdown"@) {
        FileRoute::Markdown
    } else if is_image_path(filepath) {
        FileRoute::Image
    } else {
        FileRoute::NotFound
    }
}

/// The route for a requested path.
pub fn route_file(filepath: &str) -> (r: FileRoute)
    ensures
        r == route_of(filepath@),
{
    if str_ends_with(filepath, ".md") || str_ends_with(filepath, ".markdown") {
        FileRoute::Markdown
    } else if is_image_file(filepath) {
        FileRoute::Image
    } else {
        FileRoute::NotFound
    }
}

/// What the page template is told.
#[derive(Debug, Clone)]
pub struct PageContext {
    pub current_file: String,
    pub mermaid_enabled: bool,
    pub show_navigation: bool,
    pub has_history: bool,
    pub editor_mode: bool,
    pub new_file_mode: bool,
}

/// The context of the page showing the file tracked under `current_file`;
/// `None` where no such file is tracked (`404 File not found`).
pub fn markdown_page_context(state: &MarkdownState, current_file: &str) -> (r: Option<PageContext>)
    ensures
        match r {
            None => !state.entries().contains_key(current_file@),
            Some(c) => {
                &&& state.entries().contains_key(current_file@)
                &&& c.current_file@ == current_file@
                &&& c.mermaid_enabled == contains_seq(state.entries()[current_file@].html@, mermaid_marker())
                &&& c.show_navigation == state.directory_mode()
                &&& c.has_history == state.history_root() is Some
                &&& !c.editor_mode
                &&& !c.new_file_mode
            },
        },
{
    match state.tracked_file(current_file) {
        None => None,
        Some(t) => {
            let mermaid = has_mermaid(t.html.as_str());
            Some(
                PageContext {
                    current_file: current_file.to_string(),
                    mermaid_enabled: mermaid,
                    show_navigation: state.show_navigation(),
                    has_history: state.mdlive_dir().is_some(),
                    editor_mode: false,
                    new_file_mode: false,
                },
            )
        },
    }
}

/// The context of the editor page for `current_file`; history is offered for
/// existing files only.
pub fn editor_page_context(state: &MarkdownState, current_file: &str, new_file_mode: bool) -> (r: PageContext)
    ensures
        r.current_file@ == current_file@,
        !r.mermaid_enabled,
        r.show_navigation == state.directory_mode(),
        r.has_history == (state.history_root() is Some && !new_file_mode),
        r.editor_mode,
        r.new_file_mode == new_file_mode,
{
    PageContext {
        current_file: current_file.to_string(),
        mermaid_enabled: false,
        show_navigation: state.show_navigation(),
        has_history: state.mdlive_dir().is_some() && !new_file_mode,
        editor_mode: true,
        new_file_mode,
    }
}

/// The name the new-file editor suggests inside directory `dir`.
pub open spec fn new_file_name_in(dir: Seq<char>) -> Seq<char> {
    if dir.len() == 0 {
        "new.md"@
    } else {
        dir + "/new.md"@
    }
}

/// The name the new-file editor suggests inside directory `dir`.
pub fn new_file_name(dir: &str) -> (r: String)
    ensures
        r@ == new_file_name_in(dir@),
{
    if dir.unicode_len() == 0 {
        String::from_str("new.md")
    } else {
        let mut r = String::from_str(dir);
        r.append("/new.md");
        r
    }
}

/// The file the root page shows: the first tracked file by name, if any.
pub fn root_file(state: &MarkdownState) -> (r: Option<String>)
    requires
        state.wf(),
    ensures
        match r {
            None => state.entries().is_empty(),
            Some(f) => state.entries().contains_key(f@) && forall|k: Seq<char>|
                #[trigger] state.entries().contains_key(k) && k != f@ ==> lex_lt(f@, k),
        },
{
    let mut names = state.get_sorted_filenames();
    if names.len() == 0 {
        proof {
            assert forall|k: Seq<char>| !state.entries().contains_key(k) by {
                if state.entries().contains_key(k) {
                    assert(strings_view(names@).contains(k));
                }
            }
            assert(state.entries().dom() =~= Set::<Seq<char>>::empty());
        }
        return None;
    }
    let ghost sv = strings_view(names@);
    let first = names.remove(0);
    proof {
        assert(sv[0] == first@);
        assert(sv.contains(first@));
        assert forall|k: Seq<char>| #[trigger] state.entries().contains_key(k) && k != first@ implies lex_lt(first@, k) by {
            assert(sv.contains(k));
            let i = choose|i: int| 0 <= i < sv.len() && sv[i] == k;
            assert(i != 0);
        }
    }
    Some(first)
}

} // verus!
