//! The pages: the values the page template is given, written as JSON, and
//! the answer to a page request once the template is rendered with them.
use vstd::prelude::*;
use crate::cli::{json_string_literal, to_json_string};
use crate::order::{lemma_lex_lt_asymmetric, lex_lt};
use crate::pages::{editor_page_context, markdown_page_context, mermaid_marker, new_file_name, new_file_name_in, root_file, PageContext};
use crate::state::MarkdownState;
use crate::text::{contains_seq, decimal, decimal_string};
use crate::tree::{build_file_tree, file_tree, lemma_nodes_view, node_view, nodes_view, FileInfo, TreeNode, TreeView};

verus! {

/// `true` or `false`.
pub open spec fn json_bool(b: bool) -> Seq<char> {
    if b {
        "true"@
    } else {
        "false"@
    }
}

/// A tree entry written as a JSON object.
pub open spec fn node_json(n: TreeView) -> Seq<char>
    decreases n, 0int,
{
    match n {
        TreeView::Dir { name, dir_path, children, modified, created } => "{\"name\":"@ + json_string_literal(name)
            + ",\"is_dir\":true,\"dir_path\":"@ + json_string_literal(dir_path) + ",\"children\":["@
            + nodes_json_from(children, 0) + "],\"modified\":"@ + decimal(modified as nat) + ",\"created\":"@
            + decimal(created as nat) + "}"@,
        TreeView::File { name, path, modified, created } => "{\"name\":"@ + json_string_literal(name)
            + ",\"path\":"@ + json_string_literal(path) + ",\"is_dir\":false,\"modified\":"@ + decimal(
            modified as nat,
        ) + ",\"created\":"@ + decimal(created as nat) + "}"@,
    }
}

/// The entries `s[i..]` written as JSON objects separated by commas.
pub open spec fn nodes_json_from(s: Seq<TreeView>, i: int) -> Seq<char>
    decreases s, s.len() - i,
{
    if i < 0 || i >= s.len() {
        Seq::empty()
    } else if i + 1 == s.len() {
        node_json(s[i])
    } else {
        node_json(s[i]) + ","@ + nodes_json_from(s, i + 1)
    }
}

/// What the page template is given, written as a JSON object.
pub open spec fn context_json(
    current_file: Seq<char>,
    mermaid_enabled: bool,
    show_navigation: bool,
    has_history: bool,
    editor_mode: bool,
    new_file_mode: bool,
    content: Seq<char>,
    raw_content: Seq<char>,
    tree: Seq<TreeView>,
) -> Seq<char> {
    "{\"current_file\":"@ + json_string_literal(current_file) + ",\"mermaid_enabled\":"@ + json_bool(
        mermaid_enabled,
    ) + ",\"show_navigation\":"@ + json_bool(show_navigation) + ",\"has_history\":"@ + json_bool(has_history)
        + ",\"editor_mode\":"@ + json_bool(editor_mode) + ",\"new_file_mode\":"@ + json_bool(new_file_mode)
        + ",\"content\":"@ + json_string_literal(content) + ",\"raw_content\":"@ + json_string_literal(
        raw_content,
    ) + ",\"tree\":["@ + nodes_json_from(tree, 0) + "]}"@
}

/// Why the template could not be rendered.
#[derive(Debug, Clone)]
pub enum RenderError {
    /// The template itself was refused.
    Template(String),
    /// Rendering it with the given values failed.
    Rendering(String),
}

/// A rendering failure as plain values.
pub enum RenderErrorView {
    Template(Seq<char>),
    Rendering(Seq<char>),
}

impl View for RenderError {
    type V = RenderErrorView;

    open spec fn view(&self) -> RenderErrorView {
        match self {
            RenderError::Template(m) => RenderErrorView::Template(m@),
            RenderError::Rendering(m) => RenderErrorView::Rendering(m@),
        }
    }
}

/// The text minijinja renders from the template source `template` (auto-escaping
/// as for HTML) with the values of the JSON object `context_json`, or why it
/// could not. Two crates stand behind this one name: `serde_json` reads the
/// JSON text into a `minijinja::Value`, and minijinja adds the template, looks
/// it up and renders it with that value; the name covers the four calls
/// together, since the value passed between them is opaque.
pub uninterp spec fn minijinja_render(template: Seq<char>, context_json: Seq<char>) -> Result<Seq<char>, RenderErrorView>;

/// Renders the template source `template` with minijinja (`Environment::add_template`,
/// `Environment::get_template`, `Template::render`), the values being the JSON
/// object `context_json` as `serde_json` reads it into a `minijinja::Value`.
#[verifier::external_body]
fn render_template(template: &str, context_json: &str) -> (r: Result<String, RenderError>)
    ensures
        match r {
            Ok(page) => minijinja_render(template@, context_json@) == Ok::<Seq<char>, RenderErrorView>(page@),
            Err(e) => minijinja_render(template@, context_json@) == Err::<Seq<char>, RenderErrorView>(e@),
        },
{
    let mut env = minijinja::Environment::new();
    env.add_template("page.html", template).map_err(|e| RenderError::Template(e.to_string()))?;
    let values: minijinja::Value = serde_json::from_str(context_json).map_err(|e| RenderError::Rendering(e.to_string()))?;
    let page = env.get_template("page.html").map_err(|e| RenderError::Template(e.to_string()))?;
    page.render(values).map_err(|e| RenderError::Rendering(e.to_string()))
}

/// Appends `s` written as a JSON string.
fn push_json_string(out: &mut String, s: &str)
    ensures
        final(out)@ == old(out)@ + json_string_literal(s@),
{
    let lit = to_json_string(s);
    out.append(lit.as_str());
}

fn json_bool_string(b: bool) -> (r: &'static str)
    ensures
        r@ == json_bool(b),
{
    if b {
        "true"
    } else {
        "false"
    }
}

fn node_to_json(n: &TreeNode) -> (r: String)
    ensures
        r@ == node_json(node_view(*n)),
    decreases *n, 0int,
{
    match n {
        TreeNode::Dir { name, dir_path, children, modified, created } => {
            let mut out = String::from_str("{\"name\":");
            push_json_string(&mut out, name.as_str());
            out.append(",\"is_dir\":true,\"dir_path\":");
            push_json_string(&mut out, dir_path.as_str());
            out.append(",\"children\":[");
            let inner = nodes_to_json_from(children, 0);
            out.append(inner.as_str());
            out.append("],\"modified\":");
            out.append(decimal_string(*modified).as_str());
            out.append(",\"created\":");
            out.append(decimal_string(*created).as_str());
            out.append("}");
            out
        },
        TreeNode::File { name, path, modified, created } => {
            let mut out = String::from_str("{\"name\":");
            push_json_string(&mut out, name.as_str());
            out.append(",\"path\":");
            push_json_string(&mut out, path.as_str());
            out.append(",\"is_dir\":false,\"modified\":");
            out.append(decimal_string(*modified).as_str());
            out.append(",\"created\":");
            out.append(decimal_string(*created).as_str());
            out.append("}");
            out
        },
    }
}

fn nodes_to_json_from(v: &Vec<TreeNode>, i: usize) -> (r: String)
    requires
        i <= v.len(),
    ensures
        r@ == nodes_json_from(nodes_view(v@), i as int),
    decreases v@, v.len() - i,
{
    proof {
        lemma_nodes_view(v@);
    }
    if i >= v.len() {
        return String::new();
    }
    let mut out = node_to_json(&v[i]);
    if i + 1 < v.len() {
        out.append(",");
        let rest = nodes_to_json_from(v, i + 1);
        out.append(rest.as_str());
    }
    out
}

fn context_to_json(ctx: &PageContext, content: &str, raw: &str, tree: &Vec<TreeNode>) -> (r: String)
    ensures
        r@ == context_json(
            ctx.current_file@,
            ctx.mermaid_enabled,
            ctx.show_navigation,
            ctx.has_history,
            ctx.editor_mode,
            ctx.new_file_mode,
            content@,
            raw@,
            nodes_view(tree@),
        ),
{
    let mut out = String::from_str("{\"current_file\":");
    push_json_string(&mut out, ctx.current_file.as_str());
    out.append(",\"mermaid_enabled\":");
    out.append(json_bool_string(ctx.mermaid_enabled));
    out.append(",\"show_navigation\":");
    out.append(json_bool_string(ctx.show_navigation));
    out.append(",\"has_history\":");
    out.append(json_bool_string(ctx.has_history));
    out.append(",\"editor_mode\":");
    out.append(json_bool_string(ctx.editor_mode));
    out.append(",\"new_file_mode\":");
    out.append(json_bool_string(ctx.new_file_mode));
    out.append(",\"content\":");
    push_json_string(&mut out, content);
    out.append(",\"raw_content\":");
    push_json_string(&mut out, raw);
    out.append(",\"tree\":[");
    let nodes = nodes_to_json_from(tree, 0);
    out.append(nodes.as_str());
    out.append("]}");
    out
}

/// The navigation tree a page shows: that of the files where navigation is
/// shown, none otherwise.
pub open spec fn shown_tree(show_navigation: bool, infos: Seq<FileInfo>) -> Seq<TreeView> {
    if show_navigation {
        file_tree(infos)
    } else {
        Seq::empty()
    }
}

/// The answer to a page request once the template is rendered with the JSON
/// values: `200` with the page, or `500` with the reason.
pub open spec fn page_response(template: Seq<char>, values: Seq<char>) -> (u16, Seq<char>) {
    match minijinja_render(template, values) {
        Ok(page) => (200, page),
        Err(RenderErrorView::Template(e)) => (500, "Template error: "@ + e),
        Err(RenderErrorView::Rendering(e)) => (500, "Rendering error: "@ + e),
    }
}

/// A status and a text as plain values.
pub open spec fn answer_view(r: (u16, String)) -> (u16, Seq<char>) {
    (r.0, r.1@)
}

fn render_context(template: &str, ctx: &PageContext, content: &str, raw: &str, infos: &[FileInfo]) -> (r: (u16, String))
    ensures
        answer_view(r) == page_response(
            template@,
            context_json(
                ctx.current_file@,
                ctx.mermaid_enabled,
                ctx.show_navigation,
                ctx.has_history,
                ctx.editor_mode,
                ctx.new_file_mode,
                content@,
                raw@,
                shown_tree(ctx.show_navigation, infos@),
            ),
        ),
{
    let tree = if ctx.show_navigation {
        build_file_tree(infos)
    } else {
        Vec::new()
    };
    assert(nodes_view(tree@) == shown_tree(ctx.show_navigation, infos@));
    let values = context_to_json(ctx, content, raw, &tree);
    match render_template(template, values.as_str()) {
        Ok(page) => (200, page),
        Err(RenderError::Template(e)) => {
            let mut m = String::from_str("Template error: ");
            m.append(e.as_str());
            (500, m)
        },
        Err(RenderError::Rendering(e)) => {
            let mut m = String::from_str("Rendering error: ");
            m.append(e.as_str());
            (500, m)
        },
    }
}

/// The page showing the file tracked under `current_file`, rendered from
/// `template`: the file's HTML as content, mermaid loaded where it holds a
/// diagram, the navigation tree of `infos` in directory mode.
pub open spec fn markdown_response(
    template: Seq<char>,
    state: MarkdownState,
    current_file: Seq<char>,
    infos: Seq<FileInfo>,
) -> (u16, Seq<char>) {
    if !state.entries().contains_key(current_file) {
        (404, "File not found"@)
    } else {
        let html = state.entries()[current_file].html@;
        page_response(
            template,
            context_json(
                current_file,
                contains_seq(html, mermaid_marker()),
                state.directory_mode(),
                state.history_root() is Some,
                false,
                false,
                html,
                Seq::empty(),
                shown_tree(state.directory_mode(), infos),
            ),
        )
    }
}

/// The page showing the file tracked under `current_file`; `404` where none is.
pub fn render_markdown(template: &str, state: &MarkdownState, current_file: &str, infos: &[FileInfo]) -> (r: (u16, String))
    ensures
        answer_view(r) == markdown_response(template@, *state, current_file@, infos@),
{
    match markdown_page_context(state, current_file) {
        None => (404, String::from_str("File not found")),
        Some(ctx) => {
            proof {
                reveal_strlit("");
                assert(""@ =~= Seq::<char>::empty());
            }
            let html = match state.tracked_file(current_file) {
                Some(t) => t.html.clone(),
                None => String::new(),
            };
            render_context(template, &ctx, html.as_str(), "", infos)
        },
    }
}

/// The editor page for `current_file`, holding its text `raw_content`; edit
/// history is offered where the workspace keeps it.
pub open spec fn editor_page_response(
    template: Seq<char>,
    state: MarkdownState,
    current_file: Seq<char>,
    raw_content: Seq<char>,
    infos: Seq<FileInfo>,
) -> (u16, Seq<char>) {
    page_response(
        template,
        context_json(
            current_file,
            false,
            state.directory_mode(),
            state.history_root() is Some,
            true,
            false,
            Seq::empty(),
            raw_content,
            shown_tree(state.directory_mode(), infos),
        ),
    )
}

/// The editor page for `current_file`, holding its text `raw_content`.
pub fn render_editor(
    template: &str,
    state: &MarkdownState,
    current_file: &str,
    raw_content: &str,
    infos: &[FileInfo],
) -> (r: (u16, String))
    ensures
        answer_view(r) == editor_page_response(template@, *state, current_file@, raw_content@, infos@),
{
    let ctx = editor_page_context(state, current_file, false);
    proof {
        reveal_strlit("");
        assert(""@ =~= Seq::<char>::empty());
    }
    render_context(template, &ctx, "", raw_content, infos)
}

/// The answer to a request for the editor of `current_file`: its editor page
/// where a file is tracked under that name, `404` otherwise.
pub open spec fn editor_response(
    template: Seq<char>,
    state: MarkdownState,
    current_file: Seq<char>,
    raw_content: Seq<char>,
    infos: Seq<FileInfo>,
) -> (u16, Seq<char>) {
    if !state.entries().contains_key(current_file) {
        (404, "File not found"@)
    } else {
        editor_page_response(template, state, current_file, raw_content, infos)
    }
}

/// The answer to a request for the editor of `current_file`, whose text
/// (where it is tracked) is `raw_content`.
pub fn serve_editor(
    template: &str,
    state: &MarkdownState,
    current_file: &str,
    raw_content: &str,
    infos: &[FileInfo],
) -> (r: (u16, String))
    ensures
        answer_view(r) == editor_response(template@, *state, current_file@, raw_content@, infos@),
{
    if !state.is_tracked(current_file) {
        return (404, String::from_str("File not found"));
    }
    render_editor(template, state, current_file, raw_content, infos)
}

/// The editor for a new file in directory `dir`, which suggests the name
/// `dir/new.md`; only a whole directory can get new files (`400` otherwise).
pub open spec fn new_file_response(
    template: Seq<char>,
    state: MarkdownState,
    dir: Seq<char>,
    infos: Seq<FileInfo>,
) -> (u16, Seq<char>) {
    if !state.directory_mode() {
        (400, "New file only available in directory mode"@)
    } else {
        page_response(
            template,
            context_json(
                new_file_name_in(dir),
                false,
                true,
                false,
                true,
                true,
                Seq::empty(),
                Seq::empty(),
                shown_tree(true, infos),
            ),
        )
    }
}

/// The editor for a new file in directory `dir`.
pub fn render_new_file_editor(template: &str, state: &MarkdownState, dir: &str, infos: &[FileInfo]) -> (r: (u16, String))
    ensures
        answer_view(r) == new_file_response(template@, *state, dir@, infos@),
{
    if !state.is_directory_mode() {
        return (400, String::from_str("New file only available in directory mode"));
    }
    let name = new_file_name(dir);
    let ctx = editor_page_context(state, name.as_str(), true);
    proof {
        reveal_strlit("");
        assert(""@ =~= Seq::<char>::empty());
    }
    render_context(template, &ctx, "", "", infos)
}

/// The file the root page shows: the tracked file whose name comes first.
pub open spec fn is_first_key(state: MarkdownState, f: Seq<char>) -> bool {
    state.entries().contains_key(f) && forall|k: Seq<char>|
        #[trigger] state.entries().contains_key(k) && k != f ==> lex_lt(f, k)
}

/// The root page: the page of the first tracked file by name, or `500` where
/// nothing is tracked.
pub open spec fn root_response(template: Seq<char>, state: MarkdownState, infos: Seq<FileInfo>) -> (u16, Seq<char>) {
    if state.entries().is_empty() {
        (500, "No files available to serve"@)
    } else {
        markdown_response(template, state, choose|f: Seq<char>| is_first_key(state, f), infos)
    }
}

proof fn lemma_first_key_unique(state: MarkdownState, f: Seq<char>, g: Seq<char>)
    requires
        is_first_key(state, f),
        is_first_key(state, g),
    ensures
        f == g,
{
    if f != g {
        assert(state.entries().contains_key(g));
        assert(lex_lt(f, g));
        assert(state.entries().contains_key(f));
        assert(lex_lt(g, f));
        lemma_lex_lt_asymmetric(f, g);
    }
}

/// The root page.
pub fn render_root(template: &str, state: &MarkdownState, infos: &[FileInfo]) -> (r: (u16, String))
    requires
        state.wf(),
    ensures
        answer_view(r) == root_response(template@, *state, infos@),
{
    match root_file(state) {
        None => (500, String::from_str("No files available to serve")),
        Some(f) => {
            proof {
                assert(is_first_key(*state, f@));
                let c = choose|g: Seq<char>| is_first_key(*state, g);
                lemma_first_key_unique(*state, f@, c);
                assert(!state.entries().is_empty()) by {
                    assert(state.entries().dom().contains(f@));
                }
            }
            render_markdown(template, state, f.as_str(), infos)
        },
    }
}

} // verus!
