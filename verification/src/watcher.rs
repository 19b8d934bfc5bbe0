//! What a file-system event means for the served workspace: which markdown
//! files must be re-read and when browsers must reload.
use vstd::prelude::*;
use crate::paths::{has_segment, is_image_file, is_image_path, is_markdown_file, is_markdown_path, is_mdlive_path};
use crate::state::MarkdownState;

verus! {

/// Which side of a rename an event reports.
#[derive(Debug, Clone, Copy, PartialEq, Eq, Structural)]
pub enum RenameMode {
    Any,
    To,
    From,
    Both,
    Other,
}

/// The kind of a file-system event.
#[derive(Debug, Clone, Copy, PartialEq, Eq, Structural)]
pub enum FileEventKind {
    Create,
    ModifyData,
    ModifyName(RenameMode),
    ModifyOther,
    Remove,
    Other,
}

/// A path an event names, with what the file system said of it when the
/// event was handled.
#[derive(Debug, Clone)]
pub struct EventPath {
    pub path: String,
    pub is_file: bool,
    pub exists: bool,
}

/// What handling an event asks for.
#[derive(Debug, Clone)]
pub enum WatchAction {
    /// The markdown file at this path changed: re-read it, or start tracking it.
    MarkdownChanged(String),
    /// Browsers must reload.
    Reload,
}

/// An action as plain values.
pub enum ActionView {
    MarkdownChanged(Seq<char>),
    Reload,
}

/// The actions as plain values.
pub open spec fn actions_view(v: Seq<WatchAction>) -> Seq<ActionView> {
    v.map_values(
        |a: WatchAction|
            match a {
                WatchAction::MarkdownChanged(p) => ActionView::MarkdownChanged(p@),
                WatchAction::Reload => ActionView::Reload,
            },
    )
}

/// Some path of the event lies in the workspace's own `.mdlive` directory.
pub open spec fn touches_mdlive(paths: Seq<EventPath>) -> bool {
    exists|i: int| 0 <= i < paths.len() && has_segment(#[trigger] paths[i].path@, ".mdlive"@)
}

/// A markdown change for `p`, where `p` is a markdown file.
pub open spec fn markdown_change(p: Seq<char>) -> Seq<ActionView> {
    if is_markdown_path(p) {
        seq![ActionView::MarkdownChanged(p)]
    } else {
        Seq::empty()
    }
}

/// What one path of a non-rename event asks for: a markdown file that was
/// created or written is re-read; an image causes a reload when it was
/// created or changed and is a file, or when it was removed.
pub open spec fn path_actions(kind: FileEventKind, p: EventPath) -> Seq<ActionView> {
    if is_markdown_path(p.path@) {
        match kind {
            FileEventKind::Create | FileEventKind::ModifyData => seq![ActionView::MarkdownChanged(p.path@)],
            _ => Seq::empty(),
        }
    } else if is_image_path(p.path@) {
        match kind {
            FileEventKind::Create | FileEventKind::ModifyData | FileEventKind::ModifyOther => if p.is_file {
                seq![ActionView::Reload]
            } else {
                Seq::empty()
            },
            FileEventKind::Remove => seq![ActionView::Reload],
            _ => Seq::empty(),
        }
    } else {
        Seq::empty()
    }
}

/// What the paths of a non-rename event ask for, in order.
pub open spec fn paths_actions(kind: FileEventKind, paths: Seq<EventPath>) -> Seq<ActionView>
    decreases paths.len(),
{
    if paths.len() == 0 {
        Seq::empty()
    } else {
        paths_actions(kind, paths.drop_last()) + path_actions(kind, paths.last())
    }
}

/// What an event asks for. Events inside `.mdlive` are ignored. A rename
/// counts for its new path; a removal of a markdown file is ignored, since
/// editors save by renaming and recreating; images only cause a reload.
pub open spec fn event_actions(kind: FileEventKind, paths: Seq<EventPath>) -> Seq<ActionView> {
    if touches_mdlive(paths) {
        Seq::empty()
    } else {
        match kind {
            FileEventKind::ModifyName(mode) => match mode {
                RenameMode::Both => if paths.len() == 2 {
                    markdown_change(paths[1].path@)
                } else {
                    Seq::empty()
                },
                RenameMode::To => if paths.len() > 0 {
                    markdown_change(paths[0].path@)
                } else {
                    Seq::empty()
                },
                RenameMode::Any => if paths.len() > 0 && paths[0].exists {
                    markdown_change(paths[0].path@)
                } else {
                    Seq::empty()
                },
                _ => Seq::empty(),
            },
            _ => paths_actions(kind, paths),
        }
    }
}

fn markdown_change_for(p: &String) -> (r: Vec<WatchAction>)
    ensures
        actions_view(r@) == markdown_change(p@),
{
    let mut r: Vec<WatchAction> = Vec::new();
    if is_markdown_file(p.as_str()) {
        r.push(WatchAction::MarkdownChanged(p.clone()));
        assert(actions_view(r@) =~= markdown_change(p@));
    } else {
        assert(actions_view(r@) =~= markdown_change(p@));
    }
    r
}

/// What a file-system event asks for: see `event_actions`.
pub fn handle_file_event(kind: FileEventKind, paths: &Vec<EventPath>) -> (r: Vec<WatchAction>)
    ensures
        actions_view(r@) == event_actions(kind, paths@),
{
    let mut i: usize = 0;
    while i < paths.len()
        invariant
            i <= paths.len(),
            forall|j: int| 0 <= j < i ==> !has_segment(#[trigger] paths@[j].path@, ".mdlive"@),
        decreases paths.len() - i,
    {
        if is_mdlive_path(paths[i].path.as_str()) {
            let r: Vec<WatchAction> = Vec::new();
            assert(touches_mdlive(paths@));
            assert(actions_view(r@) =~= Seq::<ActionView>::empty());
            return r;
        }
        i += 1;
    }
    assert(!touches_mdlive(paths@));
    match kind {
        FileEventKind::ModifyName(mode) => {
            let empty: Vec<WatchAction> = Vec::new();
            assert(actions_view(empty@) =~= Seq::<ActionView>::empty());
            match mode {
                RenameMode::Both => {
                    if paths.len() == 2 {
                        markdown_change_for(&paths[1].path)
                    } else {
                        empty
                    }
                },
                RenameMode::To => {
                    if paths.len() > 0 {
                        markdown_change_for(&paths[0].path)
                    } else {
                        empty
                    }
                },
                RenameMode::Any => {
                    if paths.len() > 0 && paths[0].exists {
                        markdown_change_for(&paths[0].path)
                    } else {
                        empty
                    }
                },
                _ => empty,
            }
        },
        _ => {
            let mut r: Vec<WatchAction> = Vec::new();
            let mut j: usize = 0;
            assert(paths@.take(0) =~= Seq::<EventPath>::empty());
            assert(actions_view(r@) =~= Seq::<ActionView>::empty());
            while j < paths.len()
                invariant
                    j <= paths.len(),
                    actions_view(r@) == paths_actions(kind, paths@.take(j as int)),
                decreases paths.len() - j,
            {
                let p = &paths[j];
                let ghost before = actions_view(r@);
                proof {
                    assert(paths@.take(j + 1).drop_last() =~= paths@.take(j as int));
                    assert(paths@.take(j + 1).last() == paths@[j as int]);
                }
                if is_markdown_file(p.path.as_str()) {
                    match kind {
                        FileEventKind::Create | FileEventKind::ModifyData => {
                            r.push(WatchAction::MarkdownChanged(p.path.clone()));
                        },
                        _ => {},
                    }
                } else if is_image_file(p.path.as_str()) {
                    match kind {
                        FileEventKind::Create | FileEventKind::ModifyData | FileEventKind::ModifyOther => {
                            if p.is_file {
                                r.push(WatchAction::Reload);
                            }
                        },
                        FileEventKind::Remove => {
                            r.push(WatchAction::Reload);
                        },
                        _ => {},
                    }
                }
                proof {
                    assert(actions_view(r@) =~= before + path_actions(kind, paths@[j as int]));
                }
                j += 1;
            }
            assert(paths@.take(paths.len() as int) =~= paths@);
            r
        },
    }
}

/// How a change to a markdown file is taken in.
#[derive(Debug, Clone, Copy, PartialEq, Eq, Structural)]
pub enum ChangeStep {
    /// The file is tracked: re-read it if it is newer.
    Refresh,
    /// The file is new and a whole directory is served: start tracking it.
    Add,
    /// The file is new and a single file is served: leave it.
    Ignore,
}

/// How a change to the markdown file tracked (or not) under `key` is taken in.
pub fn change_step(state: &MarkdownState, key: &str) -> (r: ChangeStep)
    ensures
        r == (if state.entries().contains_key(key@) {
            ChangeStep::Refresh
        } else if state.directory_mode() {
            ChangeStep::Add
        } else {
            ChangeStep::Ignore
        }),
{
    if state.is_tracked(key) {
        ChangeStep::Refresh
    } else if state.is_directory_mode() {
        ChangeStep::Add
    } else {
        ChangeStep::Ignore
    }
}

proof fn lemma_paths_actions_shape(kind: FileEventKind, paths: Seq<EventPath>)
    ensures
        kind == FileEventKind::Remove ==> forall|i: int|
            0 <= i < paths_actions(kind, paths).len() ==> #[trigger] paths_actions(kind, paths)[i] is Reload,
        forall|i: int|
            0 <= i < paths_actions(kind, paths).len() && #[trigger] paths_actions(kind, paths)[i] is MarkdownChanged
                ==> exists|j: int| 0 <= j < paths.len() && paths_actions(kind, paths)[i] == ActionView::MarkdownChanged(paths[j].path@)
                    && is_markdown_path(#[trigger] paths[j].path@),
    decreases paths.len(),
{
    if paths.len() > 0 {
        let prev = paths.drop_last();
        lemma_paths_actions_shape(kind, prev);
        let a = paths_actions(kind, prev);
        let b = path_actions(kind, paths.last());
        assert forall|i: int|
            0 <= i < paths_actions(kind, paths).len() && #[trigger] paths_actions(kind, paths)[i] is MarkdownChanged
                implies exists|j: int| 0 <= j < paths.len() && paths_actions(kind, paths)[i] == ActionView::MarkdownChanged(paths[j].path@)
                    && is_markdown_path(#[trigger] paths[j].path@) by {
            if i < a.len() {
                assert(paths_actions(kind, paths)[i] == a[i]);
                let j = choose|j: int| 0 <= j < prev.len() && a[i] == ActionView::MarkdownChanged(prev[j].path@)
                    && is_markdown_path(#[trigger] prev[j].path@);
                assert(paths[j] == prev[j]);
            } else {
                assert(paths_actions(kind, paths)[i] == b[i - a.len()]);
                assert(paths[paths.len() - 1] == paths.last());
            }
        }
        if kind == FileEventKind::Remove {
            assert forall|i: int| 0 <= i < paths_actions(kind, paths).len() implies #[trigger] paths_actions(kind, paths)[i] is Reload by {
                if i < a.len() {
                    assert(paths_actions(kind, paths)[i] == a[i]);
                } else {
                    assert(paths_actions(kind, paths)[i] == b[i - a.len()]);
                }
            }
        }
    }
}

/// Removing an image, or creating or changing one that is a file, reloads the
/// browsers; nothing else is asked for.
pub proof fn lemma_image_changes_reload(kind: FileEventKind, p: EventPath)
    requires
        is_image_path(p.path@),
        !is_markdown_path(p.path@),
        !has_segment(p.path@, ".mdlive"@),
        kind == FileEventKind::Remove || ((kind == FileEventKind::Create || kind == FileEventKind::ModifyData
            || kind == FileEventKind::ModifyOther) && p.is_file),
    ensures
        event_actions(kind, seq![p]) == seq![ActionView::Reload],
{
    assert(!touches_mdlive(seq![p]));
    assert(seq![p].drop_last() =~= Seq::<EventPath>::empty());
    assert(paths_actions(kind, seq![p]) =~= paths_actions(kind, Seq::<EventPath>::empty()) + path_actions(kind, p));
}

/// Events inside `.mdlive` are ignored; a removal never re-reads a markdown
/// file (editors save by renaming and recreating); and every file that an
/// event asks to re-read is a markdown file the event names.
pub proof fn lemma_event_actions(kind: FileEventKind, paths: Seq<EventPath>)
    ensures
        touches_mdlive(paths) ==> event_actions(kind, paths).len() == 0,
        kind == FileEventKind::Remove ==> forall|i: int|
            0 <= i < event_actions(kind, paths).len() ==> #[trigger] event_actions(kind, paths)[i] is Reload,
        forall|i: int|
            0 <= i < event_actions(kind, paths).len() && #[trigger] event_actions(kind, paths)[i] is MarkdownChanged
                ==> exists|j: int| 0 <= j < paths.len() && event_actions(kind, paths)[i] == ActionView::MarkdownChanged(paths[j].path@)
                    && is_markdown_path(#[trigger] paths[j].path@),
{
    lemma_paths_actions_shape(kind, paths);
    assert forall|i: int|
        0 <= i < event_actions(kind, paths).len() && #[trigger] event_actions(kind, paths)[i] is MarkdownChanged
            implies exists|j: int| 0 <= j < paths.len() && event_actions(kind, paths)[i] == ActionView::MarkdownChanged(paths[j].path@)
                && is_markdown_path(#[trigger] paths[j].path@) by {
        if !touches_mdlive(paths) {
            match kind {
                FileEventKind::ModifyName(mode) => {
                    if mode == RenameMode::Both {
                        assert(is_markdown_path(paths[1].path@));
                    } else {
                        assert(is_markdown_path(paths[0].path@));
                    }
                },
                _ => {},
            }
        }
    }
}

} // verus!
