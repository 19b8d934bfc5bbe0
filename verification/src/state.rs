//! The workspace being served: its base directory, its mode, and the tracked
//! files with their rendered HTML.
use vstd::prelude::*;
use vstd::hash_map::StringHashMap;
use crate::order::{lemma_sorted_unique, sorted_distinct, sorted_unique, strictly_sorted};
use crate::paths::{join, join_path};
use crate::text::opt_view;

verus! {

/// A message the server sends to browsers over the live-reload socket.
#[derive(Debug, Clone, PartialEq, Eq)]
pub enum ServerMessage {
    Reload,
    Pong,
    /// The served workspace is the one at `base_dir`, opened on `file` where one is named.
    WorkspaceChanged { base_dir: String, file: Option<String> },
}

/// A message a browser sends over the live-reload socket.
#[derive(Debug, Clone, Copy, PartialEq, Eq, Structural)]
pub enum ClientMessage {
    Ping,
    RequestRefresh,
}

/// A file being served, with its modification time (nanoseconds since the
/// Unix epoch) and its rendered HTML.
#[derive(Debug, Clone)]
pub struct TrackedFile {
    pub path: String,
    pub last_modified: i128,
    pub html: String,
}

/// The HTML that `markdown::to_html_with_options` makes of a text, with GFM,
/// raw HTML and front matter turned on.
pub uninterp spec fn gfm_html(content: Seq<char>) -> Seq<char>;

/// `markdown::to_html_with_options` with GFM, raw HTML passed through and
/// front matter recognised. Its documentation says it never errors unless
/// MDX is turned on, which these options do not do.
#[verifier::external_body]
fn render_gfm(content: &str) -> (r: Option<String>)
    ensures
        opt_view(r) == Some(gfm_html(content@)),
{
    let mut options = markdown::Options::gfm();
    options.compile.allow_dangerous_html = true;
    options.parse.constructs.frontmatter = true;
    markdown::to_html_with_options(content, &options).ok()
}

/// The HTML shown for a markdown text.
pub open spec fn html_of(content: Seq<char>) -> Seq<char> {
    gfm_html(content)
}

/// What `Path::strip_prefix` leaves of `path` once the components of `base`
/// are taken off its front; `None` where `base` is not a prefix of `path`.
pub uninterp spec fn path_strip_prefix(path: Seq<char>, base: Seq<char>) -> Option<Seq<char>>;

/// `Path::strip_prefix`: the rest of `path` below `base`, if `path` lies below it.
#[verifier::external_body]
pub(crate) fn strip_path_prefix(path: &str, base: &str) -> (r: Option<String>)
    ensures
        opt_view(r) == path_strip_prefix(path@, base@),
{
    std::path::Path::new(path).strip_prefix(base).ok().map(|p| p.to_string_lossy().into_owned())
}

/// The key a file is tracked under: its path relative to the base directory,
/// or the whole path where it lies outside it.
pub open spec fn key_for(path: Seq<char>, base: Seq<char>) -> Seq<char> {
    match path_strip_prefix(path, base) {
        Some(r) => r,
        None => path,
    }
}

/// The key a file is tracked under.
pub fn tracking_key(path: &str, base: &str) -> (r: String)
    ensures
        r@ == key_for(path@, base@),
{
    match strip_path_prefix(path, base) {
        Some(r) => r,
        None => path.to_string(),
    }
}

/// The HTML shown for a markdown text.
pub fn markdown_to_html(content: &str) -> (r: String)
    ensures
        r@ == html_of(content@),
{
    match render_gfm(content) {
        Some(h) => h,
        None => String::from_str("Error parsing markdown"),
    }
}

/// What a browser that connects to the live-reload socket is sent first: in
/// daemon mode with a workspace loaded, that workspace, no file named;
/// nothing otherwise.
pub fn first_message(daemon_mode: bool, workspace: Option<&MarkdownState>) -> (r: Option<ServerMessage>)
    ensures
        daemon_mode && workspace is Some ==> (r matches Some(ServerMessage::WorkspaceChanged { base_dir, file })
            && base_dir@ == workspace.unwrap().base() && file is None),
        !(daemon_mode && workspace is Some) ==> r is None,
{
    match workspace {
        Some(w) => {
            if daemon_mode {
                Some(ServerMessage::WorkspaceChanged { base_dir: w.base_dir().clone(), file: None })
            } else {
                None
            }
        },
        None => None,
    }
}

/// The views of a list of strings.
pub open spec fn strings_view(v: Seq<String>) -> Seq<Seq<char>> {
    v.map_values(|x: String| x@)
}

/// A file read from disk: where it is, when it was last modified
/// (nanoseconds since the Unix epoch), and its text.
#[derive(Debug, Clone)]
pub struct FileData {
    pub path: String,
    pub modified: i128,
    pub content: String,
}

/// The last position in `files` of a file whose key below `base` is `k`; -1
/// where there is none.
pub open spec fn last_index_for(base: Seq<char>, files: Seq<FileData>, k: Seq<char>) -> int
    decreases files.len(),
{
    if files.len() == 0 {
        -1
    } else if key_for(files.last().path@, base) == k {
        files.len() - 1
    } else {
        last_index_for(base, files.drop_last(), k)
    }
}

proof fn lemma_last_index_for(base: Seq<char>, files: Seq<FileData>, k: Seq<char>)
    ensures
        -1 <= last_index_for(base, files, k) < files.len(),
        last_index_for(base, files, k) >= 0 ==> key_for(files[last_index_for(base, files, k)].path@, base) == k,
    decreases files.len(),
{
    if files.len() > 0 && key_for(files.last().path@, base) != k {
        lemma_last_index_for(base, files.drop_last(), k);
    }
}

/// The state of the served workspace.
pub struct MarkdownState {
    base_dir: String,
    is_directory_mode: bool,
    mdlive_dir: Option<String>,
    files: StringHashMap<TrackedFile>,
    keys: Vec<String>,
}

fn index_of_key(keys: &Vec<String>, k: &String) -> (r: Option<usize>)
    ensures
        match r {
            Some(i) => i < keys.len() && keys@[i as int]@ == k@,
            None => forall|j: int| 0 <= j < keys.len() ==> keys@[j]@ != k@,
        },
{
    let mut i: usize = 0;
    while i < keys.len()
        invariant
            i <= keys.len(),
            forall|j: int| 0 <= j < i ==> keys@[j]@ != k@,
        decreases keys.len() - i,
    {
        if keys[i] == *k {
            return Some(i);
        }
        i += 1;
    }
    None
}

impl MarkdownState {
    /// The list of keys names each tracked file exactly once.
    pub closed spec fn wf(&self) -> bool {
        &&& forall|i: int, j: int|
            0 <= i < j < self.keys@.len() ==> self.keys@[i]@ != self.keys@[j]@
        &&& forall|k: Seq<char>|
            self.files@.contains_key(k) <==> strings_view(self.keys@).contains(k)
    }

    /// The tracked files by key.
    pub closed spec fn entries(&self) -> Map<Seq<char>, TrackedFile> {
        self.files@
    }

    /// The workspace's base directory.
    pub closed spec fn base(&self) -> Seq<char> {
        self.base_dir@
    }

    /// Whether a whole directory is served (rather than one file).
    pub closed spec fn directory_mode(&self) -> bool {
        self.is_directory_mode
    }

    /// Where edit history is kept, if anywhere.
    pub closed spec fn history_root(&self) -> Option<Seq<char>> {
        opt_view(self.mdlive_dir)
    }

    /// An empty workspace at `base_dir`, keeping history in `base_dir/.mdlive`.
    pub fn new(base_dir: String, is_directory_mode: bool) -> (r: Self)
        ensures
            r.wf(),
            r.entries().is_empty(),
            r.base() == base_dir@,
            r.directory_mode() == is_directory_mode,
            r.history_root() == Some(join(base_dir@, ".mdlive"@)),
    {
        let dir = join_path(base_dir.as_str(), ".mdlive");
        let r = MarkdownState {
            base_dir,
            is_directory_mode,
            mdlive_dir: Some(dir),
            files: StringHashMap::new(),
            keys: Vec::new(),
        };
        assert(r.files@.dom() =~= Set::<Seq<char>>::empty());
        r
    }

    /// A workspace at `base_dir` tracking `files`, each under its key below
    /// the base directory; of two files with one key the later is kept.
    pub fn with_files(base_dir: String, is_directory_mode: bool, files: &Vec<FileData>) -> (r: Self)
        ensures
            r.wf(),
            r.base() == base_dir@,
            r.directory_mode() == is_directory_mode,
            r.history_root() == Some(join(base_dir@, ".mdlive"@)),
            forall|k: Seq<char>| r.entries().contains_key(k) <==> last_index_for(base_dir@, files@, k) >= 0,
            forall|k: Seq<char>|
                #[trigger] r.entries().contains_key(k) ==> {
                    let f = files@[last_index_for(base_dir@, files@, k)];
                    &&& r.entries()[k].path@ == f.path@
                    &&& r.entries()[k].last_modified == f.modified
                    &&& r.entries()[k].html@ == html_of(f.content@)
                },
    {
        let base = base_dir.clone();
        let mut state = MarkdownState::new(base_dir, is_directory_mode);
        let mut i: usize = 0;
        while i < files.len()
            invariant
                i <= files.len(),
                state.wf(),
                state.base() == base@,
                state.directory_mode() == is_directory_mode,
                state.history_root() == Some(join(base@, ".mdlive"@)),
                forall|k: Seq<char>|
                    state.entries().contains_key(k) <==> last_index_for(base@, files@.take(i as int), k) >= 0,
                forall|k: Seq<char>|
                    #[trigger] state.entries().contains_key(k) ==> {
                        let f = files@[last_index_for(base@, files@.take(i as int), k)];
                        &&& state.entries()[k].path@ == f.path@
                        &&& state.entries()[k].last_modified == f.modified
                        &&& state.entries()[k].html@ == html_of(f.content@)
                    },
            decreases files.len() - i,
        {
            let f = &files[i];
            let key = tracking_key(f.path.as_str(), base.as_str());
            state.remove_tracked_file(key.as_str());
            let ghost k0 = key@;
            state.add_tracked_file(key, f.path.clone(), f.modified, f.content.as_str());
            proof {
                let prev = files@.take(i as int);
                let next = files@.take(i + 1);
                assert(next.drop_last() =~= prev);
                assert(next.last() == files@[i as int]);
                assert forall|k: Seq<char>|
                    state.entries().contains_key(k) <==> last_index_for(base@, next, k) >= 0 by {
                    lemma_last_index_for(base@, prev, k);
                }
                assert forall|k: Seq<char>|
                    #[trigger] state.entries().contains_key(k) implies {
                        let g = files@[last_index_for(base@, next, k)];
                        &&& state.entries()[k].path@ == g.path@
                        &&& state.entries()[k].last_modified == g.modified
                        &&& state.entries()[k].html@ == html_of(g.content@)
                    } by {
                    lemma_last_index_for(base@, prev, k);
                    if k != k0 {
                        assert(last_index_for(base@, next, k) == last_index_for(base@, prev, k));
                        assert(prev[last_index_for(base@, prev, k)] == files@[last_index_for(base@, prev, k)]);
                    }
                }
            }
            i += 1;
        }
        assert(files@.take(files.len() as int) =~= files@);
        state
    }

    /// The workspace's base directory.
    pub fn base_dir(&self) -> (r: &String)
        ensures
            r@ == self.base(),
    {
        &self.base_dir
    }

    /// Whether a whole directory is served.
    pub fn is_directory_mode(&self) -> (r: bool)
        ensures
            r == self.directory_mode(),
    {
        self.is_directory_mode
    }

    /// Where edit history is kept, if anywhere.
    pub fn mdlive_dir(&self) -> (r: Option<String>)
        ensures
            opt_view(r) == self.history_root(),
    {
        match &self.mdlive_dir {
            Some(d) => Some(d.clone()),
            None => None,
        }
    }

    /// The navigation sidebar is shown in directory mode only.
    pub fn show_navigation(&self) -> (r: bool)
        ensures
            r == self.directory_mode(),
    {
        self.is_directory_mode
    }

    /// Whether a file is tracked under `key`.
    pub fn is_tracked(&self, key: &str) -> (r: bool)
        ensures
            r == self.entries().contains_key(key@),
    {
        self.files.contains_key(key)
    }

    /// The file tracked under `key`.
    pub fn tracked_file(&self, key: &str) -> (r: Option<&TrackedFile>)
        ensures
            match r {
                Some(t) => self.entries().contains_key(key@) && *t == self.entries()[key@],
                None => !self.entries().contains_key(key@),
            },
    {
        self.files.get(key)
    }

    /// How many files are tracked.
    pub fn tracked_count(&self) -> (r: usize)
        requires
            self.wf(),
        ensures
            r == self.entries().len(),
    {
        proof {
            broadcast use vstd::hash_map::group_hash_map_axioms;
        }
        self.files.len()
    }

    /// The keys of all tracked files in ascending order, each once.
    pub fn get_sorted_filenames(&self) -> (r: Vec<String>)
        requires
            self.wf(),
        ensures
            strictly_sorted(strings_view(r@)),
            forall|k: Seq<char>| strings_view(r@).contains(k) <==> self.entries().contains_key(k),
    {
        let r = sorted_distinct(&self.keys);
        proof {
            lemma_sorted_unique(strings_view(self.keys@));
            assert(strings_view(r@) == sorted_unique(strings_view(self.keys@)));
        }
        r
    }

    /// Whether the file tracked under `key` changed on disk since it was
    /// rendered: it is tracked and its modification time is later.
    pub fn needs_refresh(&self, key: &str, current_modified: i128) -> (r: bool)
        ensures
            r == (self.entries().contains_key(key@) && current_modified
                > self.entries()[key@].last_modified),
    {
        match self.files.get(key) {
            Some(t) => current_modified > t.last_modified,
            None => false,
        }
    }

    /// Renders the new content of the file tracked under `key`, which was
    /// modified at `modified`; untracked keys are left alone.
    pub fn update_file(&mut self, key: &str, modified: i128, content: &str)
        requires
            old(self).wf(),
        ensures
            final(self).wf(),
            final(self).base() == old(self).base(),
            final(self).directory_mode() == old(self).directory_mode(),
            final(self).history_root() == old(self).history_root(),
            final(self).entries().dom() == old(self).entries().dom(),
            forall|k: Seq<char>| k != key@ ==> #[trigger] final(self).entries()[k] == old(self).entries()[k],
            old(self).entries().contains_key(key@) ==> {
                &&& final(self).entries()[key@].path == old(self).entries()[key@].path
                &&& final(self).entries()[key@].last_modified == modified
                &&& final(self).entries()[key@].html@ == html_of(content@)
            },
    {
        let path = match self.files.get(key) {
            Some(t) => t.path.clone(),
            None => {
                return;
            },
        };
        let html = markdown_to_html(content);
        self.files.insert(key.to_string(), TrackedFile { path, last_modified: modified, html });
        proof {
            assert(self.files@.dom() =~= old(self).files@.dom());
        }
    }

    /// Starts tracking a file under `key`, rendering its content; a key that
    /// is tracked already is left alone. Returns whether the file was added.
    pub fn add_tracked_file(&mut self, key: String, path: String, modified: i128, content: &str) -> (r: bool)
        requires
            old(self).wf(),
        ensures
            final(self).wf(),
            final(self).base() == old(self).base(),
            final(self).directory_mode() == old(self).directory_mode(),
            final(self).history_root() == old(self).history_root(),
            r == !old(self).entries().contains_key(key@),
            !r ==> final(self).entries() == old(self).entries(),
            r ==> final(self).entries().dom() == old(self).entries().dom().insert(key@),
            r ==> forall|k: Seq<char>| k != key@ ==> #[trigger] final(self).entries()[k] == old(self).entries()[k],
            r ==> final(self).entries()[key@].path == path && final(self).entries()[key@].last_modified == modified
                && final(self).entries()[key@].html@ == html_of(content@),
    {
        if self.files.contains_key(key.as_str()) {
            return false;
        }
        let html = markdown_to_html(content);
        let ghost old_keys = self.keys@;
        self.keys.push(key.clone());
        self.files.insert(key, TrackedFile { path, last_modified: modified, html });
        proof {
            assert(strings_view(self.keys@) =~= strings_view(old_keys).push(key@));
            assert forall|k: Seq<char>| self.files@.contains_key(k) <==> strings_view(self.keys@).contains(k) by {
                if strings_view(old_keys).contains(k) {
                    let i = choose|i: int| 0 <= i < old_keys.len() && strings_view(old_keys)[i] == k;
                    assert(strings_view(self.keys@)[i] == k);
                }
                if strings_view(self.keys@).contains(k) && k != key@ {
                    let i = choose|i: int| 0 <= i < self.keys@.len() && strings_view(self.keys@)[i] == k;
                    assert(strings_view(old_keys)[i] == k);
                }
                if k == key@ {
                    assert(strings_view(self.keys@)[old_keys.len() as int] == k);
                }
            }
            assert forall|i: int, j: int| 0 <= i < j < self.keys@.len() implies self.keys@[i]@ != self.keys@[j]@ by {
                if j == old_keys.len() {
                    assert(strings_view(old_keys)[i] == old_keys[i]@);
                }
            }
            assert(self.files@.dom() =~= old(self).files@.dom().insert(key@));
        }
        true
    }

    /// Stops tracking the file under `key`. Returns whether it was tracked.
    pub fn remove_tracked_file(&mut self, key: &str) -> (r: bool)
        requires
            old(self).wf(),
        ensures
            final(self).wf(),
            final(self).base() == old(self).base(),
            final(self).directory_mode() == old(self).directory_mode(),
            final(self).history_root() == old(self).history_root(),
            r == old(self).entries().contains_key(key@),
            final(self).entries() == old(self).entries().remove(key@),
    {
        let present = self.files.contains_key(key);
        self.files.remove(key);
        let k = key.to_string();
        let ghost old_keys = self.keys@;
        match index_of_key(&self.keys, &k) {
            Some(i) => {
                self.keys.remove(i);
                proof {
                    assert forall|m: Seq<char>| self.files@.contains_key(m) <==> strings_view(self.keys@).contains(m) by {
                        if strings_view(old_keys).contains(m) && m != key@ {
                            let j = choose|j: int| 0 <= j < old_keys.len() && strings_view(old_keys)[j] == m;
                            if j < i {
                                assert(strings_view(self.keys@)[j] == m);
                            } else {
                                assert(j != i);
                                assert(strings_view(self.keys@)[j - 1] == m);
                            }
                        }
                        if strings_view(self.keys@).contains(m) {
                            let j = choose|j: int| 0 <= j < self.keys@.len() && strings_view(self.keys@)[j] == m;
                            if j < i {
                                assert(strings_view(old_keys)[j] == m);
                                assert(old_keys[j]@ != old_keys[i as int]@);
                            } else {
                                assert(strings_view(old_keys)[j + 1] == m);
                                assert(old_keys[j + 1]@ != old_keys[i as int]@);
                            }
                        }
                    }
                    assert forall|a: int, b: int| 0 <= a < b < self.keys@.len() implies self.keys@[a]@ != self.keys@[b]@ by {
                        if a < i && b < i {
                        } else if a < i {
                            assert(self.keys@[b] == old_keys[b + 1]);
                        } else {
                            assert(self.keys@[a] == old_keys[a + 1]);
                            assert(self.keys@[b] == old_keys[b + 1]);
                        }
                    }
                }
            },
            None => {
                proof {
                    assert forall|m: Seq<char>| self.files@.contains_key(m) <==> strings_view(self.keys@).contains(m) by {
                        if strings_view(self.keys@).contains(m) {
                            let j = choose|j: int| 0 <= j < self.keys@.len() && strings_view(self.keys@)[j] == m;
                            assert(self.keys@[j]@ != key@);
                        }
                    }
                }
            },
        }
        proof {
            assert(self.files@.dom() =~= old(self).files@.dom().remove(key@));
        }
        present
    }
}

} // verus!
