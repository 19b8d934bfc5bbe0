//! The rules of the file API: which paths a request may name, what is
//! answered when it may not, and how edit history is laid out and listed.
use vstd::prelude::*;
use crate::order::{keyed_view, lemma_sort_by_key_len, lemma_sort_desc_by_key_descending, sort_by_key, sort_desc_by_key, stable_sort_by_key, stable_sort_desc_by_key};
use crate::paths::{extension, file_stem, is_markdown_file, is_markdown_path, join, join_path, path_extension, path_file_stem};
use crate::state::{path_strip_prefix, strip_path_prefix};
use crate::text::{chars_of, contains_seq, eq_ignore_ascii_case, opt_view, push_char, str_contains, string_from_chars, sub_chars};

verus! {

/// A refused request: the HTTP status it is answered with and the reason.
#[derive(Debug, Clone)]
pub struct ApiError {
    pub status: u16,
    pub message: String,
}

/// A refusal as plain values.
pub struct ErrorView {
    pub status: u16,
    pub message: Seq<char>,
}

impl View for ApiError {
    type V = ErrorView;

    open spec fn view(&self) -> ErrorView {
        ErrorView { status: self.status, message: self.message@ }
    }
}

/// A refusal with the given status and reason.
pub open spec fn refusal(status: u16, message: Seq<char>) -> ErrorView {
    ErrorView { status, message }
}

fn error(status: u16, message: &str) -> (r: ApiError)
    ensures
        r@ == refusal(status, message@),
{
    ApiError { status, message: String::from_str(message) }
}

/// `path` lies at or below `base`, whole components compared.
pub open spec fn lies_within(path: Seq<char>, base: Seq<char>) -> bool {
    path_strip_prefix(path, base) is Some
}

/// The result of checking a path that names an existing file: the resolved
/// path, or the refusal. `resolved` is where `base/relative` resolves on disk,
/// `None` where it does not exist.
pub open spec fn existing_path_check(
    base: Seq<char>,
    relative: Seq<char>,
    resolved: Option<Seq<char>>,
) -> Result<Seq<char>, ErrorView> {
    if contains_seq(relative, ".."@) {
        Err(refusal(403, "path traversal not allowed"@))
    } else {
        match resolved {
            None => Err(refusal(404, "file not found"@)),
            Some(c) => if lies_within(c, base) {
                Ok(c)
            } else {
                Err(refusal(403, "path outside base directory"@))
            },
        }
    }
}

/// The result of checking a path for a file to be made.
pub open spec fn new_path_check(base: Seq<char>, relative: Seq<char>) -> Result<Seq<char>, ErrorView> {
    if contains_seq(relative, ".."@) {
        Err(refusal(403, "path traversal not allowed"@))
    } else if !is_markdown_path(join(base, relative)) {
        Err(refusal(400, "only .md and .markdown extensions allowed"@))
    } else {
        Ok(join(base, relative))
    }
}

/// A result with a string as a result with plain values.
pub open spec fn result_view(r: Result<String, ApiError>) -> Result<Seq<char>, ErrorView> {
    match r {
        Ok(s) => Ok(s@),
        Err(e) => Err(e@),
    }
}

/// Checks a path that names an existing file below `base`: no `..`, it
/// exists, and it resolves to a place below `base`.
pub fn validate_existing_path(base: &str, relative: &str, resolved: Option<String>) -> (r: Result<String, ApiError>)
    ensures
        result_view(r) == existing_path_check(base@, relative@, opt_view(resolved)),
{
    if str_contains(relative, "..") {
        return Err(error(403, "path traversal not allowed"));
    }
    match resolved {
        None => Err(error(404, "file not found")),
        Some(c) => {
            if strip_path_prefix(c.as_str(), base).is_some() {
                Ok(c)
            } else {
                Err(error(403, "path outside base directory"))
            }
        },
    }
}

/// Checks a path for a markdown file to be made below `base`.
pub fn validate_new_path(base: &str, relative: &str) -> (r: Result<String, ApiError>)
    ensures
        result_view(r) == new_path_check(base@, relative@),
{
    if str_contains(relative, "..") {
        return Err(error(403, "path traversal not allowed"));
    }
    let full = join_path(base, relative);
    if !is_markdown_file(full.as_str()) {
        return Err(error(400, "only .md and .markdown extensions allowed"));
    }
    Ok(full)
}

/// The refusal for a path that names no tracked file.
pub fn not_tracked_error() -> (r: ApiError)
    ensures
        r@ == refusal(404, "file not tracked"@),
{
    error(404, "file not tracked")
}

/// The refusal for moving onto an existing file.
pub fn target_exists_error() -> (r: ApiError)
    ensures
        r@ == refusal(409, "target already exists"@),
{
    error(409, "target already exists")
}

/// The refusal for creating an existing file.
pub fn file_exists_error() -> (r: ApiError)
    ensures
        r@ == refusal(409, "file already exists"@),
{
    error(409, "file already exists")
}

/// The refusal where no edit history is kept.
pub fn history_unavailable_error() -> (r: ApiError)
    ensures
        r@ == refusal(404, "history not available"@),
{
    error(404, "history not available")
}

/// The refusal for an unknown snapshot.
pub fn version_not_found_error() -> (r: ApiError)
    ensures
        r@ == refusal(404, "version not found"@),
{
    error(404, "version not found")
}

/// The refusal for a file that could not be read.
pub fn read_failed_error() -> (r: ApiError)
    ensures
        r@ == refusal(500, "failed to read file"@),
{
    error(500, "failed to read file")
}

/// The refusal for an operation on disk that failed: the action and the
/// error the system reported.
pub fn io_error(action: &str, detail: &str) -> (r: ApiError)
    ensures
        r@ == refusal(500, action@ + ": "@ + detail@),
{
    let mut m = String::from_str(action);
    m.append(": ");
    m.append(detail);
    ApiError { status: 500, message: m }
}

/// The check on a request that names a tracked file (to read, save or
/// delete it): the path must pass `existing_path_check`, then name a tracked
/// file; `known` says whether it is.
pub open spec fn tracked_file_check(
    base: Seq<char>,
    relative: Seq<char>,
    resolved: Option<Seq<char>>,
    known: bool,
) -> Result<Seq<char>, ErrorView> {
    match existing_path_check(base, relative, resolved) {
        Err(e) => Err(e),
        Ok(c) => if known {
            Ok(c)
        } else {
            Err(refusal(404, "file not tracked"@))
        },
    }
}

/// Checks a request that names a tracked file; `known` says whether a file
/// is tracked under `relative`.
pub fn check_tracked_file(base: &str, relative: &str, resolved: Option<String>, known: bool) -> (r: Result<String, ApiError>)
    ensures
        result_view(r) == tracked_file_check(base@, relative@, opt_view(resolved), known),
{
    match validate_existing_path(base, relative, resolved) {
        Err(e) => Err(e),
        Ok(c) => if known {
            Ok(c)
        } else {
            Err(not_tracked_error())
        },
    }
}

/// The check on a move: the source must pass `existing_path_check`, the
/// target `new_path_check`; then the source must be tracked and the target
/// must not exist. Gives the resolved source and the full target.
pub open spec fn move_check(
    base: Seq<char>,
    source: Seq<char>,
    resolved: Option<Seq<char>>,
    target: Seq<char>,
    known: bool,
    target_exists: bool,
) -> Result<(Seq<char>, Seq<char>), ErrorView> {
    match existing_path_check(base, source, resolved) {
        Err(e) => Err(e),
        Ok(from) => match new_path_check(base, target) {
            Err(e) => Err(e),
            Ok(to) => if !known {
                Err(refusal(404, "file not tracked"@))
            } else if target_exists {
                Err(refusal(409, "target already exists"@))
            } else {
                Ok((from, to))
            },
        },
    }
}

/// Checks a move. `resolved` is where the source resolves on disk, `known`
/// whether it is tracked, `target_exists` whether `base/target` exists.
pub fn check_move(
    base: &str,
    source: &str,
    resolved: Option<String>,
    target: &str,
    known: bool,
    target_exists: bool,
) -> (r: Result<(String, String), ApiError>)
    ensures
        match r {
            Ok((from, to)) => move_check(base@, source@, opt_view(resolved), target@, known, target_exists)
                == Ok::<(Seq<char>, Seq<char>), ErrorView>((from@, to@)),
            Err(e) => move_check(base@, source@, opt_view(resolved), target@, known, target_exists)
                == Err::<(Seq<char>, Seq<char>), ErrorView>(e@),
        },
{
    let from = match validate_existing_path(base, source, resolved) {
        Err(e) => {
            return Err(e);
        },
        Ok(c) => c,
    };
    let to = match validate_new_path(base, target) {
        Err(e) => {
            return Err(e);
        },
        Ok(t) => t,
    };
    if !known {
        Err(not_tracked_error())
    } else if target_exists {
        Err(target_exists_error())
    } else {
        Ok((from, to))
    }
}

/// The check on creating a file: the path must pass `new_path_check` and the
/// file must not exist yet.
pub open spec fn create_check(base: Seq<char>, relative: Seq<char>, exists: bool) -> Result<Seq<char>, ErrorView> {
    match new_path_check(base, relative) {
        Err(e) => Err(e),
        Ok(t) => if exists {
            Err(refusal(409, "file already exists"@))
        } else {
            Ok(t)
        },
    }
}

/// Checks a request to create a file; `exists` says whether `base/relative` exists.
pub fn check_create(base: &str, relative: &str, exists: bool) -> (r: Result<String, ApiError>)
    ensures
        result_view(r) == create_check(base@, relative@, exists),
{
    match validate_new_path(base, relative) {
        Err(e) => Err(e),
        Ok(t) => if exists {
            Err(file_exists_error())
        } else {
            Ok(t)
        },
    }
}

/// The content a new file starts with when none is given: a heading with its stem.
pub open spec fn default_content(full: Seq<char>) -> Seq<char> {
    let stem = match file_stem(full) {
        Some(s) => s,
        None => "new"@,
    };
    "# "@ + stem + "\n"@
}

/// The content a new file starts with when none is given.
pub fn default_new_file_content(full: &str) -> (r: String)
    ensures
        r@ == default_content(full@),
{
    let stem = match path_file_stem(full) {
        Some(s) => s,
        None => String::from_str("new"),
    };
    let mut r = String::from_str("# ");
    r.append(stem.as_str());
    r.append("\n");
    r
}

/// The directory holding the snapshots of `relative`.
pub open spec fn history_dir_of(mdlive: Seq<char>, relative: Seq<char>) -> Seq<char> {
    join(join(mdlive, "history"@), relative)
}

/// The directory holding the snapshots of `relative`.
pub fn history_dir(mdlive: &str, relative: &str) -> (r: String)
    ensures
        r@ == history_dir_of(mdlive@, relative@),
{
    let h = join_path(mdlive, "history");
    join_path(h.as_str(), relative)
}

/// The snapshot of `relative` taken at `timestamp`.
pub open spec fn snapshot_path_of(mdlive: Seq<char>, relative: Seq<char>, timestamp: Seq<char>) -> Seq<char> {
    join(history_dir_of(mdlive, relative), timestamp + ".md"@)
}

/// The snapshot of `relative` taken at `timestamp`.
pub fn snapshot_path(mdlive: &str, relative: &str, timestamp: &str) -> (r: String)
    ensures
        r@ == snapshot_path_of(mdlive@, relative@, timestamp@),
{
    let d = history_dir(mdlive, relative);
    let mut name = String::from_str(timestamp);
    name.append(".md");
    join_path(d.as_str(), name.as_str())
}

/// How many snapshots of a file are kept.
pub const SNAPSHOT_LIMIT: usize = 20;

/// The first line of a text as `str::lines` gives it: up to the first line
/// feed, without a carriage return before it; empty for an empty text.
pub open spec fn first_line(c: Seq<char>) -> Seq<char> {
    let i = first_index_of(c, '\n');
    if i < 0 {
        c
    } else if i > 0 && c[i - 1] == '\r' {
        c.take(i - 1)
    } else {
        c.take(i)
    }
}

/// Index of the first `x` in `c`, or -1.
pub open spec fn first_index_of(c: Seq<char>, x: char) -> int
    decreases c.len(),
{
    if c.len() == 0 {
        -1
    } else if c[0] == x {
        0
    } else {
        let r = first_index_of(c.skip(1), x);
        if r < 0 {
            -1
        } else {
            r + 1
        }
    }
}

/// `first_index_of` finds the first occurrence of `x`, or -1 where there is none.
pub proof fn lemma_first_index_of(c: Seq<char>, x: char)
    ensures
        -1 <= first_index_of(c, x) < c.len(),
        first_index_of(c, x) >= 0 ==> c[first_index_of(c, x)] == x,
        forall|j: int| 0 <= j < c.len() && (first_index_of(c, x) < 0 || j < first_index_of(c, x)) ==> c[j] != x,
    decreases c.len(),
{
    if c.len() > 0 && c[0] != x {
        lemma_first_index_of(c.skip(1), x);
        assert forall|j: int| 0 <= j < c.len() && (first_index_of(c, x) < 0 || j < first_index_of(c, x)) implies c[j] != x by {
            if j > 0 {
                assert(c[j] == c.skip(1)[j - 1]);
            }
        }
    }
}

/// The preview of a snapshot: the first 80 characters of its first line.
pub open spec fn preview_of(content: Seq<char>) -> Seq<char> {
    let l = first_line(content);
    if l.len() > 80 {
        l.take(80)
    } else {
        l
    }
}

/// A preview is the start of the text's first line: at most 80 characters,
/// each equal to the text's character at the same place and none a line feed;
/// shorter than 80 only where the line ends there (at the end of the text, at
/// a line feed, or at a carriage return before one), and never ending in a
/// carriage return that belongs to the line break.
pub proof fn lemma_preview_is_start_of_first_line(c: Seq<char>)
    ensures
        preview_of(c).len() <= 80,
        forall|i: int| 0 <= i < preview_of(c).len() ==> #[trigger] preview_of(c)[i] == c[i] && c[i] != '\n',
        preview_of(c).len() < 80 ==> {
            let n = preview_of(c).len() as int;
            ||| n == c.len()
            ||| c[n] == '\n' && !(n > 0 && c[n - 1] == '\r')
            ||| c[n] == '\r' && n + 1 < c.len() && c[n + 1] == '\n'
        },
        preview_of(c).len() == 80 ==> !(c.len() > 80 && c[79] == '\r' && c[80] == '\n'),
        preview_of(c) == first_line(c).take(if first_line(c).len() < 80 { first_line(c).len() as int } else { 80 }),
{
    lemma_first_index_of(c, '\n');
    let k = first_index_of(c, '\n');
    let l = first_line(c);
    let p = preview_of(c);
    assert(l.len() <= c.len());
    assert forall|i: int| 0 <= i < l.len() implies #[trigger] l[i] == c[i] && c[i] != '\n' by {}
    assert forall|i: int| 0 <= i < p.len() implies #[trigger] p[i] == c[i] && c[i] != '\n' by {
        assert(p[i] == l[i]);
    }
    if l.len() > 80 {
        assert(p =~= l.take(80));
    } else {
        assert(p =~= l.take(l.len() as int));
    }
    if p.len() == 80 && c.len() > 80 && c[79] == '\r' && c[80] == '\n' {
        assert(k == 80);
        assert(l.len() == 79);
    }
}

/// An entry of a file's edit history.
#[derive(Debug, Clone)]
pub struct HistoryEntry {
    pub timestamp: String,
    pub preview: String,
}

pub(crate) fn find_char(v: &Vec<char>, x: char) -> (r: usize)
    ensures
        r <= v.len(),
        r < v.len() ==> first_index_of(v@, x) == r,
        r == v.len() ==> first_index_of(v@, x) == -1,
{
    proof {
        lemma_first_index_of(v@, x);
    }
    let mut i: usize = 0;
    while i < v.len()
        invariant
            i <= v.len(),
            forall|j: int| 0 <= j < i ==> v@[j] != x,
            -1 <= first_index_of(v@, x) < v@.len(),
            first_index_of(v@, x) >= 0 ==> v@[first_index_of(v@, x)] == x,
            forall|j: int|
                0 <= j < v@.len() && (first_index_of(v@, x) < 0 || j < first_index_of(v@, x)) ==> v@[j] != x,
        decreases v.len() - i,
    {
        if v[i] == x {
            return i;
        }
        i += 1;
    }
    i
}

/// The preview of a snapshot.
pub fn snapshot_preview(content: &str) -> (r: String)
    ensures
        r@ == preview_of(content@),
{
    let v = chars_of(content);
    proof {
        lemma_first_index_of(v@, '\n');
    }
    let end = find_char(&v, '\n');
    assert(end < v.len() ==> first_index_of(v@, '\n') == end);
    assert(end == v.len() ==> first_index_of(v@, '\n') == -1);
    let mut stop = end;
    if end < v.len() && end > 0 && v[end - 1] == '\r' {
        stop = end - 1;
    }
    assert(v@.take(stop as int) =~= v@.subrange(0, stop as int));
    if stop > 80 {
        stop = 80;
    }
    let line = sub_chars(v.as_slice(), 0, stop);
    proof {
        let l = first_line(v@);
        assert(line@ =~= preview_of(v@));
    }
    string_from_chars(line.as_slice())
}

/// The history entry for a snapshot file with the given content: only files
/// with the extension `md` are snapshots; the timestamp is the file's stem.
pub open spec fn history_entry_of(path: Seq<char>, content: Seq<char>) -> Option<(Seq<char>, Seq<char>)> {
    if extension(path) == Some("md"@) {
        let ts = match file_stem(path) {
            Some(s) => s,
            None => Seq::empty(),
        };
        Some((ts, preview_of(content)))
    } else {
        None
    }
}

/// Whether the path's extension is `md`.
fn has_md_extension(path: &str) -> (r: bool)
    ensures
        r == (extension(path@) == Some("md"@)),
{
    match path_extension(path) {
        Some(e) => {
            let a = chars_of(e.as_str());
            let b = chars_of("md");
            crate::text::chars_eq(a.as_slice(), b.as_slice())
        },
        None => false,
    }
}

/// The snapshots among the files of a history directory: those whose
/// extension is `md`, in the order listed.
pub open spec fn snapshot_files_of(paths: Seq<String>) -> Seq<String>
    decreases paths.len(),
{
    if paths.len() == 0 {
        Seq::empty()
    } else {
        let rest = snapshot_files_of(paths.drop_last());
        if extension(paths.last()@) == Some("md"@) {
            rest.push(paths.last())
        } else {
            rest
        }
    }
}

/// The snapshots among the files of a history directory.
pub fn snapshot_files(paths: &Vec<String>) -> (r: Vec<String>)
    ensures
        r@ == snapshot_files_of(paths@),
{
    let mut r: Vec<String> = Vec::new();
    let mut i: usize = 0;
    while i < paths.len()
        invariant
            i <= paths.len(),
            r@ == snapshot_files_of(paths@.take(i as int)),
        decreases paths.len() - i,
    {
        proof {
            assert(paths@.take(i + 1).drop_last() =~= paths@.take(i as int));
            assert(paths@.take(i + 1).last() == paths@[i as int]);
        }
        if has_md_extension(paths[i].as_str()) {
            r.push(paths[i].clone());
        }
        i += 1;
    }
    assert(paths@.take(paths.len() as int) =~= paths@);
    r
}

/// Where the snapshot of `relative` taken at `timestamp` is read from to be
/// restored: the refusal where no edit history is kept.
pub open spec fn restore_source_of(
    history_root: Option<Seq<char>>,
    relative: Seq<char>,
    timestamp: Seq<char>,
) -> Result<Seq<char>, ErrorView> {
    match history_root {
        None => Err(refusal(404, "history not available"@)),
        Some(m) => Ok(snapshot_path_of(m, relative, timestamp)),
    }
}

/// Where the snapshot to restore is read from.
pub fn restore_source(history_root: Option<String>, relative: &str, timestamp: &str) -> (r: Result<String, ApiError>)
    ensures
        result_view(r) == restore_source_of(opt_view(history_root), relative@, timestamp@),
{
    match history_root {
        None => Err(history_unavailable_error()),
        Some(m) => Ok(snapshot_path(m.as_str(), relative, timestamp)),
    }
}

/// The answer to a restore once the snapshot was read (`None` where it could
/// not be): its text, or the refusal for an unknown version.
pub fn restored_content(read: Option<String>) -> (r: Result<String, ApiError>)
    ensures
        result_view(r) == match opt_view(read) {
            Some(c) => Ok(c),
            None => Err(refusal(404, "version not found"@)),
        },
{
    match read {
        Some(c) => Ok(c),
        None => Err(version_not_found_error()),
    }
}

/// The history entry for a snapshot file with the given content.
pub fn history_entry(path: &str, content: &str) -> (r: Option<HistoryEntry>)
    ensures
        match r {
            Some(e) => history_entry_of(path@, content@) == Some((e.timestamp@, e.preview@)),
            None => history_entry_of(path@, content@) is None,
        },
{
    if !has_md_extension(path) {
        return None;
    }
    let timestamp = match path_file_stem(path) {
        Some(s) => s,
        None => String::new(),
    };
    Some(HistoryEntry { timestamp, preview: snapshot_preview(content) })
}

/// History entries keyed by their timestamps.
pub open spec fn keyed_by_timestamp(s: Seq<HistoryEntry>) -> Seq<(Seq<char>, HistoryEntry)> {
    s.map_values(|e: HistoryEntry| (e.timestamp@, e))
}

/// The payloads of a keyed sequence.
pub open spec fn payloads<T>(s: Seq<(Seq<char>, T)>) -> Seq<T> {
    s.map_values(|e: (Seq<char>, T)| e.1)
}

/// Orders history entries newest first (by descending timestamp text),
/// entries with equal timestamps staying in their order.
pub fn sort_history_newest_first(entries: Vec<HistoryEntry>) -> (r: Vec<HistoryEntry>)
    ensures
        r@ == payloads(sort_desc_by_key(keyed_by_timestamp(entries@))),
{
    let ghost orig = entries@;
    let mut rest = entries;
    let mut keyed: Vec<(Vec<char>, HistoryEntry)> = Vec::new();
    let ghost mut j: int = 0;
    while rest.len() > 0
        invariant
            0 <= j <= orig.len(),
            rest@ == orig.skip(j),
            keyed_view(keyed@) == keyed_by_timestamp(orig.take(j)),
            keyed.len() == j,
        decreases rest.len(),
    {
        let e = rest.remove(0);
        proof {
            assert(orig[j] == e);
            assert(rest@ =~= orig.skip(j + 1));
        }
        let k = chars_of(e.timestamp.as_str());
        let ghost old_keyed = keyed@;
        keyed.push((k, e));
        proof {
            assert forall|t: int| 0 <= t < j + 1 implies #[trigger] keyed_view(keyed@)[t] == keyed_by_timestamp(orig.take(j + 1))[t] by {
                if t < j {
                    assert(keyed@[t] == old_keyed[t]);
                    assert(keyed_view(old_keyed)[t] == keyed_by_timestamp(orig.take(j))[t]);
                }
            }
            assert(keyed_view(keyed@) =~= keyed_by_timestamp(orig.take(j + 1)));
            j = j + 1;
        }
    }
    assert(orig.take(j) =~= orig);
    let mut sorted = stable_sort_desc_by_key(keyed);
    let ghost sv = keyed_view(sorted@);
    let mut out: Vec<HistoryEntry> = Vec::new();
    let ghost mut k: int = 0;
    while sorted.len() > 0
        invariant
            0 <= k <= sv.len(),
            keyed_view(sorted@) == sv.skip(k),
            out@ == payloads(sv.take(k)),
        decreases sorted.len(),
    {
        let ghost before = sorted@;
        assert(keyed_view(before).len() == before.len());
        let e = sorted.remove(0);
        proof {
            assert(keyed_view(before)[0] == sv.skip(k)[0]);
            assert forall|t: int| 0 <= t < sorted@.len() implies #[trigger] keyed_view(sorted@)[t] == sv.skip(k + 1)[t] by {
                assert(sorted@[t] == before[t + 1]);
                assert(keyed_view(before)[t + 1] == sv.skip(k)[t + 1]);
            }
            assert(keyed_view(sorted@) =~= sv.skip(k + 1));
        }
        out.push(e.1);
        proof {
            assert(out@ =~= payloads(sv.take(k + 1)));
            k = k + 1;
        }
    }
    assert(sv.take(k) =~= sv);
    out
}

/// Snapshot files keyed by their paths.
pub open spec fn keyed_by_path(s: Seq<String>) -> Seq<(Seq<char>, String)> {
    s.map_values(|f: String| (f@, f))
}

/// The snapshots to delete so that only the newest `SNAPSHOT_LIMIT` remain:
/// none while there are at most that many, otherwise the ones that sort first.
pub open spec fn snapshots_to_prune(files: Seq<String>) -> Seq<String> {
    if files.len() <= SNAPSHOT_LIMIT {
        Seq::empty()
    } else {
        payloads(sort_by_key(keyed_by_path(files))).take(files.len() - SNAPSHOT_LIMIT)
    }
}

/// The snapshots to delete so that only the newest `SNAPSHOT_LIMIT` remain.
pub fn prune_snapshots(files: &Vec<String>) -> (r: Vec<String>)
    ensures
        r@ == snapshots_to_prune(files@),
{
    if files.len() <= SNAPSHOT_LIMIT {
        let r: Vec<String> = Vec::new();
        assert(r@ =~= snapshots_to_prune(files@));
        return r;
    }
    let mut keyed: Vec<(Vec<char>, String)> = Vec::new();
    let mut i: usize = 0;
    while i < files.len()
        invariant
            i <= files.len(),
            keyed_view(keyed@) == keyed_by_path(files@.take(i as int)),
            keyed.len() == i,
        decreases files.len() - i,
    {
        let f = files[i].clone();
        let k = chars_of(f.as_str());
        let ghost old_keyed = keyed@;
        keyed.push((k, f));
        proof {
            assert forall|t: int| 0 <= t < i + 1 implies #[trigger] keyed_view(keyed@)[t] == keyed_by_path(files@.take(i + 1))[t] by {
                if t < i {
                    assert(keyed@[t] == old_keyed[t]);
                    assert(keyed_view(old_keyed)[t] == keyed_by_path(files@.take(i as int))[t]);
                }
            }
            assert(keyed_view(keyed@) =~= keyed_by_path(files@.take(i + 1)));
        }
        i += 1;
    }
    assert(files@.take(files.len() as int) =~= files@);
    let ghost kv = keyed_by_path(files@);
    let sorted = stable_sort_by_key(keyed);
    proof {
        lemma_sort_by_key_len(kv);
    }
    let count = files.len() - SNAPSHOT_LIMIT;
    let mut out: Vec<String> = Vec::new();
    let mut j: usize = 0;
    while j < count
        invariant
            j <= count,
            count == files.len() - SNAPSHOT_LIMIT,
            count <= sorted.len(),
            keyed_view(sorted@) == sort_by_key(kv),
            out@ == payloads(sort_by_key(kv)).take(j as int),
        decreases count - j,
    {
        let f = sorted[j].1.clone();
        proof {
            assert(keyed_view(sorted@)[j as int].1 == sorted@[j as int].1);
        }
        out.push(f);
        proof {
            assert(out@ =~= payloads(sort_by_key(kv)).take(j + 1));
        }
        j += 1;
    }
    out
}

/// A path that passes the checks has no `..` in it and lies below the base
/// directory; a path for a new file has no `..` and names a markdown file.
pub proof fn lemma_checked_paths_stay_inside(base: Seq<char>, relative: Seq<char>, resolved: Option<Seq<char>>)
    ensures
        existing_path_check(base, relative, resolved) matches Ok(c) ==> !contains_seq(relative, ".."@)
            && resolved == Some(c) && lies_within(c, base),
        new_path_check(base, relative) matches Ok(f) ==> !contains_seq(relative, ".."@) && f == join(
            base,
            relative,
        ) && is_markdown_path(f),
        contains_seq(relative, ".."@) ==> existing_path_check(base, relative, resolved) == Err::<Seq<char>, ErrorView>(
            refusal(403, "path traversal not allowed"@),
        ) && new_path_check(base, relative) == Err::<Seq<char>, ErrorView>(refusal(403, "path traversal not allowed"@)),
{
}

/// A move or a creation that passes its check stays inside the workspace:
/// no `..` in the names, a source that resolves below the base and is tracked,
/// a markdown target below the base that does not exist yet.
pub proof fn lemma_accepted_changes_stay_inside(
    base: Seq<char>,
    source: Seq<char>,
    resolved: Option<Seq<char>>,
    target: Seq<char>,
    known: bool,
    target_exists: bool,
)
    ensures
        move_check(base, source, resolved, target, known, target_exists) matches Ok((from, to)) ==> {
            &&& !contains_seq(source, ".."@) && !contains_seq(target, ".."@)
            &&& resolved == Some(from) && lies_within(from, base)
            &&& to == join(base, target) && is_markdown_path(to)
            &&& known && !target_exists
        },
        create_check(base, target, target_exists) matches Ok(to) ==> !contains_seq(target, ".."@) && to == join(
            base,
            target,
        ) && is_markdown_path(to) && !target_exists,
        tracked_file_check(base, source, resolved, known) matches Ok(c) ==> known && resolved == Some(c)
            && lies_within(c, base),
{
}

/// The checks for a new file accept every markdown name: a path without `..`
/// whose extension is `md` or `markdown` in any ASCII case is accepted as
/// `base` joined with it (a creation too, where nothing is there yet), and
/// one with another extension, or none, is refused with `400`.
pub proof fn lemma_markdown_targets_accepted(base: Seq<char>, relative: Seq<char>, exists_already: bool)
    requires
        !contains_seq(relative, ".."@),
    ensures
        (extension(join(base, relative)) matches Some(e) && (eq_ignore_ascii_case(e, "md"@) || eq_ignore_ascii_case(
            e,
            "markdown"@,
        ))) ==> {
            &&& new_path_check(base, relative) == Ok::<Seq<char>, ErrorView>(join(base, relative))
            &&& !exists_already ==> create_check(base, relative, exists_already) == Ok::<Seq<char>, ErrorView>(
                join(base, relative),
            )
        },
        !(extension(join(base, relative)) matches Some(e) && (eq_ignore_ascii_case(e, "md"@) || eq_ignore_ascii_case(
            e,
            "markdown"@,
        ))) ==> new_path_check(base, relative) == Err::<Seq<char>, ErrorView>(
            refusal(400, "only .md and .markdown extensions allowed"@),
        ),
{
}

/// Pruning leaves at most `SNAPSHOT_LIMIT` snapshots: it deletes exactly the
/// surplus, and only snapshots that exist.
pub proof fn lemma_prune_keeps_limit(files: Seq<String>)
    ensures
        snapshots_to_prune(files).len() == if files.len() > SNAPSHOT_LIMIT {
            files.len() - SNAPSHOT_LIMIT
        } else {
            0
        },
        forall|i: int| 0 <= i < snapshots_to_prune(files).len() ==> files.contains(#[trigger] snapshots_to_prune(files)[i]),
{
    if files.len() > SNAPSHOT_LIMIT {
        let kv = keyed_by_path(files);
        lemma_sort_by_key_len(kv);
        crate::order::lemma_sort_by_key_elements(kv);
        let sorted = sort_by_key(kv);
        assert forall|i: int| 0 <= i < snapshots_to_prune(files).len() implies files.contains(#[trigger] snapshots_to_prune(files)[i]) by {
            assert(snapshots_to_prune(files)[i] == sorted[i].1);
            assert(kv.contains(sorted[i]));
            let k = choose|k: int| 0 <= k < kv.len() && kv[k] == sorted[i];
            assert(files[k] == kv[k].1);
        }
    }
}

/// The history is listed newest first: timestamps never increase along the list.
pub proof fn lemma_history_newest_first(entries: Seq<HistoryEntry>)
    ensures
        ({
            let l = payloads(sort_desc_by_key(keyed_by_timestamp(entries)));
            &&& l.len() == entries.len()
            &&& forall|i: int, j: int| 0 <= i < j < l.len() ==> !crate::order::lex_lt(#[trigger] l[i].timestamp@, #[trigger] l[j].timestamp@)
        }),
{
    let kv = keyed_by_timestamp(entries);
    lemma_sort_desc_by_key_descending(kv);
    let sorted = sort_desc_by_key(kv);
    crate::order::lemma_sort_desc_by_key_elements(kv);
    let l = payloads(sorted);
    assert forall|i: int| 0 <= i < sorted.len() implies (#[trigger] sorted[i]).0 == sorted[i].1.timestamp@ by {
        assert(kv.contains(sorted[i]));
    }
    assert forall|i: int, j: int| 0 <= i < j < l.len() implies !crate::order::lex_lt(#[trigger] l[i].timestamp@, #[trigger] l[j].timestamp@) by {
        assert(l[i] == sorted[i].1);
        assert(l[j] == sorted[j].1);
        assert(!crate::order::lex_lt(sorted[i].0, sorted[j].0));
    }
}

} // verus!
