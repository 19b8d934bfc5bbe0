//! Switching the served workspace and browsing for one.
use vstd::prelude::*;
use crate::api::{payloads, refusal, ApiError, ErrorView};
use crate::order::{keyed_view, sort_by_key, stable_sort_by_key};
use crate::paths::{ext_is, extension, is_supported_file, is_supported_path, join, join_path};
use crate::text::{chars_of, opt_view, starts_with, str_starts_with, sub_chars, string_from_chars};
use crate::tree::{to_lowercase, unicode_lowercase};

verus! {

/// `raw` with a leading `~` replaced by the home directory, where there is one.
pub open spec fn expanded(raw: Seq<char>, home: Option<Seq<char>>) -> Seq<char> {
    if raw.len() > 0 && raw[0] == '~' {
        let rest = raw.skip(1);
        match home {
            Some(h) => join(h, if rest.len() > 0 && rest[0] == '/' { rest.skip(1) } else { rest }),
            None => raw,
        }
    } else {
        raw
    }
}

/// `raw` with a leading `~` replaced by the home directory, where there is one.
pub fn expand_tilde(raw: &str, home: Option<String>) -> (r: String)
    ensures
        r@ == expanded(raw@, opt_view(home)),
{
    let v = chars_of(raw);
    if v.len() > 0 && v[0] == '~' {
        match home {
            Some(h) => {
                let from: usize = if v.len() > 1 && v[1] == '/' { 2 } else { 1 };
                let rest = sub_chars(v.as_slice(), from, v.len());
                let rest_s = string_from_chars(rest.as_slice());
                proof {
                    let r1 = v@.skip(1);
                    if v.len() > 1 && v@[1] == '/' {
                        assert(r1[0] == '/');
                        assert(rest@ =~= r1.skip(1));
                    } else {
                        assert(rest@ =~= r1);
                    }
                }
                join_path(h.as_str(), rest_s.as_str())
            },
            None => raw.to_string(),
        }
    } else {
        raw.to_string()
    }
}

/// What a requested workspace path turned out to be on disk.
#[derive(Debug, Clone, Copy, PartialEq, Eq, Structural)]
pub enum TargetKind {
    File,
    Dir,
    Missing,
}

/// The workspace to switch to: its base directory, the files to track, and
/// whether a whole directory is served.
#[derive(Debug, Clone)]
pub struct WorkspacePlan {
    pub base_dir: String,
    pub files: Vec<String>,
    pub directory_mode: bool,
}

/// The workspace a request names, or the refusal. A file is served alone from
/// its directory `parent`; a directory is served with the supported files
/// that `scanned` found in it, and refused where there are none or the scan
/// failed; a missing path is refused.
pub open spec fn workspace_plan(
    kind: TargetKind,
    target: Seq<char>,
    parent: Seq<char>,
    scanned: Result<Seq<Seq<char>>, Seq<char>>,
) -> Result<(Seq<char>, Seq<Seq<char>>, bool), ErrorView> {
    match kind {
        TargetKind::File => Ok((parent, seq![target], false)),
        TargetKind::Dir => match scanned {
            Err(e) => Err(refusal(400, "failed to scan directory: "@ + e)),
            Ok(files) => if files.len() == 0 {
                Err(refusal(400, "no supported files found (.md, .txt, .json)"@))
            } else {
                Ok((target, files, true))
            },
        },
        TargetKind::Missing => Err(refusal(400, "path does not exist"@)),
    }
}

/// The views of a list of strings.
pub open spec fn strs(v: Seq<String>) -> Seq<Seq<char>> {
    v.map_values(|s: String| s@)
}

/// The workspace a request names, or the refusal: see `workspace_plan`.
pub fn plan_workspace(
    kind: TargetKind,
    target: String,
    parent: String,
    scanned: Result<Vec<String>, String>,
) -> (r: Result<WorkspacePlan, ApiError>)
    ensures
        match r {
            Ok(p) => workspace_plan(
                kind,
                target@,
                parent@,
                match scanned {
                    Ok(f) => Ok(strs(f@)),
                    Err(e) => Err(e@),
                },
            ) == Ok::<(Seq<char>, Seq<Seq<char>>, bool), ErrorView>((p.base_dir@, strs(p.files@), p.directory_mode)),
            Err(e) => workspace_plan(
                kind,
                target@,
                parent@,
                match scanned {
                    Ok(f) => Ok(strs(f@)),
                    Err(e) => Err(e@),
                },
            ) == Err::<(Seq<char>, Seq<Seq<char>>, bool), ErrorView>(e@),
        },
{
    match kind {
        TargetKind::File => {
            let mut files: Vec<String> = Vec::new();
            files.push(target);
            proof {
                assert(strs(files@) =~= seq![target@]);
            }
            Ok(WorkspacePlan { base_dir: parent, files, directory_mode: false })
        },
        TargetKind::Dir => match scanned {
            Err(e) => {
                let mut m = String::from_str("failed to scan directory: ");
                m.append(e.as_str());
                Err(ApiError { status: 400, message: m })
            },
            Ok(files) => {
                if files.len() == 0 {
                    Err(ApiError { status: 400, message: String::from_str("no supported files found (.md, .txt, .json)") })
                } else {
                    Ok(WorkspacePlan { base_dir: target, files, directory_mode: true })
                }
            },
        },
        TargetKind::Missing => Err(ApiError { status: 400, message: String::from_str("path does not exist") }),
    }
}

/// What the command line serves for a path given on it, or why it refuses:
/// a file alone from its directory `parent`; a directory with the supported
/// files that `scanned` found in it, refused where there are none or the scan
/// failed; anything else is refused.
pub open spec fn served_plan(
    kind: TargetKind,
    target: Seq<char>,
    parent: Seq<char>,
    scanned: Result<Seq<Seq<char>>, Seq<char>>,
) -> Result<(Seq<char>, Seq<Seq<char>>, bool), Seq<char>> {
    match kind {
        TargetKind::File => Ok((parent, seq![target], false)),
        TargetKind::Dir => match scanned {
            Err(e) => Err(e),
            Ok(files) => if files.len() == 0 {
                Err("No supported files found in directory (.md, .txt, .json)"@)
            } else {
                Ok((target, files, true))
            },
        },
        TargetKind::Missing => Err("Path must be a file or directory"@),
    }
}

/// What the command line serves for a path given on it: see `served_plan`.
pub fn plan_served_path(
    kind: TargetKind,
    target: String,
    parent: String,
    scanned: Result<Vec<String>, String>,
) -> (r: Result<WorkspacePlan, String>)
    ensures
        match r {
            Ok(p) => served_plan(
                kind,
                target@,
                parent@,
                match scanned {
                    Ok(f) => Ok(strs(f@)),
                    Err(e) => Err(e@),
                },
            ) == Ok::<(Seq<char>, Seq<Seq<char>>, bool), Seq<char>>((p.base_dir@, strs(p.files@), p.directory_mode)),
            Err(e) => served_plan(
                kind,
                target@,
                parent@,
                match scanned {
                    Ok(f) => Ok(strs(f@)),
                    Err(e) => Err(e@),
                },
            ) == Err::<(Seq<char>, Seq<Seq<char>>, bool), Seq<char>>(e@),
        },
{
    match kind {
        TargetKind::File => {
            let mut files: Vec<String> = Vec::new();
            files.push(target);
            proof {
                assert(strs(files@) =~= seq![target@]);
            }
            Ok(WorkspacePlan { base_dir: parent, files, directory_mode: false })
        },
        TargetKind::Dir => match scanned {
            Err(e) => Err(e),
            Ok(files) => {
                if files.len() == 0 {
                    Err(String::from_str("No supported files found in directory (.md, .txt, .json)"))
                } else {
                    Ok(WorkspacePlan { base_dir: target, files, directory_mode: true })
                }
            },
        },
        TargetKind::Missing => Err(String::from_str("Path must be a file or directory")),
    }
}

/// The name of a workspace mode as the API reports it.
pub fn mode_name(directory_mode: bool) -> (r: String)
    ensures
        r@ == (if directory_mode { "directory"@ } else { "file"@ }),
{
    if directory_mode {
        String::from_str("directory")
    } else {
        String::from_str("file")
    }
}

/// What a directory entry is.
#[derive(Debug, Clone, Copy, PartialEq, Eq, Structural)]
pub enum EntryKind {
    Dir,
    File,
    Other,
}

/// A directory entry as read from disk.
#[derive(Debug, Clone)]
pub struct RawEntry {
    pub name: String,
    pub path: String,
    pub kind: EntryKind,
}

/// A directory entry as the browser lists it.
#[derive(Debug, Clone)]
pub struct BrowseEntry {
    pub name: String,
    pub path: String,
    pub is_dir: bool,
}

/// The browser lists an entry: it is not hidden (its name does not start with
/// `.`), and it is a directory or a supported file.
pub open spec fn listed(e: RawEntry) -> bool {
    !(e.name@.len() > 0 && e.name@[0] == '.') && (e.kind == EntryKind::Dir || (e.kind == EntryKind::File
        && is_supported_path(e.path@)))
}

/// The entries the browser lists, in the order read.
pub open spec fn listed_entries(raw: Seq<RawEntry>) -> Seq<RawEntry>
    decreases raw.len(),
{
    if raw.len() == 0 {
        Seq::empty()
    } else {
        let l = listed_entries(raw.drop_last());
        if listed(raw.last()) {
            l.push(raw.last())
        } else {
            l
        }
    }
}

/// The sort key of a listed entry: directories before files, then by lowercase name.
pub open spec fn browse_key(e: RawEntry) -> Seq<char> {
    seq![if e.kind == EntryKind::Dir { '0' } else { '1' }] + unicode_lowercase(e.name@)
}

/// The listed entries keyed for sorting.
pub open spec fn keyed_entries(s: Seq<RawEntry>) -> Seq<(Seq<char>, RawEntry)> {
    s.map_values(|e: RawEntry| (browse_key(e), e))
}

/// The directory listing of the browser: the listed entries, directories
/// first, each group by lowercase name, entries that compare equal staying in
/// the order read.
pub open spec fn browse_listing(raw: Seq<RawEntry>) -> Seq<RawEntry> {
    payloads(sort_by_key(keyed_entries(listed_entries(raw))))
}

/// The directory listing of the browser: see `browse_listing`.
pub fn browse_entries(raw: Vec<RawEntry>) -> (r: Vec<BrowseEntry>)
    ensures
        r.len() == browse_listing(raw@).len(),
        forall|i: int|
            0 <= i < r.len() ==> (#[trigger] r@[i]).name@ == browse_listing(raw@)[i].name@ && r@[i].path@
                == browse_listing(raw@)[i].path@ && r@[i].is_dir == (browse_listing(raw@)[i].kind
                == EntryKind::Dir),
{
    let ghost orig = raw@;
    let mut rest = raw;
    let mut keyed: Vec<(Vec<char>, RawEntry)> = Vec::new();
    let ghost mut j: int = 0;
    while rest.len() > 0
        invariant
            0 <= j <= orig.len(),
            rest@ == orig.skip(j),
            keyed_view(keyed@) == keyed_entries(listed_entries(orig.take(j))),
            keyed.len() == listed_entries(orig.take(j)).len(),
        decreases rest.len(),
    {
        let e = rest.remove(0);
        proof {
            assert(orig[j] == e);
            assert(rest@ =~= orig.skip(j + 1));
            assert(orig.take(j + 1).drop_last() =~= orig.take(j));
        }
        let hidden = str_starts_with(e.name.as_str(), ".");
        proof {
            reveal_strlit(".");
            assert("."@ =~= seq!['.']);
            assert(hidden == starts_with(e.name@, "."@));
            if hidden {
                assert("."@.len() == 1);
                assert(e.name@.subrange(0, 1) == seq!['.']);
                assert(e.name@.subrange(0, 1)[0] == e.name@[0]);
            }
            if e.name@.len() > 0 {
                assert(e.name@.subrange(0, 1) =~= seq![e.name@[0]]);
                if e.name@[0] == '.' {
                    assert(e.name@.subrange(0, 1) =~= "."@);
                }
            }
            assert(hidden == (e.name@.len() > 0 && e.name@[0] == '.'));
        }
        let keep = !hidden && (e.kind == EntryKind::Dir || (e.kind == EntryKind::File && is_supported_file(e.path.as_str())));
        if keep {
            let mut key: Vec<char> = Vec::new();
            key.push(if e.kind == EntryKind::Dir { '0' } else { '1' });
            let lower = chars_of(to_lowercase(e.name.as_str()).as_str());
            let ghost k0 = key@;
            let mut t: usize = 0;
            while t < lower.len()
                invariant
                    t <= lower.len(),
                    key@ == k0 + lower@.take(t as int),
                decreases lower.len() - t,
            {
                key.push(lower[t]);
                assert(lower@.take(t + 1) =~= lower@.take(t as int).push(lower@[t as int]));
                t += 1;
            }
            assert(lower@.take(lower.len() as int) =~= lower@);
            let ghost old_keyed = keyed@;
            keyed.push((key, e));
            proof {
                assert(key@ =~= browse_key(e));
                let lj = listed_entries(orig.take(j + 1));
                assert(lj == listed_entries(orig.take(j)).push(e));
                assert forall|t: int| 0 <= t < keyed.len() implies #[trigger] keyed_view(keyed@)[t] == keyed_entries(lj)[t] by {
                    if t < keyed.len() - 1 {
                        assert(keyed@[t] == old_keyed[t]);
                        assert(keyed_view(old_keyed)[t] == keyed_entries(listed_entries(orig.take(j)))[t]);
                    }
                }
                assert(keyed_view(keyed@) =~= keyed_entries(lj));
            }
        } else {
            proof {
                assert(listed_entries(orig.take(j + 1)) == listed_entries(orig.take(j)));
            }
        }
        proof {
            j = j + 1;
        }
    }
    assert(orig.take(j) =~= orig);
    let ghost kv = keyed_view(keyed@);
    let mut sorted = stable_sort_by_key(keyed);
    let ghost sv = keyed_view(sorted@);
    assert(sv == sort_by_key(keyed_entries(listed_entries(orig))));
    let mut out: Vec<BrowseEntry> = Vec::new();
    let ghost mut k: int = 0;
    while sorted.len() > 0
        invariant
            0 <= k <= sv.len(),
            keyed_view(sorted@) == sv.skip(k),
            out.len() == k,
            forall|t: int|
                0 <= t < k ==> (#[trigger] out@[t]).name@ == sv[t].1.name@ && out@[t].path@ == sv[t].1.path@
                    && out@[t].is_dir == (sv[t].1.kind == EntryKind::Dir),
        decreases sorted.len(),
    {
        let ghost before = sorted@;
        assert(keyed_view(before).len() == before.len());
        let e = sorted.remove(0);
        proof {
            assert(keyed_view(before)[0] == sv.skip(k)[0]);
            assert(sv[k] == sv.skip(k)[0]);
            assert forall|t: int| 0 <= t < sorted@.len() implies #[trigger] keyed_view(sorted@)[t] == sv.skip(k + 1)[t] by {
                assert(sorted@[t] == before[t + 1]);
                assert(keyed_view(before)[t + 1] == sv.skip(k)[t + 1]);
            }
            assert(keyed_view(sorted@) =~= sv.skip(k + 1));
        }
        let entry = e.1;
        let is_dir = entry.kind == EntryKind::Dir;
        out.push(BrowseEntry { name: entry.name, path: entry.path, is_dir });
        proof {
            k = k + 1;
        }
    }
    proof {
        crate::order::lemma_sort_by_key_len(keyed_entries(listed_entries(orig)));
    }
    out
}

/// The browser lists only entries that are neither hidden nor unsupported
/// files, and lists every directory before every file.
pub proof fn lemma_browse_listing(raw: Seq<RawEntry>)
    ensures
        forall|i: int| 0 <= i < browse_listing(raw).len() ==> listed(#[trigger] browse_listing(raw)[i]),
        forall|i: int, j: int|
            0 <= i < j < browse_listing(raw).len() && (#[trigger] browse_listing(raw)[j]).kind == EntryKind::Dir
                ==> (#[trigger] browse_listing(raw)[i]).kind == EntryKind::Dir,
{
    let l = listed_entries(raw);
    lemma_listed_entries(raw);
    let kv = keyed_entries(l);
    crate::order::lemma_sort_by_key_ascending(kv);
    crate::order::lemma_sort_by_key_elements(kv);
    let sorted = sort_by_key(kv);
    assert forall|i: int| 0 <= i < sorted.len() implies (#[trigger] sorted[i]).0 == browse_key(sorted[i].1) && listed(sorted[i].1) by {
        assert(kv.contains(sorted[i]));
        let k = choose|k: int| 0 <= k < kv.len() && kv[k] == sorted[i];
        assert(l.contains(l[k]));
    }
    let b = browse_listing(raw);
    assert forall|i: int| 0 <= i < b.len() implies listed(#[trigger] b[i]) by {
        assert(b[i] == sorted[i].1);
    }
    assert forall|i: int, j: int| 0 <= i < j < b.len() && (#[trigger] b[j]).kind == EntryKind::Dir implies (#[trigger] b[i]).kind == EntryKind::Dir by {
        assert(b[i] == sorted[i].1);
        assert(b[j] == sorted[j].1);
        assert(!crate::order::lex_lt(sorted[j].0, sorted[i].0));
        if b[i].kind != EntryKind::Dir {
            assert(sorted[i].0[0] == '1');
            assert(sorted[j].0[0] == '0');
            assert(sorted[j].0.len() > 0 && sorted[i].0.len() > 0);
        }
    }
}

proof fn lemma_listed_entries(raw: Seq<RawEntry>)
    ensures
        forall|i: int| 0 <= i < listed_entries(raw).len() ==> listed(#[trigger] listed_entries(raw)[i]),
    decreases raw.len(),
{
    if raw.len() > 0 {
        let prev = listed_entries(raw.drop_last());
        lemma_listed_entries(raw.drop_last());
        assert forall|i: int| 0 <= i < listed_entries(raw).len() implies listed(#[trigger] listed_entries(raw)[i]) by {
            if i < prev.len() {
                assert(listed_entries(raw)[i] == prev[i]);
            }
        }
    }
}

proof fn lemma_listed_entries_members(raw: Seq<RawEntry>)
    ensures
        forall|i: int| 0 <= i < raw.len() && listed(#[trigger] raw[i]) ==> listed_entries(raw).contains(raw[i]),
        forall|j: int| 0 <= j < listed_entries(raw).len() ==> raw.contains(#[trigger] listed_entries(raw)[j]),
    decreases raw.len(),
{
    if raw.len() > 0 {
        let prev = raw.drop_last();
        let lp = listed_entries(prev);
        lemma_listed_entries_members(prev);
        let l = listed_entries(raw);
        assert forall|i: int| 0 <= i < raw.len() && listed(#[trigger] raw[i]) implies l.contains(raw[i]) by {
            if i < raw.len() - 1 {
                assert(raw[i] == prev[i]);
                let j = choose|j: int| 0 <= j < lp.len() && lp[j] == raw[i];
                assert(l[j] == lp[j]);
            } else {
                assert(raw[i] == raw.last());
                assert(l[lp.len() as int] == raw.last());
            }
        }
        assert forall|j: int| 0 <= j < l.len() implies raw.contains(#[trigger] l[j]) by {
            if j < lp.len() {
                assert(l[j] == lp[j]);
                let i = choose|i: int| 0 <= i < prev.len() && prev[i] == lp[j];
                assert(raw[i] == prev[i]);
            } else {
                assert(l[j] == raw.last());
                assert(raw[raw.len() - 1] == raw.last());
            }
        }
    }
}

/// The browser lists exactly the entries it should: every entry that is not
/// hidden (its name does not start with `.`) and is a directory, or a file
/// with the extension md, markdown, txt or json in any ASCII case, appears in
/// the listing; and everything listed is such an entry of the directory.
pub proof fn lemma_browse_listing_complete(raw: Seq<RawEntry>)
    ensures
        forall|i: int|
            0 <= i < raw.len() && !(raw[i].name@.len() > 0 && raw[i].name@[0] == '.') && (raw[i].kind
                == EntryKind::Dir || (raw[i].kind == EntryKind::File && (ext_is(extension(raw[i].path@), "md"@)
                || ext_is(extension(raw[i].path@), "markdown"@) || ext_is(extension(raw[i].path@), "txt"@)
                || ext_is(extension(raw[i].path@), "json"@)))) ==> browse_listing(raw).contains(#[trigger] raw[i]),
        forall|j: int|
            0 <= j < browse_listing(raw).len() ==> raw.contains(#[trigger] browse_listing(raw)[j]) && !(
            browse_listing(raw)[j].name@.len() > 0 && browse_listing(raw)[j].name@[0] == '.') && (
            browse_listing(raw)[j].kind == EntryKind::Dir || (browse_listing(raw)[j].kind == EntryKind::File && (
            ext_is(extension(browse_listing(raw)[j].path@), "md"@) || ext_is(
                extension(browse_listing(raw)[j].path@),
                "markdown"@,
            ) || ext_is(extension(browse_listing(raw)[j].path@), "txt"@) || ext_is(
                extension(browse_listing(raw)[j].path@),
                "json"@,
            )))),
{
    let l = listed_entries(raw);
    lemma_listed_entries_members(raw);
    lemma_browse_listing(raw);
    let kv = keyed_entries(l);
    crate::order::lemma_sort_by_key_keeps_input(kv);
    crate::order::lemma_sort_by_key_elements(kv);
    crate::order::lemma_sort_by_key_len(kv);
    let sorted = sort_by_key(kv);
    let b = browse_listing(raw);
    assert forall|i: int|
        0 <= i < raw.len() && listed(#[trigger] raw[i]) implies b.contains(raw[i]) by {
        let j = choose|j: int| 0 <= j < l.len() && l[j] == raw[i];
        assert(kv[j] == (browse_key(raw[i]), raw[i]));
        assert(sorted.contains(kv[j]));
        let m = choose|m: int| 0 <= m < sorted.len() && sorted[m] == kv[j];
        assert(b[m] == sorted[m].1);
    }
    assert forall|j: int| 0 <= j < b.len() implies raw.contains(#[trigger] b[j]) by {
        assert(b[j] == sorted[j].1);
        assert(kv.contains(sorted[j]));
        let k = choose|k: int| 0 <= k < kv.len() && kv[k] == sorted[j];
        assert(kv[k].1 == l[k]);
    }
}

/// A directory is served from itself: whatever its parent, a directory with
/// supported files is planned with the directory as the base, the scanned
/// files as they came, and directory mode; a file is served alone from its
/// parent, whatever a scan said. Both the switch and the command line plan so.
pub proof fn lemma_plans_are_based_right(
    target: Seq<char>,
    parent: Seq<char>,
    other_parent: Seq<char>,
    files: Seq<Seq<char>>,
    scanned: Result<Seq<Seq<char>>, Seq<char>>,
)
    ensures
        files.len() > 0 ==> (workspace_plan(TargetKind::Dir, target, parent, Ok(files)) matches Ok((b, f, d))
            && b == target && f == files && d),
        files.len() > 0 ==> (served_plan(TargetKind::Dir, target, parent, Ok(files)) matches Ok((b, f, d))
            && b == target && f == files && d),
        workspace_plan(TargetKind::Dir, target, parent, scanned) == workspace_plan(
            TargetKind::Dir,
            target,
            other_parent,
            scanned,
        ),
        served_plan(TargetKind::Dir, target, parent, scanned) == served_plan(
            TargetKind::Dir,
            target,
            other_parent,
            scanned,
        ),
        workspace_plan(TargetKind::File, target, parent, scanned) matches Ok((b, f, d)) && b == parent && f == seq![
            target,
        ] && !d,
        served_plan(TargetKind::File, target, parent, scanned) matches Ok((b, f, d)) && b == parent && f == seq![
            target,
        ] && !d,
{
}

} // verus!
