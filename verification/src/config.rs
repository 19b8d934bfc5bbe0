//! The application settings: where they live and the list of recently opened workspaces.
use vstd::prelude::*;
use crate::paths::{join, join_path};
use crate::text::opt_view;

verus! {

/// How many recently opened workspaces are remembered.
pub const MAX_RECENT: usize = 15;

/// A workspace that was opened recently.
#[derive(Debug, Clone)]
pub struct RecentWorkspace {
    pub path: String,
    pub mode: String,
    pub last_opened: u64,
}

/// A recently opened workspace as plain values.
pub struct RecentView {
    pub path: Seq<char>,
    pub mode: Seq<char>,
    pub last_opened: u64,
}

impl View for RecentWorkspace {
    type V = RecentView;

    open spec fn view(&self) -> RecentView {
        RecentView { path: self.path@, mode: self.mode@, last_opened: self.last_opened }
    }
}

/// The views of a list of recent workspaces.
pub open spec fn recent_views(s: Seq<RecentWorkspace>) -> Seq<RecentView> {
    s.map_values(|r: RecentWorkspace| r@)
}

/// Holds of the entries whose path is not `p`.
pub open spec fn other_path(p: Seq<char>) -> spec_fn(RecentView) -> bool {
    |r: RecentView| r.path != p
}

/// The list after `entry` is opened: it goes to the front, any older entry for
/// the same path leaves, and only the first `MAX_RECENT` entries stay.
pub open spec fn recent_after_add(list: Seq<RecentView>, entry: RecentView) -> Seq<RecentView> {
    let all = seq![entry] + list.filter(other_path(entry.path));
    if all.len() > MAX_RECENT {
        all.take(MAX_RECENT as int)
    } else {
        all
    }
}

/// The application settings.
#[derive(Debug, Clone)]
pub struct AppConfig {
    pub file_path: String,
    pub recent: Vec<RecentWorkspace>,
}

/// The settings as plain values.
pub struct ConfigView {
    pub file_path: Seq<char>,
    pub recent: Seq<RecentView>,
}

impl View for AppConfig {
    type V = ConfigView;

    open spec fn view(&self) -> ConfigView {
        ConfigView { file_path: self.file_path@, recent: recent_views(self.recent@) }
    }
}

/// Where the settings file lives, below the given home directory (or the
/// current directory where there is none).
pub open spec fn config_file_in(home: Option<Seq<char>>) -> Seq<char> {
    let base = match home {
        Some(h) => h,
        None => "."@,
    };
    join(base, ".config/mdlive/config.toml"@)
}

/// The user's home directory, as `dirs::home_dir` finds it.
#[verifier::external_body]
pub(crate) fn home_dir() -> (r: Option<String>) {
    dirs::home_dir().map(|p| p.to_string_lossy().into_owned())
}

/// Seconds since the Unix epoch by the system clock.
#[verifier::external_body]
fn unix_now_secs() -> (r: u64) {
    std::time::SystemTime::now().duration_since(std::time::UNIX_EPOCH).unwrap_or_default().as_secs()
}

/// Where the settings file lives, below the given home directory.
pub fn config_path_under(home: Option<String>) -> (r: String)
    ensures
        r@ == config_file_in(opt_view(home)),
{
    match home {
        Some(h) => join_path(h.as_str(), ".config/mdlive/config.toml"),
        None => join_path(".", ".config/mdlive/config.toml"),
    }
}

/// Where the settings file lives for the current user.
pub fn default_config_path() -> (r: String)
    ensures
        exists|h: Option<Seq<char>>| r@ == config_file_in(h),
{
    let home = home_dir();
    let ghost h = opt_view(home);
    let r = config_path_under(home);
    assert(r@ == config_file_in(h));
    r
}

impl Default for AppConfig {
    fn default() -> (r: Self)
        ensures
            r@.recent.len() == 0,
            exists|h: Option<Seq<char>>| r@.file_path == config_file_in(h),
    {
        AppConfig { file_path: default_config_path(), recent: Vec::new() }
    }
}

impl AppConfig {
    /// The settings read from `file_path`: those parsed from the file, or
    /// empty ones where the file could not be read or parsed.
    pub fn load_from(file_path: String, parsed: Option<AppConfig>) -> (r: AppConfig)
        ensures
            r@.file_path == file_path@,
            r@.recent == match parsed {
                Some(c) => c@.recent,
                None => Seq::<RecentView>::empty(),
            },
    {
        match parsed {
            Some(c) => AppConfig { file_path, recent: c.recent },
            None => AppConfig { file_path, recent: Vec::new() },
        }
    }

    /// The settings read from the default location, given what parsing that
    /// file produced.
    pub fn load(parsed: Option<AppConfig>) -> (r: AppConfig)
        ensures
            exists|h: Option<Seq<char>>| r@.file_path == config_file_in(h),
            r@.recent == match parsed {
                Some(c) => c@.recent,
                None => Seq::<RecentView>::empty(),
            },
    {
        Self::load_from(default_config_path(), parsed)
    }

    /// Records that the workspace at `path` was opened at time `now`.
    pub fn add_recent_at(&mut self, path: String, mode: String, now: u64)
        ensures
            final(self)@.file_path == old(self)@.file_path,
            final(self)@.recent == recent_after_add(
                old(self)@.recent,
                RecentView { path: path@, mode: mode@, last_opened: now },
            ),
    {
        let ghost p = path@;
        let ghost pred = other_path(p);
        let mut old_list: Vec<RecentWorkspace> = Vec::new();
        std::mem::swap(&mut old_list, &mut self.recent);
        let ghost orig = recent_views(old_list@);
        let mut kept: Vec<RecentWorkspace> = Vec::new();
        let ghost mut j: int = 0;
        while old_list.len() > 0
            invariant
                0 <= j <= orig.len(),
                recent_views(old_list@) == orig.skip(j),
                recent_views(kept@) == orig.take(j).filter(pred),
                pred == other_path(p),
                p == path@,
            decreases old_list.len(),
        {
            let ghost before = old_list@;
            assert(recent_views(before).len() == before.len());
            let r = old_list.remove(0);
            proof {
                assert(recent_views(before)[0] == r@);
                assert(orig[j] == orig.skip(j)[0]);
                assert(orig.take(j + 1) =~= orig.take(j).push(r@));
                orig.take(j).lemma_filter_push(r@, pred);
                assert(old_list@ == before.remove(0));
                assert forall|k: int| 0 <= k < old_list@.len() implies #[trigger] recent_views(old_list@)[k] == orig.skip(j + 1)[k] by {
                    assert(old_list@[k] == before[k + 1]);
                    assert(recent_views(before)[k + 1] == orig.skip(j)[k + 1]);
                }
                assert(recent_views(old_list@) =~= orig.skip(j + 1));
            }
            if r.path != path {
                kept.push(r);
                proof {
                    assert(recent_views(kept@) =~= orig.take(j).filter(pred).push(r@));
                }
            }
            proof {
                j = j + 1;
            }
        }
        proof {
            assert(orig.take(j) == orig);
        }
        let ghost filtered = recent_views(kept@);
        kept.insert(0, RecentWorkspace { path, mode, last_opened: now });
        let ghost entry = RecentView { path: p, mode: mode@, last_opened: now };
        assert(recent_views(kept@) =~= seq![entry] + filtered);
        kept.truncate(MAX_RECENT);
        proof {
            let all = seq![entry] + filtered;
            if all.len() > MAX_RECENT {
                assert(recent_views(kept@) =~= all.take(MAX_RECENT as int));
            }
        }
        self.recent = kept;
    }

    /// Records that the workspace at `path` was opened just now.
    pub fn add_recent(&mut self, path: String, mode: String)
        ensures
            final(self)@.file_path == old(self)@.file_path,
            exists|now: u64|
                final(self)@.recent == recent_after_add(
                    old(self)@.recent,
                    RecentView { path: path@, mode: mode@, last_opened: now },
                ),
    {
        let now = unix_now_secs();
        self.add_recent_at(path, mode, now);
    }
}

/// No two entries of the list are for the same path.
pub open spec fn unique_paths(l: Seq<RecentView>) -> bool {
    forall|i: int, j: int| 0 <= i < j < l.len() ==> l[i].path != l[j].path
}

proof fn lemma_filter_keeps_unique(l: Seq<RecentView>, p: Seq<char>)
    requires
        unique_paths(l),
    ensures
        unique_paths(l.filter(other_path(p))),
    decreases l.len(),
{
    broadcast use vstd::seq_lib::group_filter_ensures;
    if l.len() > 0 {
        let rest = l.drop_last();
        let x = l.last();
        assert(l == rest.push(x));
        lemma_filter_keeps_unique(rest, p);
        rest.lemma_filter_push(x, other_path(p));
        let f = rest.filter(other_path(p));
        if other_path(p)(x) {
            assert forall|i: int| 0 <= i < f.len() implies f[i].path != x.path by {
                assert(f.contains(f[i]));
                rest.lemma_filter_contains_rev(other_path(p), f[i]);
                let k = choose|k: int| 0 <= k < rest.len() && rest[k] == f[i];
                assert(l[k] == rest[k]);
            }
        }
    }
}

proof fn lemma_filter_all_kept(s: Seq<RecentView>, p: Seq<char>)
    requires
        forall|i: int| 0 <= i < s.len() ==> #[trigger] s[i].path != p,
    ensures
        s.filter(other_path(p)) == s,
    decreases s.len(),
{
    if s.len() > 0 {
        let rest = s.drop_last();
        assert(s == rest.push(s.last()));
        lemma_filter_all_kept(rest, p);
        rest.lemma_filter_push(s.last(), other_path(p));
    } else {
        reveal(Seq::filter);
        assert(s.filter(other_path(p)) =~= s);
    }
}

/// Opening a workspace puts it first in the list, and nowhere else; the list
/// never grows past `MAX_RECENT`.
pub proof fn lemma_add_recent_front(list: Seq<RecentView>, entry: RecentView)
    ensures
        recent_after_add(list, entry).len() >= 1,
        recent_after_add(list, entry)[0] == entry,
        recent_after_add(list, entry).len() <= MAX_RECENT,
        forall|i: int|
            1 <= i < recent_after_add(list, entry).len()
                ==> #[trigger] recent_after_add(list, entry)[i].path != entry.path,
{
    broadcast use vstd::seq_lib::group_filter_ensures;
    let f = list.filter(other_path(entry.path));
    let all = seq![entry] + f;
    assert forall|i: int| 1 <= i < recent_after_add(list, entry).len() implies
        #[trigger] recent_after_add(list, entry)[i].path != entry.path by {
        assert(recent_after_add(list, entry)[i] == all[i]);
        assert(all[i] == f[i - 1]);
    }
}

/// The workspaces that stay keep their relative order: the list after the
/// first entry is a prefix of the old list without the opened path.
pub proof fn lemma_add_recent_keeps_order(list: Seq<RecentView>, entry: RecentView)
    ensures
        ({
            let r = recent_after_add(list, entry);
            r.skip(1) == list.filter(other_path(entry.path)).take(r.len() - 1)
        }),
{
    let f = list.filter(other_path(entry.path));
    let all = seq![entry] + f;
    let r = recent_after_add(list, entry);
    assert(r.skip(1) =~= f.take(r.len() - 1));
}

/// A list without repeated paths stays so when a workspace is opened.
pub proof fn lemma_add_recent_keeps_unique(list: Seq<RecentView>, entry: RecentView)
    requires
        unique_paths(list),
    ensures
        unique_paths(recent_after_add(list, entry)),
{
    broadcast use vstd::seq_lib::group_filter_ensures;
    lemma_filter_keeps_unique(list, entry.path);
    lemma_add_recent_front(list, entry);
    let f = list.filter(other_path(entry.path));
    let all = seq![entry] + f;
    let r = recent_after_add(list, entry);
    assert forall|i: int, j: int| 0 <= i < j < r.len() implies r[i].path != r[j].path by {
        if i > 0 {
            assert(r[i] == f[i - 1]);
            assert(r[j] == f[j - 1]);
        }
    }
}

/// Opening the same workspace twice gives the list that opening it once, at
/// the later time and in the later mode, gives.
pub proof fn lemma_add_recent_reopen(list: Seq<RecentView>, first: RecentView, second: RecentView)
    requires
        first.path == second.path,
    ensures
        recent_after_add(recent_after_add(list, first), second) == recent_after_add(list, second),
{
    broadcast use vstd::seq_lib::group_filter_ensures;
    let p = first.path;
    let f = list.filter(other_path(p));
    let l1 = recent_after_add(list, first);
    lemma_add_recent_front(list, first);
    let tail = l1.skip(1);
    assert(l1 == seq![first] + tail);
    assert forall|i: int| 0 <= i < tail.len() implies #[trigger] tail[i].path != p by {
        assert(tail[i] == l1[i + 1]);
    }
    lemma_filter_all_kept(tail, p);
    vstd::seq::Seq::filter_distributes_over_add(seq![first], tail, other_path(p));
    lemma_filter_all_kept(Seq::<RecentView>::empty(), p);
    reveal(Seq::filter);
    assert(seq![first].filter(other_path(p)) =~= Seq::<RecentView>::empty()) by {
        assert(seq![first].drop_last() =~= Seq::<RecentView>::empty());
    }
    assert(l1.filter(other_path(p)) =~= tail);
    lemma_add_recent_keeps_order(list, first);
    let r2 = recent_after_add(l1, second);
    let r = recent_after_add(list, second);
    assert(r2 =~= r);
}

} // verus!
