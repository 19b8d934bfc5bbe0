//! The navigation tree: tracked file names grouped into nested directories,
//! each level sorted by lowercase name, directories carrying the newest
//! modification and oldest creation time of their contents.
use vstd::prelude::*;
use vstd::hash_map::StringHashMap;
use crate::order::{first_not_before, insert_unique, lemma_first_not_before, lemma_insert_unique, lemma_insert_unique_contains, position_not_before, strictly_sorted, chars_lt, keyed_view, lemma_sort_by_key_ascending, lemma_sort_by_key_elements, lemma_sort_map_payload, lemma_sort_by_key_len, map_payload, lemma_lex_lt_irreflexive, lemma_lex_lt_total, lemma_lex_lt_transitive, lex_lt, sort_by_key, stable_sort_by_key};
use crate::text::{chars_eq, chars_of, seqs_view, string_from_chars, sub_chars};

verus! {

/// A tracked file with its timestamps (seconds since the Unix epoch).
#[derive(Debug, Clone)]
pub struct FileInfo {
    pub name: String,
    pub modified: u64,
    pub created: u64,
}

/// One entry of the navigation tree.
#[derive(Debug)]
pub enum TreeNode {
    Dir { name: String, dir_path: String, children: Vec<TreeNode>, modified: u64, created: u64 },
    File { name: String, path: String, modified: u64, created: u64 },
}

/// One entry of the navigation tree as plain values.
pub enum TreeView {
    Dir {
        name: Seq<char>,
        dir_path: Seq<char>,
        children: Seq<TreeView>,
        modified: u64,
        created: u64,
    },
    File { name: Seq<char>, path: Seq<char>, modified: u64, created: u64 },
}

impl TreeView {
    pub open spec fn name(self) -> Seq<char> {
        match self {
            TreeView::Dir { name, .. } => name,
            TreeView::File { name, .. } => name,
        }
    }

    pub open spec fn modified(self) -> u64 {
        match self {
            TreeView::Dir { modified, .. } => modified,
            TreeView::File { modified, .. } => modified,
        }
    }

    pub open spec fn created(self) -> u64 {
        match self {
            TreeView::Dir { created, .. } => created,
            TreeView::File { created, .. } => created,
        }
    }
}

/// A tree entry as plain values.
pub open spec fn node_view(n: TreeNode) -> TreeView
    decreases n, 0int,
{
    match n {
        TreeNode::Dir { name, dir_path, children, modified, created } => TreeView::Dir {
            name: name@,
            dir_path: dir_path@,
            children: nodes_view_from(children@, 0),
            modified,
            created,
        },
        TreeNode::File { name, path, modified, created } => TreeView::File {
            name: name@,
            path: path@,
            modified,
            created,
        },
    }
}

/// The entries `s[i..]` as plain values.
pub open spec fn nodes_view_from(s: Seq<TreeNode>, i: int) -> Seq<TreeView>
    decreases s, s.len() - i,
{
    if i < 0 || i >= s.len() {
        Seq::empty()
    } else {
        seq![node_view(s[i])] + nodes_view_from(s, i + 1)
    }
}

/// A list of tree entries as plain values.
pub open spec fn nodes_view(s: Seq<TreeNode>) -> Seq<TreeView> {
    nodes_view_from(s, 0)
}

proof fn lemma_nodes_view_from(s: Seq<TreeNode>, i: int)
    requires
        0 <= i <= s.len(),
    ensures
        nodes_view_from(s, i).len() == s.len() - i,
        forall|k: int| 0 <= k < s.len() - i ==> #[trigger] nodes_view_from(s, i)[k] == node_view(s[i + k]),
    decreases s.len() - i,
{
    if i < s.len() {
        lemma_nodes_view_from(s, i + 1);
        assert forall|k: int| 0 <= k < s.len() - i implies #[trigger] nodes_view_from(s, i)[k] == node_view(s[i + k]) by {
            if k > 0 {
                assert(nodes_view_from(s, i)[k] == nodes_view_from(s, i + 1)[k - 1]);
            }
        }
    }
}

/// The views of a list of entries, element by element.
pub proof fn lemma_nodes_view(s: Seq<TreeNode>)
    ensures
        nodes_view(s).len() == s.len(),
        forall|k: int| 0 <= k < s.len() ==> #[trigger] nodes_view(s)[k] == node_view(s[k]),
{
    lemma_nodes_view_from(s, 0);
}

/// Index of the first `/` in `p`, or -1.
pub open spec fn first_slash(p: Seq<char>) -> int
    decreases p.len(),
{
    if p.len() == 0 {
        -1
    } else if p[0] == '/' {
        0
    } else {
        let r = first_slash(p.skip(1));
        if r < 0 {
            -1
        } else {
            r + 1
        }
    }
}

/// The directory a nested path starts with.
pub open spec fn head(p: Seq<char>) -> Seq<char> {
    p.take(first_slash(p))
}

/// What follows the first directory of a nested path.
pub open spec fn rest(p: Seq<char>) -> Seq<char> {
    p.skip(first_slash(p) + 1)
}

/// The paths below directory `d`, relative to it, in input order.
pub open spec fn group(paths: Seq<Seq<char>>, d: Seq<char>) -> Seq<Seq<char>>
    decreases paths.len(),
{
    if paths.len() == 0 {
        Seq::empty()
    } else {
        let g = group(paths.drop_last(), d);
        let p = paths.last();
        if first_slash(p) >= 0 && head(p) == d {
            g.push(rest(p))
        } else {
            g
        }
    }
}

/// The paths without a directory part, in input order.
pub open spec fn plain_names(paths: Seq<Seq<char>>) -> Seq<Seq<char>>
    decreases paths.len(),
{
    if paths.len() == 0 {
        Seq::empty()
    } else {
        let g = plain_names(paths.drop_last());
        let p = paths.last();
        if first_slash(p) < 0 {
            g.push(p)
        } else {
            g
        }
    }
}

/// The distinct directory names the paths start with, in ascending order.
pub open spec fn dir_names(paths: Seq<Seq<char>>) -> Seq<Seq<char>>
    decreases paths.len(),
{
    if paths.len() == 0 {
        Seq::empty()
    } else {
        let n = dir_names(paths.drop_last());
        let p = paths.last();
        if first_slash(p) >= 0 {
            insert_unique(n, head(p))
        } else {
            n
        }
    }
}

/// Total length of a list of paths.
pub open spec fn sum_len(paths: Seq<Seq<char>>) -> int
    decreases paths.len(),
{
    if paths.len() == 0 {
        0
    } else {
        sum_len(paths.drop_last()) + paths.last().len()
    }
}

/// The total length of the paths is not negative.
pub proof fn lemma_sum_len_nonneg(paths: Seq<Seq<char>>)
    ensures
        sum_len(paths) >= 0,
    decreases paths.len(),
{
    if paths.len() > 0 {
        lemma_sum_len_nonneg(paths.drop_last());
    }
}

/// The path of an entry inside the directory at `prefix`.
pub open spec fn child_path(prefix: Seq<char>, name: Seq<char>) -> Seq<char> {
    if prefix.len() == 0 {
        name
    } else {
        prefix + seq!['/'] + name
    }
}

/// A file's timestamps by its name: the last record for the name wins.
pub open spec fn timestamp_map(infos: Seq<FileInfo>) -> Map<Seq<char>, (u64, u64)>
    decreases infos.len(),
{
    if infos.len() == 0 {
        Map::empty()
    } else {
        let i = infos.last();
        timestamp_map(infos.drop_last()).insert(i.name@, (i.modified, i.created))
    }
}

/// The timestamps recorded for `path`, or zeros where there are none.
pub open spec fn timestamps_of(ts: Map<Seq<char>, (u64, u64)>, path: Seq<char>) -> (u64, u64) {
    if ts.contains_key(path) {
        ts[path]
    } else {
        (0, 0)
    }
}

/// The newest modification time among the entries, 0 for none.
pub open spec fn newest_modified(ch: Seq<TreeView>) -> u64
    decreases ch.len(),
{
    if ch.len() == 0 {
        0
    } else {
        let m = newest_modified(ch.drop_last());
        if ch.last().modified() > m {
            ch.last().modified()
        } else {
            m
        }
    }
}

/// The oldest creation time among the entries, `u64::MAX` for none.
pub open spec fn oldest_created(ch: Seq<TreeView>) -> u64
    decreases ch.len(),
{
    if ch.len() == 0 {
        u64::MAX
    } else {
        let c = oldest_created(ch.drop_last());
        if ch.last().created() < c {
            ch.last().created()
        } else {
            c
        }
    }
}

/// The creation time a directory shows: the oldest of its entries, or 0
/// where none has one below `u64::MAX`.
pub open spec fn dir_created(ch: Seq<TreeView>) -> u64 {
    if oldest_created(ch) == u64::MAX {
        0
    } else {
        oldest_created(ch)
    }
}

/// The lowercase form of a name, as `str::to_lowercase` gives it.
pub uninterp spec fn unicode_lowercase(s: Seq<char>) -> Seq<char>;

/// `str::to_lowercase`: the name's lowercase form.
#[verifier::external_body]
pub(crate) fn to_lowercase(s: &str) -> (r: String)
    ensures
        r@ == unicode_lowercase(s@),
{
    s.to_lowercase()
}

/// The file entries of one level, keyed for sorting.
pub open spec fn file_items(
    names: Seq<Seq<char>>,
    prefix: Seq<char>,
    ts: Map<Seq<char>, (u64, u64)>,
) -> Seq<(Seq<char>, TreeView)>
    decreases names.len(),
{
    if names.len() == 0 {
        Seq::empty()
    } else {
        let f = names.last();
        let full = child_path(prefix, f);
        let t = timestamps_of(ts, full);
        file_items(names.drop_last(), prefix, ts).push(
            (
                unicode_lowercase(f),
                TreeView::File { name: f, path: full, modified: t.0, created: t.1 },
            ),
        )
    }
}

/// One level of the tree for `paths` below the directory `prefix`: a
/// directory entry for each distinct first directory, in ascending order, and
/// a file entry for each path without one, in input order; then all entries
/// stably sorted by their lowercase names.
pub open spec fn level(paths: Seq<Seq<char>>, prefix: Seq<char>, ts: Map<Seq<char>, (u64, u64)>) -> Seq<TreeView>
    decreases sum_len(paths), 1int, 0int,
{
    let items = dir_items(dir_names(paths), 0, paths, prefix, ts) + file_items(plain_names(paths), prefix, ts);
    sort_by_key(items).map_values(|e: (Seq<char>, TreeView)| e.1)
}

/// The entry for directory `d`, keyed for sorting: its contents form the
/// next level, and it carries their newest modification and oldest creation time.
pub open spec fn dir_item(
    d: Seq<char>,
    paths: Seq<Seq<char>>,
    prefix: Seq<char>,
    ts: Map<Seq<char>, (u64, u64)>,
) -> (Seq<char>, TreeView)
    decreases sum_len(paths), 0int, 0int,
{
    let g = group(paths, d);
    let dp = child_path(prefix, d);
    let ch = if sum_len(g) < sum_len(paths) {
        proof {
            lemma_sum_len_nonneg(g);
        }
        level(g, dp, ts)
    } else {
        Seq::empty()
    };
    (
        unicode_lowercase(d),
        TreeView::Dir {
            name: d,
            dir_path: dp,
            children: ch,
            modified: newest_modified(ch),
            created: dir_created(ch),
        },
    )
}

/// The directory entries for `names[i..]`, keyed for sorting.
pub open spec fn dir_items(
    names: Seq<Seq<char>>,
    i: int,
    paths: Seq<Seq<char>>,
    prefix: Seq<char>,
    ts: Map<Seq<char>, (u64, u64)>,
) -> Seq<(Seq<char>, TreeView)>
    decreases sum_len(paths), 0int, names.len() - i,
{
    if i < 0 || i >= names.len() {
        Seq::empty()
    } else {
        seq![dir_item(names[i], paths, prefix, ts)] + dir_items(names, i + 1, paths, prefix, ts)
    }
}

/// The names of the tracked files.
pub open spec fn info_names(infos: Seq<FileInfo>) -> Seq<Seq<char>> {
    infos.map_values(|i: FileInfo| i.name@)
}

/// The navigation tree of the tracked files.
pub open spec fn file_tree(infos: Seq<FileInfo>) -> Seq<TreeView> {
    level(info_names(infos), Seq::empty(), timestamp_map(infos))
}

proof fn lemma_dir_items_index(
    names: Seq<Seq<char>>,
    i: int,
    paths: Seq<Seq<char>>,
    prefix: Seq<char>,
    ts: Map<Seq<char>, (u64, u64)>,
)
    requires
        0 <= i <= names.len(),
    ensures
        dir_items(names, i, paths, prefix, ts).len() == names.len() - i,
        forall|k: int|
            0 <= k < names.len() - i ==> #[trigger] dir_items(names, i, paths, prefix, ts)[k]
                == dir_item(names[i + k], paths, prefix, ts),
    decreases names.len() - i,
{
    if i < names.len() {
        lemma_dir_items_index(names, i + 1, paths, prefix, ts);
        assert forall|k: int| 0 <= k < names.len() - i implies #[trigger] dir_items(names, i, paths, prefix, ts)[k]
            == dir_item(names[i + k], paths, prefix, ts) by {
            if k > 0 {
                assert(dir_items(names, i, paths, prefix, ts)[k] == dir_items(names, i + 1, paths, prefix, ts)[k - 1]);
            }
        }
    }
}

/// `first_slash` finds the first separator.
pub proof fn lemma_first_slash(p: Seq<char>)
    ensures
        -1 <= first_slash(p) < p.len(),
        first_slash(p) >= 0 ==> p[first_slash(p)] == '/',
        forall|j: int| 0 <= j < p.len() && (first_slash(p) < 0 || j < first_slash(p)) ==> p[j] != '/',
    decreases p.len(),
{
    if p.len() > 0 && p[0] != '/' {
        lemma_first_slash(p.skip(1));
        assert forall|j: int| 0 <= j < p.len() && (first_slash(p) < 0 || j < first_slash(p)) implies p[j] != '/' by {
            if j > 0 {
                assert(p[j] == p.skip(1)[j - 1]);
            }
        }
    }
}

fn find_slash(p: &Vec<char>) -> (r: Option<usize>)
    ensures
        match r {
            Some(k) => first_slash(p@) == k,
            None => first_slash(p@) == -1,
        },
{
    proof {
        lemma_first_slash(p@);
    }
    let mut i: usize = 0;
    while i < p.len()
        invariant
            i <= p.len(),
            forall|j: int| 0 <= j < i ==> p@[j] != '/',
            -1 <= first_slash(p@) < p@.len(),
            first_slash(p@) >= 0 ==> p@[first_slash(p@)] == '/',
            forall|j: int| 0 <= j < p@.len() && (first_slash(p@) < 0 || j < first_slash(p@)) ==> p@[j] != '/',
        decreases p.len() - i,
    {
        if p[i] == '/' {
            return Some(i);
        }
        i += 1;
    }
    None
}

/// The names are ascending.
proof fn lemma_dir_names_sorted(paths: Seq<Seq<char>>)
    ensures
        strictly_sorted(dir_names(paths)),
    decreases paths.len(),
{
    if paths.len() > 0 {
        lemma_dir_names_sorted(paths.drop_last());
        if first_slash(paths.last()) >= 0 {
            lemma_insert_unique(dir_names(paths.drop_last()), head(paths.last()));
        }
    }
}

/// A directory with paths below it is among the names.
proof fn lemma_group_nonempty_named(paths: Seq<Seq<char>>, d: Seq<char>)
    requires
        group(paths, d).len() > 0,
    ensures
        dir_names(paths).contains(d),
    decreases paths.len(),
{
    let p = paths.last();
    let prev = paths.drop_last();
    if first_slash(p) >= 0 {
        lemma_insert_unique_contains(dir_names(prev), head(p));
    }
    if first_slash(p) >= 0 && head(p) == d {
    } else {
        lemma_group_nonempty_named(prev, d);
    }
}

/// The paths below a directory are shorter in total than all the paths.
proof fn lemma_group_sum_len(paths: Seq<Seq<char>>, d: Seq<char>)
    ensures
        sum_len(group(paths, d)) + group(paths, d).len() <= sum_len(paths),
    decreases paths.len(),
{
    if paths.len() > 0 {
        let p = paths.last();
        let g = group(paths.drop_last(), d);
        lemma_group_sum_len(paths.drop_last(), d);
        lemma_first_slash(p);
        if first_slash(p) >= 0 && head(p) == d {
            assert(g.push(rest(p)).drop_last() =~= g);
        }
    }
}

/// Splits paths into the distinct first directories (ascending), the paths
/// below each of them, and the plain file names.
fn group_paths(paths: &Vec<Vec<char>>) -> (r: (Vec<Vec<char>>, Vec<Vec<Vec<char>>>, Vec<Vec<char>>))
    ensures
        seqs_view(r.0@) == dir_names(seqs_view(paths@)),
        r.1.len() == r.0.len(),
        forall|j: int|
            0 <= j < r.0.len() ==> seqs_view(#[trigger] r.1@[j]@) == group(seqs_view(paths@), r.0@[j]@)
                && r.1@[j].len() > 0,
        seqs_view(r.2@) == plain_names(seqs_view(paths@)),
{
    let ghost all = seqs_view(paths@);
    let mut names: Vec<Vec<char>> = Vec::new();
    let mut rests: Vec<Vec<Vec<char>>> = Vec::new();
    let mut files: Vec<Vec<char>> = Vec::new();
    let mut i: usize = 0;
    while i < paths.len()
        invariant
            i <= paths.len(),
            all == seqs_view(paths@),
            seqs_view(names@) == dir_names(all.take(i as int)),
            strictly_sorted(dir_names(all.take(i as int))),
            rests.len() == names.len(),
            forall|j: int|
                0 <= j < names.len() ==> seqs_view(#[trigger] rests@[j]@) == group(all.take(i as int), names@[j]@)
                    && rests@[j].len() > 0,
            seqs_view(files@) == plain_names(all.take(i as int)),
        decreases paths.len() - i,
    {
        let ghost prev = all.take(i as int);
        let ghost next = all.take(i + 1);
        let p = sub_chars(paths[i].as_slice(), 0, paths[i].len());
        proof {
            assert(next.drop_last() =~= prev);
            assert(next.last() == p@);
            assert(p@ =~= paths@[i as int]@);
            lemma_dir_names_sorted(next);
            lemma_first_slash(p@);
        }
        match find_slash(&p) {
            None => {
                files.push(p);
                proof {
                    assert(seqs_view(files@) =~= plain_names(prev).push(p@));
                    assert forall|j: int| 0 <= j < names.len() implies seqs_view(#[trigger] rests@[j]@) == group(next, names@[j]@) by {
                        assert(group(next, names@[j]@) == group(prev, names@[j]@));
                    }
                }
            },
            Some(k) => {
                let h = sub_chars(p.as_slice(), 0, k);
                let rr = sub_chars(p.as_slice(), k + 1, p.len());
                proof {
                    assert(h@ =~= head(p@));
                    assert(rr@ =~= rest(p@));
                    lemma_insert_unique(dir_names(prev), h@);
                    lemma_first_not_before(dir_names(prev), h@);
                }
                let q = position_not_before(&names, &h);
                let found = q < names.len() && chars_eq(names[q].as_slice(), h.as_slice());
                let ghost old_names = names@;
                let ghost old_rests = rests@;
                if found {
                    let mut g = rests.remove(q);
                    g.push(rr);
                    rests.insert(q, g);
                    proof {
                        assert(dir_names(next) == dir_names(prev));
                        assert forall|j: int| 0 <= j < names.len() implies seqs_view(#[trigger] rests@[j]@) == group(next, names@[j]@)
                            && rests@[j].len() > 0 by {
                            if j == q {
                                assert(seqs_view(rests@[j]@) =~= seqs_view(old_rests[j]@).push(rr@));
                            } else {
                                assert(rests@[j] == old_rests[j]);
                                if names@[j]@ == h@ {
                                    if j < q {
                                        assert(lex_lt(seqs_view(old_names)[j], seqs_view(old_names)[q as int]));
                                    } else {
                                        assert(lex_lt(seqs_view(old_names)[q as int], seqs_view(old_names)[j]));
                                    }
                                    lemma_lex_lt_irreflexive(h@);
                                }
                                assert(group(next, names@[j]@) == group(prev, names@[j]@));
                            }
                        }
                    }
                } else {
                    let mut g: Vec<Vec<char>> = Vec::new();
                    g.push(rr);
                    names.insert(q, h);
                    rests.insert(q, g);
                    proof {
                        assert(!dir_names(prev).contains(h@));
                        assert(seqs_view(names@) =~= seqs_view(old_names).insert(q as int, h@));
                        assert(dir_names(next) == dir_names(prev).insert(q as int, h@));
                        assert forall|j: int| 0 <= j < names.len() implies seqs_view(#[trigger] rests@[j]@) == group(next, names@[j]@)
                            && rests@[j].len() > 0 by {
                            if j == q {
                                if group(prev, h@).len() > 0 {
                                    lemma_group_nonempty_named(prev, h@);
                                }
                                assert(seqs_view(rests@[j]@) =~= group(prev, h@).push(rr@));
                            } else if j < q {
                                assert(names@[j] == old_names[j]);
                                assert(rests@[j] == old_rests[j]);
                                assert(seqs_view(old_names)[j] == old_names[j]@);
                                assert(group(next, names@[j]@) == group(prev, names@[j]@));
                            } else {
                                assert(names@[j] == old_names[j - 1]);
                                assert(rests@[j] == old_rests[j - 1]);
                                assert(seqs_view(old_names)[j - 1] == old_names[j - 1]@);
                                assert(group(next, names@[j]@) == group(prev, names@[j]@));
                            }
                        }
                    }
                }
                proof {
                    assert(plain_names(next) == plain_names(prev));
                }
            },
        }
        i += 1;
    }
    proof {
        assert(all.take(paths.len() as int) =~= all);
    }
    (names, rests, files)
}

/// The view of a tree entry, as a function.
pub open spec fn view_fn() -> spec_fn(TreeNode) -> TreeView {
    |n: TreeNode| node_view(n)
}

/// Keyed entries as keyed plain values.
pub open spec fn items_view(s: Seq<(Vec<char>, TreeNode)>) -> Seq<(Seq<char>, TreeView)> {
    keyed_view(s).map_values(map_payload(view_fn()))
}

fn child_path_chars(prefix: &Vec<char>, name: &Vec<char>) -> (r: Vec<char>)
    ensures
        r@ == child_path(prefix@, name@),
{
    if prefix.len() == 0 {
        return sub_chars(name.as_slice(), 0, name.len());
    }
    let mut r = sub_chars(prefix.as_slice(), 0, prefix.len());
    r.push('/');
    let mut i: usize = 0;
    while i < name.len()
        invariant
            i <= name.len(),
            prefix.len() > 0,
            r@ == prefix@ + seq!['/'] + name@.take(i as int),
        decreases name.len() - i,
    {
        r.push(name[i]);
        assert(name@.take(i + 1) =~= name@.take(i as int).push(name@[i as int]));
        i += 1;
    }
    assert(name@.take(name.len() as int) =~= name@);
    r
}

fn node_times(n: &TreeNode) -> (r: (u64, u64))
    ensures
        r.0 == node_view(*n).modified(),
        r.1 == node_view(*n).created(),
{
    match n {
        TreeNode::Dir { modified, created, .. } => (*modified, *created),
        TreeNode::File { modified, created, .. } => (*modified, *created),
    }
}

/// The newest modification and the creation time a directory shows for these entries.
fn aggregate_timestamps(children: &Vec<TreeNode>) -> (r: (u64, u64))
    ensures
        r.0 == newest_modified(nodes_view(children@)),
        r.1 == dir_created(nodes_view(children@)),
{
    let ghost cv = nodes_view(children@);
    proof {
        lemma_nodes_view(children@);
    }
    let mut max_modified: u64 = 0;
    let mut min_created: u64 = u64::MAX;
    let mut i: usize = 0;
    assert(cv.take(0) =~= Seq::<TreeView>::empty());
    while i < children.len()
        invariant
            i <= children.len(),
            cv == nodes_view(children@),
            cv.len() == children.len(),
            forall|k: int| 0 <= k < children.len() ==> #[trigger] cv[k] == node_view(children@[k]),
            max_modified == newest_modified(cv.take(i as int)),
            min_created == oldest_created(cv.take(i as int)),
        decreases children.len() - i,
    {
        let (m, c) = node_times(&children[i]);
        assert(cv.take(i + 1).drop_last() =~= cv.take(i as int));
        assert(cv.take(i + 1).last() == cv[i as int]);
        if m > max_modified {
            max_modified = m;
        }
        if c < min_created {
            min_created = c;
        }
        i += 1;
    }
    assert(cv.take(children.len() as int) =~= cv);
    if min_created == u64::MAX {
        min_created = 0;
    }
    (max_modified, min_created)
}

fn lookup_timestamps(ts: &StringHashMap<(u64, u64)>, path: &str) -> (r: (u64, u64))
    ensures
        r == timestamps_of(ts@, path@),
{
    match ts.get(path) {
        Some(t) => *t,
        None => (0, 0),
    }
}

/// One level of the tree: see `level`.
fn build_tree_level(paths: &Vec<Vec<char>>, prefix: &Vec<char>, ts: &StringHashMap<(u64, u64)>) -> (r: Vec<TreeNode>)
    ensures
        nodes_view(r@) == level(seqs_view(paths@), prefix@, ts@),
    decreases sum_len(seqs_view(paths@)),
{
    let ghost all = seqs_view(paths@);
    let (names, rests, files) = group_paths(paths);
    let ghost dn = dir_names(all);
    let ghost dirs_spec = dir_items(dn, 0, all, prefix@, ts@);
    proof {
        lemma_dir_items_index(dn, 0, all, prefix@, ts@);
    }
    let mut items: Vec<(Vec<char>, TreeNode)> = Vec::new();
    let mut j: usize = 0;
    while j < names.len()
        invariant
            j <= names.len(),
            all == seqs_view(paths@),
            dn == dir_names(all),
            seqs_view(names@) == dn,
            rests.len() == names.len(),
            forall|k: int|
                0 <= k < names.len() ==> seqs_view(#[trigger] rests@[k]@) == group(all, names@[k]@)
                    && rests@[k].len() > 0,
            dirs_spec == dir_items(dn, 0, all, prefix@, ts@),
            dirs_spec.len() == dn.len(),
            forall|k: int| 0 <= k < dn.len() ==> #[trigger] dirs_spec[k] == dir_item(dn[k], all, prefix@, ts@),
            items_view(items@) == dirs_spec.take(j as int),
        decreases names.len() - j,
    {
        let ghost d = names@[j as int]@;
        let ghost g = group(all, d);
        proof {
            assert(dn[j as int] == d);
            lemma_group_sum_len(all, d);
            assert(seqs_view(rests@[j as int]@) == g);
            assert(seqs_view(rests@[j as int]@).len() == rests@[j as int]@.len());
            lemma_sum_len_nonneg(g);
        }
        let dp = child_path_chars(prefix, &names[j]);
        let children = build_tree_level(&rests[j], &dp, ts);
        let (m, c) = aggregate_timestamps(&children);
        let name = string_from_chars(names[j].as_slice());
        let lower = to_lowercase(name.as_str());
        let key = chars_of(lower.as_str());
        let node = TreeNode::Dir { name, dir_path: string_from_chars(dp.as_slice()), children, modified: m, created: c };
        proof {
            assert(node_view(node) == dir_item(d, all, prefix@, ts@).1);
        }
        let ghost old_items = items@;
        items.push((key, node));
        proof {
            assert(items_view(items@) =~= items_view(old_items).push(dirs_spec[j as int]));
            assert(dirs_spec.take(j + 1) =~= dirs_spec.take(j as int).push(dirs_spec[j as int]));
        }
        j += 1;
    }
    assert(dirs_spec.take(names.len() as int) =~= dirs_spec);
    let ghost pn = plain_names(all);
    let mut f: usize = 0;
    assert(seqs_view(files@).take(0) =~= Seq::<Seq<char>>::empty());
    assert(dirs_spec + file_items(Seq::<Seq<char>>::empty(), prefix@, ts@) =~= dirs_spec);
    while f < files.len()
        invariant
            f <= files.len(),
            seqs_view(files@) == pn,
            items_view(items@) == dirs_spec + file_items(pn.take(f as int), prefix@, ts@),
        decreases files.len() - f,
    {
        let name_chars = &files[f];
        let full = child_path_chars(prefix, name_chars);
        let full_s = string_from_chars(full.as_slice());
        let (m, c) = lookup_timestamps(ts, full_s.as_str());
        let name = string_from_chars(name_chars.as_slice());
        let lower = to_lowercase(name.as_str());
        let key = chars_of(lower.as_str());
        let node = TreeNode::File { name, path: full_s, modified: m, created: c };
        let ghost old_items = items@;
        proof {
            assert(pn[f as int] == files@[f as int]@);
            assert(pn.take(f + 1).drop_last() =~= pn.take(f as int));
            assert(pn.take(f + 1).last() == pn[f as int]);
        }
        items.push((key, node));
        proof {
            assert(items_view(items@) =~= items_view(old_items).push(file_items(pn.take(f + 1), prefix@, ts@).last()));
            assert(file_items(pn.take(f + 1), prefix@, ts@) == file_items(pn.take(f as int), prefix@, ts@).push(file_items(pn.take(f + 1), prefix@, ts@).last()));
            assert(items_view(items@) =~= dirs_spec + file_items(pn.take(f + 1), prefix@, ts@));
        }
        f += 1;
    }
    assert(pn.take(files.len() as int) =~= pn);
    let ghost iv = keyed_view(items@);
    let mut sorted = stable_sort_by_key(items);
    proof {
        lemma_sort_map_payload(iv, view_fn());
        lemma_sort_by_key_len(iv);
    }
    let ghost sv = keyed_view(sorted@);
    let ghost target = level(all, prefix@, ts@);
    assert(target == sort_by_key(iv).map_values(map_payload(view_fn())).map_values(|e: (Seq<char>, TreeView)| e.1));
    let mut out: Vec<TreeNode> = Vec::new();
    let ghost mut k: int = 0;
    while sorted.len() > 0
        invariant
            0 <= k <= sv.len(),
            keyed_view(sorted@) == sv.skip(k),
            out@.len() == k,
            forall|t: int| 0 <= t < k ==> #[trigger] out@[t] == sv[t].1,
        decreases sorted.len(),
    {
        let ghost before = sorted@;
        assert(keyed_view(before).len() == before.len());
        let e = sorted.remove(0);
        proof {
            assert(keyed_view(before)[0] == sv.skip(k)[0]);
            assert forall|t: int| 0 <= t < sorted@.len() implies #[trigger] keyed_view(sorted@)[t] == sv.skip(k + 1)[t] by {
                assert(sorted@[t] == before[t + 1]);
                assert(keyed_view(before)[t + 1] == sv.skip(k)[t + 1]);
            }
            assert(keyed_view(sorted@) =~= sv.skip(k + 1));
        }
        out.push(e.1);
        proof {
            k = k + 1;
        }
    }
    proof {
        lemma_nodes_view(out@);
        assert(nodes_view(out@) =~= target);
    }
    out
}

/// The navigation tree of the tracked files: see `file_tree`.
pub fn build_file_tree(file_infos: &[FileInfo]) -> (r: Vec<TreeNode>)
    ensures
        nodes_view(r@) == file_tree(file_infos@),
{
    let mut ts: StringHashMap<(u64, u64)> = StringHashMap::new();
    let mut names: Vec<Vec<char>> = Vec::new();
    let ghost infos = file_infos@;
    let mut i: usize = 0;
    while i < file_infos.len()
        invariant
            i <= file_infos.len(),
            infos == file_infos@,
            ts@ == timestamp_map(infos.take(i as int)),
            seqs_view(names@) == info_names(infos.take(i as int)),
            names.len() == i,
        decreases file_infos.len() - i,
    {
        let fi = &file_infos[i];
        proof {
            assert(infos.take(i + 1).drop_last() =~= infos.take(i as int));
        }
        ts.insert(fi.name.clone(), (fi.modified, fi.created));
        let ghost old_names = names@;
        names.push(chars_of(fi.name.as_str()));
        proof {
            assert(names@[i as int]@ == infos[i as int].name@);
            assert forall|k: int| 0 <= k < i + 1 implies #[trigger] seqs_view(names@)[k] == info_names(infos.take(i + 1))[k] by {
                if k < i {
                    assert(names@[k] == old_names[k]);
                    assert(seqs_view(old_names)[k] == info_names(infos.take(i as int))[k]);
                }
            }
            assert(seqs_view(names@) =~= info_names(infos.take(i + 1)));
        }
        i += 1;
    }
    assert(infos.take(file_infos.len() as int) =~= infos);
    let prefix: Vec<char> = Vec::new();
    assert(prefix@ =~= Seq::<char>::empty());
    build_tree_level(&names, &prefix, &ts)
}

proof fn lemma_file_items_keys(names: Seq<Seq<char>>, prefix: Seq<char>, ts: Map<Seq<char>, (u64, u64)>)
    ensures
        file_items(names, prefix, ts).len() == names.len(),
        forall|i: int|
            0 <= i < names.len() ==> (#[trigger] file_items(names, prefix, ts)[i]).0 == unicode_lowercase(
                file_items(names, prefix, ts)[i].1.name(),
            ),
    decreases names.len(),
{
    if names.len() > 0 {
        lemma_file_items_keys(names.drop_last(), prefix, ts);
    }
}

/// Each level of the tree lists its entries by lowercase name, and holds one
/// entry per directory and one per plain file name.
pub proof fn lemma_level_sorted(paths: Seq<Seq<char>>, prefix: Seq<char>, ts: Map<Seq<char>, (u64, u64)>)
    ensures
        level(paths, prefix, ts).len() == dir_names(paths).len() + plain_names(paths).len(),
        forall|i: int, j: int|
            0 <= i < j < level(paths, prefix, ts).len() ==> !lex_lt(
                unicode_lowercase(#[trigger] level(paths, prefix, ts)[j].name()),
                unicode_lowercase(#[trigger] level(paths, prefix, ts)[i].name()),
            ),
{
    let dn = dir_names(paths);
    let di = dir_items(dn, 0, paths, prefix, ts);
    let fi = file_items(plain_names(paths), prefix, ts);
    let items = di + fi;
    lemma_dir_items_index(dn, 0, paths, prefix, ts);
    lemma_file_items_keys(plain_names(paths), prefix, ts);
    lemma_sort_by_key_ascending(items);
    lemma_sort_by_key_elements(items);
    let sorted = sort_by_key(items);
    assert forall|i: int| 0 <= i < items.len() implies (#[trigger] items[i]).0 == unicode_lowercase(items[i].1.name()) by {
        if i < di.len() {
            assert(items[i] == di[i]);
        } else {
            assert(items[i] == fi[i - di.len()]);
        }
    }
    assert forall|i: int| 0 <= i < sorted.len() implies (#[trigger] sorted[i]).0 == unicode_lowercase(sorted[i].1.name()) by {
        assert(items.contains(sorted[i]));
    }
    let l = level(paths, prefix, ts);
    assert forall|i: int, j: int| 0 <= i < j < l.len() implies !lex_lt(
        unicode_lowercase(#[trigger] l[j].name()),
        unicode_lowercase(#[trigger] l[i].name()),
    ) by {
        assert(l[i] == sorted[i].1);
        assert(l[j] == sorted[j].1);
        assert(!lex_lt(sorted[j].0, sorted[i].0));
    }
}

proof fn lemma_newest_oldest(ch: Seq<TreeView>)
    ensures
        forall|j: int| 0 <= j < ch.len() ==> (#[trigger] ch[j]).modified() <= newest_modified(ch),
        ch.len() == 0 ==> newest_modified(ch) == 0,
        ch.len() > 0 ==> exists|j: int| 0 <= j < ch.len() && (#[trigger] ch[j]).modified() == newest_modified(ch),
        forall|j: int| 0 <= j < ch.len() ==> oldest_created(ch) <= (#[trigger] ch[j]).created(),
        ch.len() == 0 ==> oldest_created(ch) == u64::MAX,
        ch.len() > 0 ==> exists|j: int| 0 <= j < ch.len() && (#[trigger] ch[j]).created() == oldest_created(ch),
    decreases ch.len(),
{
    if ch.len() > 0 {
        let prev = ch.drop_last();
        lemma_newest_oldest(prev);
        assert forall|j: int| 0 <= j < ch.len() - 1 implies #[trigger] ch[j] == prev[j] by {}
        let n = ch.len() - 1;
        assert(ch[n] == ch.last());
        if prev.len() > 0 {
            let jm = choose|j: int| 0 <= j < prev.len() && (#[trigger] prev[j]).modified() == newest_modified(prev);
            let jc = choose|j: int| 0 <= j < prev.len() && (#[trigger] prev[j]).created() == oldest_created(prev);
            assert(ch[jm] == prev[jm]);
            assert(ch[jc] == prev[jc]);
        }
    }
}

proof fn lemma_file_items_are_files(names: Seq<Seq<char>>, prefix: Seq<char>, ts: Map<Seq<char>, (u64, u64)>)
    ensures
        forall|i: int|
            0 <= i < file_items(names, prefix, ts).len() ==> (#[trigger] file_items(names, prefix, ts)[i]).1 is File,
    decreases names.len(),
{
    if names.len() > 0 {
        lemma_file_items_are_files(names.drop_last(), prefix, ts);
        let prev = file_items(names.drop_last(), prefix, ts);
        assert forall|i: int| 0 <= i < file_items(names, prefix, ts).len() implies (#[trigger] file_items(
            names,
            prefix,
            ts,
        )[i]).1 is File by {
            if i < prev.len() {
                assert(file_items(names, prefix, ts)[i] == prev[i]);
            }
        }
    }
}

/// Every directory of the tree carries the newest modification time and the
/// oldest creation time of all its entries, files and subdirectories alike:
/// its modification time is at least each entry's and equals one of them (0
/// where it is empty); its creation time is at most each entry's and equals
/// one of them, or is 0 where every entry's creation time is `u64::MAX` (or
/// there is none).
pub proof fn lemma_level_dir_times(paths: Seq<Seq<char>>, prefix: Seq<char>, ts: Map<Seq<char>, (u64, u64)>)
    ensures
        forall|i: int|
            0 <= i < level(paths, prefix, ts).len() ==> match #[trigger] level(paths, prefix, ts)[i] {
                TreeView::Dir { children, modified, created, .. } => {
                    &&& forall|j: int| 0 <= j < children.len() ==> (#[trigger] children[j]).modified() <= modified
                    &&& children.len() == 0 ==> modified == 0
                    &&& children.len() > 0 ==> exists|j: int|
                        0 <= j < children.len() && (#[trigger] children[j]).modified() == modified
                    &&& (forall|j: int| 0 <= j < children.len() ==> (#[trigger] children[j]).created() == u64::MAX)
                        ==> created == 0
                    &&& !(forall|j: int| 0 <= j < children.len() ==> (#[trigger] children[j]).created() == u64::MAX)
                        ==> (forall|j: int| 0 <= j < children.len() ==> created <= (#[trigger] children[j]).created())
                        && exists|j: int| 0 <= j < children.len() && (#[trigger] children[j]).created() == created
                },
                TreeView::File { .. } => true,
            },
{
    let dn = dir_names(paths);
    let di = dir_items(dn, 0, paths, prefix, ts);
    let fi = file_items(plain_names(paths), prefix, ts);
    let items = di + fi;
    lemma_dir_items_index(dn, 0, paths, prefix, ts);
    lemma_file_items_keys(plain_names(paths), prefix, ts);
    lemma_file_items_are_files(plain_names(paths), prefix, ts);
    lemma_sort_by_key_elements(items);
    lemma_sort_by_key_len(items);
    let sorted = sort_by_key(items);
    let l = level(paths, prefix, ts);
    assert forall|i: int| 0 <= i < l.len() implies match #[trigger] l[i] {
        TreeView::Dir { children, modified, created, .. } => {
            &&& forall|j: int| 0 <= j < children.len() ==> (#[trigger] children[j]).modified() <= modified
            &&& children.len() == 0 ==> modified == 0
            &&& children.len() > 0 ==> exists|j: int|
                0 <= j < children.len() && (#[trigger] children[j]).modified() == modified
            &&& (forall|j: int| 0 <= j < children.len() ==> (#[trigger] children[j]).created() == u64::MAX)
                ==> created == 0
            &&& !(forall|j: int| 0 <= j < children.len() ==> (#[trigger] children[j]).created() == u64::MAX)
                ==> (forall|j: int| 0 <= j < children.len() ==> created <= (#[trigger] children[j]).created())
                && exists|j: int| 0 <= j < children.len() && (#[trigger] children[j]).created() == created
        },
        TreeView::File { .. } => true,
    } by {
        assert(l[i] == sorted[i].1);
        assert(items.contains(sorted[i]));
        let k = choose|k: int| 0 <= k < items.len() && items[k] == sorted[i];
        if k >= di.len() {
            assert(items[k] == fi[k - di.len()]);
            assert(fi[k - di.len()].1 is File);
        } else {
            assert(items[k] == di[k]);
            let d = dir_item(dn[k], paths, prefix, ts);
            match d.1 {
                TreeView::Dir { children, .. } => {
                    lemma_newest_oldest(children);
                    if !(forall|j: int| 0 <= j < children.len() ==> (#[trigger] children[j]).created() == u64::MAX) {
                        let j0 = choose|j: int| 0 <= j < children.len() && (#[trigger] children[j]).created() != u64::MAX;
                        assert(oldest_created(children) <= children[j0].created());
                    }
                },
                TreeView::File { .. } => {},
            }
        }
    }
}

} // verus!
