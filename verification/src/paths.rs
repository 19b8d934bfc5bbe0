//! Path arithmetic on `/`-separated strings: file names, extensions and joins,
//! following the rules of the standard library's `Path` on Unix.
use vstd::prelude::*;
use crate::text::{chars_eq, chars_eq_ignore_ascii_case, chars_of, eq_ignore_ascii_case, string_from_chars, sub_chars};

verus! {

/// End of `s[..e]` once trailing separators are removed.
pub open spec fn trimmed_end(s: Seq<char>, e: int) -> int
    decreases e,
{
    if e > 0 && s[e - 1] == '/' {
        trimmed_end(s, e - 1)
    } else {
        e
    }
}

/// Start of the last segment of `s[..e]`: just after the last separator, or 0.
pub open spec fn seg_start(s: Seq<char>, e: int) -> int
    decreases e,
{
    if e <= 0 {
        0
    } else if s[e - 1] == '/' {
        e
    } else {
        seg_start(s, e - 1)
    }
}

/// Trailing separators are trimmed within `0..=e`.
pub proof fn lemma_trimmed_end_bounds(s: Seq<char>, e: int)
    requires
        0 <= e,
    ensures
        0 <= trimmed_end(s, e) <= e,
    decreases e,
{
    if e > 0 && s[e - 1] == '/' {
        lemma_trimmed_end_bounds(s, e - 1);
    }
}

/// The start of the last component lies within `0..=e`.
pub proof fn lemma_seg_start_bounds(s: Seq<char>, e: int)
    requires
        0 <= e,
    ensures
        0 <= seg_start(s, e) <= e,
    decreases e,
{
    if e > 0 && s[e - 1] != '/' {
        lemma_seg_start_bounds(s, e - 1);
    }
}

/// The range of the final normal component of `s[..e]`, if it has one.
/// A trailing `.` component is skipped, a trailing `..` component means there is none.
pub open spec fn name_range(s: Seq<char>, e: int) -> Option<(int, int)>
    decreases e,
{
    if e < 0 {
        None
    } else {
        let t = trimmed_end(s, e);
        let k = seg_start(s, t);
        proof {
            lemma_trimmed_end_bounds(s, e);
            lemma_seg_start_bounds(s, t);
        }
        if t == k {
            None
        } else if t == k + 1 && s[k] == '.' {
            if k == 0 {
                None
            } else {
                name_range(s, k)
            }
        } else if t == k + 2 && s[k] == '.' && s[k + 1] == '.' {
            None
        } else {
            Some((k, t))
        }
    }
}

/// The final component of a path, as `Path::file_name` gives it.
pub open spec fn file_name(s: Seq<char>) -> Option<Seq<char>> {
    match name_range(s, s.len() as int) {
        Some((a, b)) => Some(s.subrange(a, b)),
        None => None,
    }
}

/// Index of the last `.` in `n`, or -1.
pub open spec fn last_dot(n: Seq<char>) -> int
    decreases n.len(),
{
    if n.len() == 0 {
        -1
    } else if n.last() == '.' {
        n.len() - 1
    } else {
        last_dot(n.drop_last())
    }
}

/// The extension of a file name: the text after its last `.`, unless that
/// `.` is the name's first character.
pub open spec fn name_extension(n: Seq<char>) -> Option<Seq<char>> {
    let j = last_dot(n);
    if j <= 0 {
        None
    } else {
        Some(n.subrange(j + 1, n.len() as int))
    }
}

/// The stem of a file name: the text before its last `.`, or the whole name
/// where it has no extension.
pub open spec fn name_stem(n: Seq<char>) -> Seq<char> {
    let j = last_dot(n);
    if j <= 0 {
        n
    } else {
        n.subrange(0, j)
    }
}

/// The extension of a path, as `Path::extension` gives it.
pub open spec fn extension(s: Seq<char>) -> Option<Seq<char>> {
    match file_name(s) {
        Some(n) => name_extension(n),
        None => None,
    }
}

/// The stem of a path, as `Path::file_stem` gives it.
pub open spec fn file_stem(s: Seq<char>) -> Option<Seq<char>> {
    match file_name(s) {
        Some(n) => Some(name_stem(n)),
        None => None,
    }
}

/// `rel` appended to `base` as `Path::join` does: an absolute `rel` replaces
/// `base`, otherwise a separator is put between them where `base` lacks one.
pub open spec fn join(base: Seq<char>, rel: Seq<char>) -> Seq<char> {
    if rel.len() > 0 && rel[0] == '/' {
        rel
    } else if base.len() > 0 && base.last() != '/' {
        base + seq!['/'] + rel
    } else {
        base + rel
    }
}

/// The last component, where there is one, is a non-empty range within `0..e`.
pub proof fn lemma_name_range_bounds(s: Seq<char>, e: int)
    requires
        0 <= e <= s.len(),
    ensures
        name_range(s, e) matches Some((a, b)) ==> 0 <= a < b <= e,
    decreases e,
{
    let t = trimmed_end(s, e);
    lemma_trimmed_end_bounds(s, e);
    let k = seg_start(s, t);
    lemma_seg_start_bounds(s, t);
    if t == k + 1 && s[k] == '.' && k != 0 {
        lemma_name_range_bounds(s, k);
    }
}

fn trim_end(v: &Vec<char>, e: usize) -> (r: usize)
    requires
        e <= v.len(),
    ensures
        r == trimmed_end(v@, e as int),
{
    let mut t = e;
    while t > 0 && v[t - 1] == '/'
        invariant
            t <= e <= v.len(),
            trimmed_end(v@, e as int) == trimmed_end(v@, t as int),
        decreases t,
    {
        t -= 1;
    }
    t
}

fn segment_start(v: &Vec<char>, e: usize) -> (r: usize)
    requires
        e <= v.len(),
    ensures
        r == seg_start(v@, e as int),
{
    let mut k = e;
    while k > 0 && v[k - 1] != '/'
        invariant
            k <= e <= v.len(),
            seg_start(v@, e as int) == seg_start(v@, k as int),
        decreases k,
    {
        k -= 1;
    }
    k
}

/// The range of the final normal component of a path.
fn file_name_range(v: &Vec<char>) -> (r: Option<(usize, usize)>)
    ensures
        match r {
            Some((a, b)) => name_range(v@, v@.len() as int) == Some((a as int, b as int)),
            None => name_range(v@, v@.len() as int) is None,
        },
{
    let mut e = v.len();
    loop
        invariant
            e <= v.len(),
            name_range(v@, v@.len() as int) == name_range(v@, e as int),
        decreases e,
    {
        let t = trim_end(v, e);
        proof {
            lemma_trimmed_end_bounds(v@, e as int);
        }
        let k = segment_start(v, t);
        proof {
            lemma_seg_start_bounds(v@, t as int);
        }
        if t == k {
            return None;
        } else if t - k == 1 && v[k] == '.' {
            if k == 0 {
                return None;
            }
            e = k;
        } else if t - k == 2 && v[k] == '.' && v[k + 1] == '.' {
            return None;
        } else {
            return Some((k, t));
        }
    }
}

/// The final component of a path, if it has one.
pub fn path_file_name(path: &str) -> (r: Option<String>)
    ensures
        match r {
            Some(n) => file_name(path@) == Some(n@),
            None => file_name(path@) is None,
        },
{
    let v = chars_of(path);
    match file_name_range(&v) {
        Some((a, b)) => {
            proof {
                lemma_name_range_bounds(v@, v@.len() as int);
            }
            let n = string_from_chars(sub_chars(&v, a, b).as_slice());
            Some(n)
        },
        None => None,
    }
}

/// Index of the last `.` in `v[a..b]`.
fn last_dot_in(v: &Vec<char>, a: usize, b: usize) -> (r: Option<usize>)
    requires
        a <= b <= v.len(),
    ensures
        match r {
            Some(j) => a <= j < b && last_dot(v@.subrange(a as int, b as int)) == j - a,
            None => last_dot(v@.subrange(a as int, b as int)) == -1,
        },
{
    let mut i = b;
    while i > a
        invariant
            a <= i <= b <= v.len(),
            last_dot(v@.subrange(a as int, b as int)) == last_dot(v@.subrange(a as int, i as int)),
        decreases i - a,
    {
        assert(v@.subrange(a as int, i as int).last() == v@[i - 1]);
        if v[i - 1] == '.' {
            return Some(i - 1);
        }
        assert(v@.subrange(a as int, i as int).drop_last() =~= v@.subrange(a as int, i - 1));
        i -= 1;
    }
    None
}

/// The extension of a path, as `Path::extension` gives it.
pub fn path_extension_chars(v: &Vec<char>) -> (r: Option<Vec<char>>)
    ensures
        match r {
            Some(x) => extension(v@) == Some(x@),
            None => extension(v@) is None,
        },
{
    match file_name_range(v) {
        Some((a, b)) => {
            proof {
                lemma_name_range_bounds(v@, v@.len() as int);
            }
            let ghost n = v@.subrange(a as int, b as int);
            match last_dot_in(v, a, b) {
                Some(j) => {
                    if j == a {
                        None
                    } else {
                        let x = sub_chars(v.as_slice(), j + 1, b);
                        assert(n.subrange(j - a + 1, n.len() as int) =~= v@.subrange(j + 1, b as int));
                        Some(x)
                    }
                },
                None => None,
            }
        },
        None => None,
    }
}

/// The stem of a path, as `Path::file_stem` gives it.
pub fn path_file_stem(path: &str) -> (r: Option<String>)
    ensures
        match r {
            Some(x) => file_stem(path@) == Some(x@),
            None => file_stem(path@) is None,
        },
{
    let v = chars_of(path);
    match file_name_range(&v) {
        Some((a, b)) => {
            proof {
                lemma_name_range_bounds(v@, v@.len() as int);
            }
            let ghost n = v@.subrange(a as int, b as int);
            match last_dot_in(&v, a, b) {
                Some(j) => {
                    if j == a {
                        Some(string_from_chars(sub_chars(v.as_slice(), a, b).as_slice()))
                    } else {
                        let x = sub_chars(v.as_slice(), a, j);
                        assert(n.subrange(0, j - a) =~= v@.subrange(a as int, j as int));
                        Some(string_from_chars(x.as_slice()))
                    }
                },
                None => Some(string_from_chars(sub_chars(v.as_slice(), a, b).as_slice())),
            }
        },
        None => None,
    }
}

/// The extension of a path, as `Path::extension` gives it.
pub fn path_extension(path: &str) -> (r: Option<String>)
    ensures
        match r {
            Some(x) => extension(path@) == Some(x@),
            None => extension(path@) is None,
        },
{
    let v = chars_of(path);
    match path_extension_chars(&v) {
        Some(x) => Some(string_from_chars(x.as_slice())),
        None => None,
    }
}

/// The extension is present and equals `lit`, ignoring ASCII case.
pub open spec fn ext_is(ext: Option<Seq<char>>, lit: Seq<char>) -> bool {
    ext matches Some(x) && eq_ignore_ascii_case(x, lit)
}

fn ext_matches(ext: &Option<Vec<char>>, lit: &str) -> (r: bool)
    ensures
        r == ext_is(
            match ext {
                Some(x) => Some(x@),
                None => None,
            },
            lit@,
        ),
{
    match ext {
        Some(x) => {
            let l = chars_of(lit);
            chars_eq_ignore_ascii_case(x.as_slice(), l.as_slice())
        },
        None => false,
    }
}

/// The extension of a path as a plain value.
pub open spec fn ext_view(ext: &Option<Vec<char>>) -> Option<Seq<char>> {
    match ext {
        Some(x) => Some(x@),
        None => None,
    }
}

/// A markdown file: its extension is `md` or `markdown`, in any ASCII case.
pub open spec fn is_markdown_path(p: Seq<char>) -> bool {
    ext_is(extension(p), "md"@) || ext_is(extension(p), "markdown"@)
}

/// An image that the server hands out: png, jpg, jpeg, gif, svg, webp, bmp or ico.
pub open spec fn is_image_path(p: Seq<char>) -> bool {
    let e = extension(p);
    ext_is(e, "png"@) || ext_is(e, "jpg"@) || ext_is(e, "jpeg"@) || ext_is(e, "gif"@)
        || ext_is(e, "svg"@) || ext_is(e, "webp"@) || ext_is(e, "bmp"@) || ext_is(e, "ico"@)
}

/// A file a workspace shows: markdown, plain text or JSON.
pub open spec fn is_supported_path(p: Seq<char>) -> bool {
    is_markdown_path(p) || ext_is(extension(p), "txt"@) || ext_is(extension(p), "json"@)
}

/// The content type an image is served with.
pub open spec fn image_content_type(p: Seq<char>) -> Seq<char> {
    let e = extension(p);
    if ext_is(e, "png"@) {
        "image/png"@
    } else if ext_is(e, "jpg"@) || ext_is(e, "jpeg"@) {
        "image/jpeg"@
    } else if ext_is(e, "gif"@) {
        "image/gif"@
    } else if ext_is(e, "svg"@) {
        "image/svg+xml"@
    } else if ext_is(e, "webp"@) {
        "image/webp"@
    } else if ext_is(e, "bmp"@) {
        "image/bmp"@
    } else if ext_is(e, "ico"@) {
        "image/x-icon"@
    } else {
        "application/octet-stream"@
    }
}

/// Whether the path names a markdown file.
pub fn is_markdown_file(path: &str) -> (r: bool)
    ensures
        r == is_markdown_path(path@),
{
    let v = chars_of(path);
    let e = path_extension_chars(&v);
    ext_matches(&e, "md") || ext_matches(&e, "markdown")
}

/// Whether the path names an image the server may hand out.
pub fn is_image_file(path: &str) -> (r: bool)
    ensures
        r == is_image_path(path@),
{
    let v = chars_of(path);
    let e = path_extension_chars(&v);
    ext_matches(&e, "png") || ext_matches(&e, "jpg") || ext_matches(&e, "jpeg")
        || ext_matches(&e, "gif") || ext_matches(&e, "svg") || ext_matches(&e, "webp")
        || ext_matches(&e, "bmp") || ext_matches(&e, "ico")
}

/// Whether a workspace lists the file.
pub fn is_supported_file(path: &str) -> (r: bool)
    ensures
        r == is_supported_path(path@),
{
    let v = chars_of(path);
    let e = path_extension_chars(&v);
    ext_matches(&e, "md") || ext_matches(&e, "markdown") || ext_matches(&e, "txt")
        || ext_matches(&e, "json")
}

/// The content type an image is served with, judged by its extension.
pub fn guess_image_content_type(path: &str) -> (r: String)
    ensures
        r@ == image_content_type(path@),
{
    let v = chars_of(path);
    let e = path_extension_chars(&v);
    if ext_matches(&e, "png") {
        String::from_str("image/png")
    } else if ext_matches(&e, "jpg") || ext_matches(&e, "jpeg") {
        String::from_str("image/jpeg")
    } else if ext_matches(&e, "gif") {
        String::from_str("image/gif")
    } else if ext_matches(&e, "svg") {
        String::from_str("image/svg+xml")
    } else if ext_matches(&e, "webp") {
        String::from_str("image/webp")
    } else if ext_matches(&e, "bmp") {
        String::from_str("image/bmp")
    } else if ext_matches(&e, "ico") {
        String::from_str("image/x-icon")
    } else {
        String::from_str("application/octet-stream")
    }
}

/// `rel` appended to `base` as `Path::join` does.
pub fn join_path(base: &str, rel: &str) -> (r: String)
    ensures
        r@ == join(base@, rel@),
{
    let b = chars_of(base);
    let rv = chars_of(rel);
    if rv.len() > 0 && rv[0] == '/' {
        return rel.to_string();
    }
    let mut out = base.to_string();
    if b.len() > 0 && b[b.len() - 1] != '/' {
        out.append("/");
        proof {
            reveal_strlit("/");
        }
    }
    out.append(rel);
    out
}

/// `s[a..b]` is one whole `/`-separated segment of `s`.
pub open spec fn is_segment(s: Seq<char>, a: int, b: int) -> bool {
    &&& 0 <= a <= b <= s.len()
    &&& (a == 0 || s[a - 1] == '/')
    &&& (b == s.len() || s[b] == '/')
    &&& forall|i: int| a <= i < b ==> s[i] != '/'
}

/// Some whole segment of `s` equals `c`.
pub open spec fn has_segment(s: Seq<char>, c: Seq<char>) -> bool {
    exists|a: int, b: int| is_segment(s, a, b) && s.subrange(a, b) == c
}

proof fn lemma_segment_around_separator(u: Seq<char>, v: Seq<char>, c: Seq<char>)
    requires
        c.len() > 0,
        !c.contains('/'),
    ensures
        has_segment(u + seq!['/'] + v, c) == (has_segment(u, c) || has_segment(v, c)),
{
    let w = u + seq!['/'] + v;
    let n = u.len() as int;
    assert(w[n] == '/');
    if has_segment(u, c) {
        let (x, y) = choose|x: int, y: int| is_segment(u, x, y) && u.subrange(x, y) == c;
        assert(w.subrange(x, y) =~= u.subrange(x, y));
        assert(is_segment(w, x, y));
    }
    if has_segment(v, c) {
        let (x, y) = choose|x: int, y: int| is_segment(v, x, y) && v.subrange(x, y) == c;
        assert(w.subrange(x + n + 1, y + n + 1) =~= v.subrange(x, y));
        assert(is_segment(w, x + n + 1, y + n + 1));
    }
    if has_segment(w, c) {
        let (x, y) = choose|x: int, y: int| is_segment(w, x, y) && w.subrange(x, y) == c;
        assert(x < y) by {
            assert(w.subrange(x, y).len() == c.len());
        }
        if y <= n {
            assert(u.subrange(x, y) =~= w.subrange(x, y));
            assert forall|i: int| x <= i < y implies u[i] != '/' by {
                assert(w[i] == u[i]);
            }
            if x > 0 {
                assert(w[x - 1] == u[x - 1]);
            }
            if y < n {
                assert(w[y] == u[y]);
            }
            assert(is_segment(u, x, y));
        } else {
            assert(x > n) by {
                if x <= n {
                    assert(w.subrange(x, y)[n - x] == '/');
                    assert(c[n - x] == '/');
                }
            }
            assert(v.subrange(x - n - 1, y - n - 1) =~= w.subrange(x, y));
            assert forall|i: int| x - n - 1 <= i < y - n - 1 implies v[i] != '/' by {
                assert(w[i + n + 1] == v[i]);
            }
            if x - n - 1 > 0 {
                assert(w[x - 1] == v[x - n - 2]);
            }
            if y - n - 1 < v.len() {
                assert(w[y] == v[y - n - 1]);
            }
            assert(is_segment(v, x - n - 1, y - n - 1));
        }
    }
}

/// A path joined from `base` and a relative `rel` has a `.mdlive` component
/// exactly where one of the two has: names that merely contain `.mdlive`
/// never count.
pub proof fn lemma_mdlive_path_join(base: Seq<char>, rel: Seq<char>)
    requires
        !(rel.len() > 0 && rel[0] == '/'),
    ensures
        has_segment(join(base, rel), ".mdlive"@) == (has_segment(base, ".mdlive"@) || has_segment(rel, ".mdlive"@)),
{
    let c = ".mdlive"@;
    reveal_strlit(".mdlive");
    assert(!c.contains('/')) by {
        if c.contains('/') {
            let i = choose|i: int| 0 <= i < c.len() && c[i] == '/';
            assert(c[i] != '/');
        }
    }
    if base.len() == 0 {
        assert(join(base, rel) =~= rel);
        assert(!has_segment(base, c)) by {
            if has_segment(base, c) {
                let (x, y) = choose|x: int, y: int| is_segment(base, x, y) && base.subrange(x, y) == c;
                assert(base.subrange(x, y).len() == 0);
            }
        }
    } else if base.last() != '/' {
        lemma_segment_around_separator(base, rel, c);
    } else {
        let u = base.drop_last();
        assert(base =~= u + seq!['/'] + Seq::<char>::empty());
        assert(join(base, rel) =~= u + seq!['/'] + rel);
        lemma_segment_around_separator(u, rel, c);
        lemma_segment_around_separator(u, Seq::<char>::empty(), c);
        assert(!has_segment(Seq::<char>::empty(), c)) by {
            if has_segment(Seq::<char>::empty(), c) {
                let (x, y) = choose|x: int, y: int| is_segment(Seq::<char>::empty(), x, y)
                    && Seq::<char>::empty().subrange(x, y) == c;
                assert(Seq::<char>::empty().subrange(x, y).len() == 0);
            }
        }
    }
}

/// Whether any component of the path is the workspace's own `.mdlive` directory.
pub fn is_mdlive_path(path: &str) -> (r: bool)
    ensures
        r == has_segment(path@, ".mdlive"@),
{
    let v = chars_of(path);
    let c = chars_of(".mdlive");
    let mut start: usize = 0;
    let mut i: usize = 0;
    while i < v.len()
        invariant
            start <= i <= v.len(),
            c@ == ".mdlive"@,
            v@ == path@,
            start == 0 || v@[start - 1] == '/',
            forall|j: int| start <= j < i ==> v@[j] != '/',
            forall|a: int, b: int|
                #![trigger is_segment(v@, a, b)]
                is_segment(v@, a, b) && a < start ==> v@.subrange(a, b) != c@,
        decreases v.len() - i,
    {
        if v[i] == '/' {
            let seg = sub_chars(v.as_slice(), start, i);
            assert(is_segment(v@, start as int, i as int));
            if chars_eq(seg.as_slice(), c.as_slice()) {
                assert(is_segment(v@, start as int, i as int) && v@.subrange(start as int, i as int) == ".mdlive"@);
                return true;
            }
            assert forall|a: int, b: int|
                #![trigger is_segment(v@, a, b)]
                is_segment(v@, a, b) && a < i + 1 implies v@.subrange(a, b) != c@ by {
                if a == start {
                    if b < i {
                        assert(v@[b] != '/');
                    } else if b > i {
                        assert(v@[i as int] != '/');
                    }
                } else if a > start {
                    assert(v@[a - 1] != '/');
                }
            }
            start = i + 1;
        }
        i += 1;
    }
    let seg = sub_chars(v.as_slice(), start, v.len());
    assert(is_segment(v@, start as int, v.len() as int));
    if chars_eq(seg.as_slice(), c.as_slice()) {
        assert(is_segment(v@, start as int, v.len() as int) && v@.subrange(start as int, v.len() as int) == ".mdlive"@);
        return true;
    }
    assert forall|a: int, b: int| is_segment(v@, a, b) implies v@.subrange(a, b) != c@ by {
        if a == start {
            if b < v.len() {
                assert(v@[b] != '/');
            }
        } else if a > start {
            assert(v@[a - 1] != '/');
        }
    }
    false
}

} // verus!
