//! Ordering of character sequences, and the stable insertion that sorting builds on.
use vstd::prelude::*;
use crate::text::{chars_eq, chars_of, seqs_view};

verus! {

/// `a` sorts before `b` in the order of `String`: code point by code point,
/// with a proper prefix first.
pub open spec fn lex_lt(a: Seq<char>, b: Seq<char>) -> bool
    decreases a.len(),
{
    if b.len() == 0 {
        false
    } else if a.len() == 0 {
        true
    } else if a[0] != b[0] {
        a[0] < b[0]
    } else {
        lex_lt(a.skip(1), b.skip(1))
    }
}

/// Whether `a` sorts before `b` in the order of `String`.
pub fn chars_lt(a: &[char], b: &[char]) -> (r: bool)
    ensures
        r == lex_lt(a@, b@),
{
    let mut i: usize = 0;
    assert(a@.skip(0) =~= a@);
    assert(b@.skip(0) =~= b@);
    while i < a.len() && i < b.len()
        invariant
            i <= a.len(),
            i <= b.len(),
            forall|j: int| 0 <= j < i ==> a@[j] == b@[j],
            lex_lt(a@, b@) == lex_lt(a@.skip(i as int), b@.skip(i as int)),
        decreases a.len() - i,
    {
        if a[i] != b[i] {
            assert(a@.skip(i as int)[0] == a@[i as int]);
            assert(b@.skip(i as int)[0] == b@[i as int]);
            return a[i] < b[i];
        }
        assert(a@.skip(i as int).skip(1) =~= a@.skip(i + 1));
        assert(b@.skip(i as int).skip(1) =~= b@.skip(i + 1));
        i += 1;
    }
    i < b.len()
}

/// No name comes before itself.
pub proof fn lemma_lex_lt_irreflexive(a: Seq<char>)
    ensures
        !lex_lt(a, a),
    decreases a.len(),
{
    if a.len() > 0 {
        lemma_lex_lt_irreflexive(a.skip(1));
    }
}

/// Of two names, at most one comes before the other.
pub proof fn lemma_lex_lt_asymmetric(a: Seq<char>, b: Seq<char>)
    ensures
        !(lex_lt(a, b) && lex_lt(b, a)),
    decreases a.len(),
{
    if a.len() > 0 && b.len() > 0 && a[0] == b[0] {
        lemma_lex_lt_asymmetric(a.skip(1), b.skip(1));
    }
}

/// The name order is transitive.
pub proof fn lemma_lex_lt_transitive(a: Seq<char>, b: Seq<char>, c: Seq<char>)
    requires
        lex_lt(a, b),
        lex_lt(b, c),
    ensures
        lex_lt(a, c),
    decreases a.len(),
{
    if a.len() > 0 && b.len() > 0 && c.len() > 0 && a[0] == b[0] && b[0] == c[0] {
        lemma_lex_lt_transitive(a.skip(1), b.skip(1), c.skip(1));
    }
}

/// Of two different names, one comes before the other.
pub proof fn lemma_lex_lt_total(a: Seq<char>, b: Seq<char>)
    ensures
        lex_lt(a, b) || lex_lt(b, a) || a == b,
    decreases a.len(),
{
    if a.len() > 0 && b.len() > 0 && a[0] == b[0] {
        lemma_lex_lt_total(a.skip(1), b.skip(1));
        if a.skip(1) == b.skip(1) {
            assert(a =~= seq![a[0]] + a.skip(1));
            assert(b =~= seq![b[0]] + b.skip(1));
        }
    } else if a.len() == 0 && b.len() == 0 {
        assert(a =~= b);
    }
}

/// The keys of a keyed sequence.
pub open spec fn keyed_view<T>(s: Seq<(Vec<char>, T)>) -> Seq<(Seq<char>, T)> {
    s.map_values(|e: (Vec<char>, T)| (e.0@, e.1))
}

/// Where an element with key `k` goes: before the first element whose key
/// sorts after `k`, so that it follows every element with an equal key.
pub open spec fn first_after<T>(r: Seq<(Seq<char>, T)>, k: Seq<char>) -> int
    decreases r.len(),
{
    if r.len() == 0 {
        0
    } else if lex_lt(k, r[0].0) {
        0
    } else {
        1 + first_after(r.skip(1), k)
    }
}

/// `x` inserted into `r` after every element whose key does not sort after its own.
pub open spec fn insert_by_key<T>(r: Seq<(Seq<char>, T)>, x: (Seq<char>, T)) -> Seq<(Seq<char>, T)> {
    r.insert(first_after(r, x.0), x)
}

/// The stable sort of a keyed sequence by key.
pub open spec fn sort_by_key<T>(s: Seq<(Seq<char>, T)>) -> Seq<(Seq<char>, T)>
    decreases s.len(),
{
    if s.len() == 0 {
        s
    } else {
        insert_by_key(sort_by_key(s.drop_last()), s.last())
    }
}

/// `first_after` is a position in the sequence or just past it.
pub proof fn lemma_first_after_bounds<T>(r: Seq<(Seq<char>, T)>, k: Seq<char>)
    ensures
        0 <= first_after(r, k) <= r.len(),
    decreases r.len(),
{
    if r.len() > 0 && !lex_lt(k, r[0].0) {
        lemma_first_after_bounds(r.skip(1), k);
    }
}

/// Sorting by key keeps the length.
pub proof fn lemma_sort_by_key_len<T>(s: Seq<(Seq<char>, T)>)
    ensures
        sort_by_key(s).len() == s.len(),
    decreases s.len(),
{
    if s.len() > 0 {
        lemma_sort_by_key_len(s.drop_last());
        lemma_first_after_bounds(sort_by_key(s.drop_last()), s.last().0);
    }
}

fn position_after<T>(r: &Vec<(Vec<char>, T)>, k: &Vec<char>) -> (p: usize)
    ensures
        p == first_after(keyed_view(r@), k@),
{
    let ghost rv = keyed_view(r@);
    let mut i: usize = 0;
    assert(rv.skip(0) =~= rv);
    while i < r.len()
        invariant
            i <= r.len(),
            rv == keyed_view(r@),
            first_after(rv, k@) == i + first_after(rv.skip(i as int), k@),
        decreases r.len() - i,
    {
        assert(rv.skip(i as int)[0] == rv[i as int]);
        assert(rv[i as int].0 == r@[i as int].0@);
        if chars_lt(k.as_slice(), r[i].0.as_slice()) {
            return i;
        }
        assert(rv.skip(i as int).skip(1) =~= rv.skip(i + 1));
        i += 1;
    }
    i
}

/// Sorts keyed elements by key, keeping elements with equal keys in their order.
pub fn stable_sort_by_key<T>(items: Vec<(Vec<char>, T)>) -> (r: Vec<(Vec<char>, T)>)
    ensures
        keyed_view(r@) == sort_by_key(keyed_view(items@)),
{
    let ghost orig = keyed_view(items@);
    let mut rest = items;
    let mut out: Vec<(Vec<char>, T)> = Vec::new();
    let ghost mut j: int = 0;
    while rest.len() > 0
        invariant
            0 <= j <= orig.len(),
            keyed_view(rest@) == orig.skip(j),
            keyed_view(out@) == sort_by_key(orig.take(j)),
        decreases rest.len(),
    {
        let ghost before = rest@;
        assert(keyed_view(before).len() == before.len());
        let x = rest.remove(0);
        let ghost xv = (x.0@, x.1);
        proof {
            assert(keyed_view(before)[0] == xv);
            assert(orig[j] == orig.skip(j)[0]);
            assert forall|k: int| 0 <= k < rest@.len() implies #[trigger] keyed_view(rest@)[k] == orig.skip(j + 1)[k] by {
                assert(rest@[k] == before[k + 1]);
                assert(keyed_view(before)[k + 1] == orig.skip(j)[k + 1]);
            }
            assert(keyed_view(rest@) =~= orig.skip(j + 1));
            assert(orig.take(j + 1).drop_last() =~= orig.take(j));
            assert(orig.take(j + 1).last() == xv);
        }
        let p = position_after(&out, &x.0);
        proof {
            lemma_first_after_bounds(keyed_view(out@), x.0@);
        }
        let ghost ov = keyed_view(out@);
        out.insert(p, x);
        proof {
            assert(keyed_view(out@) =~= ov.insert(p as int, xv));
            j = j + 1;
        }
    }
    proof {
        assert(orig.take(j) =~= orig);
    }
    out
}

/// Applies `f` to the payload of a keyed element, keeping its key.
pub open spec fn map_payload<T, U>(f: spec_fn(T) -> U) -> spec_fn((Seq<char>, T)) -> (Seq<char>, U) {
    |e: (Seq<char>, T)| (e.0, f(e.1))
}

proof fn lemma_first_after_map<T, U>(r: Seq<(Seq<char>, T)>, f: spec_fn(T) -> U, k: Seq<char>)
    ensures
        first_after(r.map_values(map_payload(f)), k) == first_after(r, k),
    decreases r.len(),
{
    if r.len() > 0 {
        assert(r.map_values(map_payload(f)).skip(1) =~= r.skip(1).map_values(map_payload(f)));
        lemma_first_after_map(r.skip(1), f, k);
    }
}

/// Sorting by key does not look at the payloads: sorting and then changing the
/// payloads gives what changing them and then sorting gives.
pub proof fn lemma_sort_map_payload<T, U>(s: Seq<(Seq<char>, T)>, f: spec_fn(T) -> U)
    ensures
        sort_by_key(s.map_values(map_payload(f))) == sort_by_key(s).map_values(map_payload(f)),
    decreases s.len(),
{
    let g = map_payload(f);
    if s.len() > 0 {
        let sm = s.map_values(g);
        assert(sm.drop_last() =~= s.drop_last().map_values(g));
        lemma_sort_map_payload(s.drop_last(), f);
        let r = sort_by_key(s.drop_last());
        lemma_first_after_map(r, f, s.last().0);
        lemma_sort_by_key_len(s.drop_last());
        lemma_first_after_bounds(r, s.last().0);
        let p = first_after(r, s.last().0);
        assert(r.map_values(g).insert(p, g(s.last())) =~= r.insert(p, s.last()).map_values(g));
    } else {
        assert(s.map_values(g) =~= Seq::<(Seq<char>, U)>::empty());
    }
}

/// The keys never decrease along the sequence.
pub open spec fn keys_ascending<T>(r: Seq<(Seq<char>, T)>) -> bool {
    forall|i: int, j: int| 0 <= i < j < r.len() ==> !lex_lt(#[trigger] r[j].0, #[trigger] r[i].0)
}

proof fn lemma_first_after<T>(r: Seq<(Seq<char>, T)>, k: Seq<char>)
    ensures
        0 <= first_after(r, k) <= r.len(),
        forall|i: int| 0 <= i < first_after(r, k) ==> !lex_lt(k, #[trigger] r[i].0),
        first_after(r, k) < r.len() ==> lex_lt(k, r[first_after(r, k)].0),
    decreases r.len(),
{
    if r.len() > 0 && !lex_lt(k, r[0].0) {
        lemma_first_after(r.skip(1), k);
        assert forall|i: int| 0 <= i < first_after(r, k) implies !lex_lt(k, #[trigger] r[i].0) by {
            if i > 0 {
                assert(r[i] == r.skip(1)[i - 1]);
            }
        }
    }
}

proof fn lemma_insert_by_key_ascending<T>(r: Seq<(Seq<char>, T)>, x: (Seq<char>, T))
    requires
        keys_ascending(r),
    ensures
        keys_ascending(insert_by_key(r, x)),
{
    lemma_first_after(r, x.0);
    let p = first_after(r, x.0);
    let n = r.insert(p, x);
    assert forall|i: int, j: int| 0 <= i < j < n.len() implies !lex_lt(#[trigger] n[j].0, #[trigger] n[i].0) by {
        if j < p {
        } else if j == p {
        } else if i == p {
            assert(n[j] == r[j - 1]);
            if lex_lt(r[j - 1].0, x.0) {
                if j - 1 > p {
                    assert(!lex_lt(r[j - 1].0, r[p].0));
                }
                lemma_lex_lt_transitive(r[j - 1].0, x.0, r[p].0);
                lemma_lex_lt_irreflexive(r[p].0);
            }
        } else if i < p {
            assert(n[j] == r[j - 1]);
            assert(n[i] == r[i]);
        } else {
            assert(n[j] == r[j - 1]);
            assert(n[i] == r[i - 1]);
        }
    }
}

/// Sorting by key leaves the keys in ascending order and keeps every element.
pub proof fn lemma_sort_by_key_ascending<T>(s: Seq<(Seq<char>, T)>)
    ensures
        keys_ascending(sort_by_key(s)),
        sort_by_key(s).len() == s.len(),
    decreases s.len(),
{
    lemma_sort_by_key_len(s);
    if s.len() > 0 {
        lemma_sort_by_key_ascending(s.drop_last());
        lemma_insert_by_key_ascending(sort_by_key(s.drop_last()), s.last());
    }
}

/// Every element of the sorted sequence comes from the input.
pub proof fn lemma_sort_by_key_elements<T>(s: Seq<(Seq<char>, T)>)
    ensures
        forall|i: int| 0 <= i < sort_by_key(s).len() ==> s.contains(#[trigger] sort_by_key(s)[i]),
    decreases s.len(),
{
    lemma_sort_by_key_len(s);
    if s.len() > 0 {
        let prev = s.drop_last();
        lemma_sort_by_key_elements(prev);
        let r = sort_by_key(prev);
        lemma_sort_by_key_len(prev);
        lemma_first_after_bounds(r, s.last().0);
        let p = first_after(r, s.last().0);
        assert forall|i: int| 0 <= i < sort_by_key(s).len() implies s.contains(#[trigger] sort_by_key(s)[i]) by {
            if i < p {
                assert(prev.contains(r[i]));
                let k = choose|k: int| 0 <= k < prev.len() && prev[k] == r[i];
                assert(s[k] == prev[k]);
            } else if i == p {
                assert(s[s.len() - 1] == s.last());
            } else {
                assert(sort_by_key(s)[i] == r[i - 1]);
                assert(prev.contains(r[i - 1]));
                let k = choose|k: int| 0 <= k < prev.len() && prev[k] == r[i - 1];
                assert(s[k] == prev[k]);
            }
        }
    }
}

/// Every element of the input ends up in the sorted sequence.
pub proof fn lemma_sort_by_key_keeps_input<T>(s: Seq<(Seq<char>, T)>)
    ensures
        forall|i: int| 0 <= i < s.len() ==> sort_by_key(s).contains(#[trigger] s[i]),
    decreases s.len(),
{
    if s.len() > 0 {
        let prev = s.drop_last();
        lemma_sort_by_key_keeps_input(prev);
        let r = sort_by_key(prev);
        lemma_sort_by_key_len(prev);
        lemma_first_after_bounds(r, s.last().0);
        let p = first_after(r, s.last().0);
        let n = r.insert(p, s.last());
        assert forall|i: int| 0 <= i < s.len() implies n.contains(#[trigger] s[i]) by {
            if i == s.len() - 1 {
                assert(n[p] == s.last());
            } else {
                assert(s[i] == prev[i]);
                assert(r.contains(prev[i]));
                let k = choose|k: int| 0 <= k < r.len() && r[k] == prev[i];
                if k < p {
                    assert(n[k] == r[k]);
                } else {
                    assert(n[k + 1] == r[k]);
                }
            }
        }
    }
}

/// Position of the first name in `r` that does not sort before `x`.
pub open spec fn first_not_before(r: Seq<Seq<char>>, x: Seq<char>) -> int
    decreases r.len(),
{
    if r.len() == 0 {
        0
    } else if !lex_lt(r[0], x) {
        0
    } else {
        1 + first_not_before(r.skip(1), x)
    }
}

/// `x` added to the ascending list of names `r`, unless it is there already.
pub open spec fn insert_unique(r: Seq<Seq<char>>, x: Seq<char>) -> Seq<Seq<char>> {
    let p = first_not_before(r, x);
    if p < r.len() && r[p] == x {
        r
    } else {
        r.insert(p, x)
    }
}

/// Names in strictly ascending order.
pub open spec fn strictly_sorted(n: Seq<Seq<char>>) -> bool {
    forall|i: int, j: int| 0 <= i < j < n.len() ==> lex_lt(n[i], n[j])
}

/// `first_not_before` is the first position whose name does not come before `x`.
pub proof fn lemma_first_not_before(r: Seq<Seq<char>>, x: Seq<char>)
    ensures
        0 <= first_not_before(r, x) <= r.len(),
        forall|k: int| 0 <= k < first_not_before(r, x) ==> lex_lt(#[trigger] r[k], x),
        first_not_before(r, x) < r.len() ==> !lex_lt(r[first_not_before(r, x)], x),
    decreases r.len(),
{
    if r.len() > 0 && lex_lt(r[0], x) {
        lemma_first_not_before(r.skip(1), x);
        assert forall|k: int| 0 <= k < first_not_before(r, x) implies lex_lt(#[trigger] r[k], x) by {
            if k > 0 {
                assert(r[k] == r.skip(1)[k - 1]);
            }
        }
    }
}

/// In an ascending list, `first_not_before` finds `x` where it is present,
/// and adding `x` keeps the list ascending.
pub proof fn lemma_insert_unique(r: Seq<Seq<char>>, x: Seq<char>)
    requires
        strictly_sorted(r),
    ensures
        ({
            let q = first_not_before(r, x);
            r.contains(x) <==> (q < r.len() && r[q] == x)
        }),
        strictly_sorted(insert_unique(r, x)),
{
    lemma_first_not_before(r, x);
    let q = first_not_before(r, x);
    if r.contains(x) {
        let k = choose|k: int| 0 <= k < r.len() && r[k] == x;
        if k < q {
            lemma_lex_lt_irreflexive(x);
        } else if k > q {
            assert(lex_lt(r[q], r[k]));
        }
    }
    if !(q < r.len() && r[q] == x) {
        let n = r.insert(q, x);
        assert forall|i: int, j: int| 0 <= i < j < n.len() implies lex_lt(n[i], n[j]) by {
            if q < r.len() {
                lemma_lex_lt_total(r[q], x);
            }
            if i < q && j == q {
            } else if i < q && j > q {
                assert(n[j] == r[j - 1]);
                if j - 1 > q {
                    assert(lex_lt(r[q], r[j - 1]));
                    lemma_lex_lt_transitive(x, r[q], r[j - 1]);
                }
                lemma_lex_lt_transitive(r[i], x, r[j - 1]);
            } else if i == q {
                assert(n[j] == r[j - 1]);
                if j - 1 > q {
                    assert(lex_lt(r[q], r[j - 1]));
                    lemma_lex_lt_transitive(x, r[q], r[j - 1]);
                }
            } else if i > q {
                assert(n[i] == r[i - 1]);
                assert(n[j] == r[j - 1]);
            }
        }
    }
}

/// Adding `x` to a list of distinct names keeps every name and holds `x`.
pub proof fn lemma_insert_unique_contains(r: Seq<Seq<char>>, x: Seq<char>)
    ensures
        insert_unique(r, x).contains(x),
        forall|y: Seq<char>| r.contains(y) ==> insert_unique(r, x).contains(y),
{
    lemma_first_not_before(r, x);
    let q = first_not_before(r, x);
    if !(q < r.len() && r[q] == x) {
        let n = r.insert(q, x);
        assert(n[q] == x);
        assert forall|y: Seq<char>| r.contains(y) implies n.contains(y) by {
            let k = choose|k: int| 0 <= k < r.len() && r[k] == y;
            if k < q {
                assert(n[k] == y);
            } else {
                assert(n[k + 1] == y);
            }
        }
    }
}

pub fn position_not_before(names: &Vec<Vec<char>>, x: &Vec<char>) -> (p: usize)
    ensures
        p == first_not_before(seqs_view(names@), x@),
{
    let ghost rv = seqs_view(names@);
    let mut i: usize = 0;
    assert(rv.skip(0) =~= rv);
    while i < names.len()
        invariant
            i <= names.len(),
            rv == seqs_view(names@),
            first_not_before(rv, x@) == i + first_not_before(rv.skip(i as int), x@),
        decreases names.len() - i,
    {
        assert(rv.skip(i as int)[0] == rv[i as int]);
        if !chars_lt(names[i].as_slice(), x.as_slice()) {
            return i;
        }
        assert(rv.skip(i as int).skip(1) =~= rv.skip(i + 1));
        i += 1;
    }
    i
}

/// The distinct elements of `s` in ascending order.
pub open spec fn sorted_unique(s: Seq<Seq<char>>) -> Seq<Seq<char>>
    decreases s.len(),
{
    if s.len() == 0 {
        Seq::empty()
    } else {
        insert_unique(sorted_unique(s.drop_last()), s.last())
    }
}

proof fn lemma_insert_unique_from(r: Seq<Seq<char>>, x: Seq<char>)
    ensures
        forall|y: Seq<char>| insert_unique(r, x).contains(y) ==> r.contains(y) || y == x,
{
    lemma_first_not_before(r, x);
    let q = first_not_before(r, x);
    if !(q < r.len() && r[q] == x) {
        let n = r.insert(q, x);
        assert forall|y: Seq<char>| n.contains(y) implies r.contains(y) || y == x by {
            let k = choose|k: int| 0 <= k < n.len() && n[k] == y;
            if k < q {
                assert(r[k] == y);
            } else if k > q {
                assert(r[k - 1] == y);
            }
        }
    }
}

/// The distinct ascending list holds exactly the elements of the input, in
/// strictly ascending order.
pub proof fn lemma_sorted_unique(s: Seq<Seq<char>>)
    ensures
        strictly_sorted(sorted_unique(s)),
        forall|y: Seq<char>| sorted_unique(s).contains(y) <==> s.contains(y),
    decreases s.len(),
{
    if s.len() > 0 {
        let prev = s.drop_last();
        lemma_sorted_unique(prev);
        lemma_insert_unique(sorted_unique(prev), s.last());
        lemma_insert_unique_contains(sorted_unique(prev), s.last());
        lemma_insert_unique_from(sorted_unique(prev), s.last());
        assert forall|y: Seq<char>| sorted_unique(s).contains(y) <==> s.contains(y) by {
            if s.contains(y) {
                let k = choose|k: int| 0 <= k < s.len() && s[k] == y;
                if k < s.len() - 1 {
                    assert(prev[k] == y);
                }
            }
            if prev.contains(y) {
                let k = choose|k: int| 0 <= k < prev.len() && prev[k] == y;
                assert(s[k] == y);
            }
        }
    } else {
        assert forall|y: Seq<char>| sorted_unique(s).contains(y) <==> s.contains(y) by {}
    }
}

/// The distinct strings of the list in ascending order.
pub fn sorted_distinct(items: &Vec<String>) -> (r: Vec<String>)
    ensures
        r@.map_values(|x: String| x@) == sorted_unique(items@.map_values(|x: String| x@)),
{
    let ghost all = items@.map_values(|x: String| x@);
    let mut keys: Vec<Vec<char>> = Vec::new();
    let mut out: Vec<String> = Vec::new();
    let mut i: usize = 0;
    while i < items.len()
        invariant
            i <= items.len(),
            all == items@.map_values(|x: String| x@),
            seqs_view(keys@) == sorted_unique(all.take(i as int)),
            out@.map_values(|x: String| x@) == seqs_view(keys@),
            out.len() == keys.len(),
            strictly_sorted(sorted_unique(all.take(i as int))),
        decreases items.len() - i,
    {
        let ghost prev = all.take(i as int);
        proof {
            assert(all.take(i + 1).drop_last() =~= prev);
            assert(all.take(i + 1).last() == items@[i as int]@);
            lemma_sorted_unique(all.take(i + 1));
            lemma_insert_unique(sorted_unique(prev), items@[i as int]@);
        }
        let x = chars_of(items[i].as_str());
        let q = position_not_before(&keys, &x);
        proof {
            lemma_first_not_before(seqs_view(keys@), x@);
        }
        if !(q < keys.len() && chars_eq(keys[q].as_slice(), x.as_slice())) {
            let ghost ko = keys@;
            let ghost oo = out@;
            keys.insert(q, x);
            out.insert(q, items[i].clone());
            proof {
                assert(seqs_view(keys@) =~= seqs_view(ko).insert(q as int, items@[i as int]@));
                assert(out@.map_values(|x: String| x@) =~= oo.map_values(|x: String| x@).insert(q as int, items@[i as int]@));
            }
        }
        i += 1;
    }
    proof {
        assert(all.take(items.len() as int) =~= all);
    }
    out
}

/// Where an element with key `k` goes in a descending sort: before the first
/// element whose key sorts before `k`, after every element with an equal key.
pub open spec fn first_below<T>(r: Seq<(Seq<char>, T)>, k: Seq<char>) -> int
    decreases r.len(),
{
    if r.len() == 0 {
        0
    } else if lex_lt(r[0].0, k) {
        0
    } else {
        1 + first_below(r.skip(1), k)
    }
}

/// The stable sort of a keyed sequence by descending key.
pub open spec fn sort_desc_by_key<T>(s: Seq<(Seq<char>, T)>) -> Seq<(Seq<char>, T)>
    decreases s.len(),
{
    if s.len() == 0 {
        s
    } else {
        let r = sort_desc_by_key(s.drop_last());
        r.insert(first_below(r, s.last().0), s.last())
    }
}

/// `first_below` is the first position whose key comes before `k`.
pub proof fn lemma_first_below_bounds<T>(r: Seq<(Seq<char>, T)>, k: Seq<char>)
    ensures
        0 <= first_below(r, k) <= r.len(),
        forall|i: int| 0 <= i < first_below(r, k) ==> !lex_lt(#[trigger] r[i].0, k),
        first_below(r, k) < r.len() ==> lex_lt(r[first_below(r, k)].0, k),
    decreases r.len(),
{
    if r.len() > 0 && !lex_lt(r[0].0, k) {
        lemma_first_below_bounds(r.skip(1), k);
        assert forall|i: int| 0 <= i < first_below(r, k) implies !lex_lt(#[trigger] r[i].0, k) by {
            if i > 0 {
                assert(r[i] == r.skip(1)[i - 1]);
            }
        }
    }
}

fn position_below<T>(r: &Vec<(Vec<char>, T)>, k: &Vec<char>) -> (p: usize)
    ensures
        p == first_below(keyed_view(r@), k@),
{
    let ghost rv = keyed_view(r@);
    let mut i: usize = 0;
    assert(rv.skip(0) =~= rv);
    while i < r.len()
        invariant
            i <= r.len(),
            rv == keyed_view(r@),
            first_below(rv, k@) == i + first_below(rv.skip(i as int), k@),
        decreases r.len() - i,
    {
        assert(rv.skip(i as int)[0] == rv[i as int]);
        assert(rv[i as int].0 == r@[i as int].0@);
        if chars_lt(r[i].0.as_slice(), k.as_slice()) {
            return i;
        }
        assert(rv.skip(i as int).skip(1) =~= rv.skip(i + 1));
        i += 1;
    }
    i
}

/// Sorts keyed elements by descending key, keeping elements with equal keys in their order.
pub fn stable_sort_desc_by_key<T>(items: Vec<(Vec<char>, T)>) -> (r: Vec<(Vec<char>, T)>)
    ensures
        keyed_view(r@) == sort_desc_by_key(keyed_view(items@)),
{
    let ghost orig = keyed_view(items@);
    let mut rest = items;
    let mut out: Vec<(Vec<char>, T)> = Vec::new();
    let ghost mut j: int = 0;
    while rest.len() > 0
        invariant
            0 <= j <= orig.len(),
            keyed_view(rest@) == orig.skip(j),
            keyed_view(out@) == sort_desc_by_key(orig.take(j)),
        decreases rest.len(),
    {
        let ghost before = rest@;
        assert(keyed_view(before).len() == before.len());
        let x = rest.remove(0);
        let ghost xv = (x.0@, x.1);
        proof {
            assert(keyed_view(before)[0] == xv);
            assert(orig[j] == orig.skip(j)[0]);
            assert forall|k: int| 0 <= k < rest@.len() implies #[trigger] keyed_view(rest@)[k] == orig.skip(j + 1)[k] by {
                assert(rest@[k] == before[k + 1]);
                assert(keyed_view(before)[k + 1] == orig.skip(j)[k + 1]);
            }
            assert(keyed_view(rest@) =~= orig.skip(j + 1));
            assert(orig.take(j + 1).drop_last() =~= orig.take(j));
            assert(orig.take(j + 1).last() == xv);
        }
        let p = position_below(&out, &x.0);
        proof {
            lemma_first_below_bounds(keyed_view(out@), x.0@);
        }
        let ghost ov = keyed_view(out@);
        out.insert(p, x);
        proof {
            assert(keyed_view(out@) =~= ov.insert(p as int, xv));
            j = j + 1;
        }
    }
    proof {
        assert(orig.take(j) =~= orig);
    }
    out
}

/// A descending sort leaves the keys in descending order.
pub proof fn lemma_sort_desc_by_key_descending<T>(s: Seq<(Seq<char>, T)>)
    ensures
        forall|i: int, j: int|
            0 <= i < j < sort_desc_by_key(s).len() ==> !lex_lt(
                #[trigger] sort_desc_by_key(s)[i].0,
                #[trigger] sort_desc_by_key(s)[j].0,
            ),
        sort_desc_by_key(s).len() == s.len(),
    decreases s.len(),
{
    if s.len() > 0 {
        let prev = s.drop_last();
        lemma_sort_desc_by_key_descending(prev);
        let r = sort_desc_by_key(prev);
        let x = s.last();
        lemma_first_below_bounds(r, x.0);
        let p = first_below(r, x.0);
        let n = r.insert(p, x);
        assert forall|i: int, j: int| 0 <= i < j < n.len() implies !lex_lt(#[trigger] n[i].0, #[trigger] n[j].0) by {
            if j < p {
            } else if j == p {
            } else if i == p {
                assert(n[j] == r[j - 1]);
                if lex_lt(x.0, r[j - 1].0) {
                    if j - 1 > p {
                        assert(!lex_lt(r[p].0, r[j - 1].0));
                    }
                    lemma_lex_lt_transitive(r[p].0, x.0, r[j - 1].0);
                    lemma_lex_lt_irreflexive(r[p].0);
                }
            } else if i < p {
                assert(n[j] == r[j - 1]);
            } else {
                assert(n[j] == r[j - 1]);
                assert(n[i] == r[i - 1]);
            }
        }
    }
}

/// Every element of the descending sort comes from the input.
pub proof fn lemma_sort_desc_by_key_elements<T>(s: Seq<(Seq<char>, T)>)
    ensures
        forall|i: int| 0 <= i < sort_desc_by_key(s).len() ==> s.contains(#[trigger] sort_desc_by_key(s)[i]),
    decreases s.len(),
{
    lemma_sort_desc_by_key_descending(s);
    if s.len() > 0 {
        let prev = s.drop_last();
        lemma_sort_desc_by_key_elements(prev);
        lemma_sort_desc_by_key_descending(prev);
        let r = sort_desc_by_key(prev);
        lemma_first_below_bounds(r, s.last().0);
        let p = first_below(r, s.last().0);
        assert forall|i: int| 0 <= i < sort_desc_by_key(s).len() implies s.contains(#[trigger] sort_desc_by_key(s)[i]) by {
            if i < p {
                assert(prev.contains(r[i]));
                let k = choose|k: int| 0 <= k < prev.len() && prev[k] == r[i];
                assert(s[k] == prev[k]);
            } else if i == p {
                assert(s[s.len() - 1] == s.last());
            } else {
                assert(sort_desc_by_key(s)[i] == r[i - 1]);
                assert(prev.contains(r[i - 1]));
                let k = choose|k: int| 0 <= k < prev.len() && prev[k] == r[i - 1];
                assert(s[k] == prev[k]);
            }
        }
    }
}

} // verus!
