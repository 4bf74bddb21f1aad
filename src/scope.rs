use vstd::prelude::*;

use crate::strings::{chars_of, lemma_lex_lt_irreflexive, lemma_lex_lt_total,
    lemma_lex_lt_transitive, lex_less, lex_lt, starts_with};

verus! {

pub open spec fn http_prefix() -> Seq<char> {
    seq!['h', 't', 't', 'p']
}

/// An href resolved against the root: one that begins with `http` stands as it is, one that
/// begins with `/` is appended to the root, and any other is appended to the root after a `/`.
pub open spec fn resolve(link: Seq<char>, root: Seq<char>) -> Seq<char> {
    if http_prefix().is_prefix_of(link) {
        link
    } else if seq!['/'].is_prefix_of(link) {
        root + link
    } else {
        root + seq!['/'] + link
    }
}

/// A URL is in scope when the root is a prefix of it.
pub open spec fn in_scope(url: Seq<char>, root: Seq<char>) -> bool {
    root.is_prefix_of(url)
}

/// Each element comes strictly before the next, in lexicographic order.
pub open spec fn strictly_sorted(s: Seq<Seq<char>>) -> bool {
    forall|i: int, j: int| 0 <= i < j < s.len() ==> lex_lt(#[trigger] s[i], #[trigger] s[j])
}

/// The distinct elements of `s`, in lexicographic order.
pub open spec fn sorted_distinct(s: Seq<Seq<char>>) -> Seq<Seq<char>> {
    choose|r: Seq<Seq<char>>| strictly_sorted(r) && r.to_set() == s.to_set()
}

/// The hrefs of a page resolved against the root, in their order, without those out of scope.
pub open spec fn resolved_in_scope(raw: Seq<Seq<char>>, root: Seq<char>) -> Seq<Seq<char>> {
    raw.map_values(|l: Seq<char>| resolve(l, root)).filter(|u: Seq<char>| in_scope(u, root))
}

/// The links of a page: each href resolved against the root, those out of scope dropped, and
/// the rest sorted and rid of duplicates.
pub open spec fn scoped_links(raw: Seq<Seq<char>>, root: Seq<char>) -> Seq<Seq<char>> {
    sorted_distinct(resolved_in_scope(raw, root))
}

/// Two strictly sorted sequences with the same elements are equal.
pub proof fn lemma_strictly_sorted_unique(a: Seq<Seq<char>>, b: Seq<Seq<char>>)
    requires
        strictly_sorted(a),
        strictly_sorted(b),
        a.to_set() == b.to_set(),
    ensures
        a == b,
    decreases a.len(),
{
    assert forall|x: Seq<char>| a.contains(x) <==> b.contains(x) by {
        assert(a.to_set().contains(x) == a.contains(x));
        assert(b.to_set().contains(x) == b.contains(x));
    }
    if a.len() == 0 {
        if b.len() > 0 {
            assert(b.contains(b[0]));
        }
        assert(a =~= b);
    } else {
        assert(a.contains(a[0]));
        assert(b.len() > 0);
        assert(b.contains(b[0]));
        let ia = choose|i: int| 0 <= i < a.len() && a[i] == b[0];
        let ib = choose|i: int| 0 <= i < b.len() && b[i] == a[0];
        if a[0] != b[0] {
            assert(ia != 0);
            assert(ib != 0);
            assert(lex_lt(a[0], a[ia]));
            assert(lex_lt(b[0], b[ib]));
            lemma_lex_lt_transitive(a[0], b[0], a[0]);
            lemma_lex_lt_irreflexive(a[0]);
        }
        let ra = a.drop_first();
        let rb = b.drop_first();
        assert forall|i: int, j: int| 0 <= i < j < ra.len() implies lex_lt(#[trigger] ra[i], #[trigger] ra[j]) by {
            assert(a[i + 1] == ra[i] && a[j + 1] == ra[j]);
        }
        assert forall|i: int, j: int| 0 <= i < j < rb.len() implies lex_lt(#[trigger] rb[i], #[trigger] rb[j]) by {
            assert(b[i + 1] == rb[i] && b[j + 1] == rb[j]);
        }
        assert forall|x: Seq<char>| ra.to_set().contains(x) <==> rb.to_set().contains(x) by {
            if ra.contains(x) {
                let i = choose|i: int| 0 <= i < ra.len() && ra[i] == x;
                assert(a[i + 1] == x);
                assert(lex_lt(a[0], x));
                lemma_lex_lt_irreflexive(x);
                assert(b.contains(x));
                let k = choose|k: int| 0 <= k < b.len() && b[k] == x;
                assert(k != 0);
                assert(rb[k - 1] == x);
            }
            if rb.contains(x) {
                let i = choose|i: int| 0 <= i < rb.len() && rb[i] == x;
                assert(b[i + 1] == x);
                assert(lex_lt(b[0], x));
                lemma_lex_lt_irreflexive(x);
                assert(a.contains(x));
                let k = choose|k: int| 0 <= k < a.len() && a[k] == x;
                assert(k != 0);
                assert(ra[k - 1] == x);
            }
        }
        assert(ra.to_set() =~= rb.to_set());
        lemma_strictly_sorted_unique(ra, rb);
        assert(a =~= seq![a[0]] + ra);
        assert(b =~= seq![b[0]] + rb);
    }
}

proof fn lemma_to_set_insert(s: Seq<Seq<char>>, p: int, x: Seq<char>)
    requires
        0 <= p <= s.len(),
    ensures
        s.insert(p, x).to_set() == s.to_set().insert(x),
{
    let t = s.insert(p, x);
    assert forall|y: Seq<char>| t.contains(y) <==> (s.contains(y) || y == x) by {
        if t.contains(y) {
            let k = choose|k: int| 0 <= k < t.len() && t[k] == y;
            if k < p {
                assert(s[k] == y);
            } else if k > p {
                assert(s[k - 1] == y);
            }
        }
        if s.contains(y) {
            let k = choose|k: int| 0 <= k < s.len() && s[k] == y;
            if k < p {
                assert(t[k] == y);
            } else {
                assert(t[k + 1] == y);
            }
        }
        if y == x {
            assert(t[p] == y);
        }
    }
    assert(t.to_set() =~= s.to_set().insert(x));
}

/// Resolves an href against the root (see [`resolve`]).
pub fn format_link_as_url(link: &str, root: &str) -> (r: String)
    ensures
        r@ == resolve(link@, root@),
{
    proof {
        reveal_strlit("http");
        reveal_strlit("/");
    }
    if starts_with(link, "http") {
        link.to_owned()
    } else if starts_with(link, "/") {
        let mut url = root.to_owned();
        url.append(link);
        url
    } else {
        let mut url = root.to_owned();
        url.append("/");
        url.append(link);
        url
    }
}

/// The distinct elements of `links`, in lexicographic order: a sort followed by the removal
/// of adjacent duplicates.
pub fn sort_and_dedup(links: Vec<String>) -> (r: Vec<String>)
    ensures
        r.deep_view() == sorted_distinct(links.deep_view()),
{
    let mut r: Vec<String> = Vec::new();
    let mut keys: Vec<Vec<char>> = Vec::new();
    let mut i: usize = 0;
    while i < links.len()
        invariant
            i <= links.len(),
            keys.len() == r.len(),
            forall|k: int| 0 <= k < keys.len() ==> (#[trigger] keys@[k])@ == r.deep_view()[k],
            strictly_sorted(r.deep_view()),
            r.deep_view().to_set() == links.deep_view().take(i as int).to_set(),
        decreases links.len() - i,
    {
        let key = chars_of(links[i].as_str());
        let ghost x = links.deep_view()[i as int];
        let ghost old_r = r.deep_view();
        let ghost old_keys = keys@;
        let mut p: usize = 0;
        while p < keys.len() && lex_less(&keys[p], &key)
            invariant
                p <= keys.len(),
                keys.len() == r.len(),
                key@ == x,
                forall|k: int| 0 <= k < keys.len() ==> (#[trigger] keys@[k])@ == r.deep_view()[k],
                forall|k: int| 0 <= k < p ==> lex_lt(#[trigger] r.deep_view()[k], x),
            decreases keys.len() - p,
        {
            p = p + 1;
        }
        assert(links.deep_view().take(i + 1) =~= links.deep_view().take(i as int).push(x));
        if p < keys.len() && !lex_less(&key, &keys[p]) {
            proof {
                lemma_lex_lt_total(x, old_r[p as int]);
                assert(old_r[p as int] == x);
                lemma_to_set_insert(links.deep_view().take(i as int), i as int, x);
                assert(links.deep_view().take(i as int).insert(i as int, x) =~= links.deep_view().take(i + 1));
                assert(old_r.contains(x));
                assert(old_r.to_set().insert(x) =~= old_r.to_set());
            }
        } else {
            proof {
                if p < keys.len() {
                    lemma_lex_lt_total(x, old_r[p as int]);
                }
            }
            keys.insert(p, key);
            r.insert(p, links[i].clone());
            proof {
                let nr = r.deep_view();
                assert(nr =~= old_r.insert(p as int, x));
                assert forall|k: int| 0 <= k < keys.len() implies (#[trigger] keys@[k])@ == nr[k] by {
                    if k > p {
                        assert(keys@[k] == old_keys[k - 1]);
                    }
                }
                assert forall|a: int, b: int| 0 <= a < b < nr.len() implies lex_lt(#[trigger] nr[a], #[trigger] nr[b]) by {
                    if a < p && b > p {
                        assert(nr[b] == old_r[b - 1]);
                        if b - 1 > p {
                            assert(lex_lt(old_r[p as int], old_r[b - 1]));
                            lemma_lex_lt_transitive(x, old_r[p as int], old_r[b - 1]);
                        }
                        lemma_lex_lt_transitive(nr[a], x, nr[b]);
                    } else if a == p && b > p {
                        assert(nr[b] == old_r[b - 1]);
                        if b - 1 > p {
                            assert(lex_lt(old_r[p as int], old_r[b - 1]));
                            lemma_lex_lt_transitive(x, old_r[p as int], old_r[b - 1]);
                        }
                    } else if a > p {
                        assert(nr[a] == old_r[a - 1] && nr[b] == old_r[b - 1]);
                    } else {
                        assert(nr[a] == old_r[a]);
                        if b < p {
                            assert(nr[b] == old_r[b]);
                        }
                    }
                }
                lemma_to_set_insert(old_r, p as int, x);
                lemma_to_set_insert(links.deep_view().take(i as int), i as int, x);
                assert(links.deep_view().take(i as int).insert(i as int, x) =~= links.deep_view().take(i + 1));
            }
        }
        i = i + 1;
    }
    proof {
        assert(links.deep_view().take(links.len() as int) =~= links.deep_view());
        lemma_strictly_sorted_unique(r.deep_view(), sorted_distinct(links.deep_view()));
    }
    r
}

/// The links of a page from its raw hrefs (see [`scoped_links`]): each resolved against the
/// root, kept only when in scope, then sorted and rid of duplicates.
pub fn scope_links(links: Vec<String>, root: &str) -> (r: Vec<String>)
    ensures
        r.deep_view() == scoped_links(links.deep_view(), root@),
        strictly_sorted(r.deep_view()),
        r.deep_view().to_set() == resolved_in_scope(links.deep_view(), root@).to_set(),
{
    let ghost res = |l: Seq<char>| resolve(l, root@);
    let ghost keep = |u: Seq<char>| in_scope(u, root@);
    let mut kept: Vec<String> = Vec::new();
    let mut i: usize = 0;
    while i < links.len()
        invariant
            i <= links.len(),
            res == (|l: Seq<char>| resolve(l, root@)),
            keep == (|u: Seq<char>| in_scope(u, root@)),
            kept.deep_view() == links.deep_view().take(i as int).map_values(res).filter(keep),
        decreases links.len() - i,
    {
        let url = format_link_as_url(links[i].as_str(), root);
        let ghost before = links.deep_view().take(i as int).map_values(res);
        assert(links.deep_view().take(i + 1).map_values(res) =~= before.push(url@));
        proof {
            before.lemma_filter_push(url@, keep);
        }
        if starts_with(url.as_str(), root) {
            let ghost prev = kept.deep_view();
            kept.push(url);
            assert(kept.deep_view() =~= prev.push(url@));
        }
        i = i + 1;
    }
    assert(links.deep_view().take(links.len() as int) =~= links.deep_view());
    proof {
        lemma_sorted_distinct(kept.deep_view());
    }
    sort_and_dedup(kept)
}

/// `sorted_distinct(s)` is strictly sorted, so without duplicates, and holds exactly the
/// elements of `s`.
pub proof fn lemma_sorted_distinct(s: Seq<Seq<char>>)
    ensures
        strictly_sorted(sorted_distinct(s)),
        sorted_distinct(s).to_set() == s.to_set(),
        sorted_distinct(s).no_duplicates(),
{
    lemma_sorted_distinct_exists(s);
    let out = sorted_distinct(s);
    assert forall|i: int, j: int| 0 <= i < out.len() && 0 <= j < out.len() && i != j implies out[i] != out[j] by {
        if i < j {
            assert(lex_lt(out[i], out[j]));
        } else {
            assert(lex_lt(out[j], out[i]));
        }
        lemma_lex_lt_irreflexive(out[i]);
    }
}

/// Every link of a page begins with the root.
pub proof fn lemma_scoped_links_in_scope(raw: Seq<Seq<char>>, root: Seq<char>)
    ensures
        forall|k: int|
            0 <= k < scoped_links(raw, root).len() ==> root.is_prefix_of(
                #[trigger] scoped_links(raw, root)[k],
            ),
{
    broadcast use vstd::seq_lib::group_filter_ensures;

    let f = resolved_in_scope(raw, root);
    lemma_sorted_distinct(f);
    let out = scoped_links(raw, root);
    assert forall|k: int| 0 <= k < out.len() implies root.is_prefix_of(#[trigger] out[k]) by {
        assert(out.to_set().contains(out[k]));
        assert(f.to_set().contains(out[k]));
        let m = choose|m: int| 0 <= m < f.len() && f[m] == out[k];
        assert(in_scope(f[m], root));
    }
}

/// The links of a page are sorted and hold no duplicates.
pub proof fn lemma_scoped_links_sorted(raw: Seq<Seq<char>>, root: Seq<char>)
    ensures
        strictly_sorted(scoped_links(raw, root)),
        scoped_links(raw, root).no_duplicates(),
{
    lemma_sorted_distinct(resolved_in_scope(raw, root));
}

proof fn lemma_sorted_insert_exists(r: Seq<Seq<char>>, x: Seq<char>)
    requires
        strictly_sorted(r),
        !r.contains(x),
    ensures
        exists|t: Seq<Seq<char>>| strictly_sorted(t) && t.to_set() == r.to_set().insert(x),
    decreases r.len(),
{
    if r.len() == 0 {
        let t = seq![x];
        assert(t.to_set() =~= r.to_set().insert(x)) by {
            assert forall|y: Seq<char>| t.contains(y) <==> y == x by {
                if y == x {
                    assert(t[0] == y);
                }
            }
        }
        assert(strictly_sorted(t));
    } else {
        lemma_lex_lt_total(x, r[0]);
        if lex_lt(x, r[0]) {
            let t = seq![x] + r;
            assert forall|i: int, j: int| 0 <= i < j < t.len() implies lex_lt(#[trigger] t[i], #[trigger] t[j]) by {
                if i == 0 {
                    if j > 1 {
                        lemma_lex_lt_transitive(x, r[0], r[j - 1]);
                    }
                } else {
                    assert(t[i] == r[i - 1] && t[j] == r[j - 1]);
                }
            }
            lemma_to_set_insert(r, 0, x);
            assert(r.insert(0, x) =~= t);
        } else {
            let rest = r.drop_first();
            assert forall|i: int, j: int| 0 <= i < j < rest.len() implies lex_lt(#[trigger] rest[i], #[trigger] rest[j]) by {
                assert(rest[i] == r[i + 1] && rest[j] == r[j + 1]);
            }
            assert(!rest.contains(x)) by {
                if rest.contains(x) {
                    let k = choose|k: int| 0 <= k < rest.len() && rest[k] == x;
                    assert(r[k + 1] == x);
                }
            }
            lemma_sorted_insert_exists(rest, x);
            let t2 = choose|t: Seq<Seq<char>>| strictly_sorted(t) && t.to_set() == rest.to_set().insert(x);
            let t = seq![r[0]] + t2;
            assert forall|i: int, j: int| 0 <= i < j < t.len() implies lex_lt(#[trigger] t[i], #[trigger] t[j]) by {
                if i == 0 {
                    let y = t2[j - 1];
                    assert(t2.contains(y));
                    assert(t2.to_set().contains(y));
                    if y != x {
                        assert(rest.to_set().contains(y));
                        let k = choose|k: int| 0 <= k < rest.len() && rest[k] == y;
                        assert(r[k + 1] == y);
                    }
                } else {
                    assert(t[i] == t2[i - 1] && t[j] == t2[j - 1]);
                }
            }
            assert forall|y: Seq<char>| t.contains(y) <==> r.to_set().insert(x).contains(y) by {
                assert(t2.to_set().contains(y) == t2.contains(y));
                assert(rest.to_set().contains(y) == rest.contains(y));
                assert(r.to_set().contains(y) == r.contains(y));
                if t.contains(y) {
                    let k = choose|k: int| 0 <= k < t.len() && t[k] == y;
                    if k == 0 {
                        assert(r[0] == y);
                    } else {
                        assert(t2[k - 1] == y);
                        if y != x {
                            let m = choose|m: int| 0 <= m < rest.len() && rest[m] == y;
                            assert(r[m + 1] == y);
                        }
                    }
                }
                if r.contains(y) {
                    let k = choose|k: int| 0 <= k < r.len() && r[k] == y;
                    if k == 0 {
                        assert(t[0] == y);
                    } else {
                        assert(rest[k - 1] == y);
                        assert(t2.contains(y));
                        let m = choose|m: int| 0 <= m < t2.len() && t2[m] == y;
                        assert(t[m + 1] == y);
                    }
                }
                if y == x {
                    assert(t2.contains(y));
                    let m = choose|m: int| 0 <= m < t2.len() && t2[m] == y;
                    assert(t[m + 1] == y);
                }
            }
            assert(t.to_set() =~= r.to_set().insert(x));
        }
    }
}

/// Some strictly sorted sequence holds exactly the elements of `s`.
proof fn lemma_sorted_distinct_exists(s: Seq<Seq<char>>)
    ensures
        exists|r: Seq<Seq<char>>| strictly_sorted(r) && r.to_set() == s.to_set(),
    decreases s.len(),
{
    if s.len() == 0 {
        assert(strictly_sorted(s) && s.to_set() == s.to_set());
    } else {
        lemma_sorted_distinct_exists(s.drop_last());
        let r = choose|r: Seq<Seq<char>>| strictly_sorted(r) && r.to_set() == s.drop_last().to_set();
        let x = s.last();
        assert(s =~= s.drop_last().push(x));
        lemma_to_set_insert(s.drop_last(), s.len() - 1, x);
        assert(s.drop_last().insert(s.len() - 1, x) =~= s);
        if r.contains(x) {
            assert(r.to_set() =~= s.to_set());
        } else {
            lemma_sorted_insert_exists(r, x);
        }
    }
}

} // verus!
