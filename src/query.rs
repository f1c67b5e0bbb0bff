//! The query part of a URL: an ordered map from keys to values, written
//! `k1=v1&k2=v2` with no escaping.
use indexmap::IndexMap;
use vstd::prelude::*;
use vstd::string::*;

use crate::text::{find_either, lemma_scan_at, lemma_scan_to, owned, scan_to};

verus! {

#[verifier::external_type_specification]
#[verifier::external_body]
#[verifier::reject_recursive_types(K)]
#[verifier::reject_recursive_types(V)]
#[verifier::reject_recursive_types(S)]
pub struct ExIndexMap<K, V, S>(IndexMap<K, V, S>);

/// The query of a route: keys and values in insertion order.
pub type Query = IndexMap<String, String>;

/// One key and its value, as character sequences.
pub type Entry = (Seq<char>, Seq<char>);

/// The entries of a query map, in their order.
pub uninterp spec fn query_entries(m: IndexMap<String, String>) -> Seq<Entry>;

/// Index of the first entry with key `k`, or -1.
pub open spec fn find_key(e: Seq<Entry>, k: Seq<char>) -> int
    decreases e.len(),
{
    if e.len() == 0 {
        -1
    } else if find_key(e.drop_last(), k) >= 0 {
        find_key(e.drop_last(), k)
    } else if e.last().0 == k {
        e.len() - 1
    } else {
        -1
    }
}

/// The entries after inserting `k` with `v`: an existing key keeps its place
/// and takes the new value; a new key goes last.
pub open spec fn entries_insert(e: Seq<Entry>, k: Seq<char>, v: Seq<char>) -> Seq<Entry> {
    if find_key(e, k) >= 0 {
        e.update(find_key(e, k), (k, v))
    } else {
        e.push((k, v))
    }
}

/// No two entries share a key.
pub open spec fn keys_unique(e: Seq<Entry>) -> bool {
    forall|i: int, j: int| 0 <= i < j < e.len() ==> e[i].0 != e[j].0
}

/// Both sequences hold the same entries, whatever their order.
pub open spec fn same_entries(a: Seq<Entry>, b: Seq<Entry>) -> bool {
    a.len() == b.len() && forall|i: int|
        0 <= i < a.len() ==> exists|j: int| 0 <= j < b.len() && b[j] == #[trigger] a[i]
}

pub open spec fn pair_text(p: Entry) -> Seq<char> {
    p.0 + seq!['='] + p.1
}

/// `k1=v1&k2=v2...` for the entries in order.
pub open spec fn query_text(e: Seq<Entry>) -> Seq<char>
    decreases e.len(),
{
    if e.len() == 0 {
        Seq::empty()
    } else if e.len() == 1 {
        pair_text(e[0])
    } else {
        query_text(e.drop_last()) + seq!['&'] + pair_text(e.last())
    }
}

/// The key of the pair that starts at `i`: up to the next `=` or `&`.
pub open spec fn pair_key(t: Seq<char>, i: int) -> Seq<char> {
    t.subrange(i, scan_to(t, i, '=', '&'))
}

/// The value of the pair that starts at `i`: after its first `=` up to the
/// next `=` or `&`; empty when the pair has no `=`.
pub open spec fn pair_value(t: Seq<char>, i: int) -> Seq<char> {
    let k = scan_to(t, i, '=', '&');
    if 0 <= k < t.len() && t[k] == '=' {
        t.subrange(k + 1, scan_to(t, k + 1, '=', '&'))
    } else {
        Seq::empty()
    }
}

/// Inserts, in order, the pairs of `t` from index `i` on into `acc`.
pub open spec fn query_fold(t: Seq<char>, i: int, acc: Seq<Entry>) -> Seq<Entry>
    decreases t.len() + 1 - i,
{
    if i < 0 || i > t.len() {
        acc
    } else {
        let j = scan_to(t, i, '&', '&');
        let next = entries_insert(acc, pair_key(t, i), pair_value(t, i));
        if j < i || j >= t.len() {
            next
        } else {
            query_fold(t, j + 1, next)
        }
    }
}

/// The entries that the query text `t` describes; empty text gives none.
pub open spec fn parse_query(t: Seq<char>) -> Seq<Entry> {
    if t.len() == 0 {
        Seq::empty()
    } else {
        query_fold(t, 0, Seq::empty())
    }
}

/// The entries of the query of `s`: what follows its first `?`, none without one.
pub open spec fn query_of_url(s: Seq<char>) -> Seq<Entry> {
    let q = scan_to(s, 0, '?', '?');
    if q >= s.len() {
        Seq::empty()
    } else {
        parse_query(s.subrange(q + 1, s.len() as int))
    }
}

/// No `&` or `=` in `s`.
pub open spec fn clean_text(s: Seq<char>) -> bool {
    forall|k: int| 0 <= k < s.len() ==> s[k] != '&' && s[k] != '='
}

/// Unique keys, and no `&` or `=` in any key or value.
pub open spec fn clean_entries(e: Seq<Entry>) -> bool {
    keys_unique(e) && forall|i: int|
        0 <= i < e.len() ==> clean_text(#[trigger] e[i].0) && clean_text(e[i].1)
}

proof fn lemma_find_key_absent(e: Seq<Entry>, k: Seq<char>)
    requires
        forall|i: int| 0 <= i < e.len() ==> (#[trigger] e[i]).0 != k,
    ensures
        find_key(e, k) == -1,
    decreases e.len(),
{
    if e.len() > 0 {
        assert forall|i: int| 0 <= i < e.drop_last().len() implies (#[trigger] e.drop_last()[i]).0
            != k by {
            assert(e.drop_last()[i] == e[i]);
        }
        lemma_find_key_absent(e.drop_last(), k);
        assert(e.last() == e[e.len() - 1]);
    }
}

proof fn lemma_query_text_front(e: Seq<Entry>)
    requires
        e.len() >= 2,
    ensures
        query_text(e) == pair_text(e[0]) + seq!['&'] + query_text(e.drop_first()),
    decreases e.len(),
{
    if e.len() == 2 {
        assert(e.drop_last().len() == 1);
        assert(e.drop_first().len() == 1);
        assert(query_text(e.drop_last()) == pair_text(e[0]));
        assert(query_text(e.drop_first()) == pair_text(e[1]));
    } else {
        lemma_query_text_front(e.drop_last());
        assert(e.drop_last().drop_first() =~= e.drop_first().drop_last());
        assert(e.drop_first().last() == e.last());
        assert(e.drop_last()[0] == e[0]);
        assert(query_text(e.drop_first()) == query_text(e.drop_first().drop_last()) + seq!['&']
            + pair_text(e.drop_first().last()));
        assert(query_text(e) =~= pair_text(e[0]) + seq!['&'] + query_text(e.drop_first()));
    }
}

proof fn lemma_query_text_len(e: Seq<Entry>)
    requires
        e.len() >= 1,
    ensures
        query_text(e).len() >= 1,
    decreases e.len(),
{
}

proof fn lemma_fold(t: Seq<char>, i: int, e: Seq<Entry>, acc: Seq<Entry>)
    requires
        0 <= i <= t.len(),
        e.len() >= 1,
        t.subrange(i, t.len() as int) == query_text(e),
        clean_entries(e),
        forall|x: int, y: int| 0 <= x < acc.len() && 0 <= y < e.len() ==> acc[x].0 != e[y].0,
    ensures
        query_fold(t, i, acc) == acc + e,
    decreases e.len(),
{
    let k = e[0].0;
    let v = e[0].1;
    let p = pair_text(e[0]);
    let pl = p.len() as int;
    let q = t.subrange(i, t.len() as int);
    assert(clean_text(e[0].0) && clean_text(e[0].1));
    if e.len() >= 2 {
        lemma_query_text_front(e);
        assert(q == p + seq!['&'] + query_text(e.drop_first()));
    } else {
        assert(q == p);
    }
    assert(q.len() >= pl);
    assert forall|m: int| 0 <= m < pl implies t[i + m] == p[m] by {
        assert(q[m] == t[i + m]);
        if e.len() >= 2 {
            assert(q[m] == (p + seq!['&'] + query_text(e.drop_first()))[m]);
        }
    }
    assert forall|m: int| 0 <= m < k.len() implies t[i + m] == k[m] by {
        assert(p[m] == k[m]);
    }
    assert(p[k.len() as int] == '=');
    assert(t[i + k.len()] == '=');
    assert forall|m: int| 0 <= m < v.len() implies t[i + k.len() + 1 + m] == v[m] by {
        assert(p[k.len() + 1 + m] == v[m]);
    }
    if e.len() >= 2 {
        assert(t[i + pl] == q[pl]);
        assert(q[pl] == '&');
    } else {
        assert(i + pl == t.len());
    }
    assert forall|j: int| i <= j < i + pl implies t[j] != '&' && t[j] != '&' by {
        assert(t[j] == p[j - i]);
        if j - i < k.len() {
            assert(p[j - i] == k[j - i]);
        } else if j - i > k.len() {
            assert(p[j - i] == v[j - i - k.len() - 1]);
        }
    }
    assert forall|j: int| i <= j < i + k.len() implies t[j] != '=' && t[j] != '&' by {
        assert(t[j] == k[j - i]);
    }
    assert forall|j: int| i + k.len() + 1 <= j < i + pl implies t[j] != '=' && t[j] != '&' by {
        assert(t[j] == v[j - i - k.len() - 1]);
    }
    lemma_scan_at(t, i, i + pl, '&', '&');
    lemma_scan_at(t, i, i + k.len(), '=', '&');
    lemma_scan_at(t, i + k.len() + 1, i + pl, '=', '&');
    assert(pair_key(t, i) =~= k);
    assert(pair_value(t, i) =~= v);
    assert forall|x: int| 0 <= x < acc.len() implies (#[trigger] acc[x]).0 != k by {
        assert(acc[x].0 != e[0].0);
    }
    lemma_find_key_absent(acc, k);
    let next = acc.push((k, v));
    assert(entries_insert(acc, k, v) == next);
    if e.len() == 1 {
        assert(next =~= acc + e);
    } else {
        let rest = e.drop_first();
        assert(q.subrange(pl + 1, q.len() as int) =~= query_text(rest));
        assert(t.subrange(i + pl + 1, t.len() as int) =~= q.subrange(pl + 1, q.len() as int));
        assert forall|a: int, b: int| 0 <= a < b < rest.len() implies rest[a].0 != rest[b].0 by {
            assert(rest[a] == e[a + 1] && rest[b] == e[b + 1]);
        }
        assert forall|a: int| 0 <= a < rest.len() implies clean_text(#[trigger] rest[a].0)
            && clean_text(rest[a].1) by {
            assert(rest[a] == e[a + 1]);
        }
        assert forall|x: int, y: int| 0 <= x < next.len() && 0 <= y < rest.len() implies next[x].0
            != rest[y].0 by {
            assert(rest[y] == e[y + 1]);
            if x == acc.len() {
                assert(next[x] == e[0]);
            } else {
                assert(next[x] == acc[x]);
            }
        }
        lemma_fold(t, i + pl + 1, rest, next);
        assert(next + rest =~= acc + e);
    }
}

/// Reading back the text of clean entries gives the same entries, in the
/// same order.
pub proof fn lemma_query_round_trip(e: Seq<Entry>)
    requires
        clean_entries(e),
    ensures
        parse_query(query_text(e)) == e,
{
    if e.len() > 0 {
        lemma_query_text_len(e);
        let t = query_text(e);
        assert(t.subrange(0, t.len() as int) =~= t);
        lemma_fold(t, 0, e, Seq::empty());
        assert(Seq::<Entry>::empty() + e =~= e);
    }
}

/// Reading the query of `p?t`, where `p` holds no `?` and `t` is the text of
/// entries with unique keys and no `&` or `=`, gives those entries back, in
/// their order.
pub proof fn lemma_query_read_back(p: Seq<char>, e: Seq<Entry>)
    requires
        forall|k: int| 0 <= k < p.len() ==> p[k] != '?',
        clean_entries(e),
    ensures
        query_of_url(p + seq!['?'] + query_text(e)) == e,
{
    let s = p + seq!['?'] + query_text(e);
    assert forall|k: int| 0 <= k < p.len() implies s[k] != '?' && s[k] != '?' by {
        assert(s[k] == p[k]);
    }
    assert(s[p.len() as int] == '?');
    lemma_scan_at(s, 0, p.len() as int, '?', '?');
    assert(s.subrange(p.len() as int + 1, s.len() as int) =~= query_text(e));
    lemma_query_round_trip(e);
}

/// Relies on `IndexMap::new`: a new map has no entries (and so no two share a key).
#[verifier::external_body]
pub(crate) fn empty_query() -> (m: Query)
    ensures
        query_entries(m) == Seq::<Entry>::empty(),
        keys_unique(query_entries(m)),
{
    IndexMap::new()
}

/// Relies on `IndexMap::insert`: an existing key keeps its place and takes the
/// new value, a new key is appended; keys stay unique.
#[verifier::external_body]
pub(crate) fn query_insert(m: &mut Query, k: String, v: String)
    ensures
        query_entries(*final(m)) == entries_insert(query_entries(*old(m)), k@, v@),
        keys_unique(query_entries(*final(m))),
{
    m.insert(k, v);
}

/// Relies on `IndexMap::iter`: the entries in their order, copied out; a map
/// holds each key once.
#[verifier::external_body]
pub(crate) fn query_pairs(m: &Query) -> (r: Vec<(String, String)>)
    ensures
        r@.len() == query_entries(*m).len(),
        forall|i: int, j: int| 0 <= i < j < r@.len() ==> (#[trigger] r@[i]).0@ != (#[trigger] r@[j]).0@,
        forall|i: int|
            0 <= i < r@.len() ==> (#[trigger] r@[i]).0@ == query_entries(*m)[i].0 && r@[i].1@
                == query_entries(*m)[i].1,
{
    m.iter().map(|(k, v)| (k.clone(), v.clone())).collect()
}

/// Relies on `IndexMap::clone`: the copy has the same entries in the same order,
/// each key once.
#[verifier::external_body]
pub(crate) fn query_clone(m: &Query) -> (r: Query)
    ensures
        query_entries(r) == query_entries(*m),
        keys_unique(query_entries(r)),
{
    m.clone()
}

/// Relies on `IndexMap`'s `==`: equal lengths, and each entry of `a` is found
/// in `b` under its key with an equal value.
#[verifier::external_body]
pub(crate) fn query_equal(a: &Query, b: &Query) -> (r: bool)
    ensures
        r == same_entries(query_entries(*a), query_entries(*b)),
{
    a == b
}

/// Writes the entries of `query` as `k1=v1&k2=v2...`, in order.
pub fn convert_to_string(query: &Query) -> (r: String)
    ensures
        r@ == query_text(query_entries(*query)),
        keys_unique(query_entries(*query)),
{
    let pairs = query_pairs(query);
    let ghost e = query_entries(*query);
    let mut s = String::new();
    let mut i: usize = 0;
    while i < pairs.len()
        invariant
            i <= pairs@.len(),
            pairs@.len() == e.len(),
            forall|k: int|
                0 <= k < pairs@.len() ==> (#[trigger] pairs@[k]).0@ == e[k].0 && pairs@[k].1@
                    == e[k].1,
            s@ == query_text(e.take(i as int)),
        decreases pairs.len() - i,
    {
        proof {
            reveal_strlit("&");
            reveal_strlit("=");
        }
        if i > 0 {
            s.append("&");
        }
        s.append(pairs[i].0.as_str());
        s.append("=");
        s.append(pairs[i].1.as_str());
        proof {
            assert(e.take(i + 1).drop_last() =~= e.take(i as int));
            if i == 0 {
                assert(s@ =~= pair_text(e.take(1)[0]));
            } else {
                assert(s@ =~= query_text(e.take(i as int)) + seq!['&'] + pair_text(
                    e.take(i + 1).last(),
                ));
            }
        }
        i = i + 1;
    }
    assert(e.take(i as int) =~= e);
    assert forall|a: int, b: int| 0 <= a < b < e.len() implies e[a].0 != e[b].0 by {
        assert(pairs@[a].0@ != pairs@[b].0@);
    }
    s
}

/// Reads the query text `t` (`k1=v1&k2=v2...`) into a map, pair by pair from
/// left to right; empty text gives an empty map.
pub fn parse_query_text(t: &str) -> (r: Query)
    ensures
        query_entries(r) == parse_query(t@),
{
    let n = t.unicode_len();
    let mut m = empty_query();
    if n == 0 {
        return m;
    }
    let mut i: usize = 0;
    loop
        invariant
            i <= n,
            n == t@.len(),
            n > 0,
            query_fold(t@, i as int, query_entries(m)) == parse_query(t@),
        decreases n - i,
    {
        let j = find_either(t, i, '&', '&');
        let k = find_either(t, i, '=', '&');
        proof {
            lemma_scan_to(t@, i as int, '&', '&');
            lemma_scan_to(t@, i as int, '=', '&');
        }
        let key = owned(t.substring_char(i, k));
        let value = if k < n && t.get_char(k) == '=' {
            proof {
                lemma_scan_to(t@, k + 1, '=', '&');
            }
            let e = find_either(t, k + 1, '=', '&');
            owned(t.substring_char(k + 1, e))
        } else {
            String::new()
        };
        query_insert(&mut m, key, value);
        if j >= n {
            return m;
        }
        i = j + 1;
    }
}

/// The query of `url`: the pairs after its first `?`, an empty map without one.
pub fn extract_query_params(url: &str) -> (r: Query)
    ensures
        query_entries(r) == query_of_url(url@),
{
    let n = url.unicode_len();
    let q = find_either(url, 0, '?', '?');
    proof {
        lemma_scan_to(url@, 0, '?', '?');
    }
    if q >= n {
        empty_query()
    } else {
        parse_query_text(url.substring_char(q + 1, n))
    }
}

} // verus!
