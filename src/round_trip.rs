//! Decoding the path of a route value gives the value back: the conditions
//! under which it holds, and its proof.
use vstd::prelude::*;

use crate::codec::{
    after_segment, child_input, child_ref, decode, encode, encode_with, first_match, head_of,
    payload_route, refs_ordered, selects, Codec, ParseErrorV,
};
use crate::number::{decimal, is_digit, lemma_decimal, number_of, unsigned_digits};
use crate::query::{clean_entries, lemma_query_round_trip, query_of_url, query_text};
use crate::route::{fits, RouteV};
use crate::schema::{segment_of, Schema, Shape, Variant};
use crate::text::{
    lemma_scan_at, lemma_skip_slashes, lemma_trim_concat, skip_slashes, lemma_trim_idem, lemma_trim_plain,
    lemma_trim_slash, scan_to, trim_slashes,
};
use crate::url::{children_of, id_of, id_start};

verus! {

/// No `/` and no `?` in `s`.
pub open spec fn clean_segment(s: Seq<char>) -> bool {
    forall|k: int| 0 <= k < s.len() ==> s[k] != '/' && s[k] != '?'
}

/// No query map anywhere in `r`.
pub open spec fn no_query_fields(r: RouteV) -> bool
    decreases r,
{
    r.query is None && match r.children {
        Some(c) => no_query_fields(*c),
        None => true,
    }
}

/// Every query map in `r` is empty.
pub open spec fn quiet(r: RouteV) -> bool
    decreases r,
{
    &&& match r.query {
        Some(e) => e.len() == 0,
        None => true,
    }
    &&& match r.children {
        Some(c) => quiet(*c),
        None => true,
    }
}

/// The conditions under which the path of `r` decodes back to `r`, at every
/// level: no variant declared before that of `r` has a segment that starts
/// the path; segments and ids hold no `/` or `?`, and segments are not empty;
/// path-less variants carry no payload; query entries have unique keys and
/// hold no `&` or `=`; the nested route of a payload has only empty query
/// maps (it is read up to the first `?`), none at all when the payload has a
/// query of its own.
pub open spec fn round_trips(ss: Seq<Schema>, idx: int, r: RouteV) -> bool
    decreases r,
{
    let vs = ss[idx].variants@;
    let v = vs[r.variant as int];
    &&& forall|k: int|
        0 <= k < r.variant ==> !selects(#[trigger] vs[k], trim_slashes(encode(ss, idx, r)))
    &&& match segment_of(v) {
        Some(n) => n.len() > 0 && clean_segment(n),
        None => !(v.shape is Payload),
    }
    &&& match r.id {
        Some(i) => clean_segment(i),
        None => true,
    }
    &&& match r.query {
        Some(e) => clean_entries(e) && match r.children {
            Some(c) => no_query_fields(*c),
            None => true,
        },
        None => true,
    }
    &&& match r.children {
        Some(c) => round_trips(ss, child_ref(v.shape)->0 as int, *c) && (v.shape is Payload
            ==> quiet(*c)),
        None => true,
    }
}

pub open spec fn no_qmark(s: Seq<char>) -> bool {
    forall|k: int| 0 <= k < s.len() ==> s[k] != '?'
}

/// Empty, or `/` followed by a character other than `/`.
pub open spec fn path_shape(s: Seq<char>) -> bool {
    s.len() == 0 || (s.len() >= 2 && s[0] == '/' && s[1] != '/')
}

/// `p` starts `e`, and what follows in `e`, if anything, starts with `?`.
pub open spec fn qtail(e: Seq<char>, p: Seq<char>) -> bool {
    p.len() <= e.len() && e.subrange(0, p.len() as int) == p && (e.len() == p.len() || e[p.len() as int] == '?')
}

proof fn lemma_head(v: Variant)
    requires
        match segment_of(v) {
            Some(n) => n.len() > 0 && clean_segment(n),
            None => true,
        },
    ensures
        no_qmark(head_of(v)),
        path_shape(head_of(v)),
        segment_of(v) is None ==> head_of(v).len() == 0,
{
    match segment_of(v) {
        Some(n) => {
            let h = head_of(v);
            assert(h[1] == n[0]);
            assert forall|k: int| 0 <= k < h.len() implies h[k] != '?' by {
                if k > 0 {
                    assert(h[k] == n[k - 1]);
                }
            }
        },
        None => {},
    }
}

proof fn lemma_shape(ss: Seq<Schema>, idx: int, r: RouteV)
    requires
        fits(ss, idx, r),
        round_trips(ss, idx, r),
    ensures
        no_qmark(encode_with(ss, idx, r, false)),
        path_shape(encode_with(ss, idx, r, false)),
        quiet(r) ==> qtail(encode_with(ss, idx, r, true), encode_with(ss, idx, r, false)),
        no_query_fields(r) ==> encode_with(ss, idx, r, true) == encode_with(ss, idx, r, false),
    decreases r,
{
    let v = ss[idx].variants@[r.variant as int];
    let h = head_of(v);
    lemma_head(v);
    let e = encode_with(ss, idx, r, true);
    let p = encode_with(ss, idx, r, false);
    match v.shape {
        Shape::Leaf => {
            assert(e.subrange(0, p.len() as int) =~= p);
        },
        Shape::Number => {
            let n = r.number->0;
            lemma_decimal(n as nat);
            let t = seq!['/'] + decimal(n as nat);
            assert(p == h + t);
            assert(e == p);
            assert(e.subrange(0, p.len() as int) =~= p);
            assert forall|k: int| 0 <= k < p.len() implies p[k] != '?' by {
                if k < h.len() {
                    assert(p[k] == h[k]);
                } else if k > h.len() {
                    assert(p[k] == decimal(n as nat)[k - h.len() - 1]);
                    assert(is_digit(decimal(n as nat)[k - h.len() - 1]));
                }
            }
            if h.len() == 0 {
                assert(p[1] == decimal(n as nat)[0]);
                assert(is_digit(decimal(n as nat)[0]));
            } else {
                assert(p[0] == h[0] && p[1] == h[1]);
            }
        },
        Shape::Nested(c) => {
            let ch = *r.children->0;
            lemma_shape(ss, c as int, ch);
            let ec = encode_with(ss, c as int, ch, true);
            let pc = encode_with(ss, c as int, ch, false);
            assert(e == h + ec);
            assert(p == h + pc);
            assert forall|k: int| 0 <= k < p.len() implies p[k] != '?' by {
                if k < h.len() {
                    assert(p[k] == h[k]);
                } else {
                    assert(p[k] == pc[k - h.len()]);
                }
            }
            if h.len() == 0 {
                assert(p =~= pc);
                assert(e =~= ec);
            } else {
                assert(p[0] == h[0] && p[1] == h[1]);
            }
            if quiet(r) {
                assert(e.subrange(0, p.len() as int) =~= h + ec.subrange(0, pc.len() as int));
                if e.len() > p.len() {
                    assert(e[p.len() as int] == ec[pc.len() as int]);
                }
            }
        },
        Shape::Payload { id, query, children } => {
            let id_part = match r.id {
                Some(i) => seq!['/'] + i,
                None => Seq::<char>::empty(),
            };
            let sep = if id {
                Seq::<char>::empty()
            } else {
                seq!['/']
            };
            let (cp, ce) = match (children, r.children) {
                (Some(c), Some(ch)) => {
                    lemma_shape(ss, c as int, *ch);
                    (
                        sep + encode_with(ss, c as int, *ch, false),
                        sep + encode_with(ss, c as int, *ch, true),
                    )
                },
                _ => (Seq::<char>::empty(), Seq::<char>::empty()),
            };
            let qp = match r.query {
                Some(x) => seq!['?'] + query_text(x),
                None => Seq::<char>::empty(),
            };
            assert(p == h + id_part + cp);
            assert(e == h + id_part + ce + qp);
            assert(no_qmark(id_part)) by {
                if r.id is Some {
                    let i = r.id->0;
                    assert forall|k: int| 0 <= k < id_part.len() implies id_part[k] != '?' by {
                        if k > 0 {
                            assert(id_part[k] == i[k - 1]);
                        }
                    }
                }
            }
            assert(no_qmark(cp)) by {
                if children is Some && r.children is Some {
                    let pc = encode_with(ss, children->0 as int, *r.children->0, false);
                    assert forall|k: int| 0 <= k < cp.len() implies cp[k] != '?' by {
                        if k >= sep.len() {
                            assert(cp[k] == pc[k - sep.len()]);
                        }
                    }
                }
            }
            assert forall|k: int| 0 <= k < p.len() implies p[k] != '?' by {
                if k < h.len() {
                    assert(p[k] == h[k]);
                } else if k < h.len() + id_part.len() {
                    assert(p[k] == id_part[k - h.len()]);
                } else {
                    assert(p[k] == cp[k - h.len() - id_part.len()]);
                }
            }
            assert(h.len() >= 2);
            assert(p[0] == h[0] && p[1] == h[1]);
            if quiet(r) {
                let pre = h + id_part;
                assert(qtail(ce, cp)) by {
                    if children is Some && r.children is Some {
                        let ch = *r.children->0;
                        let pc = encode_with(ss, children->0 as int, ch, false);
                        let ec = encode_with(ss, children->0 as int, ch, true);
                        assert(ce.subrange(0, cp.len() as int) =~= sep + ec.subrange(0, pc.len() as int));
                        if ce.len() > cp.len() {
                            assert(ce[cp.len() as int] == ec[pc.len() as int]);
                        }
                    } else {
                        assert(ce.subrange(0, cp.len() as int) =~= cp);
                    }
                }
                assert(e.subrange(0, p.len() as int) =~= pre + ce.subrange(0, cp.len() as int));
                if e.len() > p.len() {
                    if ce.len() > cp.len() {
                        assert(e[p.len() as int] == ce[cp.len() as int]);
                    } else {
                        assert(e[p.len() as int] == qp[0]);
                    }
                }
            }
            if no_query_fields(r) {
                assert(qp.len() == 0);
                assert(ce == cp);
                assert(e =~= p);
            }
        },
    }
}

proof fn lemma_first_match_is(vs: Seq<Variant>, next: Seq<char>, j: int, i: int)
    requires
        0 <= j <= i < vs.len(),
        selects(vs[i], next),
        forall|k: int| j <= k < i ==> !selects(#[trigger] vs[k], next),
    ensures
        first_match(vs, next, j) == i,
    decreases i - j,
{
    if j < i {
        lemma_first_match_is(vs, next, j + 1, i);
    }
}

proof fn lemma_prefix_selects(v: Variant, a: Seq<char>, b: Seq<char>)
    requires
        selects(v, a),
        a.len() <= b.len(),
        b.subrange(0, a.len() as int) == a,
    ensures
        selects(v, b),
{
    match segment_of(v) {
        Some(n) => {
            assert(b.subrange(0, n.len() as int) =~= a.subrange(0, n.len() as int));
        },
        None => {},
    }
}

proof fn lemma_decode_trim(ss: Seq<Schema>, idx: int, s: Seq<char>)
    ensures
        decode(ss, idx, trim_slashes(s)) == decode(ss, idx, s),
{
    lemma_trim_idem(s);
}

/// The input up to the first `?` of `a + tail` is `a`, when `a` holds no `?`
/// and `tail` is empty or starts with `?`.
proof fn lemma_cut(a: Seq<char>, tail: Seq<char>)
    requires
        no_qmark(a),
        tail.len() == 0 || tail[0] == '?',
    ensures
        (a + tail).subrange(0, scan_to(a + tail, 0, '?', '?')) == a,
{
    let z = a + tail;
    assert forall|j: int| 0 <= j < a.len() implies z[j] != '?' && z[j] != '?' by {
        assert(z[j] == a[j]);
    }
    if tail.len() > 0 {
        assert(z[a.len() as int] == tail[0]);
    }
    lemma_scan_at(z, 0, a.len() as int, '?', '?');
    assert(z.subrange(0, a.len() as int) =~= a);
}

/// The parts of the path of a payload value `r` after its head.
pub open spec fn id_part_of(r: RouteV) -> Seq<char> {
    match r.id {
        Some(d) => seq!['/'] + d,
        None => Seq::empty(),
    }
}

pub open spec fn child_part_of(ss: Seq<Schema>, idx: int, r: RouteV, q: bool) -> Seq<char> {
    match ss[idx].variants@[r.variant as int].shape {
        Shape::Payload { id, children, .. } => match (children, r.children) {
            (Some(c), Some(ch)) => (if id {
                Seq::empty()
            } else {
                seq!['/']
            }) + encode_with(ss, c as int, *ch, q),
            _ => Seq::empty(),
        },
        _ => Seq::empty(),
    }
}

pub open spec fn query_part_of(r: RouteV, q: bool) -> Seq<char> {
    match r.query {
        Some(e) => if q {
            seq!['?'] + query_text(e)
        } else {
            Seq::empty()
        },
        None => Seq::empty(),
    }
}

/// The path of `r` after the head of its variant.
pub open spec fn body_of(ss: Seq<Schema>, idx: int, r: RouteV, q: bool) -> Seq<char> {
    let x = encode_with(ss, idx, r, q);
    x.subrange(head_of(ss[idx].variants@[r.variant as int]).len() as int, x.len() as int)
}

proof fn lemma_split(ss: Seq<Schema>, idx: int, r: RouteV, q: bool)
    requires
        fits(ss, idx, r),
    ensures
        encode_with(ss, idx, r, q) == head_of(ss[idx].variants@[r.variant as int]) + body_of(
            ss,
            idx,
            r,
            q,
        ),
        ss[idx].variants@[r.variant as int].shape is Payload ==> body_of(ss, idx, r, q)
            == id_part_of(r) + child_part_of(ss, idx, r, q) + query_part_of(r, q),
        ss[idx].variants@[r.variant as int].shape is Leaf ==> body_of(ss, idx, r, q).len() == 0,
        ss[idx].variants@[r.variant as int].shape is Number ==> body_of(ss, idx, r, q) == seq!['/']
            + decimal(r.number->0 as nat),
        ss[idx].variants@[r.variant as int].shape is Nested ==> body_of(ss, idx, r, q)
            == encode_with(
            ss,
            child_ref(ss[idx].variants@[r.variant as int].shape)->0 as int,
            *r.children->0,
            q,
        ),
{
    let v = ss[idx].variants@[r.variant as int];
    let h = head_of(v);
    let x = encode_with(ss, idx, r, q);
    match v.shape {
        Shape::Leaf => {
            assert(x == h);
        },
        Shape::Number => {
            assert(x == h + (seq!['/'] + decimal(r.number->0 as nat)));
        },
        Shape::Nested(c) => {
            assert(x == h + encode_with(ss, c as int, *r.children->0, q));
        },
        Shape::Payload { .. } => {
            assert(x == h + id_part_of(r) + child_part_of(ss, idx, r, q) + query_part_of(r, q));
        },
    }
    assert(x.subrange(0, h.len() as int) =~= h);
    assert(x =~= h + body_of(ss, idx, r, q));
}

/// The variant of `r` is the first that the trimmed path selects, and what
/// follows its segment is the body (trimmed, for a path-less variant).
proof fn lemma_select(ss: Seq<Schema>, idx: int, r: RouteV, q: bool)
    requires
        fits(ss, idx, r),
        round_trips(ss, idx, r),
        !q ==> quiet(r),
    ensures
        first_match(ss[idx].variants@, trim_slashes(encode_with(ss, idx, r, q)), 0)
            == r.variant,
        after_segment(
            ss[idx].variants@[r.variant as int],
            trim_slashes(encode_with(ss, idx, r, q)),
        ) == if segment_of(ss[idx].variants@[r.variant as int]) is Some {
            body_of(ss, idx, r, q)
        } else {
            trim_slashes(body_of(ss, idx, r, q))
        },
{
    let vs = ss[idx].variants@;
    let i = r.variant as int;
    let v = vs[i];
    let h = head_of(v);
    lemma_head(v);
    lemma_shape(ss, idx, r);
    lemma_split(ss, idx, r, q);
    let x = encode_with(ss, idx, r, q);
    let e_full = encode(ss, idx, r);
    let pp = body_of(ss, idx, r, q);
    let next = trim_slashes(x);
    match segment_of(v) {
        Some(n) => {
            assert(x =~= seq!['/'] + (n + pp));
            lemma_trim_slash(n + pp);
            assert((n + pp)[0] == n[0]);
            lemma_trim_plain(n + pp);
            assert(next == n + pp);
            assert(next.subrange(0, n.len() as int) =~= n);
            assert(after_segment(v, next) =~= pp);
        },
        None => {
            assert(x =~= pp);
        },
    }
    assert forall|k: int| 0 <= k < i implies !selects(#[trigger] vs[k], next) by {
        assert(!selects(vs[k], trim_slashes(e_full)));
        if !q && selects(vs[k], next) {
            assert(qtail(e_full, x));
            let t = e_full.subrange(x.len() as int, e_full.len() as int);
            assert(e_full =~= x + t);
            if x.len() > 0 {
                lemma_trim_concat(x, t, 1);
                assert(trim_slashes(e_full).subrange(0, next.len() as int) =~= next);
            } else {
                lemma_trim_plain(x);
                assert(trim_slashes(e_full).subrange(0, next.len() as int) =~= next);
            }
            lemma_prefix_selects(vs[k], next, trim_slashes(e_full));
        }
    }
    lemma_first_match_is(vs, next, 0, i);
}

/// The nested route of a payload value, split into its part without queries
/// and the rest, which is empty or starts with `?`.
proof fn lemma_child_parts(ss: Seq<Schema>, c: int, ch: RouteV, q: bool)
    requires
        fits(ss, c, ch),
        round_trips(ss, c, ch),
        quiet(ch),
    ensures
        encode_with(ss, c, ch, q) == encode_with(ss, c, ch, false) + encode_with(ss, c, ch, q).subrange(
            encode_with(ss, c, ch, false).len() as int,
            encode_with(ss, c, ch, q).len() as int,
        ),
        encode_with(ss, c, ch, q).len() == encode_with(ss, c, ch, false).len() || encode_with(
            ss,
            c,
            ch,
            q,
        )[encode_with(ss, c, ch, false).len() as int] == '?',
        no_qmark(encode_with(ss, c, ch, false)),
        path_shape(encode_with(ss, c, ch, false)),
        no_query_fields(ch) ==> encode_with(ss, c, ch, q) == encode_with(ss, c, ch, false),
{
    lemma_shape(ss, c, ch);
    let pc = encode_with(ss, c, ch, false);
    let ec = encode_with(ss, c, ch, q);
    if q {
        assert(qtail(ec, pc));
    }
    assert(ec =~= pc + ec.subrange(pc.len() as int, ec.len() as int));
}

#[verifier::rlimit(30)]
proof fn lemma_payload_id(ss: Seq<Schema>, idx: int, r: RouteV, q: bool)
    requires
        fits(ss, idx, r),
        round_trips(ss, idx, r),
        !q ==> quiet(r),
        ss[idx].variants@[r.variant as int].shape is Payload,
        r.id is Some,
    ensures
        id_of(id_part_of(r) + child_part_of(ss, idx, r, q) + query_part_of(r, q)) == r.id->0,
{
    let v = ss[idx].variants@[r.variant as int];
    let d = r.id->0;
    let cpart = child_part_of(ss, idx, r, q);
    let qpart = query_part_of(r, q);
    let after = cpart + qpart;
    let rest = id_part_of(r) + cpart + qpart;
    assert(rest =~= seq!['/'] + d + after);
    assert(id_start(rest) == 1);
    assert forall|j: int| 1 <= j < 1 + d.len() implies rest[j] != '/' && rest[j] != '?' by {
        assert(rest[j] == d[j - 1]);
    }
    if 1 + d.len() < rest.len() as int {
        assert(rest[1 + d.len() as int] == after[0]);
        if cpart.len() > 0 {
            assert(after[0] == cpart[0]);
            match (v.shape, r.children) {
                (Shape::Payload { children: Some(c), .. }, Some(chb)) => {
                    lemma_child_parts(ss, c as int, *chb, q);
                    let pc = encode_with(ss, c as int, *chb, false);
                    let ec = encode_with(ss, c as int, *chb, q);
                    assert(cpart == ec);
                    if pc.len() > 0 {
                        assert(ec[0] == pc[0]);
                    }
                },
                _ => {},
            }
        } else {
            assert(after[0] == qpart[0]);
        }
    }
    lemma_scan_at(rest, 1, 1 + d.len() as int, '/', '?');
    assert(id_of(rest) =~= d);
}

#[verifier::rlimit(30)]
proof fn lemma_payload_query(ss: Seq<Schema>, idx: int, r: RouteV, q: bool)
    requires
        fits(ss, idx, r),
        round_trips(ss, idx, r),
        !q ==> quiet(r),
        ss[idx].variants@[r.variant as int].shape is Payload,
        r.query is Some,
    ensures
        query_of_url(id_part_of(r) + child_part_of(ss, idx, r, q) + query_part_of(r, q))
            == r.query->0,
{
    let v = ss[idx].variants@[r.variant as int];
    let e = r.query->0;
    let cpart = child_part_of(ss, idx, r, q);
    let qpart = query_part_of(r, q);
    let a = id_part_of(r) + cpart;
    let rest = a + qpart;
    let sep_len: int = match v.shape {
        Shape::Payload { id, .. } => if id {
            0
        } else {
            1
        },
        _ => 0,
    };
    let pc = match (v.shape, r.children) {
        (Shape::Payload { children: Some(c), .. }, Some(chb)) => {
            lemma_child_parts(ss, c as int, *chb, q);
            encode_with(ss, c as int, *chb, false)
        },
        _ => Seq::empty(),
    };
    assert(q ==> cpart.len() == 0 || cpart.len() == sep_len + pc.len());
    assert(forall|j: int| sep_len <= j < cpart.len() ==> cpart[j] == pc[j - sep_len]);
    assert(forall|j: int| 0 <= j < sep_len && j < cpart.len() ==> cpart[j] == '/');
    assert(no_qmark(a)) by {
        assert forall|j: int| 0 <= j < a.len() implies a[j] != '?' by {
            let il = id_part_of(r).len() as int;
            if j < il {
                if j > 0 {
                    assert(a[j] == r.id->0[j - 1]);
                }
            } else {
                assert(a[j] == cpart[j - il]);
            }
        }
    }
    if q {
        assert(rest =~= a + (seq!['?'] + query_text(e)));
        lemma_scan_at(rest, 0, a.len() as int, '?', '?');
        assert(rest.subrange(a.len() as int + 1, rest.len() as int) =~= query_text(e));
        lemma_query_round_trip(e);
    } else {
        assert(rest =~= a);
        lemma_scan_at(rest, 0, rest.len() as int, '?', '?');
        assert(e =~= Seq::<(Seq<char>, Seq<char>)>::empty());
    }
}

#[verifier::rlimit(30)]
proof fn lemma_payload_child(ss: Seq<Schema>, idx: int, r: RouteV, q: bool, c: usize, ch: RouteV)
    requires
        fits(ss, idx, r),
        round_trips(ss, idx, r),
        !q ==> quiet(r),
        ss[idx].variants@[r.variant as int].shape is Payload,
        child_ref(ss[idx].variants@[r.variant as int].shape) == Some(c),
        r.children == Some(Box::new(ch)),
        decode(ss, c as int, encode_with(ss, c as int, ch, false)) == Ok::<RouteV, ParseErrorV>(ch),
    ensures
        ({
            let id = ss[idx].variants@[r.variant as int].shape->id;
            decode(
                ss,
                c as int,
                child_input(id_part_of(r) + child_part_of(ss, idx, r, q) + query_part_of(r, q), id),
            ) == Ok::<RouteV, ParseErrorV>(ch)
        }),
{
    let v = ss[idx].variants@[r.variant as int];
    let id = v.shape->id;
    let cpart = child_part_of(ss, idx, r, q);
    let qpart = query_part_of(r, q);
    let rest = id_part_of(r) + cpart + qpart;
    assert(quiet(ch));
    assert(fits(ss, c as int, ch));
    assert(round_trips(ss, c as int, ch));
    lemma_child_parts(ss, c as int, ch, q);
    let pc = encode_with(ss, c as int, ch, false);
    let ec = encode_with(ss, c as int, ch, q);
    let tc = ec.subrange(pc.len() as int, ec.len() as int);
    let tail = tc + qpart;
    assert(tail.len() == 0 || tail[0] == '?') by {
        if tc.len() > 0 {
            assert(tail[0] == tc[0]);
            assert(tc[0] == ec[pc.len() as int]);
        }
    }
    if id {
        lemma_payload_id(ss, idx, r, q);
        let d = r.id->0;
        assert(cpart == ec);
        let body = d + cpart + qpart;
        assert(rest =~= seq!['/'] + body);
        lemma_trim_slash(body);
        let t = children_of(rest, Some(id_of(rest)));
        if d.len() > 0 {
            assert(body[0] == d[0]);
            lemma_trim_plain(body);
            assert(t =~= pc + tail);
            lemma_cut(pc, tail);
        } else {
            assert(body =~= pc + tail);
            if pc.len() > 0 {
                lemma_trim_concat(pc, tail, 1);
            } else {
                lemma_trim_plain(pc);
                lemma_trim_plain(tail);
            }
            assert(t =~= trim_slashes(pc) + tail);
            assert(no_qmark(trim_slashes(pc))) by {
                lemma_skip_slashes(pc, 0);
                let k0 = skip_slashes(pc, 0);
                assert forall|j: int| 0 <= j < trim_slashes(pc).len() implies trim_slashes(pc)[j]
                    != '?' by {
                    assert(trim_slashes(pc)[j] == pc[j + k0]);
                }
            }
            lemma_cut(trim_slashes(pc), tail);
            lemma_decode_trim(ss, c as int, pc);
        }
    } else {
        assert(cpart == seq!['/'] + ec);
        let w = seq!['/'] + pc;
        assert(rest =~= w + tail);
        assert(no_qmark(w)) by {
            assert forall|j: int| 0 <= j < w.len() implies w[j] != '?' by {
                if j > 0 {
                    assert(w[j] == pc[j - 1]);
                }
            }
        }
        lemma_cut(w, tail);
        lemma_trim_slash(pc);
        lemma_decode_trim(ss, c as int, w);
        lemma_decode_trim(ss, c as int, pc);
    }
}

proof fn lemma_rt(ss: Seq<Schema>, idx: int, r: RouteV, q: bool)
    requires
        refs_ordered(ss),
        fits(ss, idx, r),
        round_trips(ss, idx, r),
        !q ==> quiet(r),
    ensures
        decode(ss, idx, encode_with(ss, idx, r, q)) == Ok::<RouteV, ParseErrorV>(r),
    decreases r,
{
    let vs = ss[idx].variants@;
    let i = r.variant as int;
    let v = vs[i];
    lemma_select(ss, idx, r, q);
    lemma_split(ss, idx, r, q);
    let x = encode_with(ss, idx, r, q);
    let next = trim_slashes(x);
    let rest = after_segment(v, next);
    let pp = body_of(ss, idx, r, q);
    assert(0 <= idx < ss.len() && 0 <= i < ss[idx].variants@.len());
    assert(child_ref(ss[idx].variants@[i].shape) == child_ref(v.shape));
    match v.shape {
        Shape::Leaf => {
            if segment_of(v) is None {
                lemma_trim_plain(pp);
            }
        },
        Shape::Number => {
            let n = r.number->0;
            let d = decimal(n as nat);
            lemma_decimal(n as nat);
            assert(is_digit(d[0]));
            lemma_trim_slash(d);
            lemma_trim_plain(d);
            lemma_trim_idem(pp);
            assert(trim_slashes(rest) == d);
            assert(unsigned_digits(d) == d);
            assert(number_of(d) == Some(n));
        },
        Shape::Nested(c) => {
            let ch = *r.children->0;
            assert(idx < c < ss.len());
            lemma_rt(ss, c as int, ch, q);
            if segment_of(v) is None {
                lemma_decode_trim(ss, c as int, pp);
            }
            assert(r == RouteV {
                variant: i as nat,
                id: None,
                query: None,
                children: Some(Box::new(ch)),
                number: None,
            });
        },
        Shape::Payload { id, query, children } => {
            assert(segment_of(v) is Some);
            assert(rest == id_part_of(r) + child_part_of(ss, idx, r, q) + query_part_of(r, q));
            if id {
                lemma_payload_id(ss, idx, r, q);
            }
            if query {
                lemma_payload_query(ss, idx, r, q);
            }
            match (children, r.children) {
                (Some(c), Some(chb)) => {
                    let ch = *chb;
                    assert(idx < c < ss.len());
                    lemma_rt(ss, c as int, ch, false);
                    lemma_payload_child(ss, idx, r, q, c, ch);
                    assert(r == payload_route(i, id, query, rest, Some(ch)));
                },
                _ => {
                    assert(r == payload_route(i, id, query, rest, None));
                },
            }
        },
    }
}

/// Decoding the path of a root route value gives the value back, whenever
/// `round_trips` holds of it.
pub proof fn lemma_round_trip(c: Codec, r: RouteV)
    requires
        c.wf(),
        c.fits_root(r),
        round_trips(c.schemas(), c.root(), r),
    ensures
        c.decode_root(c.encode_root(r)) == Ok::<RouteV, ParseErrorV>(r),
{
    lemma_rt(c.schemas(), c.root(), r, true);
}

} // verus!
