//! The path codec: encodes route values as paths and decodes paths into route
//! values, for a set of schemas in which nested routes refer to schemas
//! declared later.
use vstd::prelude::*;
use vstd::string::*;

use crate::number::{decimal, decimal_string, number_of, parse_number};
use crate::query::{convert_to_string, query_text, query_of_url};
use crate::route::{fits, queries_unique, route_equal, route_view, same_route, Route, RouteV};
use crate::schema::{check_variants, default_count, schema_error, segment_of, Schema, SchemaError, Shape, Variant};
use crate::text::{
    find_either, has_prefix, holds_at, leading_slashes, lemma_scan_to, lemma_skip_slashes, owned,
    scan_to, trim_slashes,
};
use crate::url::{children_of, extract_url_payload, id_of};

verus! {

/// Why a path does not decode.
#[derive(Debug)]
pub enum ParseError {
    /// A primitive payload value did not parse.
    FromStr,
    /// No variant matches the path.
    NoMatch,
    /// Decoding under the named schema failed for the inner reason.
    By(String, Box<ParseError>),
    /// A path-less leaf was reached with input left over.
    RemainingSegments,
}

/// The model of a decode error.
pub enum ParseErrorV {
    FromStr,
    NoMatch,
    By(Seq<char>, Box<ParseErrorV>),
    RemainingSegments,
}

pub open spec fn error_view(e: ParseError) -> ParseErrorV
    decreases e,
{
    match e {
        ParseError::FromStr => ParseErrorV::FromStr,
        ParseError::NoMatch => ParseErrorV::NoMatch,
        ParseError::By(n, inner) => ParseErrorV::By(n@, Box::new(error_view(*inner))),
        ParseError::RemainingSegments => ParseErrorV::RemainingSegments,
    }
}

impl View for ParseError {
    type V = ParseErrorV;

    open spec fn view(&self) -> ParseErrorV {
        error_view(*self)
    }
}

/// The schema that a nested route of this shape belongs to.
pub open spec fn child_ref(sh: Shape) -> Option<usize> {
    match sh {
        Shape::Nested(c) => Some(c),
        Shape::Payload { children, .. } => children,
        Shape::Leaf | Shape::Number => None,
    }
}

/// Every nested route refers to a schema declared after its own.
pub open spec fn refs_ordered(ss: Seq<Schema>) -> bool {
    forall|s: int, i: int|
        0 <= s < ss.len() && 0 <= i < ss[s].variants@.len() ==> match child_ref(
            #[trigger] ss[s].variants@[i].shape,
        ) {
            Some(c) => s < c < ss.len(),
            None => true,
        }
}

/// The error of the first schema in `ss` that breaks a rule.
pub open spec fn schemas_error(ss: Seq<Schema>) -> Option<SchemaError>
    decreases ss.len(),
{
    if ss.len() == 0 {
        None
    } else {
        match schemas_error(ss.drop_last()) {
            Some(e) => Some(e),
            None => schema_error(ss.last().variants@),
        }
    }
}

/// Why `ss` with root `root` makes no codec; `None` when it makes one.
pub open spec fn codec_error(ss: Seq<Schema>, root: int) -> Option<SchemaError> {
    match schemas_error(ss) {
        Some(e) => Some(e),
        None => if !refs_ordered(ss) || !(0 <= root < ss.len()) {
            Some(SchemaError::UnknownSchema)
        } else {
            None
        },
    }
}

/// The segment that a variant writes before its payload: `/name`, or nothing
/// when path-less.
pub open spec fn head_of(v: Variant) -> Seq<char> {
    match segment_of(v) {
        Some(n) => seq!['/'] + n,
        None => Seq::empty(),
    }
}

/// The path of `r`, a value of the schema at `idx`; with `q` false, every
/// query part (its `?` included) is left out, at all depths.
pub open spec fn encode_with(ss: Seq<Schema>, idx: int, r: RouteV, q: bool) -> Seq<char>
    decreases r,
{
    let v = ss[idx].variants@[r.variant as int];
    match v.shape {
        Shape::Leaf => head_of(v),
        Shape::Number => match r.number {
            Some(n) => head_of(v) + seq!['/'] + decimal(n as nat),
            None => head_of(v),
        },
        Shape::Nested(c) => match r.children {
            Some(ch) => head_of(v) + encode_with(ss, c as int, *ch, q),
            None => head_of(v),
        },
        Shape::Payload { id, query, children } => {
            let id_part = match r.id {
                Some(i) => seq!['/'] + i,
                None => Seq::empty(),
            };
            let child_part = match (children, r.children) {
                (Some(c), Some(ch)) => (if id {
                    Seq::empty()
                } else {
                    seq!['/']
                }) + encode_with(ss, c as int, *ch, q),
                _ => Seq::empty(),
            };
            let query_part = match r.query {
                Some(e) => if q {
                    seq!['?'] + query_text(e)
                } else {
                    Seq::empty()
                },
                None => Seq::empty(),
            };
            head_of(v) + id_part + child_part + query_part
        },
    }
}

/// The path of `r`, a value of the schema at `idx`: `/name` (nothing when
/// path-less), then the nested path for a nested variant, or for a payload
/// `/id`, the nested path (after a `/` when there is no id) and `?query`.
pub open spec fn encode(ss: Seq<Schema>, idx: int, r: RouteV) -> Seq<char> {
    encode_with(ss, idx, r, true)
}

/// `v` is tried on the trimmed input `next`: its segment starts `next`, or it
/// is path-less.
pub open spec fn selects(v: Variant, next: Seq<char>) -> bool {
    match segment_of(v) {
        Some(n) => has_prefix(next, n),
        None => true,
    }
}

/// The first variant from `i` on that `next` selects; -1 when none does.
pub open spec fn first_match(vs: Seq<Variant>, next: Seq<char>, i: int) -> int
    decreases vs.len() - i,
{
    if i < 0 || i >= vs.len() {
        -1
    } else if selects(vs[i], next) {
        i
    } else {
        first_match(vs, next, i + 1)
    }
}

/// `next` after the segment of `v`.
pub open spec fn after_segment(v: Variant, next: Seq<char>) -> Seq<char> {
    match segment_of(v) {
        Some(n) => next.subrange(n.len() as int, next.len() as int),
        None => next,
    }
}

/// The input handed to the nested route of a payload: what follows the id,
/// up to the first `?`.
pub open spec fn child_input(rest: Seq<char>, id: bool) -> Seq<char> {
    let t = children_of(
        rest,
        if id {
            Some(id_of(rest))
        } else {
            None
        },
    );
    t.subrange(0, scan_to(t, 0, '?', '?'))
}

pub open spec fn wrap_err(name: Seq<char>, e: ParseErrorV) -> ParseErrorV {
    ParseErrorV::By(name, Box::new(e))
}

/// The payload route of variant `i` read from `rest`, with nested route `ch`.
pub open spec fn payload_route(
    i: int,
    id: bool,
    query: bool,
    rest: Seq<char>,
    ch: Option<RouteV>,
) -> RouteV {
    RouteV {
        variant: i as nat,
        id: if id {
            Some(id_of(rest))
        } else {
            None
        },
        query: if query {
            Some(query_of_url(rest))
        } else {
            None
        },
        children: match ch {
            Some(c) => Some(Box::new(c)),
            None => None,
        },
        number: None,
    }
}

/// The route that `s` decodes to under the schema at `idx`, or why it does not.
pub open spec fn decode(ss: Seq<Schema>, idx: int, s: Seq<char>) -> Result<RouteV, ParseErrorV>
    decreases ss.len() - idx,
{
    if !(0 <= idx < ss.len()) {
        Err(ParseErrorV::NoMatch)
    } else {
        let next = trim_slashes(s);
        let vs = ss[idx].variants@;
        let name = ss[idx].name@;
        let i = first_match(vs, next, 0);
        if i < 0 {
            Err(wrap_err(name, ParseErrorV::NoMatch))
        } else {
            let rest = after_segment(vs[i], next);
            match vs[i].shape {
                Shape::Leaf => if vs[i].segment is None && rest.len() > 0 {
                    Err(wrap_err(name, ParseErrorV::RemainingSegments))
                } else {
                    Ok(RouteV { variant: i as nat, id: None, query: None, children: None, number: None })
                },
                Shape::Number => match number_of(trim_slashes(rest)) {
                    Some(n) => Ok(
                        RouteV {
                            variant: i as nat,
                            id: None,
                            query: None,
                            children: None,
                            number: Some(n),
                        },
                    ),
                    None => Err(wrap_err(name, ParseErrorV::FromStr)),
                },
                Shape::Nested(c) => if idx < c < ss.len() {
                    match decode(ss, c as int, rest) {
                        Ok(ch) => Ok(
                            RouteV {
                                variant: i as nat,
                                id: None,
                                query: None,
                                children: Some(Box::new(ch)),
                                number: None,
                            },
                        ),
                        Err(e) => Err(wrap_err(name, e)),
                    }
                } else {
                    Err(wrap_err(name, ParseErrorV::NoMatch))
                },
                Shape::Payload { id, query, children } => match children {
                    Some(c) => if idx < c < ss.len() {
                        match decode(ss, c as int, child_input(rest, id)) {
                            Ok(ch) => Ok(payload_route(i, id, query, rest, Some(ch))),
                            Err(e) => Err(wrap_err(name, e)),
                        }
                    } else {
                        Err(wrap_err(name, ParseErrorV::NoMatch))
                    },
                    None => Ok(payload_route(i, id, query, rest, None)),
                },
            }
        }
    }
}

/// The index of the default variant of `vs`, the first one marked; -1 when none.
pub open spec fn default_index(vs: Seq<Variant>, i: int) -> int
    decreases vs.len() - i,
{
    if i < 0 || i >= vs.len() {
        -1
    } else if vs[i].is_default {
        i
    } else {
        default_index(vs, i + 1)
    }
}

/// A set of schemas, the first route type being the root, from which paths
/// are encoded and decoded.
pub struct Codec {
    schemas: Vec<Schema>,
    root: usize,
}

impl Codec {
    pub closed spec fn schemas(&self) -> Seq<Schema> {
        self.schemas@
    }

    pub closed spec fn root(&self) -> int {
        self.root as int
    }

    /// The schemas obey their rules, nested routes refer forward, and the root
    /// exists.
    pub open spec fn wf(&self) -> bool {
        codec_error(self.schemas(), self.root()) is None
    }

    /// `r` is a value of the root schema.
    pub open spec fn fits_root(&self, r: RouteV) -> bool {
        fits(self.schemas(), self.root(), r)
    }

    /// The path of a root route value.
    pub open spec fn encode_root(&self, r: RouteV) -> Seq<char> {
        encode(self.schemas(), self.root(), r)
    }

    /// What a path decodes to under the root schema.
    pub open spec fn decode_root(&self, s: Seq<char>) -> Result<RouteV, ParseErrorV> {
        decode(self.schemas(), self.root(), s)
    }

    /// The default route of the root schema.
    pub open spec fn default_root(&self) -> RouteV {
        RouteV {
            variant: default_index(self.schemas()[self.root()].variants@, 0) as nat,
            id: None,
            query: None,
            children: None,
            number: None,
        }
    }

    /// A codec over `schemas` whose root is the schema at `root`, or the first
    /// rule that they break.
    pub fn new(schemas: Vec<Schema>, root: usize) -> (r: Result<Codec, SchemaError>)
        ensures
            match r {
                Ok(c) => codec_error(schemas@, root as int) is None && c.schemas() == schemas@
                    && c.root() == root,
                Err(e) => codec_error(schemas@, root as int) == Some(e),
            },
    {
        let mut k: usize = 0;
        while k < schemas.len()
            invariant
                k <= schemas@.len(),
                schemas_error(schemas@.take(k as int)) is None,
            decreases schemas.len() - k,
        {
            assert(schemas@.take(k + 1).drop_last() =~= schemas@.take(k as int));
            match check_variants(&schemas[k].variants) {
                Some(e) => {
                    proof {
                        lemma_schemas_error_prefix(schemas@, k as int + 1);
                    }
                    return Err(e);
                },
                None => {},
            }
            k = k + 1;
        }
        assert(schemas@.take(k as int) =~= schemas@);
        if root >= schemas.len() {
            return Err(SchemaError::UnknownSchema);
        }
        let mut s: usize = 0;
        while s < schemas.len()
            invariant
                s <= schemas@.len(),
                schemas_error(schemas@) is None,
                root < schemas@.len(),
                forall|a: int, i: int|
                    0 <= a < s && 0 <= i < schemas@[a].variants@.len() ==> match child_ref(
                        #[trigger] schemas@[a].variants@[i].shape,
                    ) {
                        Some(c) => a < c < schemas@.len(),
                        None => true,
                    },
            decreases schemas.len() - s,
        {
            let vs = &schemas[s].variants;
            let mut i: usize = 0;
            while i < vs.len()
                invariant
                    s < schemas@.len(),
                    schemas_error(schemas@) is None,
                    root < schemas@.len(),
                    vs@ == schemas@[s as int].variants@,
                    i <= vs@.len(),
                    forall|a: int, j: int|
                        0 <= a < s && 0 <= j < schemas@[a].variants@.len() ==> match child_ref(
                            #[trigger] schemas@[a].variants@[j].shape,
                        ) {
                            Some(c) => a < c < schemas@.len(),
                            None => true,
                        },
                    forall|j: int|
                        0 <= j < i ==> match child_ref(#[trigger] vs@[j].shape) {
                            Some(c) => s < c < schemas@.len(),
                            None => true,
                        },
                decreases vs.len() - i,
            {
                let c = match vs[i].shape {
                    Shape::Nested(c) => Some(c),
                    Shape::Payload { children, .. } => children,
                    Shape::Leaf | Shape::Number => None,
                };
                match c {
                    Some(c) => {
                        if c <= s || c >= schemas.len() {
                            assert(!refs_ordered(schemas@)) by {
                                assert(child_ref(schemas@[s as int].variants@[i as int].shape)
                                    == Some(c));
                            }
                            return Err(SchemaError::UnknownSchema);
                        }
                    },
                    None => {},
                }
                i = i + 1;
            }
            s = s + 1;
        }
        Ok(Codec { schemas, root })
    }
}

pub proof fn lemma_first_match(vs: Seq<Variant>, next: Seq<char>, j: int)
    requires
        0 <= j,
    ensures
        first_match(vs, next, j) == -1 || (j <= first_match(vs, next, j) < vs.len() && selects(
            vs[first_match(vs, next, j)],
            next,
        )),
        forall|k: int|
            j <= k < vs.len() && (first_match(vs, next, j) == -1 || k < first_match(vs, next, j))
                ==> !selects(#[trigger] vs[k], next),
    decreases vs.len() - j,
{
    if j < vs.len() && !selects(vs[j], next) {
        lemma_first_match(vs, next, j + 1);
    }
}

/// A route that a path decodes to is a value of the schema it was decoded under.
pub proof fn lemma_decode_fits(ss: Seq<Schema>, idx: int, s: Seq<char>)
    ensures
        decode(ss, idx, s) is Ok ==> fits(ss, idx, decode(ss, idx, s)->Ok_0),
    decreases ss.len() - idx,
{
    if 0 <= idx < ss.len() {
        let next = trim_slashes(s);
        let vs = ss[idx].variants@;
        lemma_first_match(vs, next, 0);
        let i = first_match(vs, next, 0);
        if i >= 0 {
            let rest = after_segment(vs[i], next);
            match vs[i].shape {
                Shape::Nested(c) => {
                    if idx < c < ss.len() {
                        lemma_decode_fits(ss, c as int, rest);
                    }
                },
                Shape::Payload { id, query, children } => {
                    if let Some(c) = children {
                        if idx < c < ss.len() {
                            lemma_decode_fits(ss, c as int, child_input(rest, id));
                        }
                    }
                },
                Shape::Leaf | Shape::Number => {},
            }
        }
    }
}

pub proof fn lemma_default_count(vs: Seq<Variant>)
    requires
        default_count(vs) > 0,
    ensures
        exists|i: int| 0 <= i < vs.len() && (#[trigger] vs[i]).is_default,
    decreases vs.len(),
{
    if !vs.last().is_default {
        lemma_default_count(vs.drop_last());
        let i = choose|i: int| 0 <= i < vs.drop_last().len() && (#[trigger] vs.drop_last()[i]).is_default;
        assert(vs[i] == vs.drop_last()[i]);
    } else {
        assert(vs[vs.len() - 1].is_default);
    }
}

pub proof fn lemma_default_index(vs: Seq<Variant>, i: int, k: int)
    requires
        0 <= i <= k < vs.len(),
        vs[k].is_default,
    ensures
        i <= default_index(vs, i) <= k,
        vs[default_index(vs, i)].is_default,
    decreases k - i,
{
    if !vs[i].is_default {
        lemma_default_index(vs, i + 1, k);
    }
}

impl Codec {
    /// In a valid codec the root schema has a default leaf variant, and the
    /// default route is a value of it.
    pub proof fn lemma_default_fits(&self)
        requires
            self.wf(),
        ensures
            0 <= default_index(self.schemas()[self.root()].variants@, 0)
                < self.schemas()[self.root()].variants@.len(),
            self.schemas()[self.root()].variants@[default_index(
                self.schemas()[self.root()].variants@,
                0,
            )].is_default,
            self.fits_root(self.default_root()),
    {
        let ss = self.schemas();
        let vs = ss[self.root()].variants@;
        lemma_schemas_error_all(ss, self.root());
        lemma_default_count(vs);
        let k = choose|k: int| 0 <= k < vs.len() && (#[trigger] vs[k]).is_default;
        lemma_default_index(vs, 0, k);
        let d = default_index(vs, 0);
        assert(vs[d].is_default);
        assert(vs[d].shape is Leaf);
    }

    fn encode_in(&self, idx: usize, route: &Route) -> (r: String)
        requires
            self.wf(),
            fits(self.schemas(), idx as int, route@),
        ensures
            r@ == encode_with(self.schemas(), idx as int, route@, true),
            queries_unique(route@),
        decreases route,
    {
        proof {
            reveal_strlit("/");
            reveal_strlit("?");
        }
        let v = &self.schemas[idx].variants[route.variant];
        let mut s = String::new();
        match &v.segment {
            Some(n) => {
                s.append("/");
                s.append(n.as_str());
            },
            None => {},
        }
        assert(s@ =~= head_of(*v));
        match v.shape {
            Shape::Leaf => {},
            Shape::Number => {
                match route.number {
                    Some(n) => {
                        s.append("/");
                        let t = decimal_string(n);
                        s.append(t.as_str());
                    },
                    None => {},
                }
            },
            Shape::Nested(c) => {
                match &route.children {
                    Some(ch) => {
                        let t = self.encode_in(c, &**ch);
                        s.append(t.as_str());
                    },
                    None => {},
                }
            },
            Shape::Payload { id, query, children } => {
                let ghost h = s@;
                match &route.id {
                    Some(i) => {
                        s.append("/");
                        s.append(i.as_str());
                    },
                    None => {},
                }
                let ghost hi = s@;
                match (children, &route.children) {
                    (Some(c), Some(ch)) => {
                        if !id {
                            s.append("/");
                        }
                        let t = self.encode_in(c, &**ch);
                        s.append(t.as_str());
                    },
                    _ => {},
                }
                let ghost hc = s@;
                match &route.query {
                    Some(q) => {
                        s.append("?");
                        let t = convert_to_string(q);
                        s.append(t.as_str());
                    },
                    None => {},
                }
                proof {
                    let rv = route@;
                    let id_part = match rv.id {
                        Some(i) => seq!['/'] + i,
                        None => Seq::<char>::empty(),
                    };
                    let child_part = match (children, rv.children) {
                        (Some(c), Some(ch)) => (if id {
                            Seq::<char>::empty()
                        } else {
                            seq!['/']
                        }) + encode_with(self.schemas(), c as int, *ch, true),
                        _ => Seq::<char>::empty(),
                    };
                    let query_part = match rv.query {
                        Some(q) => seq!['?'] + query_text(q),
                        None => Seq::<char>::empty(),
                    };
                    assert(hi =~= h + id_part);
                    assert(hc =~= h + id_part + child_part);
                    assert(s@ =~= h + id_part + child_part + query_part);
                }
            },
        }
        s
    }

    fn fits_in(&self, idx: usize, r: &Route) -> (b: bool)
        ensures
            b == fits(self.schemas(), idx as int, r@),
        decreases r,
    {
        if idx >= self.schemas.len() {
            return false;
        }
        let vs = &self.schemas[idx].variants;
        if r.variant >= vs.len() {
            return false;
        }
        if r.number.is_some() != (match vs[r.variant].shape {
            Shape::Number => true,
            _ => false,
        }) {
            return false;
        }
        match vs[r.variant].shape {
            Shape::Leaf => r.id.is_none() && r.query.is_none() && r.children.is_none(),
            Shape::Number => r.id.is_none() && r.query.is_none() && r.children.is_none(),
            Shape::Nested(c) => r.id.is_none() && r.query.is_none() && match &r.children {
                Some(ch) => self.fits_in(c, &**ch),
                None => false,
            },
            Shape::Payload { id, query, children } => {
                if r.id.is_some() != id || r.query.is_some() != query {
                    return false;
                }
                match (children, &r.children) {
                    (Some(c), Some(ch)) => self.fits_in(c, &**ch),
                    (None, None) => true,
                    _ => false,
                }
            },
        }
    }

    fn first_match_in(vs: &Vec<Variant>, next: &str) -> (r: usize)
        ensures
            r <= vs@.len(),
            r < vs@.len() ==> r == first_match(vs@, next@, 0),
            r == vs@.len() ==> first_match(vs@, next@, 0) == -1,
    {
        let mut i: usize = 0;
        loop
            invariant
                i <= vs@.len(),
                first_match(vs@, next@, i as int) == first_match(vs@, next@, 0),
            decreases vs.len() - i,
        {
            if i >= vs.len() {
                return i;
            }
            let sel = match &vs[i].segment {
                Some(n) => {
                    let b = holds_at(next, 0, n.as_str());
                    assert(next@.subrange(0, next@.len() as int) =~= next@);
                    assert(segment_of(vs@[i as int]) == Some(n@));
                    assert(b == has_prefix(next@, n@));
                    b
                },
                None => true,
            };
            assert(sel == selects(vs@[i as int], next@));
            if sel {
                return i;
            }
            i = i + 1;
        }
    }

    fn decode_in(&self, idx: usize, path: &str) -> (r: Result<Route, ParseError>)
        requires
            self.wf(),
            idx < self.schemas().len(),
        ensures
            match r {
                Ok(route) => decode(self.schemas(), idx as int, path@) == Ok::<RouteV, ParseErrorV>(route@),
                Err(e) => decode(self.schemas(), idx as int, path@) == Err::<RouteV, ParseErrorV>(e@),
            },
        decreases self.schemas().len() - idx,
    {
        let ghost ss = self.schemas();
        let n = path.unicode_len();
        let k = leading_slashes(path);
        proof {
            lemma_skip_slashes(path@, 0);
        }
        let next = path.substring_char(k, n);
        let schema = &self.schemas[idx];
        let vs = &schema.variants;
        let i = Self::first_match_in(vs, next);
        if i >= vs.len() {
            return Err(wrap(&schema.name, ParseError::NoMatch));
        }
        let v = &vs[i];
        let m = next.unicode_len();
        proof {
            lemma_first_match(vs@, next@, 0);
        }
        let rest: &str = match &v.segment {
            Some(seg) => next.substring_char(seg.as_str().unicode_len(), m),
            None => next,
        };
        assert(rest@ == after_segment(vs@[i as int], next@));
        proof {
            assert(child_ref(ss[idx as int].variants@[i as int].shape) == child_ref(v.shape));
        }
        match v.shape {
            Shape::Leaf => {
                if v.segment.is_none() && rest.unicode_len() > 0 {
                    Err(wrap(&schema.name, ParseError::RemainingSegments))
                } else {
                    Ok(Route { variant: i, id: None, query: None, children: None, number: None })
                }
            },
            Shape::Number => {
                let rn = rest.unicode_len();
                let k = leading_slashes(rest);
                proof {
                    lemma_skip_slashes(rest@, 0);
                }
                match parse_number(rest.substring_char(k, rn)) {
                    Some(n) => Ok(
                        Route { variant: i, id: None, query: None, children: None, number: Some(n) },
                    ),
                    None => Err(wrap(&schema.name, ParseError::FromStr)),
                }
            },
            Shape::Nested(c) => {
                match self.decode_in(c, rest) {
                    Ok(ch) => Ok(
                        Route {
                            variant: i,
                            id: None,
                            query: None,
                            children: Some(Box::new(ch)),
                            number: None,
                        },
                    ),
                    Err(e) => Err(wrap(&schema.name, e)),
                }
            },
            Shape::Payload { id, query, children } => {
                let (pid, pq, pch) = extract_url_payload(owned(rest), id, query, children.is_some());
                let ch = match children {
                    Some(c) => {
                        let t = pch.unwrap();
                        let q = find_either(t.as_str(), 0, '?', '?');
                        proof {
                            lemma_scan_to(t@, 0, '?', '?');
                        }
                        let input = t.as_str().substring_char(0, q);
                        assert(input@ == child_input(rest@, id));
                        match self.decode_in(c, input) {
                            Ok(x) => Some(Box::new(x)),
                            Err(e) => {
                                return Err(wrap(&schema.name, e));
                            },
                        }
                    },
                    None => None,
                };
                let ghost chv = match &ch {
                    Some(x) => Some(route_view(**x)),
                    None => None,
                };
                let r = Route { variant: i, id: pid, query: pq, children: ch, number: None };
                assert(r@ == payload_route(i as int, id, query, rest@, chv));
                Ok(r)
            },
        }
    }

    /// The variant of the root schema that `route` belongs to.
    pub(crate) fn root_variant(&self, route: &Route) -> (r: &Variant)
        requires
            self.fits_root(route@),
        ensures
            *r == self.schemas()[self.root()].variants@[route.variant as int],
    {
        &self.schemas[self.root].variants[route.variant]
    }

    /// The path of `route`, a value of the root schema.
    pub fn as_path(&self, route: &Route) -> (r: String)
        requires
            self.wf(),
            self.fits_root(route@),
        ensures
            r@ == self.encode_root(route@),
            queries_unique(route@),
    {
        self.encode_in(self.root, route)
    }

    /// The root route that `path` decodes to, or why it does not.
    pub fn parse_path(&self, path: &str) -> (r: Result<Route, ParseError>)
        requires
            self.wf(),
        ensures
            match r {
                Ok(route) => self.decode_root(path@) == Ok::<RouteV, ParseErrorV>(route@),
                Err(e) => self.decode_root(path@) == Err::<RouteV, ParseErrorV>(e@),
            },
    {
        self.decode_in(self.root, path)
    }

    /// Whether `route` is a value of the root schema.
    pub fn fits(&self, route: &Route) -> (r: bool)
        ensures
            r == self.fits_root(route@),
    {
        self.fits_in(self.root, route)
    }

    /// Whether `route` equals the default route of the root schema.
    pub fn is_default(&self, route: &Route) -> (r: bool)
        requires
            self.wf(),
        ensures
            r == same_route(route@, self.default_root()),
    {
        let d = self.default_route();
        route_equal(route, &d)
    }

    /// The default route of the root schema.
    pub fn default_route(&self) -> (r: Route)
        requires
            self.wf(),
        ensures
            r@ == self.default_root(),
    {
        proof {
            self.lemma_default_fits();
        }
        let vs = &self.schemas[self.root].variants;
        let mut i: usize = 0;
        loop
            invariant
                self.wf(),
                vs@ == self.schemas()[self.root()].variants@,
                0 <= default_index(vs@, 0) < vs@.len(),
                vs@[default_index(vs@, 0)].is_default,
                i <= default_index(vs@, 0),
                default_index(vs@, i as int) == default_index(vs@, 0),
            decreases vs.len() - i,
        {
            if vs[i].is_default {
                return Route { variant: i, id: None, query: None, children: None, number: None };
            }
            i = i + 1;
        }
    }
}

fn wrap(name: &String, e: ParseError) -> (r: ParseError)
    ensures
        r@ == wrap_err(name@, e@),
{
    let r = ParseError::By(name.clone(), Box::new(e));
    assert(r@ == ParseErrorV::By(name@, Box::new(error_view(e))));
    r
}

proof fn lemma_schemas_error_all(ss: Seq<Schema>, k: int)
    requires
        schemas_error(ss) is None,
        0 <= k < ss.len(),
    ensures
        schema_error(ss[k].variants@) is None,
    decreases ss.len(),
{
    if k < ss.len() - 1 {
        lemma_schemas_error_all(ss.drop_last(), k);
    }
}

proof fn lemma_schemas_error_prefix(ss: Seq<Schema>, k: int)
    requires
        0 <= k <= ss.len(),
        schemas_error(ss.take(k)) is Some,
    ensures
        schemas_error(ss) == schemas_error(ss.take(k)),
    decreases ss.len() - k,
{
    if k < ss.len() {
        assert(ss.take(k + 1).drop_last() =~= ss.take(k));
        lemma_schemas_error_prefix(ss, k + 1);
    } else {
        assert(ss.take(k) =~= ss);
    }
}

} // verus!
