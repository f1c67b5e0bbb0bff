//! Route schemas: the variants of one route type, their path segments, payload
//! shapes, default marker, guard and view overrides, and the rules a schema
//! must meet.
use convert_case::{Case, Casing};
use vstd::prelude::*;
use vstd::string::*;

use crate::text::{find_either, lemma_scan_to, owned};

verus! {

/// What a variant carries.
#[derive(Clone, Copy, Debug, PartialEq, Eq)]
pub enum Shape {
    /// No payload.
    Leaf,
    /// A single nested route of the schema at this index of the codec.
    Nested(usize),
    /// A single unsigned number, written in decimal.
    Number,
    /// Any subset of an id segment, a query map and a nested `children` route
    /// of the schema at the given index.
    Payload { id: bool, query: bool, children: Option<usize> },
}

/// A guard on a variant: where the guard reads the host state, the guard
/// function the host runs on it, and the view shown instead of the variant's
/// own when access is not granted.
#[derive(Clone, Debug)]
pub struct Guard {
    pub accessor: String,
    pub guard_fn: String,
    pub redirect_view: String,
}

/// A view rendered directly for a variant, with the path of the state it reads,
/// in place of the nested module's own view.
#[derive(Clone, Debug)]
pub struct LocalView {
    pub view: String,
    pub state: String,
}

/// One variant of a route schema.
#[derive(Clone, Debug)]
pub struct Variant {
    /// The variant's name, as declared.
    pub ident: String,
    /// The module that renders the variant: its name in snake case.
    pub module: String,
    /// The path segment; `None` for a path-less variant.
    pub segment: Option<String>,
    pub shape: Shape,
    /// This variant is the fallback of its schema.
    pub is_default: bool,
    pub guard: Option<Guard>,
    pub local_view: Option<LocalView>,
}

/// The variants of one route type, in declaration order.
#[derive(Clone, Debug)]
pub struct Schema {
    pub name: String,
    pub variants: Vec<Variant>,
}

/// Why a schema, or a set of schemas, was refused.
#[derive(Clone, Copy, Debug, PartialEq, Eq)]
pub enum SchemaError {
    /// A path-less variant is declared before another variant.
    PathLessNotLast,
    /// A path segment holds `/`.
    SlashInPath,
    /// Two variants share a path segment.
    DuplicatePath,
    /// No variant is marked default.
    NoDefault,
    /// More than one variant is marked default.
    MultipleDefaults,
    /// The default variant carries a payload.
    DefaultWithPayload,
    /// A nested route refers to no schema declared after its own, or the root
    /// schema does not exist.
    UnknownSchema,
}

/// Relies on convert_case's `to_case(Case::Snake)`: the snake-case form of a
/// name depends on the name alone.
pub uninterp spec fn snake_case_of(s: Seq<char>) -> Seq<char>;

/// Every character of `s` is ASCII.
pub open spec fn ascii_name(s: Seq<char>) -> bool {
    forall|k: int| 0 <= k < s.len() ==> s[k] <= '\x7f'
}

/// Relies on convert_case's `Casing::to_case` with `Case::Snake`. It finds
/// word boundaries by counting characters and cuts by bytes, so it may cut
/// inside a non-ASCII character and panic; on ASCII names both agree.
#[verifier::external_body]
fn snake_case(s: &str) -> (r: String)
    requires
        ascii_name(s@),
    ensures
        r@ == snake_case_of(s@),
{
    s.to_case(Case::Snake)
}

/// The path segment of a variant as characters; `None` when path-less.
pub open spec fn segment_of(v: Variant) -> Option<Seq<char>> {
    match v.segment {
        Some(s) => Some(s@),
        None => None,
    }
}

pub open spec fn has_slash(p: Seq<char>) -> bool {
    exists|k: int| 0 <= k < p.len() && p[k] == '/'
}

pub open spec fn path_less_not_last(vs: Seq<Variant>) -> bool {
    exists|i: int| 0 <= i < vs.len() - 1 && (#[trigger] vs[i]).segment is None
}

pub open spec fn slash_in_path(vs: Seq<Variant>) -> bool {
    exists|i: int|
        0 <= i < vs.len() && (#[trigger] vs[i]).segment is Some && has_slash(
            vs[i].segment->0@,
        )
}

pub open spec fn duplicate_path(vs: Seq<Variant>) -> bool {
    exists|i: int, j: int|
        0 <= i < j < vs.len() && segment_of(#[trigger] vs[i]) == segment_of(#[trigger] vs[j])
}

pub open spec fn default_count(vs: Seq<Variant>) -> nat
    decreases vs.len(),
{
    if vs.len() == 0 {
        0
    } else {
        default_count(vs.drop_last()) + if vs.last().is_default {
            1nat
        } else {
            0nat
        }
    }
}

pub open spec fn default_with_payload(vs: Seq<Variant>) -> bool {
    exists|i: int| 0 <= i < vs.len() && (#[trigger] vs[i]).is_default && !(vs[i].shape is Leaf)
}

/// The first rule that the variants break, checked in this order; `None`
/// when they make a valid schema.
pub open spec fn schema_error(vs: Seq<Variant>) -> Option<SchemaError> {
    if path_less_not_last(vs) {
        Some(SchemaError::PathLessNotLast)
    } else if slash_in_path(vs) {
        Some(SchemaError::SlashInPath)
    } else if duplicate_path(vs) {
        Some(SchemaError::DuplicatePath)
    } else if default_count(vs) == 0 {
        Some(SchemaError::NoDefault)
    } else if default_count(vs) > 1 {
        Some(SchemaError::MultipleDefaults)
    } else if default_with_payload(vs) {
        Some(SchemaError::DefaultWithPayload)
    } else {
        None
    }
}

/// A schema is refused when a path-less variant is declared before another,
/// when no variant or several are marked default, and when two variants share
/// a path segment.
pub proof fn lemma_schema_validity(vs: Seq<Variant>)
    ensures
        path_less_not_last(vs) ==> schema_error(vs) is Some,
        default_count(vs) != 1 ==> schema_error(vs) is Some,
        duplicate_path(vs) ==> schema_error(vs) is Some,
{
}

fn same_segment(a: &Option<String>, b: &Option<String>) -> (r: bool)
    ensures
        r == (match (a, b) {
            (Some(x), Some(y)) => x@ == y@,
            (None, None) => true,
            _ => false,
        }),
{
    match (a, b) {
        (Some(x), Some(y)) => *x == *y,
        (None, None) => true,
        _ => false,
    }
}

fn contains_slash(p: &str) -> (r: bool)
    ensures
        r == has_slash(p@),
{
    let n = p.unicode_len();
    let k = find_either(p, 0, '/', '/');
    proof {
        lemma_scan_to(p@, 0, '/', '/');
    }
    k < n
}

fn check_path_less_last(vs: &Vec<Variant>) -> (r: bool)
    ensures
        r == !path_less_not_last(vs@),
{
    let mut i: usize = 0;
    while i < vs.len() && i + 1 < vs.len()
        invariant
            i <= vs@.len(),
            forall|k: int| 0 <= k < i ==> (#[trigger] vs@[k]).segment is Some,
        decreases vs.len() - i,
    {
        if vs[i].segment.is_none() {
            return false;
        }
        i = i + 1;
    }
    true
}

fn check_no_slash(vs: &Vec<Variant>) -> (r: bool)
    ensures
        r == !slash_in_path(vs@),
{
    let mut i: usize = 0;
    while i < vs.len()
        invariant
            i <= vs@.len(),
            forall|k: int|
                0 <= k < i ==> !((#[trigger] vs@[k]).segment is Some && has_slash(
                    vs@[k].segment->0@,
                )),
        decreases vs.len() - i,
    {
        match &vs[i].segment {
            Some(p) => {
                if contains_slash(p.as_str()) {
                    return false;
                }
            },
            None => {},
        }
        i = i + 1;
    }
    true
}

fn check_unique_paths(vs: &Vec<Variant>) -> (r: bool)
    ensures
        r == !duplicate_path(vs@),
{
    let mut j: usize = 0;
    while j < vs.len()
        invariant
            j <= vs@.len(),
            forall|a: int, b: int|
                0 <= a < b < j ==> segment_of(#[trigger] vs@[a]) != segment_of(#[trigger] vs@[b]),
        decreases vs.len() - j,
    {
        let mut i: usize = 0;
        while i < j
            invariant
                i <= j < vs@.len(),
                forall|a: int| 0 <= a < i ==> segment_of(#[trigger] vs@[a]) != segment_of(vs@[j as int]),
            decreases j - i,
        {
            if same_segment(&vs[i].segment, &vs[j].segment) {
                assert(segment_of(vs@[i as int]) == segment_of(vs@[j as int]));
                return false;
            }
            i = i + 1;
        }
        j = j + 1;
    }
    true
}

fn count_defaults(vs: &Vec<Variant>) -> (r: usize)
    ensures
        r == default_count(vs@),
{
    let mut i: usize = 0;
    let mut c: usize = 0;
    while i < vs.len()
        invariant
            i <= vs@.len(),
            c <= i,
            c == default_count(vs@.take(i as int)),
        decreases vs.len() - i,
    {
        assert(vs@.take(i + 1).drop_last() =~= vs@.take(i as int));
        if vs[i].is_default {
            c = c + 1;
        }
        i = i + 1;
    }
    assert(vs@.take(i as int) =~= vs@);
    c
}

fn check_default_is_leaf(vs: &Vec<Variant>) -> (r: bool)
    ensures
        r == !default_with_payload(vs@),
{
    let mut i: usize = 0;
    while i < vs.len()
        invariant
            i <= vs@.len(),
            forall|k: int|
                0 <= k < i ==> !((#[trigger] vs@[k]).is_default && !(vs@[k].shape is Leaf)),
        decreases vs.len() - i,
    {
        if vs[i].is_default {
            match vs[i].shape {
                Shape::Leaf => {},
                _ => {
                    return false;
                },
            }
        }
        i = i + 1;
    }
    true
}

/// The first rule that `vs` breaks, as `schema_error` orders them.
pub fn check_variants(vs: &Vec<Variant>) -> (r: Option<SchemaError>)
    ensures
        r == schema_error(vs@),
{
    if !check_path_less_last(vs) {
        Some(SchemaError::PathLessNotLast)
    } else if !check_no_slash(vs) {
        Some(SchemaError::SlashInPath)
    } else if !check_unique_paths(vs) {
        Some(SchemaError::DuplicatePath)
    } else {
        let c = count_defaults(vs);
        if c == 0 {
            Some(SchemaError::NoDefault)
        } else if c > 1 {
            Some(SchemaError::MultipleDefaults)
        } else if !check_default_is_leaf(vs) {
            Some(SchemaError::DefaultWithPayload)
        } else {
            None
        }
    }
}

impl Schema {
    /// A schema named `name` with `variants` in declaration order, or the
    /// first rule they break.
    pub fn new(name: &str, variants: Vec<Variant>) -> (r: Result<Schema, SchemaError>)
        ensures
            match r {
                Ok(s) => schema_error(variants@) is None && s.name@ == name@ && s.variants@
                    == variants@,
                Err(e) => schema_error(variants@) == Some(e),
            },
    {
        match check_variants(&variants) {
            Some(e) => Err(e),
            None => Ok(Schema { name: owned(name), variants }),
        }
    }
}

/// A route variant that knows whether it is the fallback of its schema.
pub trait DefaultRoute {
    spec fn default_spec(&self) -> bool;

    /// Whether this is the default, used when no path matches.
    fn is_default(&self) -> (r: bool)
        ensures
            r == self.default_spec(),
    ;
}

impl DefaultRoute for Variant {
    open spec fn default_spec(&self) -> bool {
        self.is_default
    }

    fn is_default(&self) -> (r: bool) {
        self.is_default
    }
}

impl Variant {
    /// A variant named `ident` with the given shape; its module and path
    /// segment are `ident` in snake case, path-less when that is empty. It is
    /// not the default and has no guard and no local view. The name is ASCII,
    /// as Rust identifiers of route variants are in practice.
    pub fn new(ident: &str, shape: Shape) -> (r: Variant)
        requires
            ascii_name(ident@),
        ensures
            r.ident@ == ident@,
            r.module@ == snake_case_of(ident@),
            segment_of(r) == if snake_case_of(ident@).len() == 0 {
                None
            } else {
                Some(snake_case_of(ident@))
            },
            r.shape == shape,
            !r.is_default,
            r.guard is None,
            r.local_view is None,
    {
        let module = snake_case(ident);
        let segment = if module.as_str().unicode_len() == 0 {
            None
        } else {
            Some(module.clone())
        };
        Variant {
            ident: owned(ident),
            module,
            segment,
            shape,
            is_default: false,
            guard: None,
            local_view: None,
        }
    }

    /// The variant with path segment `path`; path-less when `path` is empty.
    pub fn with_path(self, path: &str) -> (r: Variant)
        ensures
            segment_of(r) == if path@.len() == 0 {
                None
            } else {
                Some(path@)
            },
            r.ident == self.ident,
            r.module == self.module,
            r.shape == self.shape,
            r.is_default == self.is_default,
            r.guard == self.guard,
            r.local_view == self.local_view,
    {
        let segment = if path.unicode_len() == 0 {
            None
        } else {
            Some(owned(path))
        };
        Variant { segment, ..self }
    }

    /// The variant marked as the default of its schema.
    pub fn as_default(self) -> (r: Variant)
        ensures
            r.is_default,
            r.ident == self.ident,
            r.module == self.module,
            r.segment == self.segment,
            r.shape == self.shape,
            r.guard == self.guard,
            r.local_view == self.local_view,
    {
        Variant { is_default: true, ..self }
    }

    /// The variant guarded by `guard_fn` run on the host state at
    /// `accessor`, showing `redirect_view` when access is not granted.
    pub fn with_guard(self, accessor: &str, guard_fn: &str, redirect_view: &str) -> (r: Variant)
        ensures
            r.guard is Some,
            r.guard->0.accessor@ == accessor@,
            r.guard->0.guard_fn@ == guard_fn@,
            r.guard->0.redirect_view@ == redirect_view@,
            r.ident == self.ident,
            r.module == self.module,
            r.segment == self.segment,
            r.shape == self.shape,
            r.is_default == self.is_default,
            r.local_view == self.local_view,
    {
        let g = Guard {
            accessor: owned(accessor),
            guard_fn: owned(guard_fn),
            redirect_view: owned(redirect_view),
        };
        Variant { guard: Some(g), ..self }
    }

    /// The variant rendered by the local view `view`, which reads the state at
    /// `state`.
    pub fn with_local_view(self, view: &str, state: &str) -> (r: Variant)
        ensures
            r.local_view is Some,
            r.local_view->0.view@ == view@,
            r.local_view->0.state@ == state@,
            r.ident == self.ident,
            r.module == self.module,
            r.segment == self.segment,
            r.shape == self.shape,
            r.is_default == self.is_default,
            r.guard == self.guard,
    {
        let l = LocalView { view: owned(view), state: owned(state) };
        Variant { local_view: Some(l), ..self }
    }
}

} // verus!
