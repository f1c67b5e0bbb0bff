//! Route values: one variant of a schema with its payload, and their model.
use vstd::prelude::*;

use crate::query::{keys_unique, query_clone, query_entries, query_equal, same_entries, Entry, Query};
use crate::schema::{Schema, Shape};

verus! {

/// A route value: the index of its variant in its schema, and the payload
/// that the variant's shape asks for.
#[derive(Debug)]
pub struct Route {
    pub variant: usize,
    pub id: Option<String>,
    pub query: Option<Query>,
    pub children: Option<Box<Route>>,
    pub number: Option<u32>,
}

/// The model of a route value.
pub struct RouteV {
    pub variant: nat,
    pub id: Option<Seq<char>>,
    pub query: Option<Seq<Entry>>,
    pub children: Option<Box<RouteV>>,
    pub number: Option<u32>,
}

pub open spec fn route_view(r: Route) -> RouteV
    decreases r,
{
    RouteV {
        variant: r.variant as nat,
        id: match r.id {
            Some(s) => Some(s@),
            None => None,
        },
        query: match r.query {
            Some(q) => Some(query_entries(q)),
            None => None,
        },
        children: match r.children {
            Some(c) => Some(Box::new(route_view(*c))),
            None => None,
        },
        number: r.number,
    }
}

impl View for Route {
    type V = RouteV;

    open spec fn view(&self) -> RouteV {
        route_view(*self)
    }
}

/// `r` is a value of the schema at `idx`: its variant exists and it carries
/// exactly the payload that the variant's shape declares, recursively.
pub open spec fn fits(ss: Seq<Schema>, idx: int, r: RouteV) -> bool
    decreases r,
{
    0 <= idx < ss.len() && r.variant < ss[idx].variants@.len() && (r.number is Some
        <==> ss[idx].variants@[r.variant as int].shape is Number) && match ss[idx].variants@[
        r.variant as int
    ].shape {
        Shape::Leaf => r.id is None && r.query is None && r.children is None,
        Shape::Number => r.id is None && r.query is None && r.children is None,
        Shape::Nested(c) => r.id is None && r.query is None && match r.children {
            Some(ch) => fits(ss, c as int, *ch),
            None => false,
        },
        Shape::Payload { id, query, children } => (r.id is Some) == id && (r.query is Some)
            == query && match (children, r.children) {
            (Some(c), Some(ch)) => fits(ss, c as int, *ch),
            (None, None) => true,
            _ => false,
        },
    }
}

/// Every query map in `r`, at any depth, holds each key once.
pub open spec fn queries_unique(r: RouteV) -> bool
    decreases r,
{
    &&& match r.query {
        Some(e) => keys_unique(e),
        None => true,
    }
    &&& match r.children {
        Some(c) => queries_unique(*c),
        None => true,
    }
}

/// Structural equality of route values; query maps compare as maps, in any
/// order.
pub open spec fn same_route(a: RouteV, b: RouteV) -> bool
    decreases a,
{
    a.variant == b.variant && a.id == b.id && a.number == b.number && match (a.query, b.query) {
        (Some(x), Some(y)) => same_entries(x, y),
        (None, None) => true,
        _ => false,
    } && match (a.children, b.children) {
        (Some(x), Some(y)) => same_route(*x, *y),
        (None, None) => true,
        _ => false,
    }
}

fn same_id(a: &Option<String>, b: &Option<String>) -> (r: bool)
    ensures
        r == (route_view(Route { variant: 0, id: *a, query: None, children: None, number: None }).id
            == route_view(Route { variant: 0, id: *b, query: None, children: None, number: None }).id),
{
    match (a, b) {
        (Some(x), Some(y)) => *x == *y,
        (None, None) => true,
        _ => false,
    }
}

/// Structural equality of two route values.
pub fn route_equal(a: &Route, b: &Route) -> (r: bool)
    ensures
        r == same_route(a@, b@),
    decreases a,
{
    if a.variant != b.variant || !same_id(&a.id, &b.id) || a.number != b.number {
        return false;
    }
    let queries = match (&a.query, &b.query) {
        (Some(x), Some(y)) => query_equal(x, y),
        (None, None) => true,
        _ => false,
    };
    if !queries {
        return false;
    }
    match (&a.children, &b.children) {
        (Some(x), Some(y)) => route_equal(&**x, &**y),
        (None, None) => true,
        _ => false,
    }
}

/// A copy of `r` with the same model.
pub fn clone_route(r: &Route) -> (c: Route)
    ensures
        c@ == r@,
    decreases r,
{
    let id = match &r.id {
        Some(s) => Some(s.clone()),
        None => None,
    };
    let query = match &r.query {
        Some(q) => Some(query_clone(q)),
        None => None,
    };
    let children = match &r.children {
        Some(ch) => Some(Box::new(clone_route(&**ch))),
        None => None,
    };
    Route { variant: r.variant, id, query, children, number: r.number }
}

impl Clone for Route {
    fn clone(&self) -> (c: Self)
        ensures
            c@ == self@,
    {
        clone_route(self)
    }
}

impl PartialEq for Route {
    fn eq(&self, other: &Route) -> (r: bool) {
        route_equal(self, other)
    }
}

impl vstd::std_specs::cmp::PartialEqSpecImpl for Route {
    open spec fn obeys_eq_spec() -> bool {
        true
    }

    open spec fn eq_spec(&self, other: &Route) -> bool {
        same_route(self@, other@)
    }
}

} // verus!
