//! Guarded view selection: which view a route shows, given what its guard
//! decided.
use vstd::prelude::*;

use crate::codec::Codec;
use crate::route::Route;
use crate::schema::{Guard, Variant};

verus! {

/// What a guard decided about access to a route.
#[derive(Clone, Copy, Debug, PartialEq, Eq, Structural)]
pub enum GuardOutcome {
    Allow,
    Deny,
    /// Not decided yet, for instance while the host state loads.
    Unknown,
}

pub open spec fn outcome_of(b: Option<bool>) -> GuardOutcome {
    match b {
        Some(true) => GuardOutcome::Allow,
        Some(false) => GuardOutcome::Deny,
        None => GuardOutcome::Unknown,
    }
}

impl GuardOutcome {
    /// The outcome of a guard function that answers with an optional boolean:
    /// `true` allows, `false` denies, nothing leaves it unknown.
    pub fn from_option(b: Option<bool>) -> (r: GuardOutcome)
        ensures
            r == outcome_of(b),
    {
        match b {
            Some(true) => GuardOutcome::Allow,
            Some(false) => GuardOutcome::Deny,
            None => GuardOutcome::Unknown,
        }
    }
}

/// The view that a route shows.
#[derive(Debug, PartialEq, Eq)]
pub enum ViewTarget {
    /// The view of the module that the variant names.
    Module(String),
    /// The variant's local view, with the path of the state it reads.
    Local { view: String, state: String },
    /// The redirect view of the variant's guard.
    Redirect(String),
}

/// The model of a view target.
pub enum ViewTargetV {
    Module(Seq<char>),
    Local(Seq<char>, Seq<char>),
    Redirect(Seq<char>),
}

impl View for ViewTarget {
    type V = ViewTargetV;

    open spec fn view(&self) -> ViewTargetV {
        match self {
            ViewTarget::Module(m) => ViewTargetV::Module(m@),
            ViewTarget::Local { view, state } => ViewTargetV::Local(view@, state@),
            ViewTarget::Redirect(r) => ViewTargetV::Redirect(r@),
        }
    }
}

/// The variant's own view: its local view when it has one, else its module's.
pub open spec fn own_view(v: Variant) -> ViewTargetV {
    match v.local_view {
        Some(l) => ViewTargetV::Local(l.view@, l.state@),
        None => ViewTargetV::Module(v.module@),
    }
}

/// The view shown for variant `v` when its guard, if any, decided `o`: the
/// own view unless a guard did not allow access, then the redirect view.
pub open spec fn select_view(v: Variant, o: GuardOutcome) -> ViewTargetV {
    match v.guard {
        Some(g) => if o == GuardOutcome::Allow {
            own_view(v)
        } else {
            ViewTargetV::Redirect(g.redirect_view@)
        },
        None => own_view(v),
    }
}

/// Denied and unknown both lead to the redirect view of a guarded variant;
/// only an allowed outcome leads to its own view, which is never a redirect.
pub proof fn lemma_guard_collapse(v: Variant)
    requires
        v.guard is Some,
    ensures
        select_view(v, GuardOutcome::Deny) == select_view(v, GuardOutcome::Unknown),
        select_view(v, GuardOutcome::Deny) == ViewTargetV::Redirect(v.guard->0.redirect_view@),
        select_view(v, GuardOutcome::Allow) == own_view(v),
        !(own_view(v) is Redirect),
{
}

/// The view of `v` for the outcome `outcome` of its guard.
pub fn view_for_variant(v: &Variant, outcome: GuardOutcome) -> (r: ViewTarget)
    ensures
        r@ == select_view(*v, outcome),
{
    match &v.guard {
        Some(g) => {
            if outcome != GuardOutcome::Allow {
                return ViewTarget::Redirect(g.redirect_view.clone());
            }
        },
        None => {},
    }
    match &v.local_view {
        Some(l) => ViewTarget::Local { view: l.view.clone(), state: l.state.clone() },
        None => ViewTarget::Module(v.module.clone()),
    }
}

impl Codec {
    /// The variant of the root schema that `route` belongs to.
    pub open spec fn variant_of(&self, route: crate::route::RouteV) -> Variant {
        self.schemas()[self.root()].variants@[route.variant as int]
    }

    /// The guard of the variant of `route`, if it has one.
    pub fn guard_for(&self, route: &Route) -> (r: Option<Guard>)
        requires
            self.wf(),
            self.fits_root(route@),
        ensures
            r is Some == self.variant_of(route@).guard is Some,
            r is Some ==> r->0.accessor@ == self.variant_of(route@).guard->0.accessor@
                && r->0.guard_fn@ == self.variant_of(route@).guard->0.guard_fn@
                && r->0.redirect_view@ == self.variant_of(route@).guard->0.redirect_view@,
    {
        let v = self.root_variant(route);
        match &v.guard {
            Some(g) => Some(
                Guard {
                    accessor: g.accessor.clone(),
                    guard_fn: g.guard_fn.clone(),
                    redirect_view: g.redirect_view.clone(),
                },
            ),
            None => None,
        }
    }

    /// The view that `route` shows, given the outcome of its variant's guard
    /// (ignored when the variant has none).
    pub fn view_target(&self, route: &Route, outcome: GuardOutcome) -> (r: ViewTarget)
        requires
            self.wf(),
            self.fits_root(route@),
        ensures
            r@ == select_view(self.variant_of(route@), outcome),
    {
        view_for_variant(self.root_variant(route), outcome)
    }
}

} // verus!
