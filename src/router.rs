//! The router: current route, an append-only history with a movable position,
//! the move requested of the host, and the base URL.
use vstd::prelude::*;
use vstd::string::*;

use crate::codec::{lemma_decode_fits, Codec};
use crate::route::{clone_route, fits, route_equal, same_route, Route, RouteV};
use crate::text::{find_either, lemma_scan_to, owned, scan_to};

verus! {

/// The move that the router has asked the host for, and will carry out when
/// the host confirms the URL.
#[derive(Clone, Copy, Debug, PartialEq, Eq, Structural)]
pub enum MoveStatus {
    /// The router will register the route in the history.
    Navigating,
    /// The router will go backward in the history.
    MovingBack,
    /// The router will go forward in the history.
    MovingForward,
    /// The router is ready to listen.
    Ready,
}

/// Where the origin of `url` ends: after `scheme://host` when the first `/`
/// of `url` starts `://`, else at 0.
pub open spec fn origin_len(url: Seq<char>) -> int {
    let p = scan_to(url, 0, '/', '/');
    if 1 <= p && p + 1 < url.len() && url[p - 1] == ':' && url[p + 1] == '/' {
        scan_to(url, p + 2, '/', '?')
    } else {
        0
    }
}

/// The origin of `url`, without path or query.
pub open spec fn base_of(url: Seq<char>) -> Seq<char> {
    url.subrange(0, origin_len(url))
}

/// The path and query of `url`, without its origin.
pub open spec fn path_of(url: Seq<char>) -> Seq<char> {
    url.subrange(origin_len(url), url.len() as int)
}

proof fn lemma_origin_len(url: Seq<char>)
    ensures
        0 <= origin_len(url) <= url.len(),
{
    lemma_scan_to(url, 0, '/', '/');
    let p = scan_to(url, 0, '/', '/');
    if 1 <= p && p + 1 < url.len() && url[p - 1] == ':' && url[p + 1] == '/' {
        lemma_scan_to(url, p + 2, '/', '?');
    }
}

fn origin_end(url: &str) -> (r: usize)
    ensures
        r == origin_len(url@),
{
    let n = url.unicode_len();
    let p = find_either(url, 0, '/', '/');
    proof {
        lemma_scan_to(url@, 0, '/', '/');
    }
    if 1 <= p && p < n && p + 1 < n && url.get_char(p - 1) == ':' && url.get_char(p + 1) == '/' {
        find_either(url, p + 2, '/', '?')
    } else {
        0
    }
}

/// A URL whose path does not decode leads to the default route: navigating
/// to it makes the default route current, and no error reaches the caller.
pub proof fn lemma_default_fallback<H>(r: Router<H>, url: Seq<char>)
    requires
        r.wf(),
        r.codec().decode_root(path_of(url)) is Err,
    ensures
        r.url_target(url) == r.default(),
        r.default() == r.codec().default_root(),
{
    r.lemma_wf_default();
}

/// There is nothing to peek back at on the first position or in an empty
/// history, and nothing to peek forward at on the last position or in an
/// empty history.
pub proof fn lemma_boundary_peeks<H>(r: Router<H>)
    ensures
        r.index() == 0 || r.history().len() == 0 ==> r.back_target() is None,
        r.index() == r.history().len() - 1 || r.history().len() == 0 ==> r.forward_target() is None,
{
}

/// `res` is what `func` returns for a string whose characters are `path`.
pub open spec fn called_with<F: FnOnce(String) -> R, R>(func: F, path: Seq<char>, res: R) -> bool {
    exists|p: String| p@ == path && #[trigger] func.ensures((p,), res)
}

/// The state record of a router.
pub struct RouterData<H> {
    /// The route whose view is shown.
    pub current_route: Route,
    /// The position of the current route in the history.
    pub current_history_index: usize,
    /// The fallback route of the root schema.
    pub default_route: Route,
    /// The origin of the URL the router was initialised with.
    pub base_url: String,
    /// The move requested of the host and not yet confirmed.
    pub current_move: MoveStatus,
    /// A handle registered by the host, kept and not read.
    pub sub_handle: Option<H>,
    /// The routes visited, in order; never shortened.
    pub history: Vec<Route>,
}

impl<H> RouterData<H> {
    /// The routes visited, in order.
    pub open spec fn history(&self) -> Seq<RouteV> {
        self.history@.map_values(|r: Route| r@)
    }

    pub open spec fn base(&self) -> Seq<char> {
        self.base_url@
    }

    /// Appends `route` to the history and points at it.
    pub fn push_to_history(&mut self, route: Route)
        ensures
            final(self).history() == old(self).history().push(route@),
            final(self).current_history_index == old(self).history().len(),
            final(self).current_route == old(self).current_route,
            final(self).default_route == old(self).default_route,
            final(self).base() == old(self).base(),
            final(self).current_move == old(self).current_move,
            final(self).sub_handle == old(self).sub_handle,
    {
        let ghost r = route@;
        self.history.push(route);
        self.current_history_index = self.history.len() - 1;
        assert(self.history@.map_values(|r: Route| r@) =~= old(self).history().push(r));
    }

    /// The current position is the last of a non-empty history.
    pub fn is_on_last_index(&self) -> (r: bool)
        ensures
            r == (self.history().len() > 0 && self.current_history_index + 1 == self.history().len()),
    {
        self.history.len() > 0 && self.current_history_index as u128 + 1 == self.history.len() as u128
    }

    /// The current position is the first of a non-empty history.
    pub fn is_on_first_index(&self) -> (r: bool)
        ensures
            r == (self.history().len() > 0 && self.current_history_index == 0),
    {
        self.history.len() > 0 && self.current_history_index == 0
    }
}

/// Manages navigation between the routes of a codec: the current route, the
/// history with its position, the default route and the base URL.
pub struct Router<H> {
    codec: Codec,
    data: RouterData<H>,
}

impl<H> Router<H> {
    pub closed spec fn codec(&self) -> Codec {
        self.codec
    }

    pub closed spec fn current(&self) -> RouteV {
        self.data.current_route@
    }

    pub closed spec fn history(&self) -> Seq<RouteV> {
        self.data.history()
    }

    pub closed spec fn index(&self) -> int {
        self.data.current_history_index as int
    }

    pub closed spec fn default(&self) -> RouteV {
        self.data.default_route@
    }

    pub closed spec fn base(&self) -> Seq<char> {
        self.data.base()
    }

    pub closed spec fn status(&self) -> MoveStatus {
        self.data.current_move
    }

    pub closed spec fn handle(&self) -> Option<H> {
        self.data.sub_handle
    }

    /// The codec is valid, the default is its default route, every route held
    /// is a value of the root schema, and the position lies in the history
    /// (at 0 when it is empty).
    pub closed spec fn wf(&self) -> bool {
        &&& self.codec.wf()
        &&& self.default() == self.codec.default_root()
        &&& self.codec.fits_root(self.current())
        &&& forall|i: int|
            0 <= i < self.history().len() ==> self.codec.fits_root(#[trigger] self.history()[i])
        &&& if self.history().len() == 0 {
            self.index() == 0
        } else {
            0 <= self.index() < self.history().len()
        }
    }

    proof fn lemma_wf_default(&self)
        requires
            self.wf(),
        ensures
            self.default() == self.codec().default_root(),
    {
    }

    /// The route one step back in the history, if there is one.
    pub open spec fn back_target(&self) -> Option<RouteV> {
        if self.history().len() > 0 && self.index() > 0 {
            Some(self.history()[self.index() - 1])
        } else {
            None
        }
    }

    /// The route one step forward in the history, if there is one.
    pub open spec fn forward_target(&self) -> Option<RouteV> {
        if self.history().len() > 0 && self.index() + 1 < self.history().len() {
            Some(self.history()[self.index() + 1])
        } else {
            None
        }
    }

    /// The route that navigating to `url` selects: what its path decodes to,
    /// or the default route when it does not decode.
    pub open spec fn url_target(&self, url: Seq<char>) -> RouteV {
        match self.codec().decode_root(path_of(url)) {
            Ok(r) => r,
            Err(_) => self.default(),
        }
    }

    /// A router over `codec` with no history, no base URL, and the default
    /// route as current route.
    pub fn new(codec: Codec) -> (r: Router<H>)
        requires
            codec.wf(),
        ensures
            r.wf(),
            r.codec() == codec,
            r.current() == codec.default_root(),
            r.default() == codec.default_root(),
            r.history().len() == 0,
            r.index() == 0,
            r.base().len() == 0,
            r.status() == MoveStatus::Ready,
            r.handle() is None,
    {
        proof {
            codec.lemma_default_fits();
        }
        let default_route = codec.default_route();
        let current_route = clone_route(&default_route);
        let r = Router {
            codec,
            data: RouterData {
                current_route,
                current_history_index: 0,
                default_route,
                base_url: String::new(),
                current_move: MoveStatus::Ready,
                sub_handle: None,
                history: Vec::new(),
            },
        };
        assert(r.history() =~= Seq::<RouteV>::empty());
        r
    }

    /// Sets `route` as current, appends it to the history and points at it.
    pub fn navigate_to_new(&mut self, route: Route)
        requires
            old(self).wf(),
            old(self).codec().fits_root(route@),
        ensures
            final(self).wf(),
            final(self).current() == route@,
            final(self).history() == old(self).history().push(route@),
            final(self).index() == old(self).history().len(),
            final(self).codec() == old(self).codec(),
            final(self).default() == old(self).default(),
            final(self).base() == old(self).base(),
            final(self).status() == old(self).status(),
            final(self).handle() == old(self).handle(),
    {
        let current = clone_route(&route);
        self.data.current_route = current;
        self.data.push_to_history(route);
        assert forall|i: int| 0 <= i < self.history().len() implies self.codec.fits_root(
            #[trigger] self.history()[i],
        ) by {
            if i < old(self).history().len() {
                assert(self.history()[i] == old(self).history()[i]);
            }
        }
    }

    /// Navigates to the route that the path of `url` decodes to, or to the
    /// default route when it does not decode.
    pub fn navigate_to_url(&mut self, url: &str)
        requires
            old(self).wf(),
        ensures
            final(self).wf(),
            final(self).current() == old(self).url_target(url@),
            final(self).history() == old(self).history().push(old(self).url_target(url@)),
            final(self).index() == old(self).history().len(),
            final(self).codec() == old(self).codec(),
            final(self).default() == old(self).default(),
            final(self).base() == old(self).base(),
            final(self).status() == old(self).status(),
            final(self).handle() == old(self).handle(),
    {
        let n = url.unicode_len();
        let k = origin_end(url);
        proof {
            lemma_origin_len(url@);
        }
        let path = url.substring_char(k, n);
        let target = match self.codec.parse_path(path) {
            Ok(r) => {
                proof {
                    lemma_decode_fits(self.codec.schemas(), self.codec.root(), path@);
                }
                r
            },
            Err(_) => {
                proof {
                    self.codec.lemma_default_fits();
                }
                clone_route(&self.data.default_route)
            },
        };
        self.navigate_to_new(target);
    }

    /// Sets the base URL to the origin of `url`: its `scheme://host` part,
    /// empty when it has none.
    pub fn set_base_url(&mut self, url: &str)
        requires
            old(self).wf(),
        ensures
            final(self).wf(),
            final(self).base() == base_of(url@),
            final(self).current() == old(self).current(),
            final(self).history() == old(self).history(),
            final(self).index() == old(self).index(),
            final(self).codec() == old(self).codec(),
            final(self).default() == old(self).default(),
            final(self).status() == old(self).status(),
            final(self).handle() == old(self).handle(),
    {
        let k = origin_end(url);
        proof {
            lemma_origin_len(url@);
        }
        self.data.base_url = owned(url.substring_char(0, k));
    }

    /// Sets the base URL to the origin of `url`, then navigates to `url`.
    pub fn init(self, url: &str) -> (r: Router<H>)
        requires
            self.wf(),
        ensures
            r.wf(),
            r.base() == base_of(url@),
            r.current() == self.url_target(url@),
            r.history() == self.history().push(self.url_target(url@)),
            r.index() == self.history().len(),
            r.codec() == self.codec(),
            r.default() == self.default(),
            r.status() == self.status(),
            r.handle() == self.handle(),
    {
        let mut r = self;
        r.set_base_url(url);
        r.navigate_to_url(url);
        r
    }

    /// Keeps `handle` for the host; the router never reads it.
    pub fn subscribe(&mut self, handle: H)
        requires
            old(self).wf(),
        ensures
            final(self).wf(),
            final(self).handle() == Some(handle),
            final(self).current() == old(self).current(),
            final(self).history() == old(self).history(),
            final(self).index() == old(self).index(),
            final(self).codec() == old(self).codec(),
            final(self).default() == old(self).default(),
            final(self).base() == old(self).base(),
            final(self).status() == old(self).status(),
    {
        self.data.sub_handle = Some(handle);
    }

    /// The previous route in the history, if there is one.
    pub fn peek_back(&self) -> (r: Option<Route>)
        requires
            self.wf(),
        ensures
            r is None <==> self.back_target() is None,
            r is Some ==> Some(r->0@) == self.back_target(),
    {
        if self.data.history.len() == 0 || self.data.current_history_index == 0 {
            return None;
        }
        let i = self.data.current_history_index - 1;
        Some(clone_route(&self.data.history[i]))
    }

    /// The next route in the history, if there is one.
    pub fn peek_forward(&self) -> (r: Option<Route>)
        requires
            self.wf(),
        ensures
            r is None <==> self.forward_target() is None,
            r is Some ==> Some(r->0@) == self.forward_target(),
    {
        if self.data.history.len() == 0 || self.data.current_history_index + 1
            >= self.data.history.len() {
            return None;
        }
        let i = self.data.current_history_index + 1;
        Some(clone_route(&self.data.history[i]))
    }

    /// Moves one step back in the history and returns the route there; when
    /// there is none, changes nothing and returns `None`.
    pub fn back(&mut self) -> (r: Option<Route>)
        requires
            old(self).wf(),
        ensures
            final(self).wf(),
            r is None <==> old(self).back_target() is None,
            match r {
                Some(x) => Some(x@) == old(self).back_target() && final(self).current() == x@
                    && final(self).index() == old(self).index() - 1,
                None => final(self).current() == old(self).current() && final(self).index()
                    == old(self).index(),
            },
            final(self).history() == old(self).history(),
            final(self).codec() == old(self).codec(),
            final(self).default() == old(self).default(),
            final(self).base() == old(self).base(),
            final(self).status() == old(self).status(),
            final(self).handle() == old(self).handle(),
    {
        match self.peek_back() {
            Some(next_route) => {
                self.data.current_route = clone_route(&next_route);
                self.data.current_history_index = self.data.current_history_index - 1;
                Some(next_route)
            },
            None => None,
        }
    }

    /// Moves one step forward in the history and returns the route there;
    /// when there is none, changes nothing and returns `None`.
    pub fn forward(&mut self) -> (r: Option<Route>)
        requires
            old(self).wf(),
        ensures
            final(self).wf(),
            r is None <==> old(self).forward_target() is None,
            match r {
                Some(x) => Some(x@) == old(self).forward_target() && final(self).current() == x@
                    && final(self).index() == old(self).index() + 1,
                None => final(self).current() == old(self).current() && final(self).index()
                    == old(self).index(),
            },
            final(self).history() == old(self).history(),
            final(self).codec() == old(self).codec(),
            final(self).default() == old(self).default(),
            final(self).base() == old(self).base(),
            final(self).status() == old(self).status(),
            final(self).handle() == old(self).handle(),
    {
        match self.peek_forward() {
            Some(next_route) => {
                let n = self.data.history.len();
                assert(self.data.current_history_index + 1 < n);
                self.data.current_route = clone_route(&next_route);
                self.data.current_history_index = self.data.current_history_index + 1;
                Some(next_route)
            },
            None => None,
        }
    }

    /// Whether `route` equals the current route.
    pub fn is_current_route(&self, route: &Route) -> (r: bool)
        ensures
            r == same_route(route@, self.current()),
    {
        route_equal(route, &self.data.current_route)
    }
    /// Asks the host to move back: when there is a previous route, records
    /// the move and returns what `func` gives for its path; otherwise does
    /// nothing and returns `None`.
    pub fn request_moving_back<F: FnOnce(String) -> R, R>(&mut self, func: F) -> (r: Option<R>)
        requires
            old(self).wf(),
            forall|u: String| func.requires((u,)),
        ensures
            final(self).wf(),
            final(self).status() == if old(self).back_target() is Some {
                MoveStatus::MovingBack
            } else {
                old(self).status()
            },
            r is Some <==> old(self).back_target() is Some,
            r is Some ==> called_with(
                func,
                old(self).codec().encode_root(old(self).back_target()->0),
                r->0,
            ),
            final(self).current() == old(self).current(),
            final(self).history() == old(self).history(),
            final(self).index() == old(self).index(),
            final(self).codec() == old(self).codec(),
            final(self).default() == old(self).default(),
            final(self).base() == old(self).base(),
            final(self).handle() == old(self).handle(),
    {
        match self.peek_back() {
            Some(next_route) => {
                self.data.current_move = MoveStatus::MovingBack;
                let url = self.codec.as_path(&next_route);
                let ghost p = url;
                let res = func(url);
                assert(func.ensures((p,), res));
                assert(p@ == old(self).codec().encode_root(old(self).back_target()->0));
                assert(called_with(func, old(self).codec().encode_root(old(self).back_target()->0), res));
                Some(res)
            },
            None => None,
        }
    }

    /// Asks the host to move forward: when there is a next route, records the
    /// move and returns what `func` gives for its path; otherwise does nothing
    /// and returns `None`.
    pub fn request_moving_forward<F: FnOnce(String) -> R, R>(&mut self, func: F) -> (r: Option<R>)
        requires
            old(self).wf(),
            forall|u: String| func.requires((u,)),
        ensures
            final(self).wf(),
            final(self).status() == if old(self).forward_target() is Some {
                MoveStatus::MovingForward
            } else {
                old(self).status()
            },
            r is Some <==> old(self).forward_target() is Some,
            r is Some ==> called_with(
                func,
                old(self).codec().encode_root(old(self).forward_target()->0),
                r->0,
            ),
            final(self).current() == old(self).current(),
            final(self).history() == old(self).history(),
            final(self).index() == old(self).index(),
            final(self).codec() == old(self).codec(),
            final(self).default() == old(self).default(),
            final(self).base() == old(self).base(),
            final(self).handle() == old(self).handle(),
    {
        match self.peek_forward() {
            Some(next_route) => {
                self.data.current_move = MoveStatus::MovingForward;
                let url = self.codec.as_path(&next_route);
                let ghost p = url;
                let res = func(url);
                assert(func.ensures((p,), res));
                assert(p@ == old(self).codec().encode_root(old(self).forward_target()->0));
                assert(called_with(func, old(self).codec().encode_root(old(self).forward_target()->0), res));
                Some(res)
            },
            None => None,
        }
    }

    /// Carries out the recorded move now that the host confirms `url`: back
    /// or forward when one was requested, else navigation to `url`; then the
    /// router is ready again.
    pub fn confirm_navigation(&mut self, url: &str)
        requires
            old(self).wf(),
        ensures
            final(self).wf(),
            final(self).status() == MoveStatus::Ready,
            old(self).status() == MoveStatus::Ready || old(self).status() == MoveStatus::Navigating
                ==> final(self).current() == old(self).url_target(url@) && final(self).history()
                == old(self).history().push(old(self).url_target(url@)) && final(self).index()
                == old(self).history().len(),
            old(self).status() == MoveStatus::MovingBack ==> final(self).history()
                == old(self).history() && match old(self).back_target() {
                Some(t) => final(self).current() == t && final(self).index() == old(self).index()
                    - 1,
                None => final(self).current() == old(self).current() && final(self).index()
                    == old(self).index(),
            },
            old(self).status() == MoveStatus::MovingForward ==> final(self).history()
                == old(self).history() && match old(self).forward_target() {
                Some(t) => final(self).current() == t && final(self).index() == old(self).index()
                    + 1,
                None => final(self).current() == old(self).current() && final(self).index()
                    == old(self).index(),
            },
            final(self).codec() == old(self).codec(),
            final(self).default() == old(self).default(),
            final(self).base() == old(self).base(),
            final(self).handle() == old(self).handle(),
    {
        match self.data.current_move {
            MoveStatus::Navigating | MoveStatus::Ready => {
                self.navigate_to_url(url);
            },
            MoveStatus::MovingBack => {
                self.back();
            },
            MoveStatus::MovingForward => {
                self.forward();
            },
        }
        self.data.current_move = MoveStatus::Ready;
    }

    /// The current route.
    pub fn current_route(&self) -> (r: Route)
        ensures
            r@ == self.current(),
    {
        clone_route(&self.data.current_route)
    }

    /// The default route, used when a URL does not decode.
    pub fn default_route(&self) -> (r: Route)
        ensures
            r@ == self.default(),
    {
        clone_route(&self.data.default_route)
    }

    /// The origin of the URL the router was initialised with.
    pub fn base_url(&self) -> (r: String)
        ensures
            r@ == self.base(),
    {
        self.data.base_url.clone()
    }

    /// The position of the current route in the history.
    pub fn current_history_index(&self) -> (r: usize)
        ensures
            r == self.index(),
    {
        self.data.current_history_index
    }

    /// The move requested of the host and not yet confirmed.
    pub fn current_move(&self) -> (r: MoveStatus)
        ensures
            r == self.status(),
    {
        self.data.current_move
    }

    /// The routes visited, in order.
    pub fn history_routes(&self) -> (r: &Vec<Route>)
        ensures
            r@.map_values(|x: Route| x@) == self.history(),
    {
        &self.data.history
    }

    /// The current position is the last of a non-empty history.
    pub fn is_on_last_index(&self) -> (r: bool)
        ensures
            r == (self.history().len() > 0 && self.index() + 1 == self.history().len()),
    {
        self.data.is_on_last_index()
    }

    /// The current position is the first of a non-empty history.
    pub fn is_on_first_index(&self) -> (r: bool)
        ensures
            r == (self.history().len() > 0 && self.index() == 0),
    {
        self.data.is_on_first_index()
    }

    /// Whether `route` is a value of the router's root schema, as
    /// `navigate_to_new` requires.
    pub fn accepts(&self, route: &Route) -> (r: bool)
        ensures
            r == self.codec().fits_root(route@),
    {
        self.codec.fits(route)
    }

    /// The path of `route`, a value of the router's root schema.
    pub fn path_of_route(&self, route: &Route) -> (r: String)
        requires
            self.wf(),
            self.codec().fits_root(route@),
        ensures
            r@ == self.codec().encode_root(route@),
    {
        self.codec.as_path(route)
    }
} // impl Router

} // verus!
