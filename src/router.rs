//! The route registry and dispatch.
use vstd::prelude::*;
use crate::path::{split_path, path_segments, views_of};
use crate::route::{
    Method, Segment, PatternError, is_literal, pattern_matches, same_shape, same_segment_shape, more_specific,
    same_kinds, kinds_agree_before, parse_outcome, parse_pattern,
};
use crate::matching::{
    bindings, binding_views, pattern_accepts, shapes_equal, compare_specificity, bind_params,
    lemma_specificity_asymmetric, lemma_specificity_transitive, lemma_specificity_total,
};
use crate::handler::{Handler, Response, handler_response, STATUS_NOT_FOUND};

verus! {

/// A registered route: requests with this method whose path the pattern
/// accepts go to the handler.
#[derive(Debug)]
pub struct Route {
    pub method: Method,
    pub pattern: Vec<Segment>,
    pub handler: Handler,
}

/// A request as the transport hands it over: a method and the segments of
/// its path.
#[derive(Debug)]
pub struct Request {
    pub method: Method,
    pub path: Vec<String>,
}

/// The route that a request was matched to, by its position in the
/// registry, and the parameter values bound from the path.
#[derive(Debug)]
pub struct RouteMatch {
    pub route: usize,
    pub params: Vec<(String, String)>,
}

/// Whether `r` accepts a request with this method and segmented path.
pub open spec fn route_matches(r: Route, method: Method, path: Seq<Seq<char>>) -> bool {
    r.method == method && pattern_matches(r.pattern@, path)
}

/// Route `i` is preferred to route `j`: it is more specific, or equally
/// specific and registered no later.
pub open spec fn preferred(routes: Seq<Route>, i: int, j: int) -> bool {
    more_specific(routes[i].pattern@, routes[j].pattern@) || (same_kinds(
        routes[i].pattern@,
        routes[j].pattern@,
    ) && i <= j)
}

/// Route `i` matches and is preferred to every other route that matches.
pub open spec fn is_selected(routes: Seq<Route>, method: Method, path: Seq<Seq<char>>, i: int) -> bool {
    &&& 0 <= i < routes.len()
    &&& route_matches(routes[i], method, path)
    &&& forall|j: int|
        0 <= j < routes.len() && route_matches(#[trigger] routes[j], method, path) ==> preferred(
            routes,
            i,
            j,
        )
}

/// The position of the route that a request goes to, if any matches.
pub open spec fn selected(routes: Seq<Route>, method: Method, path: Seq<Seq<char>>) -> Option<int> {
    if exists|i: int| is_selected(routes, method, path, i) {
        Some(choose|i: int| is_selected(routes, method, path, i))
    } else {
        None
    }
}

/// The response to a request: the selected route's handler run on the bound
/// parameters, or an empty 404 where no route matches.
pub open spec fn dispatch_result(routes: Seq<Route>, method: Method, path: Seq<Seq<char>>) -> (
    u16,
    Seq<char>,
) {
    match selected(routes, method, path) {
        Some(i) => handler_response(routes[i].handler, bindings(routes[i].pattern@, path)),
        None => (STATUS_NOT_FOUND, Seq::empty()),
    }
}

/// No two routes share a method and a pattern shape.
pub open spec fn routes_wf(routes: Seq<Route>) -> bool {
    forall|i: int, j: int|
        0 <= i < j < routes.len() ==> !(#[trigger] routes[i].method == #[trigger] routes[j].method
            && same_shape(routes[i].pattern@, routes[j].pattern@))
}

/// `routes[i]` has the method and the pattern shape of `r`.
pub open spec fn shadows(routes: Seq<Route>, i: int, r: Route) -> bool {
    0 <= i < routes.len() && routes[i].method == r.method && same_shape(routes[i].pattern@, r.pattern@)
}

/// The registry after adding `r`: it takes the place of a route of the same
/// method and shape, or else goes last.
pub open spec fn with_route(routes: Seq<Route>, r: Route) -> Seq<Route> {
    if exists|i: int| shadows(routes, i, r) {
        routes.update(choose|i: int| shadows(routes, i, r), r)
    } else {
        routes.push(r)
    }
}

proof fn lemma_same_kinds_refl(p: Seq<Segment>)
    ensures
        same_kinds(p, p),
{
}

proof fn lemma_same_kinds_symm(p: Seq<Segment>, q: Seq<Segment>)
    requires
        same_kinds(p, q),
    ensures
        same_kinds(q, p),
{
    assert(kinds_agree_before(q, p, q.len() as int));
}

proof fn lemma_same_shape_refl(p: Seq<Segment>)
    ensures
        same_shape(p, p),
{
    assert forall|k: int| 0 <= k < p.len() implies same_segment_shape(#[trigger] p[k], p[k]) by {
        match p[k] {
            Segment::Literal(_) => {},
            Segment::Param(_) => {},
        }
    }
}

proof fn lemma_same_shape_trans(p: Seq<Segment>, q: Seq<Segment>, r: Seq<Segment>)
    requires
        same_shape(p, q),
        same_shape(r, q),
    ensures
        same_shape(p, r),
{
    assert forall|k: int| 0 <= k < p.len() implies same_segment_shape(#[trigger] p[k], r[k]) by {
        assert(same_segment_shape(p[k], q[k]));
        assert(same_segment_shape(r[k], q[k]));
    }
}

/// Two patterns that accept one path and have the same kinds have the same shape.
proof fn lemma_matching_same_kinds_same_shape(p: Seq<Segment>, q: Seq<Segment>, path: Seq<Seq<char>>)
    requires
        pattern_matches(p, path),
        pattern_matches(q, path),
        same_kinds(p, q),
    ensures
        same_shape(p, q),
{
    assert forall|k: int| 0 <= k < p.len() implies same_segment_shape(#[trigger] p[k], q[k]) by {
        assert(kinds_agree_before(p, q, p.len() as int));
        assert(crate::route::is_literal(p[k]) == crate::route::is_literal(q[k]));
        assert(crate::route::segment_matches(p[k], path[k]));
        assert(crate::route::segment_matches(q[k], path[k]));
    }
}

/// At most one route is selected.
proof fn lemma_selected_unique(routes: Seq<Route>, method: Method, path: Seq<Seq<char>>, i: int, j: int)
    requires
        is_selected(routes, method, path, i),
        is_selected(routes, method, path, j),
    ensures
        i == j,
{
    assert(route_matches(routes[j], method, path));
    assert(route_matches(routes[i], method, path));
    let p = routes[i].pattern@;
    let q = routes[j].pattern@;
    assert(preferred(routes, i, j));
    assert(preferred(routes, j, i));
    if more_specific(p, q) {
        lemma_specificity_asymmetric(p, q);
    } else if more_specific(q, p) {
        lemma_specificity_asymmetric(q, p);
    }
}

proof fn lemma_is_selected_gives_selected(routes: Seq<Route>, method: Method, path: Seq<Seq<char>>, i: int)
    requires
        is_selected(routes, method, path, i),
    ensures
        selected(routes, method, path) == Some(i),
{
    let c = choose|c: int| is_selected(routes, method, path, c);
    lemma_selected_unique(routes, method, path, i, c);
}

/// A set of routes with no two of the same method and shape.
#[derive(Debug)]
pub struct Router {
    routes: Vec<Route>,
}

impl View for Router {
    type V = Seq<Route>;

    closed spec fn view(&self) -> Seq<Route> {
        self.routes@
    }
}

impl Router {
    /// The router's invariant: no route shadows another.
    pub closed spec fn wf(&self) -> bool {
        routes_wf(self.routes@)
    }

    /// The invariant, stated over the router's view.
    pub proof fn lemma_wf(&self)
        requires
            self.wf(),
        ensures
            routes_wf(self@),
    {
    }

    /// An empty router.
    pub fn new() -> (r: Router)
        ensures
            r.wf(),
            r@ == Seq::<Route>::empty(),
    {
        Router { routes: Vec::new() }
    }

    /// The number of registered routes.
    pub fn len(&self) -> (r: usize)
        ensures
            r == self@.len(),
    {
        self.routes.len()
    }

    /// The registered routes, in registration order.
    pub fn routes(&self) -> (r: &Vec<Route>)
        ensures
            r@ == self@,
    {
        &self.routes
    }

    /// Adds a route. A route of the same method and pattern shape that was
    /// registered before is replaced, in its place: the later one shadows it.
    pub fn add_route(&mut self, route: Route)
        requires
            old(self).wf(),
        ensures
            final(self).wf(),
            final(self)@ == with_route(old(self)@, route),
    {
        let ghost old_routes = self.routes@;
        let mut k: usize = 0;
        while k < self.routes.len()
            invariant
                self.routes@ == old_routes,
                old_routes == old(self)@,
                routes_wf(old_routes),
                k <= old_routes.len(),
                forall|m: int| 0 <= m < k ==> !shadows(old_routes, m, route),
            decreases old_routes.len() - k,
        {
            if self.routes[k].method == route.method && shapes_equal(
                &self.routes[k].pattern,
                &route.pattern,
            ) {
                proof {
                    assert(shadows(old_routes, k as int, route));
                    let c = choose|c: int| shadows(old_routes, c, route);
                    if c != k as int {
                        lemma_same_shape_trans(old_routes[c].pattern@, route.pattern@, old_routes[k as int].pattern@);
                        if c < k {
                            assert(!(old_routes[c].method == old_routes[k as int].method
                                && same_shape(old_routes[c].pattern@, old_routes[k as int].pattern@)));
                        } else {
                            lemma_same_shape_trans(old_routes[k as int].pattern@, route.pattern@, old_routes[c].pattern@);
                            assert(!(old_routes[k as int].method == old_routes[c].method
                                && same_shape(old_routes[k as int].pattern@, old_routes[c].pattern@)));
                        }
                    }
                    assert(c == k as int);
                }
                self.routes[k] = route;
                proof {
                    let n = self.routes@;
                    assert(n == old_routes.update(k as int, route));
                    assert(exists|i: int| shadows(old_routes, i, route));
                    assert(n == with_route(old_routes, route));
                    assert forall|i: int, j: int|
                        0 <= i < j < n.len() implies !(#[trigger] n[i].method
                        == #[trigger] n[j].method && same_shape(n[i].pattern@, n[j].pattern@)) by {
                        if i == k as int && n[i].method == n[j].method && same_shape(n[i].pattern@, n[j].pattern@) {
                            lemma_same_shape_trans(old_routes[k as int].pattern@, route.pattern@, n[j].pattern@);
                            assert(!(old_routes[i].method == old_routes[j].method
                                && same_shape(old_routes[i].pattern@, old_routes[j].pattern@)));
                        }
                        if j == k as int && n[i].method == n[j].method && same_shape(n[i].pattern@, n[j].pattern@) {
                            lemma_same_shape_trans(n[i].pattern@, route.pattern@, old_routes[k as int].pattern@);
                            assert(!(old_routes[i].method == old_routes[j].method
                                && same_shape(old_routes[i].pattern@, old_routes[j].pattern@)));
                        }
                    }
                }
                return;
            }
            k = k + 1;
        }
        self.routes.push(route);
        proof {
            let n = self.routes@;
            assert forall|i: int, j: int|
                0 <= i < j < n.len() implies !(#[trigger] n[i].method == #[trigger] n[j].method
                && same_shape(n[i].pattern@, n[j].pattern@)) by {
                if j == old_routes.len() && n[i].method == n[j].method && same_shape(n[i].pattern@, n[j].pattern@) {
                    assert(shadows(old_routes, i, route));
                }
            }
        }
    }

    /// Registers a handler for a method and a textual pattern such as
    /// `/_n/{name}`. A pattern that does not parse is refused with its error
    /// and the router is left unchanged.
    pub fn register(&mut self, method: Method, pattern: &str, handler: Handler) -> (r: Result<
        (),
        PatternError,
    >)
        requires
            old(self).wf(),
        ensures
            final(self).wf(),
            match r {
                Ok(()) => exists|segs: Vec<Segment>|
                    parse_outcome(pattern@, Ok(segs)) && final(self)@ == with_route(
                        old(self)@,
                        Route { method, pattern: segs, handler },
                    ),
                Err(e) => parse_outcome(pattern@, Err(e)) && final(self)@ == old(self)@,
            },
    {
        match parse_pattern(pattern) {
            Ok(segs) => {
                let ghost g = segs;
                self.add_route(Route { method, pattern: segs, handler });
                assert(parse_outcome(pattern@, Ok(g)));
                Ok(())
            },
            Err(e) => Err(e),
        }
    }

    /// The route that a request with this method and path goes to: the
    /// matching route that is most specific, and of those equally specific
    /// the one registered first.
    pub fn select(&self, method: Method, path: &Vec<String>) -> (r: Option<usize>)
        ensures
            match r {
                Some(i) => selected(self@, method, views_of(path@)) == Some(i as int),
                None => selected(self@, method, views_of(path@)) is None,
            },
    {
        let ghost routes = self.routes@;
        let ghost vp = views_of(path@);
        let mut best: Option<usize> = None;
        let mut i: usize = 0;
        while i < self.routes.len()
            invariant
                routes == self.routes@,
                vp == views_of(path@),
                i <= routes.len(),
                best is None ==> forall|j: int| 0 <= j < i ==> !route_matches(#[trigger] routes[j], method, vp),
                best is Some ==> {
                    let b = best->Some_0 as int;
                    &&& b < i
                    &&& route_matches(routes[b], method, vp)
                    &&& forall|j: int|
                        0 <= j < i && route_matches(#[trigger] routes[j], method, vp) ==> preferred(routes, b, j)
                },
            decreases routes.len() - i,
        {
            let r = &self.routes[i];
            if r.method == method && pattern_accepts(&r.pattern, path) {
                proof {
                    lemma_same_kinds_refl(routes[i as int].pattern@);
                }
                match best {
                    None => {
                        best = Some(i);
                        assert(preferred(routes, i as int, i as int));
                    },
                    Some(b) => {
                        let c = compare_specificity(&r.pattern, &self.routes[b].pattern);
                        proof {
                            let pi = routes[i as int].pattern@;
                            let pb = routes[b as int].pattern@;
                            if c is None {
                                lemma_same_kinds_symm(pi, pb);
                            }
                            if c == Some(true) {
                                assert forall|j: int|
                                    0 <= j < i && route_matches(#[trigger] routes[j], method, vp) implies preferred(
                                        routes,
                                        i as int,
                                        j,
                                    ) by {
                                    assert(preferred(routes, b as int, j));
                                    lemma_specificity_transitive(pi, pb, routes[j].pattern@);
                                }
                            }
                        }
                        if c == Some(true) {
                            best = Some(i);
                            assert(preferred(routes, i as int, i as int));
                        } else {
                            proof {
                                match c {
                                    Some(x) => assert(c == Some(false)),
                                    None => {},
                                }
                            }
                            assert(preferred(routes, b as int, i as int));
                        }
                    },
                }
            }
            i = i + 1;
        }
        proof {
            match best {
                Some(b) => lemma_is_selected_gives_selected(routes, method, vp, b as int),
                None => {},
            }
        }
        best
    }

    /// Matches a request: the selected route and the parameter values bound
    /// from the path, or `None` where no route matches.
    pub fn find(&self, req: &Request) -> (r: Option<RouteMatch>)
        ensures
            match r {
                Some(m) => selected(self@, req.method, views_of(req.path@)) == Some(m.route as int)
                    && binding_views(m.params@) == bindings(
                    self@[m.route as int].pattern@,
                    views_of(req.path@),
                ),
                None => selected(self@, req.method, views_of(req.path@)) is None,
            },
    {
        match self.select(req.method, &req.path) {
            Some(i) => {
                let params = bind_params(&self.routes[i].pattern, &req.path);
                Some(RouteMatch { route: i, params })
            },
            None => None,
        }
    }

    /// Dispatches a request: runs the selected route's handler on the bound
    /// parameters and returns its response unchanged, or answers 404 with an
    /// empty body where no route matches.
    pub fn dispatch(&self, req: &Request) -> (r: Response)
        ensures
            r@ == dispatch_result(self@, req.method, views_of(req.path@)),
    {
        match self.find(req) {
            Some(m) => self.routes[m.route].handler.respond(&m.params),
            None => Response::not_found(),
        }
    }
}

impl Request {
    /// A request for `method` on the textual path `path`, split into segments.
    pub fn new(method: Method, path: &str) -> (r: Request)
        ensures
            r.method == method,
            views_of(r.path@) == path_segments(path@),
    {
        Request { method, path: split_path(path) }
    }
}

/// Every segment of the pattern is a literal.
pub open spec fn all_literal(pat: Seq<Segment>) -> bool {
    forall|k: int| 0 <= k < pat.len() ==> is_literal(#[trigger] pat[k])
}

proof fn lemma_same_shape_symm(p: Seq<Segment>, q: Seq<Segment>)
    requires
        same_shape(p, q),
    ensures
        same_shape(q, p),
{
    lemma_same_shape_refl(q);
    lemma_same_shape_trans(q, q, p);
}

/// Two matching routes of a well-formed registry that are equally specific
/// are the same route.
proof fn lemma_equal_kinds_same_route(
    routes: Seq<Route>,
    method: Method,
    path: Seq<Seq<char>>,
    i: int,
    j: int,
)
    requires
        routes_wf(routes),
        0 <= i < routes.len(),
        0 <= j < routes.len(),
        route_matches(routes[i], method, path),
        route_matches(routes[j], method, path),
        same_kinds(routes[i].pattern@, routes[j].pattern@),
    ensures
        i == j,
{
    let p = routes[i].pattern@;
    let q = routes[j].pattern@;
    lemma_matching_same_kinds_same_shape(p, q, path);
    lemma_same_shape_symm(p, q);
    if i < j {
        assert(!(routes[i].method == routes[j].method && same_shape(p, q)));
    } else if j < i {
        assert(!(routes[j].method == routes[i].method && same_shape(q, p)));
    }
}

/// A route whose pattern is all literals gets every request that it
/// matches: dispatch selects it and answers with its handler's response.
pub proof fn lemma_literal_route_receives(
    routes: Seq<Route>,
    i: int,
    method: Method,
    path: Seq<Seq<char>>,
)
    requires
        routes_wf(routes),
        0 <= i < routes.len(),
        all_literal(routes[i].pattern@),
        route_matches(routes[i], method, path),
    ensures
        selected(routes, method, path) == Some(i),
        dispatch_result(routes, method, path) == handler_response(
            routes[i].handler,
            bindings(routes[i].pattern@, path),
        ),
{
    let p = routes[i].pattern@;
    assert forall|j: int|
        0 <= j < routes.len() && route_matches(#[trigger] routes[j], method, path) implies preferred(
            routes,
            i,
            j,
        ) by {
        let q = routes[j].pattern@;
        lemma_specificity_total(p, q);
        if more_specific(q, p) {
            let w = choose|w: int|
                0 <= w < q.len() && w < p.len() && kinds_agree_before(q, p, w) && is_literal(
                    #[trigger] q[w],
                ) && !is_literal(p[w]);
            assert(is_literal(p[w]));
        } else if !more_specific(p, q) {
            lemma_equal_kinds_same_route(routes, method, path, i, j);
        }
    }
    lemma_is_selected_gives_selected(routes, method, path, i);
}

/// A request that no route matches is answered 404 with an empty body, and
/// no handler is consulted.
pub proof fn lemma_unmatched_is_not_found(routes: Seq<Route>, method: Method, path: Seq<Seq<char>>)
    requires
        forall|j: int| 0 <= j < routes.len() ==> !route_matches(#[trigger] routes[j], method, path),
    ensures
        selected(routes, method, path) is None,
        dispatch_result(routes, method, path) == (STATUS_NOT_FOUND, Seq::<char>::empty()),
{
}

/// Dispatch depends on the router and the request alone: two dispatches of
/// one request on an unchanged router give identical responses.
pub proof fn lemma_dispatch_repeatable(router: Router, req: Request, first: Response, second: Response)
    requires
        first@ == dispatch_result(router@, req.method, views_of(req.path@)),
        second@ == dispatch_result(router@, req.method, views_of(req.path@)),
    ensures
        first@ == second@,
{
}

proof fn lemma_selection_carries_over(
    a: Seq<Route>,
    b: Seq<Route>,
    method: Method,
    path: Seq<Seq<char>>,
    i: int,
) -> (j: int)
    requires
        routes_wf(a),
        routes_wf(b),
        forall|r: Route| a.contains(r) <==> b.contains(r),
        is_selected(a, method, path, i),
    ensures
        is_selected(b, method, path, j),
        b[j] == a[i],
{
    let x = a[i];
    assert(a.contains(x));
    assert(b.contains(x));
    let j = choose|j: int| 0 <= j < b.len() && b[j] == x;
    assert forall|k: int|
        0 <= k < b.len() && route_matches(#[trigger] b[k], method, path) implies preferred(
            b,
            j,
            k,
        ) by {
        assert(b.contains(b[k]));
        assert(a.contains(b[k]));
        let k2 = choose|k2: int| 0 <= k2 < a.len() && a[k2] == b[k];
        assert(route_matches(a[k2], method, path));
        assert(preferred(a, i, k2));
        if !more_specific(x.pattern@, b[k].pattern@) {
            lemma_equal_kinds_same_route(a, method, path, i, k2);
            lemma_same_kinds_refl(x.pattern@);
            lemma_equal_kinds_same_route(b, method, path, j, k);
        }
    }
    j
}

/// For registries without shadowed routes, what a request gets depends only
/// on which routes are registered, not on their order.
pub proof fn lemma_order_independent(a: Seq<Route>, b: Seq<Route>, method: Method, path: Seq<Seq<char>>)
    requires
        routes_wf(a),
        routes_wf(b),
        forall|r: Route| a.contains(r) <==> b.contains(r),
    ensures
        dispatch_result(a, method, path) == dispatch_result(b, method, path),
{
    if let Some(i) = selected(a, method, path) {
        let j = lemma_selection_carries_over(a, b, method, path, i);
        lemma_is_selected_gives_selected(b, method, path, j);
    } else if let Some(j) = selected(b, method, path) {
        let i = lemma_selection_carries_over(b, a, method, path, j);
        lemma_is_selected_gives_selected(a, method, path, i);
    }
}

/// Registering two routes that do not overlap, neither shadowing the other
/// nor a registered route, gives in either order registries with the same
/// routes, both well formed, on which every request gets the same response.
pub proof fn lemma_registration_order_irrelevant(
    routes: Seq<Route>,
    r1: Route,
    r2: Route,
    method: Method,
    path: Seq<Seq<char>>,
)
    requires
        routes_wf(routes),
        forall|i: int| !shadows(routes, i, r1),
        forall|i: int| !shadows(routes, i, r2),
        !(r1.method == r2.method && same_shape(r1.pattern@, r2.pattern@)),
    ensures
        routes_wf(with_route(with_route(routes, r1), r2)),
        routes_wf(with_route(with_route(routes, r2), r1)),
        dispatch_result(with_route(with_route(routes, r1), r2), method, path) == dispatch_result(
            with_route(with_route(routes, r2), r1),
            method,
            path,
        ),
{
    let n = routes.len() as int;
    if same_shape(r2.pattern@, r1.pattern@) {
        lemma_same_shape_symm(r2.pattern@, r1.pattern@);
    }
    let a1 = with_route(routes, r1);
    assert(a1 == routes.push(r1));
    assert(!shadows(a1, n, r2));
    assert forall|i: int| !shadows(a1, i, r2) by {
        if 0 <= i < n {
            assert(a1[i] == routes[i]);
            assert(!shadows(routes, i, r2));
        }
    }
    let a = with_route(a1, r2);
    assert(a == routes.push(r1).push(r2));
    let b1 = with_route(routes, r2);
    assert(b1 == routes.push(r2));
    assert(!shadows(b1, n, r1));
    assert forall|i: int| !shadows(b1, i, r1) by {
        if 0 <= i < n {
            assert(b1[i] == routes[i]);
            assert(!shadows(routes, i, r1));
        }
    }
    let b = with_route(b1, r1);
    assert(b == routes.push(r2).push(r1));
    assert forall|i: int, j: int|
        0 <= i < j < a.len() implies !(#[trigger] a[i].method == #[trigger] a[j].method
        && same_shape(a[i].pattern@, a[j].pattern@)) by {
        if j == n {
            assert(!shadows(routes, i, r1));
        } else if j == n + 1 && i < n {
            assert(!shadows(routes, i, r2));
        }
    }
    assert forall|i: int, j: int|
        0 <= i < j < b.len() implies !(#[trigger] b[i].method == #[trigger] b[j].method
        && same_shape(b[i].pattern@, b[j].pattern@)) by {
        if j == n {
            assert(!shadows(routes, i, r2));
        } else if j == n + 1 && i < n {
            assert(!shadows(routes, i, r1));
        }
    }
    assert forall|r: Route| a.contains(r) <==> b.contains(r) by {
        if a.contains(r) {
            let k = choose|k: int| 0 <= k < a.len() && a[k] == r;
            if k < n {
                assert(b[k] == r);
            } else if k == n {
                assert(b[n + 1] == r);
            } else {
                assert(b[n] == r);
            }
        }
        if b.contains(r) {
            let k = choose|k: int| 0 <= k < b.len() && b[k] == r;
            if k < n {
                assert(a[k] == r);
            } else if k == n {
                assert(a[n + 1] == r);
            } else {
                assert(a[n] == r);
            }
        }
    }
    lemma_order_independent(a, b, method, path);
}

/// Route `k - 1` matches and is more specific than `i`, the best of the
/// routes before it: it is the best of the first `k`.
proof fn lemma_new_best(routes: Seq<Route>, method: Method, path: Seq<Seq<char>>, k: int, i: int)
    requires
        0 <= i < k - 1,
        k <= routes.len(),
        route_matches(routes[k - 1], method, path),
        route_matches(routes[i], method, path),
        more_specific(routes[k - 1].pattern@, routes[i].pattern@),
        forall|j: int|
            0 <= j < k - 1 && route_matches(#[trigger] routes[j], method, path) ==> preferred(
                routes,
                i,
                j,
            ),
    ensures
        forall|j: int|
            0 <= j < k && route_matches(#[trigger] routes[j], method, path) ==> preferred(
                routes,
                k - 1,
                j,
            ),
{
    let c = k - 1;
    let pc = routes[c].pattern@;
    let pi = routes[i].pattern@;
    lemma_same_kinds_refl(pc);
    assert forall|j: int|
        0 <= j < k && route_matches(#[trigger] routes[j], method, path) implies preferred(
            routes,
            c,
            j,
        ) by {
        if j < c {
            assert(preferred(routes, i, j));
            lemma_specificity_transitive(pc, pi, routes[j].pattern@);
        }
    }
}

/// Among the first `k` routes, one that matches and is preferred to every
/// other matching one there, or `None` where none of them matches.
proof fn lemma_best_of_prefix(routes: Seq<Route>, method: Method, path: Seq<Seq<char>>, k: int) -> (b:
    Option<int>)
    requires
        0 <= k <= routes.len(),
    ensures
        b is None ==> forall|j: int| 0 <= j < k ==> !route_matches(#[trigger] routes[j], method, path),
        b is Some ==> {
            let i = b->Some_0;
            &&& 0 <= i < k
            &&& route_matches(routes[i], method, path)
            &&& forall|j: int|
                0 <= j < k && route_matches(#[trigger] routes[j], method, path) ==> preferred(
                    routes,
                    i,
                    j,
                )
        },
    decreases k,
{
    if k == 0 {
        None
    } else {
        let prev = lemma_best_of_prefix(routes, method, path, k - 1);
        let c = k - 1;
        if !route_matches(routes[c], method, path) {
            prev
        } else {
            let pc = routes[c].pattern@;
            lemma_same_kinds_refl(pc);
            match prev {
                None => Some(c),
                Some(i) => {
                    let pi = routes[i].pattern@;
                    lemma_specificity_total(pc, pi);
                    if more_specific(pc, pi) {
                        lemma_new_best(routes, method, path, k, i);
                        Some(c)
                    } else {
                        if !more_specific(pi, pc) {
                            lemma_same_kinds_symm(pc, pi);
                        }
                        assert(preferred(routes, i, c));
                        Some(i)
                    }
                },
            }
        }
    }
}

/// A request that some route matches is never answered as not found: a
/// route is selected, it matches, and its handler's response is the answer.
/// With the unmatched case this makes 404 exactly the answer to requests
/// that no route matches.
pub proof fn lemma_matched_is_dispatched(routes: Seq<Route>, method: Method, path: Seq<Seq<char>>, j: int)
    requires
        0 <= j < routes.len(),
        route_matches(routes[j], method, path),
    ensures
        selected(routes, method, path) is Some,
        route_matches(routes[selected(routes, method, path)->Some_0], method, path),
        dispatch_result(routes, method, path) == handler_response(
            routes[selected(routes, method, path)->Some_0].handler,
            bindings(routes[selected(routes, method, path)->Some_0].pattern@, path),
        ),
        dispatch_result(routes, method, path).0 != STATUS_NOT_FOUND,
{
    let b = lemma_best_of_prefix(routes, method, path, routes.len() as int);
    let i = b->Some_0;
    lemma_is_selected_gives_selected(routes, method, path, i);
}

} // verus!
