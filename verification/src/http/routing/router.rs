//! The route table and its builder.

use vstd::hash_map::StringHashMap;
use vstd::prelude::*;

use crate::http::method::MethodView;
use crate::http::request::Request;
use crate::http::routing::path::{lemma_repeated_separator, segments, split_segments, texts};
use crate::http::routing::pattern::{
    accepts, bindings, lemma_static_accepts_itself, lemma_static_captures_nothing, match_segments,
};
use crate::http::routing::route::{views, Route, RouteView};

verus! {

/// The test that picks the static routes.
pub open spec fn static_route() -> spec_fn(RouteView) -> bool {
    |route: RouteView| route.is_static()
}

/// The test that picks the routes that are not static.
pub open spec fn dynamic_route() -> spec_fn(RouteView) -> bool {
    |route: RouteView| !route.is_static()
}

/// The order of a route table: the static routes in the order in which they
/// were given, then the others in the order in which they were given.
pub open spec fn static_first(routes: Seq<RouteView>) -> Seq<RouteView> {
    routes.filter(static_route()) + routes.filter(dynamic_route())
}

/// Whether a table can be built from these routes: none holds a wildcard.
pub open spec fn supported(routes: Seq<RouteView>) -> bool {
    forall|i: int| 0 <= i < routes.len() ==> !(#[trigger] routes[i]).has_wildcard()
}

/// What a successful match yields: the route and the parameters it extracted.
pub struct MatchedRouteView {
    pub route: RouteView,
    pub params: Map<Seq<char>, Seq<char>>,
}

/// The result of resolving a request against `routes` in order: the first
/// route that accepts it, with the parameters that route extracts, or nothing
/// where no route accepts it.
pub open spec fn outcome(routes: Seq<RouteView>, method: MethodView, path: Seq<char>) -> Option<
    MatchedRouteView,
>
    decreases routes.len(),
{
    if routes.len() == 0 {
        None
    } else if routes[0].accepts(method, path) {
        Some(matched_by(routes[0], path))
    } else {
        outcome(routes.drop_first(), method, path)
    }
}

/// Whether `index` is the first route of `routes` that accepts the request.
pub open spec fn is_first_match(
    routes: Seq<RouteView>,
    method: MethodView,
    path: Seq<char>,
    index: int,
) -> bool {
    &&& 0 <= index < routes.len()
    &&& routes[index].accepts(method, path)
    &&& forall|j: int| 0 <= j < index ==> !(#[trigger] routes[j]).accepts(method, path)
}

/// What a route yields for a request that it accepts.
pub open spec fn matched_by(route: RouteView, path: Seq<char>) -> MatchedRouteView {
    MatchedRouteView { route, params: route.captures(path) }
}

/// Collects routes for a [`Router`].
#[derive(Debug)]
pub struct RouterBuilder {
    pub routes: Vec<Route>,
}

impl View for RouterBuilder {
    type V = Seq<RouteView>;

    open spec fn view(&self) -> Seq<RouteView> {
        views(self.routes@)
    }
}

impl RouterBuilder {
    /// A builder without routes.
    pub fn new() -> (builder: RouterBuilder)
        ensures
            builder.routes@ == Seq::<Route>::empty(),
    {
        RouterBuilder { routes: Vec::new() }
    }

    /// Appends one route.
    pub fn add_route(self, route: Route) -> (builder: RouterBuilder)
        ensures
            builder.routes@ == self.routes@.push(route),
    {
        let mut builder = self;
        builder.routes.push(route);
        builder
    }

    /// Appends routes in the order given.
    pub fn add_routes(self, routes: &[Route]) -> (builder: RouterBuilder)
        ensures
            builder.routes@ == self.routes@ + routes@,
    {
        let mut builder = self;
        let mut at: usize = 0;
        while at < routes.len()
            invariant
                at <= routes.len(),
                builder.routes@ == self.routes@ + routes@.take(at as int),
            decreases routes.len() - at,
        {
            builder.routes.push(routes[at].clone());
            at = at + 1;
            assert(builder.routes@ == self.routes@ + routes@.take(at as int));
        }
        assert(routes@.take(at as int) == routes@);
        builder
    }

    /// Whether a table can be built: no route holds a wildcard.
    pub fn is_supported(&self) -> (ok: bool)
        ensures
            ok == supported(self@),
    {
        let mut at: usize = 0;
        while at < self.routes.len()
            invariant
                at <= self.routes.len(),
                forall|i: int| 0 <= i < at ==> !(#[trigger] self@[i]).has_wildcard(),
            decreases self.routes.len() - at,
        {
            if self.routes[at].has_wildcard() {
                assert(self@[at as int].has_wildcard());
                return false;
            }
            at = at + 1;
        }
        true
    }

    /// Builds the table: the static routes first, each group in the order in
    /// which its routes were added.
    pub fn build(self) -> (router: Router)
        requires
            supported(self@),
        ensures
            router@ == static_first(self@),
    {
        let mut builder = self;
        builder.sort_routes();
        proof {
            lemma_static_first_supported(self@);
        }
        Router { routes: builder.routes }
    }

    /// Builds the table where that can be done, that is where no route holds
    /// a wildcard.
    pub fn try_build(self) -> (built: Option<Router>)
        ensures
            built is Some <==> supported(self@),
            built matches Some(router) ==> router@ == static_first(self@),
    {
        if self.is_supported() {
            Some(self.build())
        } else {
            None
        }
    }

    /// Reorders the routes so that the static ones come first, each group
    /// keeping its order.
    fn sort_routes(&mut self)
        ensures
            final(self)@ == static_first(old(self)@),
    {
        let ghost given = self@;
        let mut fixed: Vec<Route> = Vec::new();
        let mut dynamic: Vec<Route> = Vec::new();
        let mut at: usize = 0;
        proof {
            reveal(Seq::filter);
            assert(given.take(0) == Seq::<RouteView>::empty());
            assert(views(fixed@) == Seq::<RouteView>::empty());
            assert(views(dynamic@) == Seq::<RouteView>::empty());
        }
        while at < self.routes.len()
            invariant
                at <= self.routes.len(),
                self@ == given,
                views(fixed@) == given.take(at as int).filter(static_route()),
                views(dynamic@) == given.take(at as int).filter(dynamic_route()),
            decreases self.routes.len() - at,
        {
            let route = self.routes[at].clone();
            proof {
                reveal(Seq::filter);
                assert(given.take(at + 1).drop_last() == given.take(at as int));
                assert(given.take(at + 1).last() == route@);
            }
            if route.is_static() {
                let ghost before = fixed@;
                fixed.push(route);
                assert(views(fixed@) == views(before).push(route@));
            } else {
                let ghost before = dynamic@;
                dynamic.push(route);
                assert(views(dynamic@) == views(before).push(route@));
            }
            at = at + 1;
        }
        proof {
            assert(given.take(at as int) == given);
        }
        let ghost first = fixed@;
        let ghost second = dynamic@;
        fixed.append(&mut dynamic);
        assert(views(fixed@) == views(first) + views(second));
        self.routes = fixed;
    }
}

impl Default for RouterBuilder {
    fn default() -> (builder: RouterBuilder)
        ensures
            builder.routes@ == Seq::<Route>::empty(),
    {
        RouterBuilder::new()
    }
}

/// A successful match: the route that accepted the request and the
/// parameters extracted from the request path.
pub struct MatchedRoute {
    pub route: Route,
    pub params: Option<StringHashMap<String>>,
}

impl View for MatchedRoute {
    type V = MatchedRouteView;

    open spec fn view(&self) -> MatchedRouteView {
        MatchedRouteView {
            route: self.route@,
            params: match self.params {
                Some(params) => bindings(params),
                None => Map::empty(),
            },
        }
    }
}

/// The value of what a lookup returns.
pub open spec fn found_view(found: Option<MatchedRoute>) -> Option<MatchedRouteView> {
    match found {
        Some(matched) => Some(matched@),
        None => None,
    }
}

/// An ordered table of routes. It never changes once it exists, and none of
/// its routes holds a wildcard.
#[derive(Debug)]
pub struct Router {
    routes: Vec<Route>,
}

impl View for Router {
    type V = Seq<RouteView>;

    closed spec fn view(&self) -> Seq<RouteView> {
        views(self.routes@)
    }
}

impl Router {
    #[verifier::type_invariant]
    spec fn well_formed(self) -> bool {
        supported(views(self.routes@))
    }

    /// A table that holds `routes` in the order given.
    pub fn new(routes: Vec<Route>) -> (router: Router)
        requires
            supported(views(routes@)),
        ensures
            router@ == views(routes@),
    {
        Router { routes }
    }

    /// A builder without routes.
    pub fn builder() -> (builder: RouterBuilder)
        ensures
            builder.routes@ == Seq::<Route>::empty(),
    {
        RouterBuilder::new()
    }

    /// The routes in the order in which they are tried. None of them holds a
    /// wildcard.
    pub fn routes(&self) -> (routes: &Vec<Route>)
        ensures
            views(routes@) == self@,
            supported(self@),
    {
        proof {
            use_type_invariant(self);
        }
        &self.routes
    }

    /// Resolves a request: the first route in table order whose method is that
    /// of the request and whose pattern accepts the request path, together
    /// with the parameters that it extracts.
    pub fn route(&self, request: Request) -> (found: Option<MatchedRoute>)
        ensures
            found_view(found) == outcome(self@, request.method@, request.path@),
            found matches Some(hit) ==> hit.params is Some,
    {
        proof {
            use_type_invariant(self);
        }
        let wanted = split_segments(request.path.as_str());
        let mut at: usize = 0;
        assert(self@.skip(0) == self@);
        while at < self.routes.len()
            invariant
                at <= self.routes.len(),
                supported(self@),
                texts(wanted@) == segments(request.path@),
                outcome(self@, request.method@, request.path@) == outcome(
                    self@.skip(at as int),
                    request.method@,
                    request.path@,
                ),
            decreases self.routes.len() - at,
        {
            let route = &self.routes[at];
            proof {
                assert(self@.skip(at as int)[0] == route@);
                assert(self@.skip(at as int).drop_first() == self@.skip(at + 1));
                assert(!self@[at as int].has_wildcard());
            }
            if route.method == request.method {
                let pattern = split_segments(route.path);
                match match_segments(&pattern, &wanted) {
                    Some(params) => {
                        return Some(MatchedRoute { route: route.clone(), params: Some(params) });
                    },
                    None => {},
                }
            }
            at = at + 1;
        }
        None
    }
}

/// Reordering keeps every route, so it keeps a set of routes supported.
pub proof fn lemma_static_first_supported(routes: Seq<RouteView>)
    requires
        supported(routes),
    ensures
        supported(static_first(routes)),
{
    let fixed = routes.filter(static_route());
    let dynamic = routes.filter(dynamic_route());
    assert forall|i: int| 0 <= i < static_first(routes).len() implies !(#[trigger] static_first(
        routes,
    )[i]).has_wildcard() by {
        let route = static_first(routes)[i];
        if i < fixed.len() {
            assert(fixed.contains(fixed[i]));
            routes.lemma_filter_contains_rev(static_route(), route);
        } else {
            assert(dynamic.contains(dynamic[i - fixed.len()]));
            routes.lemma_filter_contains_rev(dynamic_route(), route);
        }
    }
}

/// First match wins: a request resolves to the first route in table order
/// that accepts it.
pub proof fn lemma_first_match_wins(
    routes: Seq<RouteView>,
    method: MethodView,
    path: Seq<char>,
    index: int,
)
    requires
        is_first_match(routes, method, path, index),
    ensures
        outcome(routes, method, path) == Some(matched_by(routes[index], path)),
    decreases routes.len(),
{
    if index > 0 {
        let rest = routes.drop_first();
        assert(!routes[0].accepts(method, path));
        assert(rest[index - 1] == routes[index]);
        assert forall|j: int| 0 <= j < index - 1 implies !(#[trigger] rest[j]).accepts(
            method,
            path,
        ) by {
            assert(rest[j] == routes[j + 1]);
        }
        lemma_first_match_wins(rest, method, path, index - 1);
    }
}

/// A request resolves to nothing exactly where no route accepts it, and
/// otherwise to the first route that does.
pub proof fn lemma_outcome(routes: Seq<RouteView>, method: MethodView, path: Seq<char>)
    ensures
        match outcome(routes, method, path) {
            Some(found) => exists|i: int| #[trigger]
                is_first_match(routes, method, path, i) && found == matched_by(routes[i], path),
            None => forall|i: int|
                0 <= i < routes.len() ==> !(#[trigger] routes[i]).accepts(method, path),
        },
    decreases routes.len(),
{
    if routes.len() > 0 {
        if routes[0].accepts(method, path) {
            assert(is_first_match(routes, method, path, 0));
        } else {
            let rest = routes.drop_first();
            lemma_outcome(rest, method, path);
            match outcome(rest, method, path) {
                Some(found) => {
                    let i = choose|i: int| #[trigger]
                        is_first_match(rest, method, path, i) && found == matched_by(rest[i], path);
                    assert(rest[i] == routes[i + 1]);
                    assert forall|j: int| 0 <= j < i + 1 implies !(#[trigger] routes[j]).accepts(
                        method,
                        path,
                    ) by {
                        if j > 0 {
                            assert(routes[j] == rest[j - 1]);
                        }
                    }
                    assert(is_first_match(routes, method, path, i + 1));
                },
                None => {
                    assert forall|i: int| 0 <= i < routes.len() implies !(
                        #[trigger] routes[i]
                    ).accepts(method, path) by {
                        if i > 0 {
                            assert(routes[i] == rest[i - 1]);
                        }
                    }
                },
            }
        }
    }
}

/// A match fits the request: the matched route declares the method of the
/// request, and its pattern has exactly as many segments as the request path,
/// each one a capture or equal to the request segment at its position.
pub proof fn lemma_match_fits(routes: Seq<RouteView>, method: MethodView, path: Seq<char>)
    requires
        outcome(routes, method, path) is Some,
    ensures
        ({
            let found = outcome(routes, method, path)->0;
            &&& routes.contains(found.route)
            &&& found.route.method == method
            &&& found.route.pattern().len() == segments(path).len()
            &&& accepts(found.route.pattern(), segments(path))
            &&& found.params == found.route.captures(path)
        }),
{
    lemma_outcome(routes, method, path);
    let found = outcome(routes, method, path)->0;
    let i = choose|i: int| #[trigger]
        is_first_match(routes, method, path, i) && found == matched_by(routes[i], path);
    assert(routes[i] == found.route);
}

/// Resolving reads a request path only through its segments: paths that
/// differ in leading, trailing or repeated separators resolve alike.
pub proof fn lemma_outcome_by_segments(
    routes: Seq<RouteView>,
    method: MethodView,
    path: Seq<char>,
    other: Seq<char>,
)
    requires
        segments(path) == segments(other),
    ensures
        outcome(routes, method, path) == outcome(routes, method, other),
    decreases routes.len(),
{
    if routes.len() > 0 {
        lemma_outcome_by_segments(routes.drop_first(), method, path, other);
    }
}

/// Resolving against one table followed by another: the first decides
/// wherever one of its routes accepts the request, and the second is asked
/// only where none does.
pub proof fn lemma_outcome_of_two(
    front: Seq<RouteView>,
    back: Seq<RouteView>,
    method: MethodView,
    path: Seq<char>,
)
    ensures
        outcome(front + back, method, path) == match outcome(front, method, path) {
            Some(hit) => Some(hit),
            None => outcome(back, method, path),
        },
    decreases front.len(),
{
    if front.len() == 0 {
        assert(front + back == back);
    } else {
        assert((front + back)[0] == front[0]);
        assert((front + back).drop_first() == front.drop_first() + back);
        lemma_outcome_of_two(front.drop_first(), back, method, path);
    }
}

/// A built table resolves a request among its static routes, in the order in
/// which they were inserted, and turns to the others, in the order in which
/// they were inserted, only where no static route accepts the request.
pub proof fn lemma_static_routes_decide(
    routes: Seq<RouteView>,
    method: MethodView,
    path: Seq<char>,
)
    ensures
        outcome(static_first(routes), method, path) == match outcome(
            routes.filter(static_route()),
            method,
            path,
        ) {
            Some(hit) => Some(hit),
            None => outcome(routes.filter(dynamic_route()), method, path),
        },
{
    lemma_outcome_of_two(
        routes.filter(static_route()),
        routes.filter(dynamic_route()),
        method,
        path,
    );
}

/// In a built table the static routes come first: no route that is not
/// static stands before a static one.
pub proof fn lemma_static_before_dynamic(routes: Seq<RouteView>, i: int, j: int)
    requires
        0 <= i < j < static_first(routes).len(),
        static_first(routes)[j].is_static(),
    ensures
        static_first(routes)[i].is_static(),
{
    let fixed = routes.filter(static_route());
    let dynamic = routes.filter(dynamic_route());
    if j < fixed.len() {
        routes.lemma_filter_pred(static_route(), i);
    } else {
        routes.lemma_filter_pred(dynamic_route(), j - fixed.len());
    }
}

/// The built table depends on the order of insertion only within the static
/// routes and within the others: two insertion orders that agree on both
/// give the same table, and so resolve every request alike.
pub proof fn lemma_insertion_order(
    routes: Seq<RouteView>,
    other: Seq<RouteView>,
    method: MethodView,
    path: Seq<char>,
)
    requires
        routes.filter(static_route()) == other.filter(static_route()),
        routes.filter(dynamic_route()) == other.filter(dynamic_route()),
    ensures
        static_first(routes) == static_first(other),
        outcome(static_first(routes), method, path) == outcome(static_first(other), method, path),
{
}

/// Inserting a route that is not static just before a static one, or just
/// after it, gives the same table.
pub proof fn lemma_neighbours_swap(
    before: Seq<RouteView>,
    fixed: RouteView,
    dynamic: RouteView,
    after: Seq<RouteView>,
)
    requires
        fixed.is_static(),
        !dynamic.is_static(),
    ensures
        static_first(before + seq![dynamic, fixed] + after) == static_first(
            before + seq![fixed, dynamic] + after,
        ),
{
    reveal_with_fuel(Seq::filter, 3);
    let one = seq![dynamic, fixed];
    let two = seq![fixed, dynamic];
    assert(one.drop_last() == seq![dynamic]);
    assert(two.drop_last() == seq![fixed]);
    assert(seq![dynamic].drop_last() == Seq::<RouteView>::empty());
    assert(seq![fixed].drop_last() == Seq::<RouteView>::empty());
    assert(one.filter(static_route()) == seq![fixed]);
    assert(two.filter(static_route()) == seq![fixed]);
    assert(one.filter(dynamic_route()) == seq![dynamic]);
    assert(two.filter(dynamic_route()) == seq![dynamic]);
    Seq::filter_distributes_over_add(before, one, static_route());
    Seq::filter_distributes_over_add(before + one, after, static_route());
    Seq::filter_distributes_over_add(before, two, static_route());
    Seq::filter_distributes_over_add(before + two, after, static_route());
    Seq::filter_distributes_over_add(before, one, dynamic_route());
    Seq::filter_distributes_over_add(before + one, after, dynamic_route());
    Seq::filter_distributes_over_add(before, two, dynamic_route());
    Seq::filter_distributes_over_add(before + two, after, dynamic_route());
}

/// Building keeps every route, as often as it was inserted.
pub proof fn lemma_static_first_keeps_routes(routes: Seq<RouteView>)
    ensures
        static_first(routes).to_multiset() == routes.to_multiset(),
        static_first(routes).len() == routes.len(),
    decreases routes.len(),
{
    reveal(Seq::filter);
    if routes.len() == 0 {
        assert(static_first(routes) == routes);
    } else {
        let rest = routes.drop_last();
        let last = routes.last();
        let fixed = rest.filter(static_route());
        let dynamic = rest.filter(dynamic_route());
        lemma_static_first_keeps_routes(rest);
        assert(rest.push(last) == routes);
        vstd::seq_lib::to_multiset_build(rest, last);
        vstd::seq_lib::lemma_multiset_commutative(fixed, dynamic);
        if last.is_static() {
            vstd::seq_lib::to_multiset_build(fixed, last);
            vstd::seq_lib::lemma_multiset_commutative(fixed.push(last), dynamic);
        } else {
            vstd::seq_lib::to_multiset_build(dynamic, last);
            vstd::seq_lib::lemma_multiset_commutative(fixed, dynamic.push(last));
        }
        assert(static_first(routes).to_multiset() =~= routes.to_multiset());
    }
}

/// Filtering by a test that every element passes changes nothing.
proof fn lemma_filter_keeps_all(routes: Seq<RouteView>, test: spec_fn(RouteView) -> bool)
    requires
        forall|i: int| 0 <= i < routes.len() ==> test(#[trigger] routes[i]),
    ensures
        routes.filter(test) == routes,
    decreases routes.len(),
{
    reveal(Seq::filter);
    if routes.len() > 0 {
        assert forall|i: int| 0 <= i < routes.drop_last().len() implies test(
            #[trigger] routes.drop_last()[i],
        ) by {
            assert(routes.drop_last()[i] == routes[i]);
        }
        lemma_filter_keeps_all(routes.drop_last(), test);
        assert(test(routes[routes.len() - 1]));
        assert(routes.drop_last().push(routes.last()) == routes);
    }
}

/// Filtering by a test that no element passes leaves nothing.
proof fn lemma_filter_drops_all(routes: Seq<RouteView>, test: spec_fn(RouteView) -> bool)
    requires
        forall|i: int| 0 <= i < routes.len() ==> !test(#[trigger] routes[i]),
    ensures
        routes.filter(test) == Seq::<RouteView>::empty(),
    decreases routes.len(),
{
    reveal(Seq::filter);
    if routes.len() > 0 {
        assert forall|i: int| 0 <= i < routes.drop_last().len() implies !test(
            #[trigger] routes.drop_last()[i],
        ) by {
            assert(routes.drop_last()[i] == routes[i]);
        }
        lemma_filter_drops_all(routes.drop_last(), test);
        assert(!test(routes[routes.len() - 1]));
    }
}

/// Building is idempotent: a table that is built again from its own routes
/// stays as it is.
pub proof fn lemma_static_first_idempotent(routes: Seq<RouteView>)
    ensures
        static_first(static_first(routes)) == static_first(routes),
{
    let fixed = routes.filter(static_route());
    let dynamic = routes.filter(dynamic_route());
    assert forall|i: int| 0 <= i < fixed.len() implies static_route()(#[trigger] fixed[i]) by {
        routes.lemma_filter_pred(static_route(), i);
    }
    assert forall|i: int| 0 <= i < dynamic.len() implies dynamic_route()(
        #[trigger] dynamic[i],
    ) by {
        routes.lemma_filter_pred(dynamic_route(), i);
    }
    lemma_filter_keeps_all(fixed, static_route());
    lemma_filter_drops_all(fixed, dynamic_route());
    lemma_filter_keeps_all(dynamic, dynamic_route());
    lemma_filter_drops_all(dynamic, static_route());
    Seq::filter_distributes_over_add(fixed, dynamic, static_route());
    Seq::filter_distributes_over_add(fixed, dynamic, dynamic_route());
    assert(fixed + Seq::<RouteView>::empty() == fixed);
    assert(Seq::<RouteView>::empty() + dynamic == dynamic);
}

/// A table without routes resolves no request.
pub proof fn lemma_empty_table(method: MethodView, path: Seq<char>)
    ensures
        static_first(Seq::<RouteView>::empty()) == Seq::<RouteView>::empty(),
        outcome(Seq::<RouteView>::empty(), method, path) is None,
{
    reveal(Seq::filter);
    assert(static_first(Seq::<RouteView>::empty()) =~= Seq::<RouteView>::empty());
}

/// A separator written twice in a request path counts once: both spellings
/// resolve alike.
pub proof fn lemma_repeated_separator_resolves_alike(
    routes: Seq<RouteView>,
    method: MethodView,
    front: Seq<char>,
    back: Seq<char>,
)
    ensures
        outcome(routes, method, front + seq!['/'] + seq!['/'] + back) == outcome(
            routes,
            method,
            front + seq!['/'] + back,
        ),
{
    lemma_repeated_separator(front, back);
    lemma_outcome_by_segments(
        routes,
        method,
        front + seq!['/'] + seq!['/'] + back,
        front + seq!['/'] + back,
    );
}

/// The static route wins: where a static route among those inserted accepts
/// a request, the built table resolves the request to a static route, one
/// with the same method and the same segments, whatever other routes would
/// accept the request too and wherever they were inserted. No parameters are
/// extracted.
pub proof fn lemma_static_route_wins(
    routes: Seq<RouteView>,
    fixed: int,
    method: MethodView,
    path: Seq<char>,
)
    requires
        0 <= fixed < routes.len(),
        routes[fixed].is_static(),
        routes[fixed].accepts(method, path),
    ensures
        ({
            let found = outcome(static_first(routes), method, path);
            &&& found matches Some(won)
            &&& won.route.is_static()
            &&& won.route.method == routes[fixed].method
            &&& won.route.pattern() == routes[fixed].pattern()
            &&& won.params == Map::<Seq<char>, Seq<char>>::empty()
        }),
{
    let table = static_first(routes);
    let first = routes.filter(static_route());
    routes.lemma_filter_contains(static_route(), fixed);
    let k = choose|k: int| 0 <= k < first.len() && first[k] == routes[fixed];
    assert(table[k] == routes[fixed]);
    lemma_outcome(table, method, path);
    let won = outcome(table, method, path)->0;
    let i = choose|i: int| #[trigger]
        is_first_match(table, method, path, i) && won == matched_by(table[i], path);
    assert(i <= k);
    routes.lemma_filter_pred(static_route(), i);
    assert(table[i] == first[i]);
    lemma_static_accepts_itself(won.route.pattern(), segments(path));
    lemma_static_accepts_itself(routes[fixed].pattern(), segments(path));
    lemma_static_captures_nothing(won.route.pattern(), segments(path));
}

} // verus!
