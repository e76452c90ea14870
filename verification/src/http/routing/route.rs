//! Route declarations.

use vstd::prelude::*;
use vstd::std_specs::cmp::PartialEqSpecImpl;

use crate::http::method::{Method, MethodView};
use crate::http::routing::path::{same_text, segments, split_segments};
use crate::http::routing::pattern::{
    accepts, captures, has_wildcard, is_static, pattern_has_wildcard, pattern_is_static,
};

verus! {

/// One addressable endpoint: a method and a path pattern.
///
/// The pattern is taken as it is written; nothing about it is checked when the
/// route is declared.
#[derive(Debug, Eq)]
pub struct Route {
    pub method: Method,
    pub path: &'static str,
}

/// The mathematical value of a [`Route`].
pub struct RouteView {
    pub method: MethodView,
    pub path: Seq<char>,
}

impl View for Route {
    type V = RouteView;

    open spec fn view(&self) -> RouteView {
        RouteView { method: self.method@, path: self.path@ }
    }
}

/// The values of a sequence of routes.
pub open spec fn views(routes: Seq<Route>) -> Seq<RouteView> {
    routes.map_values(|route: Route| route@)
}

impl RouteView {
    /// The segments of the path pattern.
    pub open spec fn pattern(self) -> Seq<Seq<char>> {
        segments(self.path)
    }

    /// A static route: no segment of its pattern captures or is a wildcard.
    pub open spec fn is_static(self) -> bool {
        is_static(self.pattern())
    }

    /// Whether the pattern holds a wildcard segment.
    pub open spec fn has_wildcard(self) -> bool {
        has_wildcard(self.pattern())
    }

    /// Whether this route accepts a request: the methods are equal and the
    /// pattern accepts the segments of the request path.
    pub open spec fn accepts(self, method: MethodView, path: Seq<char>) -> bool {
        self.method == method && accepts(self.pattern(), segments(path))
    }

    /// The parameters that this route extracts from a request path.
    pub open spec fn captures(self, path: Seq<char>) -> Map<Seq<char>, Seq<char>> {
        captures(self.pattern(), segments(path))
    }
}

impl Route {
    /// Declares a `GET` route.
    pub fn get(path: &'static str) -> (route: Route)
        ensures
            route.method == Method::GET,
            route.path == path,
    {
        Route { method: Method::GET, path }
    }

    /// Declares a `POST` route.
    pub fn post(path: &'static str) -> (route: Route)
        ensures
            route.method == Method::POST,
            route.path == path,
    {
        Route { method: Method::POST, path }
    }

    /// Whether no segment of the pattern captures or is a wildcard.
    pub fn is_static(&self) -> (fixed: bool)
        ensures
            fixed == self@.is_static(),
    {
        let pattern = split_segments(self.path);
        pattern_is_static(&pattern)
    }

    /// Whether the pattern holds a wildcard segment.
    pub fn has_wildcard(&self) -> (found: bool)
        ensures
            found == self@.has_wildcard(),
    {
        let pattern = split_segments(self.path);
        pattern_has_wildcard(&pattern)
    }
}

impl Clone for Route {
    fn clone(&self) -> (copy: Self)
        ensures
            copy == *self,
    {
        Route { method: self.method.clone(), path: self.path }
    }
}

impl PartialEq for Route {
    fn eq(&self, other: &Route) -> (same: bool) {
        self.method == other.method && same_text(self.path, other.path)
    }
}

impl PartialEqSpecImpl for Route {
    open spec fn obeys_eq_spec() -> bool {
        true
    }

    open spec fn eq_spec(&self, other: &Route) -> bool {
        self@ == other@
    }
}

} // verus!
