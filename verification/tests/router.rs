use std::collections::HashMap;

use snx::http::method::Method;
use snx::http::request::Request;
use snx::http::routing::route::Route;
use snx::http::routing::router::{MatchedRoute, Router, RouterBuilder};

fn request(method: Method, path: &str) -> Request {
    Request { method, path: path.to_string(), headers: HashMap::new() }
}

fn blog() -> Router {
    Router::builder()
        .add_routes(&[
            Route::get("/"),
            Route::get("/posts"),
            Route::get("/posts/:id"),
            Route::get("/posts/:id/comments"),
        ])
        .build()
}

fn param(matched: &MatchedRoute, name: &str) -> Option<String> {
    matched.params.as_ref().unwrap().get(name).cloned()
}

#[test]
fn it_correctly_sorts_static_routes_before_dynamic_routes() {
    let router = Router::builder()
        .add_routes(&[Route::get("/posts/:id"), Route::get("/posts/1")])
        .build();

    let expected = vec![Route::get("/posts/1"), Route::get("/posts/:id")];

    assert_eq!(router.routes(), &expected);
}

#[test]
fn it_correctly_matches_a_request_to_a_static_route() {
    let router = Router::builder()
        .add_routes(&[
            Route::get("/"),
            Route::get("/posts"),
            Route::get("/posts/:id"),
            Route::get("/posts/not-found"),
            Route::get("/posts/:id/comments"),
        ])
        .build();

    let matched_route = router.route(Request {
        method: Method::GET,
        path: "/posts/3".to_string(),
        headers: HashMap::new(),
    });

    assert!(matched_route.is_some());
    assert_eq!(matched_route.unwrap().route.path, "/posts/:id".to_string());
}

#[test]
fn static_route_wins_over_dynamic_route() {
    let router = Router::builder()
        .add_routes(&[Route::get("/posts/1"), Route::get("/posts/:id")])
        .build();
    let matched = router.route(request(Method::GET, "/posts/1")).unwrap();
    assert_eq!(matched.route, Route::get("/posts/1"));
    assert_eq!(matched.params.unwrap().len(), 0);
}

#[test]
fn static_route_wins_when_inserted_after_dynamic_route() {
    let router = Router::builder()
        .add_route(Route::get("/posts/:id"))
        .add_route(Route::get("/posts/1"))
        .build();
    assert_eq!(router.routes()[0], Route::get("/posts/1"));
    let matched = router.route(request(Method::GET, "/posts/1")).unwrap();
    assert_eq!(matched.route.path, "/posts/1");
    assert_eq!(matched.params.unwrap().len(), 0);
    let other = router.route(request(Method::GET, "/posts/2")).unwrap();
    assert_eq!(other.route.path, "/posts/:id");
    assert_eq!(param(&other, "id"), Some("2".to_string()));
}

#[test]
fn not_found_route_wins_in_larger_table() {
    let router = Router::builder()
        .add_routes(&[
            Route::get("/"),
            Route::get("/posts"),
            Route::get("/posts/:id"),
            Route::get("/posts/not-found"),
            Route::get("/posts/:id/comments"),
        ])
        .build();
    let expected = vec![
        Route::get("/"),
        Route::get("/posts"),
        Route::get("/posts/not-found"),
        Route::get("/posts/:id"),
        Route::get("/posts/:id/comments"),
    ];
    assert_eq!(router.routes(), &expected);
    let matched = router.route(request(Method::GET, "/posts/not-found")).unwrap();
    assert_eq!(matched.route.path, "/posts/not-found");
}

#[test]
fn build_keeps_insertion_order_within_each_group() {
    let router = Router::builder()
        .add_routes(&[
            Route::get("/:a"),
            Route::get("/z"),
            Route::post("/:b/x"),
            Route::post("/y"),
            Route::get("/:c"),
            Route::get("/x"),
        ])
        .build();
    let expected = vec![
        Route::get("/z"),
        Route::post("/y"),
        Route::get("/x"),
        Route::get("/:a"),
        Route::post("/:b/x"),
        Route::get("/:c"),
    ];
    assert_eq!(router.routes(), &expected);
}

#[test]
fn round_trip_extracts_the_id() {
    let matched = blog().route(request(Method::GET, "/posts/3")).unwrap();
    assert_eq!(matched.route, Route::get("/posts/:id"));
    assert_eq!(param(&matched, "id"), Some("3".to_string()));
    assert_eq!(matched.params.unwrap().len(), 1);
}

#[test]
fn comments_route_extracts_the_id() {
    let matched = blog().route(request(Method::GET, "/posts/3/comments")).unwrap();
    assert_eq!(matched.route, Route::get("/posts/:id/comments"));
    assert_eq!(param(&matched, "id"), Some("3".to_string()));
    assert_eq!(matched.params.unwrap().len(), 1);
}

#[test]
fn unknown_path_has_no_match() {
    assert!(blog().route(request(Method::GET, "/unknown")).is_none());
}

#[test]
fn root_path_matches_root_route() {
    let router = blog();
    let matched = router.route(request(Method::GET, "/")).unwrap();
    assert_eq!(matched.route, Route::get("/"));
    assert_eq!(matched.params.unwrap().len(), 0);
    let empty = router.route(request(Method::GET, "")).unwrap();
    assert_eq!(empty.route, Route::get("/"));
}

#[test]
fn table_can_be_asked_repeatedly() {
    let router = blog();
    assert!(router.route(request(Method::GET, "/posts")).is_some());
    assert!(router.route(request(Method::GET, "/posts")).is_some());
    assert!(router.route(request(Method::GET, "/nothing/here")).is_none());
    assert_eq!(router.routes().len(), 4);
}

#[test]
fn repeated_separators_are_ignored() {
    let router = Router::builder().add_route(Route::get("/posts/:id")).build();
    let doubled = router.route(request(Method::GET, "/posts//3")).unwrap();
    assert_eq!(param(&doubled, "id"), Some("3".to_string()));
    assert_eq!(doubled.params.unwrap().len(), 1);
    let plain = router.route(request(Method::GET, "/posts/3")).unwrap();
    assert_eq!(param(&plain, "id"), Some("3".to_string()));
    assert_eq!(plain.params.unwrap().len(), 1);
    let trailing = router.route(request(Method::GET, "posts/3/")).unwrap();
    assert_eq!(param(&trailing, "id"), Some("3".to_string()));
}

#[test]
fn separators_in_a_pattern_are_ignored_too() {
    let router = Router::builder().add_route(Route::get("//posts///:id/")).build();
    let matched = router.route(request(Method::GET, "/posts/3")).unwrap();
    assert_eq!(matched.route.path, "//posts///:id/");
    assert_eq!(param(&matched, "id"), Some("3".to_string()));
}

#[test]
fn pattern_with_more_or_fewer_segments_does_not_match() {
    let router = Router::builder().add_route(Route::get("/posts/:id/comments")).build();
    assert!(router.route(request(Method::GET, "/posts/3")).is_none());
    assert!(router.route(request(Method::GET, "/posts/3/comments/extra")).is_none());
    assert!(router.route(request(Method::GET, "/posts/3/comments")).is_some());
}

#[test]
fn post_route_does_not_match_get_request() {
    let router = Router::builder().add_route(Route::post("/posts")).build();
    assert!(router.route(request(Method::GET, "/posts")).is_none());
    let matched = router.route(request(Method::POST, "/posts")).unwrap();
    assert_eq!(matched.route, Route::post("/posts"));
}

#[test]
fn method_selects_among_routes_with_one_path() {
    let router = Router::builder()
        .add_routes(&[Route::get("/posts/:id"), Route::post("/posts/:id")])
        .build();
    let matched = router.route(request(Method::POST, "/posts/9")).unwrap();
    assert_eq!(matched.route.method, Method::POST);
    assert_eq!(param(&matched, "id"), Some("9".to_string()));
    assert!(router.route(request(Method::PUT, "/posts/9")).is_none());
}

#[test]
fn non_standard_method_is_compared_by_its_verb() {
    let purge = Route { method: Method::NON_STANDARD("PURGE".to_string()), path: "/cache" };
    let router = Router::builder().add_route(purge.clone()).build();
    let matched =
        router.route(request(Method::NON_STANDARD("PURGE".to_string()), "/cache")).unwrap();
    assert_eq!(matched.route, purge);
    assert!(router.route(request(Method::NON_STANDARD("purge".to_string()), "/cache")).is_none());
    assert!(router.route(request(Method::NON_STANDARD("LINK".to_string()), "/cache")).is_none());
    assert!(router.route(request(Method::GET, "/cache")).is_none());
}

#[test]
fn non_standard_get_is_not_get() {
    let router = Router::builder().add_route(Route::get("/")).build();
    assert!(router.route(request(Method::NON_STANDARD("GET".to_string()), "/")).is_none());
}

#[test]
fn literal_segments_are_case_sensitive() {
    let router = Router::builder().add_route(Route::get("/posts")).build();
    assert!(router.route(request(Method::GET, "/Posts")).is_none());
    assert!(router.route(request(Method::GET, "/post")).is_none());
    assert!(router.route(request(Method::GET, "/postss")).is_none());
}

#[test]
fn parameters_of_a_rejected_route_do_not_leak() {
    let router = Router::builder()
        .add_routes(&[Route::get("/:kind/fixed"), Route::get("/:id/:page")])
        .build();
    let matched = router.route(request(Method::GET, "/7/2")).unwrap();
    assert_eq!(matched.route.path, "/:id/:page");
    assert_eq!(param(&matched, "id"), Some("7".to_string()));
    assert_eq!(param(&matched, "page"), Some("2".to_string()));
    assert_eq!(param(&matched, "kind"), None);
    assert_eq!(matched.params.unwrap().len(), 2);
}

#[test]
fn later_capture_of_a_name_wins() {
    let router = Router::builder().add_route(Route::get("/:a/:a")).build();
    let matched = router.route(request(Method::GET, "/1/2")).unwrap();
    assert_eq!(param(&matched, "a"), Some("2".to_string()));
    assert_eq!(matched.params.unwrap().len(), 1);
}

#[test]
fn capture_with_empty_name_is_accepted() {
    let router = Router::builder().add_route(Route::get("/:")).build();
    let matched = router.route(request(Method::GET, "/x")).unwrap();
    assert_eq!(param(&matched, ""), Some("x".to_string()));
}

#[test]
fn first_of_two_dynamic_routes_wins() {
    let router = Router::builder()
        .add_routes(&[Route::get("/:first"), Route::get("/:second")])
        .build();
    let matched = router.route(request(Method::GET, "/v")).unwrap();
    assert_eq!(matched.route.path, "/:first");
    assert_eq!(param(&matched, "first"), Some("v".to_string()));
    assert_eq!(param(&matched, "second"), None);
}

#[test]
fn empty_builder_builds_empty_table() {
    let router = Router::builder().build();
    assert_eq!(router.routes().len(), 0);
    assert!(router.route(request(Method::GET, "/")).is_none());
    assert!(router.route(request(Method::GET, "")).is_none());
}

#[test]
fn builder_starts_empty() {
    assert_eq!(RouterBuilder::new().routes.len(), 0);
    assert_eq!(RouterBuilder::default().routes.len(), 0);
    assert_eq!(Router::builder().routes.len(), 0);
}

#[test]
fn add_route_appends() {
    let route = Route::get("/");
    let builder = Router::builder().add_route(route.clone());
    assert_eq!(builder.routes[0], route);
    let builder = builder.add_route(Route::post("/next"));
    assert_eq!(builder.routes, vec![Route::get("/"), Route::post("/next")]);
}

#[test]
fn add_routes_appends_in_order() {
    let routes = [Route::get("/"), Route::get("/posts")];
    let builder = Router::builder().add_routes(&routes);
    assert_eq!(builder.routes, routes);
    let builder = builder.add_routes(&[Route::get("/:id"), Route::get("/")]);
    assert_eq!(
        builder.routes,
        vec![Route::get("/"), Route::get("/posts"), Route::get("/:id"), Route::get("/")]
    );
    let builder = builder.add_routes(&[]);
    assert_eq!(builder.routes.len(), 4);
}

#[test]
fn duplicates_are_kept() {
    let router = Router::builder()
        .add_routes(&[Route::get("/a"), Route::get("/a")])
        .build();
    assert_eq!(router.routes().len(), 2);
}

#[test]
fn new_keeps_the_order_given() {
    let router = Router::new(vec![Route::get("/posts/:id"), Route::get("/posts/1")]);
    assert_eq!(router.routes(), &vec![Route::get("/posts/:id"), Route::get("/posts/1")]);
    let matched = router.route(request(Method::GET, "/posts/1")).unwrap();
    assert_eq!(matched.route.path, "/posts/:id");
    assert_eq!(param(&matched, "id"), Some("1".to_string()));
}

#[test]
fn wildcard_routes_are_not_supported() {
    let builder = Router::builder().add_routes(&[Route::get("/files"), Route::get("/files/*")]);
    assert!(!builder.is_supported());
    assert!(builder.try_build().is_none());
    let middle = Router::builder().add_route(Route::get("/a/*/b"));
    assert!(!middle.is_supported());
    assert!(middle.try_build().is_none());
}

#[test]
fn try_build_builds_the_same_table() {
    let builder = Router::builder().add_routes(&[Route::get("/posts/:id"), Route::get("/posts/1")]);
    assert!(builder.is_supported());
    let router = builder.try_build().unwrap();
    assert_eq!(router.routes(), &vec![Route::get("/posts/1"), Route::get("/posts/:id")]);
    assert!(Router::builder().is_supported());
    assert!(Router::builder().try_build().is_some());
}

#[test]
fn star_inside_a_segment_is_a_literal() {
    let builder = Router::builder().add_route(Route::get("/files/*.txt"));
    assert!(builder.is_supported());
    let router = builder.build();
    assert!(router.route(request(Method::GET, "/files/*.txt")).is_some());
    assert!(router.route(request(Method::GET, "/files/a.txt")).is_none());
}

#[test]
fn colon_inside_a_segment_is_a_literal() {
    let router = Router::builder()
        .add_routes(&[Route::get("/:id"), Route::get("/a:b")])
        .build();
    assert_eq!(router.routes(), &vec![Route::get("/a:b"), Route::get("/:id")]);
    let matched = router.route(request(Method::GET, "/a:b")).unwrap();
    assert_eq!(matched.route.path, "/a:b");
    assert_eq!(matched.params.unwrap().len(), 0);
}

#[test]
fn captured_value_keeps_its_characters() {
    let router = Router::builder().add_route(Route::get("/tags/:tag")).build();
    let matched = router.route(request(Method::GET, "/tags/caf\u{e9}-\u{1f600}:x*")).unwrap();
    assert_eq!(param(&matched, "tag"), Some("caf\u{e9}-\u{1f600}:x*".to_string()));
}
