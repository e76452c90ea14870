//! A minimal HTTP request router.
//!
//! Routes are declared as a method and a path pattern whose segments are
//! either literals or named captures (`:name`). A [`http::routing::router::RouterBuilder`]
//! collects routes and orders them so that static patterns are tried before
//! dynamic ones; the resulting [`http::routing::router::Router`] resolves a
//! request to the first route that accepts it and extracts the captured
//! parameters.

pub mod config;
pub mod http;
