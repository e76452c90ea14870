//! HTTP vocabulary: methods, requests and routing.

pub mod method;
pub mod request;
pub mod routing;
