//! Route declarations, path patterns and the route table.

pub mod path;
pub mod pattern;
pub mod route;
pub mod router;
