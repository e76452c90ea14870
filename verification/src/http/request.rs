//! Incoming requests, as far as routing reads them.

use std::collections::HashMap;
use vstd::prelude::*;

use crate::http::method::Method;

verus! {

/// A parsed request.
pub struct Request {
    pub method: Method,
    pub path: String,
    pub headers: HashMap<String, String>,
}

} // verus!
