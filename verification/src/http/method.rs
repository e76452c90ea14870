//! HTTP request methods.

use vstd::prelude::*;
use vstd::std_specs::cmp::PartialEqSpecImpl;

verus! {

/// An HTTP request method: one of the standard verbs, or any other verb
/// carried as text.
#[derive(Debug, Eq)]
pub enum Method {
    GET,
    HEAD,
    POST,
    PUT,
    DELETE,
    CONNECT,
    OPTIONS,
    TRACE,
    PATCH,
    #[allow(non_camel_case_types)]
    NON_STANDARD(String),
}

/// The mathematical value of a [`Method`]: the verb of a non-standard method
/// is the sequence of its characters.
pub enum MethodView {
    Get,
    Head,
    Post,
    Put,
    Delete,
    Connect,
    Options,
    Trace,
    Patch,
    NonStandard(Seq<char>),
}

impl View for Method {
    type V = MethodView;

    open spec fn view(&self) -> MethodView {
        match self {
            Method::GET => MethodView::Get,
            Method::HEAD => MethodView::Head,
            Method::POST => MethodView::Post,
            Method::PUT => MethodView::Put,
            Method::DELETE => MethodView::Delete,
            Method::CONNECT => MethodView::Connect,
            Method::OPTIONS => MethodView::Options,
            Method::TRACE => MethodView::Trace,
            Method::PATCH => MethodView::Patch,
            Method::NON_STANDARD(verb) => MethodView::NonStandard(verb@),
        }
    }
}

impl MethodView {
    /// The verb as it is written on the request line.
    pub open spec fn verb(self) -> Seq<char> {
        match self {
            MethodView::Get => "GET"@,
            MethodView::Head => "HEAD"@,
            MethodView::Post => "POST"@,
            MethodView::Put => "PUT"@,
            MethodView::Delete => "DELETE"@,
            MethodView::Connect => "CONNECT"@,
            MethodView::Options => "OPTIONS"@,
            MethodView::Trace => "TRACE"@,
            MethodView::Patch => "PATCH"@,
            MethodView::NonStandard(verb) => verb,
        }
    }
}

impl Method {
    /// The verb of this method as text.
    pub fn to_string(&self) -> (text: String)
        ensures
            text@ == self@.verb(),
    {
        match self {
            Method::GET => "GET".to_owned(),
            Method::HEAD => "HEAD".to_owned(),
            Method::POST => "POST".to_owned(),
            Method::PUT => "PUT".to_owned(),
            Method::DELETE => "DELETE".to_owned(),
            Method::CONNECT => "CONNECT".to_owned(),
            Method::OPTIONS => "OPTIONS".to_owned(),
            Method::TRACE => "TRACE".to_owned(),
            Method::PATCH => "PATCH".to_owned(),
            Method::NON_STANDARD(verb) => verb.clone(),
        }
    }
}

impl Clone for Method {
    fn clone(&self) -> (copy: Self)
        ensures
            copy == *self,
    {
        match self {
            Method::GET => Method::GET,
            Method::HEAD => Method::HEAD,
            Method::POST => Method::POST,
            Method::PUT => Method::PUT,
            Method::DELETE => Method::DELETE,
            Method::CONNECT => Method::CONNECT,
            Method::OPTIONS => Method::OPTIONS,
            Method::TRACE => Method::TRACE,
            Method::PATCH => Method::PATCH,
            Method::NON_STANDARD(verb) => Method::NON_STANDARD(verb.clone()),
        }
    }
}

impl PartialEq for Method {
    fn eq(&self, other: &Method) -> (same: bool) {
        match (self, other) {
            (Method::GET, Method::GET) => true,
            (Method::HEAD, Method::HEAD) => true,
            (Method::POST, Method::POST) => true,
            (Method::PUT, Method::PUT) => true,
            (Method::DELETE, Method::DELETE) => true,
            (Method::CONNECT, Method::CONNECT) => true,
            (Method::OPTIONS, Method::OPTIONS) => true,
            (Method::TRACE, Method::TRACE) => true,
            (Method::PATCH, Method::PATCH) => true,
            (Method::NON_STANDARD(a), Method::NON_STANDARD(b)) => *a == *b,
            _ => false,
        }
    }
}

impl PartialEqSpecImpl for Method {
    open spec fn obeys_eq_spec() -> bool {
        true
    }

    open spec fn eq_spec(&self, other: &Method) -> bool {
        self@ == other@
    }
}

} // verus!
