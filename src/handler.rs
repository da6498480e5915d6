//! Handlers and the responses they produce.
use vstd::prelude::*;
use vstd::string::*;
use crate::matching::{binding_views, lookup, find_param};

verus! {

/// Status of a successful response.
pub const STATUS_OK: u16 = 200;

/// Status of a request that no route matches.
pub const STATUS_NOT_FOUND: u16 = 404;

/// Status of a handler that could not complete.
pub const STATUS_HANDLER_FAULT: u16 = 500;

/// A response: a status code and a body.
#[derive(Debug)]
pub struct Response {
    pub status: u16,
    pub body: String,
}

impl View for Response {
    type V = (u16, Seq<char>);

    open spec fn view(&self) -> (u16, Seq<char>) {
        (self.status, self.body@)
    }
}

/// What a route does with a matched request.
#[derive(Debug)]
pub enum Handler {
    /// Answers with a fixed body.
    Text(String),
    /// Greets the value bound to the named parameter: `Hello, <value>!`.
    /// Where the route binds no such parameter the handler faults.
    Greet(String),
}

/// The greeting for `name`.
pub open spec fn greeting(name: Seq<char>) -> Seq<char> {
    "Hello, "@ + name + "!"@
}

/// The response that `h` gives for the bound parameters `params`.
pub open spec fn handler_response(h: Handler, params: Seq<(Seq<char>, Seq<char>)>) -> (
    u16,
    Seq<char>,
) {
    match h {
        Handler::Text(body) => (STATUS_OK, body@),
        Handler::Greet(param) => match lookup(params, param@) {
            Some(v) => (STATUS_OK, greeting(v)),
            None => (STATUS_HANDLER_FAULT, Seq::empty()),
        },
    }
}

impl Response {
    /// The response for a request that no route matches.
    pub fn not_found() -> (r: Response)
        ensures
            r@ == (STATUS_NOT_FOUND, Seq::<char>::empty()),
    {
        Response { status: STATUS_NOT_FOUND, body: String::new() }
    }
}

impl Handler {
    /// Runs the handler on the bound parameters of a match.
    pub fn respond(&self, params: &Vec<(String, String)>) -> (r: Response)
        ensures
            r@ == handler_response(*self, binding_views(params@)),
    {
        match self {
            Handler::Text(body) => Response { status: STATUS_OK, body: body.clone() },
            Handler::Greet(param) => match find_param(params, param) {
                Some(v) => {
                    let mut body = String::from_str("Hello, ");
                    body.append(v.as_str());
                    body.append("!");
                    Response { status: STATUS_OK, body }
                },
                None => Response { status: STATUS_HANDLER_FAULT, body: String::new() },
            },
        }
    }
}

} // verus!
