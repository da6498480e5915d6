//! A small HTTP routing core: routes are registered as a method and a
//! pattern of literal and parameter segments, and a request is dispatched to
//! the most specific route that matches it.
pub mod path;
pub mod route;
pub mod matching;
pub mod handler;
pub mod router;

pub use path::split_path;
pub use route::{Method, Segment, PatternError, parse_pattern};
pub use matching::{pattern_accepts, shapes_equal, compare_specificity, bind_params, find_param};
pub use handler::{Handler, Response, STATUS_OK, STATUS_NOT_FOUND, STATUS_HANDLER_FAULT};
pub use router::{Route, Request, RouteMatch, Router};
