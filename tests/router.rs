use kato_router::{
    bind_params, compare_specificity, find_param, parse_pattern, pattern_accepts, shapes_equal,
    split_path, Handler, Method, PatternError, Request, Response, Route, Router, Segment,
    STATUS_HANDLER_FAULT, STATUS_NOT_FOUND, STATUS_OK,
};

fn text(s: &str) -> Handler {
    Handler::Text(s.to_string())
}

fn get(router: &Router, path: &str) -> Response {
    router.dispatch(&Request::new(Method::Get, path))
}

fn lit(s: &str) -> Segment {
    Segment::Literal(s.to_string())
}

fn param(s: &str) -> Segment {
    Segment::Param(s.to_string())
}

fn site() -> Router {
    let mut r = Router::new();
    r.register(Method::Get, "/", text("Hello, World!")).unwrap();
    r.register(Method::Get, "/_n/{name}", Handler::Greet("name".to_string())).unwrap();
    r
}

#[test]
fn root_answers_hello_world() {
    let r = get(&site(), "/");
    assert_eq!(r.status, STATUS_OK);
    assert_eq!(r.body, "Hello, World!");
}

#[test]
fn greeting_binds_name_parameter() {
    let router = site();
    let req = Request::new(Method::Get, "/_n/Alice");
    let m = router.find(&req).unwrap();
    assert_eq!(m.route, 1);
    assert_eq!(m.params, vec![("name".to_string(), "Alice".to_string())]);
    let r = router.dispatch(&req);
    assert_eq!(r.status, STATUS_OK);
    assert_eq!(r.body, "Hello, Alice!");
}

#[test]
fn literal_route_receives_its_request() {
    let mut router = Router::new();
    router.register(Method::Get, "/a/{x}", text("param")).unwrap();
    router.register(Method::Get, "/status/live", text("live")).unwrap();
    router.register(Method::Get, "/{p}/live", text("other")).unwrap();
    let r = get(&router, "/status/live");
    assert_eq!(r.status, STATUS_OK);
    assert_eq!(r.body, "live");
}

#[test]
fn unregistered_path_is_not_found() {
    let router = site();
    let r = get(&router, "/missing");
    assert_eq!(r.status, STATUS_NOT_FOUND);
    assert_eq!(r.body, "");
    assert!(router.find(&Request::new(Method::Get, "/missing")).is_none());
}

#[test]
fn unregistered_method_is_not_found() {
    let router = site();
    let r = router.dispatch(&Request::new(Method::Post, "/"));
    assert_eq!(r.status, STATUS_NOT_FOUND);
    assert_eq!(r.body, "");
}

#[test]
fn segment_count_must_agree() {
    let router = site();
    assert_eq!(get(&router, "/_n/Alice/extra").status, STATUS_NOT_FOUND);
    assert_eq!(get(&router, "/_n").status, STATUS_NOT_FOUND);
}

#[test]
fn parameter_rejects_empty_segment() {
    let router = site();
    assert_eq!(get(&router, "/_n/").status, STATUS_NOT_FOUND);
}

#[test]
fn literal_beats_parameter() {
    let mut router = Router::new();
    router.register(Method::Get, "/a/b", text("literal")).unwrap();
    router.register(Method::Get, "/a/{x}", text("param")).unwrap();
    assert_eq!(get(&router, "/a/b").body, "literal");
    assert_eq!(get(&router, "/a/c").body, "param");
}

#[test]
fn literal_beats_parameter_registered_later() {
    let mut router = Router::new();
    router.register(Method::Get, "/a/{x}", text("param")).unwrap();
    router.register(Method::Get, "/a/b", text("literal")).unwrap();
    assert_eq!(get(&router, "/a/b").body, "literal");
    assert_eq!(get(&router, "/a/c").body, "param");
}

#[test]
fn earliest_difference_decides() {
    let mut router = Router::new();
    router.register(Method::Get, "/{a}/b", text("late literal")).unwrap();
    router.register(Method::Get, "/a/{b}", text("early literal")).unwrap();
    assert_eq!(get(&router, "/a/b").body, "early literal");
    assert_eq!(get(&router, "/z/b").body, "late literal");
}

#[test]
fn dispatch_twice_gives_identical_responses() {
    let router = site();
    let req = Request::new(Method::Get, "/_n/Bob");
    let first = router.dispatch(&req);
    let second = router.dispatch(&req);
    assert_eq!(first.status, second.status);
    assert_eq!(first.body, second.body);
    assert_eq!(first.body, "Hello, Bob!");
}

#[test]
fn registration_order_does_not_matter() {
    let mut one = Router::new();
    one.register(Method::Get, "/", text("root")).unwrap();
    one.register(Method::Get, "/users/{id}", text("user")).unwrap();
    one.register(Method::Post, "/users", text("create")).unwrap();
    one.register(Method::Get, "/users/me", text("me")).unwrap();
    let mut two = Router::new();
    two.register(Method::Get, "/users/me", text("me")).unwrap();
    two.register(Method::Post, "/users", text("create")).unwrap();
    two.register(Method::Get, "/users/{id}", text("user")).unwrap();
    two.register(Method::Get, "/", text("root")).unwrap();
    let requests = [
        (Method::Get, "/"),
        (Method::Get, "/users/7"),
        (Method::Get, "/users/me"),
        (Method::Post, "/users"),
        (Method::Get, "/users"),
        (Method::Delete, "/users/7"),
    ];
    for (m, p) in requests {
        let a = one.dispatch(&Request::new(m, p));
        let b = two.dispatch(&Request::new(m, p));
        assert_eq!(a.status, b.status);
        assert_eq!(a.body, b.body);
    }
    assert_eq!(get(&one, "/users/7").body, "user");
    assert_eq!(get(&two, "/users/me").body, "me");
}

#[test]
fn later_registration_shadows_identical_shape() {
    let mut router = Router::new();
    router.register(Method::Get, "/x", text("first")).unwrap();
    router.register(Method::Get, "/u/{a}", text("a")).unwrap();
    router.register(Method::Get, "/x", text("second")).unwrap();
    router.register(Method::Get, "/u/{b}", text("b")).unwrap();
    assert_eq!(router.len(), 2);
    assert_eq!(get(&router, "/x").body, "second");
    assert_eq!(get(&router, "/u/1").body, "b");
    router.register(Method::Post, "/x", text("post")).unwrap();
    assert_eq!(router.len(), 3);
    assert_eq!(get(&router, "/x").body, "second");
}

#[test]
fn greet_without_parameter_faults() {
    let mut router = Router::new();
    router.register(Method::Get, "/g/{x}", Handler::Greet("name".to_string())).unwrap();
    let r = get(&router, "/g/Alice");
    assert_eq!(r.status, STATUS_HANDLER_FAULT);
    assert_eq!(r.body, "");
}

#[test]
fn malformed_patterns_are_refused() {
    let mut router = site();
    assert_eq!(router.register(Method::Get, "", text("x")), Err(PatternError::Empty));
    assert_eq!(router.register(Method::Get, "abc", text("x")), Err(PatternError::NoLeadingSlash));
    assert_eq!(router.register(Method::Get, "/a/{}", text("x")), Err(PatternError::EmptyParamName));
    assert_eq!(router.len(), 2);
}

#[test]
fn patterns_parse_into_segments() {
    assert!(parse_pattern("/").unwrap().is_empty());
    let segs = parse_pattern("/_n/{name}").unwrap();
    assert_eq!(segs.len(), 2);
    assert!(matches!(&segs[0], Segment::Literal(l) if l == "_n"));
    assert!(matches!(&segs[1], Segment::Param(p) if p == "name"));
    let segs = parse_pattern("/a/{id}/b").unwrap();
    assert_eq!(segs.len(), 3);
    assert!(matches!(&segs[0], Segment::Literal(l) if l == "a"));
    assert!(matches!(&segs[1], Segment::Param(p) if p == "id"));
    assert!(matches!(&segs[2], Segment::Literal(l) if l == "b"));
}

#[test]
fn unbalanced_braces_are_refused() {
    let mut router = site();
    for pattern in ["/{", "/{id", "/x}", "/a{b}c", "/{a{b}", "/{a}}", "/ok/{x}/{"] {
        assert_eq!(
            router.register(Method::Get, pattern, text("x")),
            Err(PatternError::MalformedParam),
            "{}",
            pattern
        );
        assert_eq!(parse_pattern(pattern).err(), Some(PatternError::MalformedParam));
    }
    assert_eq!(router.len(), 2);
    assert_eq!(get(&router, "/{").status, STATUS_NOT_FOUND);
    assert_eq!(get(&router, "/").body, "Hello, World!");
}

#[test]
fn first_bad_piece_decides_the_error() {
    assert_eq!(parse_pattern("/{}/{").err(), Some(PatternError::EmptyParamName));
    assert_eq!(parse_pattern("/{/{}").err(), Some(PatternError::MalformedParam));
}

#[test]
fn paths_split_at_slashes() {
    assert!(split_path("").is_empty());
    assert!(split_path("/").is_empty());
    assert_eq!(split_path("/a/b"), vec!["a".to_string(), "b".to_string()]);
    assert_eq!(split_path("a/b"), vec!["a".to_string(), "b".to_string()]);
    assert_eq!(
        split_path("/a//b/"),
        vec!["a".to_string(), "".to_string(), "b".to_string(), "".to_string()]
    );
    assert_eq!(split_path("/héllo/wörld"), vec!["héllo".to_string(), "wörld".to_string()]);
}

#[test]
fn pattern_acceptance_and_shapes() {
    let pat = vec![lit("a"), param("x")];
    let path = split_path("/a/b");
    assert!(pattern_accepts(&pat, &path));
    assert!(!pattern_accepts(&pat, &split_path("/b/b")));
    assert!(!pattern_accepts(&pat, &split_path("/a")));
    assert!(shapes_equal(&pat, &vec![lit("a"), param("y")]));
    assert!(!shapes_equal(&pat, &vec![lit("b"), param("x")]));
    assert!(!shapes_equal(&pat, &vec![param("a"), param("x")]));
}

#[test]
fn specificity_comparison() {
    let a = vec![lit("a"), param("x")];
    let b = vec![param("y"), lit("b")];
    assert_eq!(compare_specificity(&a, &b), Some(true));
    assert_eq!(compare_specificity(&b, &a), Some(false));
    assert_eq!(compare_specificity(&a, &vec![lit("z"), param("w")]), None);
}

#[test]
fn parameters_bind_in_pattern_order() {
    let pat = vec![param("first"), lit("and"), param("second")];
    let path = split_path("/x/and/y");
    let params = bind_params(&pat, &path);
    assert_eq!(
        params,
        vec![("first".to_string(), "x".to_string()), ("second".to_string(), "y".to_string())]
    );
    assert_eq!(find_param(&params, &"second".to_string()), Some("y".to_string()));
    assert_eq!(find_param(&params, &"third".to_string()), None);
}

#[test]
fn routes_added_by_value() {
    let mut router = Router::new();
    router.add_route(Route {
        method: Method::Put,
        pattern: vec![lit("items"), param("id")],
        handler: Handler::Greet("id".to_string()),
    });
    let r = router.dispatch(&Request::new(Method::Put, "/items/42"));
    assert_eq!(r.status, STATUS_OK);
    assert_eq!(r.body, "Hello, 42!");
    assert_eq!(router.routes().len(), 1);
}

#[test]
fn not_found_response_is_empty() {
    let r = Response::not_found();
    assert_eq!(r.status, 404);
    assert_eq!(r.body, "");
}
