use fs_router::matcher::match_tokens;
use fs_router::pattern::Token;
use fs_router::{match_route, ParamKind, ParamSpec, RouteKind, RouteSpec};

fn param(name: &str, kind: ParamKind) -> ParamSpec {
    ParamSpec { name: name.to_string(), kind }
}

fn pattern(path: &str, params: Vec<ParamSpec>) -> RouteSpec {
    RouteSpec { id: 7, path: path.to_string(), kind: RouteKind::Static, params, source: "s".to_string() }
}

fn pairs(items: &[(&str, &str)]) -> Vec<(String, String)> {
    items.iter().map(|(k, v)| (k.to_string(), v.to_string())).collect()
}

fn strings(items: &[&str]) -> Vec<String> {
    items.iter().map(|s| s.to_string()).collect()
}

#[test]
fn match_keeps_a_copy_of_the_route() {
    let route = pattern("/users/:id", vec![param("id", ParamKind::Single)]);
    let matched = match_route(&route, "/users/7").unwrap();
    assert_eq!(matched.spec, route);
}

#[test]
fn match_needs_exact_length() {
    let route = pattern("/blog/post", vec![]);
    assert!(match_route(&route, "/blog").is_none());
    assert!(match_route(&route, "/blog/post/more").is_none());
    assert!(match_route(&route, "").is_none());
}

#[test]
fn match_tolerates_extra_slashes_in_path() {
    let route = pattern("/blog/post", vec![]);
    assert!(match_route(&route, "blog/post").is_some());
    assert!(match_route(&route, "//blog///post/").is_some());
}

#[test]
fn single_parameter_needs_a_segment() {
    let route = pattern("/users/:id", vec![param("id", ParamKind::Single)]);
    assert!(match_route(&route, "/users").is_none());
    assert!(match_route(&route, "/users/").is_none());
    assert!(match_route(&route, "/users/1/2").is_none());
}

#[test]
fn bindings_come_in_pattern_order() {
    let route = pattern(
        "/shop/:category/:item_id",
        vec![param("category", ParamKind::Single), param("item_id", ParamKind::Single)],
    );
    let matched = match_route(&route, "/shop/books/42").unwrap();
    assert_eq!(matched.params, pairs(&[("category", "books"), ("item_id", "42")]));
}

#[test]
fn catch_all_takes_the_whole_tail() {
    let route = pattern("/docs/:slug/*", vec![param("slug", ParamKind::CatchAll)]);
    let matched = match_route(&route, "/docs/guide/intro/first").unwrap();
    assert_eq!(matched.params, pairs(&[("slug", "guide/intro/first")]));
    let matched = match_route(&route, "/docs/guide").unwrap();
    assert_eq!(matched.params, pairs(&[("slug", "guide")]));
}

#[test]
fn catch_all_needs_at_least_one_segment() {
    let route = pattern("/docs/:slug/*", vec![param("slug", ParamKind::CatchAll)]);
    assert!(match_route(&route, "/docs").is_none());
    let inner = pattern("/files/:filepath/*/info", vec![param("filepath", ParamKind::CatchAll)]);
    assert!(match_route(&inner, "/files/info").is_none());
}

#[test]
fn catch_all_prefers_the_longest_capture() {
    let route = pattern("/files/:filepath/*/info", vec![param("filepath", ParamKind::CatchAll)]);
    let matched = match_route(&route, "/files/a/info/b/info").unwrap();
    assert_eq!(matched.params, pairs(&[("filepath", "a/info/b")]));
}

#[test]
fn two_catch_alls_first_takes_most() {
    let route = pattern(
        "/:a/*/:b/*",
        vec![param("a", ParamKind::CatchAll), param("b", ParamKind::CatchAll)],
    );
    let matched = match_route(&route, "/x/y/z").unwrap();
    assert_eq!(matched.params, pairs(&[("a", "x/y"), ("b", "z")]));
}

#[test]
fn failed_attempts_leave_no_bindings() {
    let route = pattern(
        "/:a/*/:b/end",
        vec![param("a", ParamKind::CatchAll), param("b", ParamKind::Single)],
    );
    let matched = match_route(&route, "/1/2/3/end").unwrap();
    assert_eq!(matched.params, pairs(&[("a", "1/2"), ("b", "3")]));
    assert!(match_route(&route, "/1/2/3/stop").is_none());
}

#[test]
fn last_wildcard_takes_anything() {
    let route = pattern("/assets/*", vec![]);
    assert!(match_route(&route, "/assets").unwrap().params.is_empty());
    assert!(match_route(&route, "/assets/a/b/c").unwrap().params.is_empty());
    assert!(match_route(&route, "/other/a").is_none());
    let fallback = pattern("//*", vec![]);
    assert!(match_route(&fallback, "/").is_some());
    assert!(match_route(&fallback, "/any/thing").is_some());
}

#[test]
fn inner_wildcard_takes_zero_or_more() {
    let route = pattern("/a/*/z", vec![]);
    assert!(match_route(&route, "/a/z").is_some());
    assert!(match_route(&route, "/a/b/z").is_some());
    assert!(match_route(&route, "/a/b/c/z").is_some());
    assert!(match_route(&route, "/a/b/c").is_none());
    assert!(match_route(&route, "/a").is_none());
}

#[test]
fn inner_wildcard_takes_as_little_as_it_can() {
    let route = pattern("/*/:rest/*", vec![param("rest", ParamKind::CatchAll)]);
    let matched = match_route(&route, "/a/b/c").unwrap();
    assert_eq!(matched.params, pairs(&[("rest", "a/b/c")]));
}

#[test]
fn root_pattern_matches_no_path() {
    let route = pattern("/", vec![]);
    assert!(match_route(&route, "/").is_none());
    assert!(match_route(&route, "").is_none());
    assert!(match_route(&route, "/index").is_none());
}

#[test]
fn match_tokens_appends_on_success_and_restores_on_failure() {
    let tokens = vec![
        Token::Static("files".to_string()),
        Token::ParamCatchAll("filepath".to_string()),
        Token::Static("info".to_string()),
    ];
    let segments = strings(&["files", "a", "b", "c", "info"]);
    let mut bound = pairs(&[("kept", "1")]);
    assert!(match_tokens(&tokens, &segments, 0, 0, &mut bound));
    assert_eq!(bound, pairs(&[("kept", "1"), ("filepath", "a/b/c")]));

    let other = strings(&["files", "a", "b", "c", "data"]);
    let mut bound = pairs(&[("kept", "1")]);
    assert!(!match_tokens(&tokens, &other, 0, 0, &mut bound));
    assert_eq!(bound, pairs(&[("kept", "1")]));
}

#[test]
fn match_tokens_starts_where_it_is_told() {
    let tokens = vec![Token::Static("a".to_string()), Token::ParamSingle("x".to_string())];
    let segments = strings(&["skip", "a", "b"]);
    let mut bound = Vec::new();
    assert!(match_tokens(&tokens, &segments, 0, 1, &mut bound));
    assert_eq!(bound, pairs(&[("x", "b")]));
    let mut bound = Vec::new();
    assert!(match_tokens(&tokens, &segments, 1, 2, &mut bound));
    assert_eq!(bound, pairs(&[("x", "b")]));
    let mut bound = Vec::new();
    assert!(match_tokens(&tokens, &segments, 2, 3, &mut bound));
    assert!(bound.is_empty());
    assert!(!match_tokens(&tokens, &segments, 2, 2, &mut bound));
}
