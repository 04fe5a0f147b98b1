use fs_router::pattern::{declares_catch_all, score_spec, score_tokens, tokenize_pattern, Token};
use fs_router::{ParamKind, ParamSpec, RouteKind, RouteSpec};

fn param(name: &str, kind: ParamKind) -> ParamSpec {
    ParamSpec { name: name.to_string(), kind }
}

fn pattern(path: &str, params: Vec<ParamSpec>) -> RouteSpec {
    RouteSpec { id: 0, path: path.to_string(), kind: RouteKind::Static, params, source: String::new() }
}

#[test]
fn tokenizes_static_segments() {
    assert_eq!(
        tokenize_pattern("/blog/post", &[]),
        vec![Token::Static("blog".to_string()), Token::Static("post".to_string())]
    );
}

#[test]
fn tokenizes_tolerating_extra_slashes() {
    assert_eq!(
        tokenize_pattern("//blog///post/", &[]),
        vec![Token::Static("blog".to_string()), Token::Static("post".to_string())]
    );
}

#[test]
fn tokenizes_empty_pattern_as_root_segment() {
    assert_eq!(tokenize_pattern("/", &[]), vec![Token::Static("/".to_string())]);
    assert_eq!(tokenize_pattern("", &[]), vec![Token::Static("/".to_string())]);
}

#[test]
fn tokenizes_single_parameter() {
    assert_eq!(
        tokenize_pattern("/users/:id", &[param("id", ParamKind::Single)]),
        vec![Token::Static("users".to_string()), Token::ParamSingle("id".to_string())]
    );
}

#[test]
fn tokenizes_undeclared_parameter_as_single() {
    assert_eq!(tokenize_pattern("/:id", &[]), vec![Token::ParamSingle("id".to_string())]);
    assert_eq!(tokenize_pattern("/:", &[]), vec![Token::ParamSingle(String::new())]);
}

#[test]
fn tokenizes_catch_all_with_its_star() {
    assert_eq!(
        tokenize_pattern("/files/:filepath/*/info", &[param("filepath", ParamKind::CatchAll)]),
        vec![
            Token::Static("files".to_string()),
            Token::ParamCatchAll("filepath".to_string()),
            Token::Static("info".to_string()),
        ]
    );
}

#[test]
fn catch_all_needs_declaration_and_star() {
    // declared as catch-all, but no star follows
    assert_eq!(
        tokenize_pattern("/:slug/more", &[param("slug", ParamKind::CatchAll)]),
        vec![Token::ParamSingle("slug".to_string()), Token::Static("more".to_string())]
    );
    assert_eq!(
        tokenize_pattern("/:slug", &[param("slug", ParamKind::CatchAll)]),
        vec![Token::ParamSingle("slug".to_string())]
    );
    // a star follows, but the parameter is declared single
    assert_eq!(
        tokenize_pattern("/:slug/*", &[param("slug", ParamKind::Single)]),
        vec![Token::ParamSingle("slug".to_string()), Token::Wildcard]
    );
    // a star follows, but another name is declared
    assert_eq!(
        tokenize_pattern("/:slug/*", &[param("other", ParamKind::CatchAll)]),
        vec![Token::ParamSingle("slug".to_string()), Token::Wildcard]
    );
}

#[test]
fn tokenizes_wildcards() {
    assert_eq!(tokenize_pattern("//*", &[]), vec![Token::Wildcard]);
    assert_eq!(
        tokenize_pattern("/a/*/b/*", &[]),
        vec![
            Token::Static("a".to_string()),
            Token::Wildcard,
            Token::Static("b".to_string()),
            Token::Wildcard,
        ]
    );
}

#[test]
fn declares_catch_all_looks_at_name_and_kind() {
    let params = vec![param("id", ParamKind::Single), param("slug", ParamKind::CatchAll)];
    assert!(declares_catch_all(&params, "slug"));
    assert!(!declares_catch_all(&params, "id"));
    assert!(!declares_catch_all(&params, "other"));
    assert!(!declares_catch_all(&[], "slug"));
}

#[test]
fn score_adds_weights_and_token_count() {
    assert_eq!(score_tokens(&vec![]), 0);
    assert_eq!(score_tokens(&vec![Token::Wildcard]), 1);
    assert_eq!(score_tokens(&vec![Token::ParamCatchAll("a".to_string())]), 2);
    assert_eq!(score_tokens(&vec![Token::ParamSingle("a".to_string())]), 11);
    assert_eq!(score_tokens(&vec![Token::Static("a".to_string())]), 101);
    assert_eq!(
        score_tokens(&vec![
            Token::Static("a".to_string()),
            Token::ParamSingle("b".to_string()),
            Token::ParamCatchAll("c".to_string()),
            Token::Wildcard,
        ]),
        115
    );
}

#[test]
fn score_of_routes() {
    assert_eq!(score_spec(&pattern("/blog/post", vec![])), 202);
    assert_eq!(score_spec(&pattern("/users/:id", vec![param("id", ParamKind::Single)])), 112);
    assert_eq!(score_spec(&pattern("/docs/:slug/*", vec![param("slug", ParamKind::CatchAll)])), 103);
    assert_eq!(score_spec(&pattern("//*", vec![])), 1);
    assert_eq!(score_spec(&pattern("/", vec![])), 101);
}

#[test]
fn static_outranks_single_outranks_catch_all_outranks_wildcard() {
    let fixed = score_spec(&pattern("/a", vec![]));
    let single = score_spec(&pattern("/:a", vec![param("a", ParamKind::Single)]));
    let catch_all = score_spec(&pattern("/:a/*", vec![param("a", ParamKind::CatchAll)]));
    let wildcard = score_spec(&pattern("/*", vec![]));
    assert!(fixed > single);
    assert!(single > catch_all);
    assert!(catch_all > wildcard);
}

#[test]
fn compiled_route_has_the_tokens_of_its_pieces() {
    let spec = fs_router::parse_file_path("pages/shop/[category]/[...rest]/view.rs", None).unwrap();
    assert_eq!(
        tokenize_pattern(&spec.path, &spec.params),
        vec![
            Token::Static("shop".to_string()),
            Token::ParamSingle("category".to_string()),
            Token::ParamCatchAll("rest".to_string()),
            Token::Static("view".to_string()),
        ]
    );
}

#[test]
fn compiled_fallback_is_a_lone_wildcard() {
    let spec = fs_router::parse_file_path("pages/404.rs", None).unwrap();
    assert_eq!(tokenize_pattern(&spec.path, &spec.params), vec![Token::Wildcard]);
}

#[test]
fn declared_parameters_show_in_the_pattern() {
    let spec = fs_router::parse_file_path("pages/[a]/[...b]/[c].rs", None).unwrap();
    let segments = fs_router::text::path_segments(&spec.path);
    assert_eq!(segments, vec![":a", ":b", "*", ":c"]);
}
