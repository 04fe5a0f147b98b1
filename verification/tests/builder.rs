use fs_router::builder::find_value;
use fs_router::{build_path, match_route, NavigateError, ParamKind, ParamSpec, RouteKind, RouteSpec};

fn param(name: &str, kind: ParamKind) -> ParamSpec {
    ParamSpec { name: name.to_string(), kind }
}

fn pattern(path: &str, params: Vec<ParamSpec>) -> RouteSpec {
    RouteSpec { id: 0, path: path.to_string(), kind: RouteKind::Static, params, source: String::new() }
}

fn pairs(items: &[(&str, &str)]) -> Vec<(String, String)> {
    items.iter().map(|(k, v)| (k.to_string(), v.to_string())).collect()
}

#[test]
fn find_value_takes_the_first_pair_with_the_name() {
    let values = [("a", "1"), ("b", "2"), ("a", "3")];
    assert_eq!(find_value(&values, "a"), Some("1"));
    assert_eq!(find_value(&values, "b"), Some("2"));
    assert_eq!(find_value(&values, "c"), None);
    assert_eq!(find_value(&[], "a"), None);
}

#[test]
fn builds_static_path() {
    assert_eq!(build_path(&pattern("/blog/post", vec![]), &[]).unwrap(), "/blog/post");
    assert_eq!(build_path(&pattern("blog//post/", vec![]), &[]).unwrap(), "/blog/post");
}

#[test]
fn builds_root_path() {
    assert_eq!(build_path(&pattern("/", vec![]), &[]).unwrap(), "/");
    assert_eq!(build_path(&pattern("", vec![]), &[("unused", "x")]).unwrap(), "/");
}

#[test]
fn builds_with_several_parameters() {
    let route = pattern(
        "/shop/:category/:item_id",
        vec![param("category", ParamKind::Single), param("item_id", ParamKind::Single)],
    );
    let path = build_path(&route, &[("item_id", "42"), ("category", "books")]).unwrap();
    assert_eq!(path, "/shop/books/42");
}

#[test]
fn reports_the_first_missing_parameter() {
    let route = pattern(
        "/shop/:category/:item_id",
        vec![param("category", ParamKind::Single), param("item_id", ParamKind::Single)],
    );
    assert_eq!(
        build_path(&route, &[]).unwrap_err(),
        NavigateError::MissingParam { name: "category".to_string() }
    );
    assert_eq!(
        build_path(&route, &[("category", "books")]).unwrap_err(),
        NavigateError::MissingParam { name: "item_id".to_string() }
    );
}

#[test]
fn missing_catch_all_value_is_reported() {
    let route = pattern("/docs/:slug/*", vec![param("slug", ParamKind::CatchAll)]);
    assert_eq!(
        build_path(&route, &[]).unwrap_err(),
        NavigateError::MissingParam { name: "slug".to_string() }
    );
}

#[test]
fn catch_all_value_is_trimmed() {
    let route = pattern("/docs/:slug/*", vec![param("slug", ParamKind::CatchAll)]);
    assert_eq!(build_path(&route, &[("slug", "/guide/intro/")]).unwrap(), "/docs/guide/intro");
    assert_eq!(build_path(&route, &[("slug", "guide")]).unwrap(), "/docs/guide");
}

#[test]
fn empty_catch_all_value_adds_nothing() {
    let route = pattern("/docs/:slug/*", vec![param("slug", ParamKind::CatchAll)]);
    assert_eq!(build_path(&route, &[("slug", "")]).unwrap(), "/docs");
    assert_eq!(build_path(&route, &[("slug", "///")]).unwrap(), "/docs");
    let only = pattern("/:slug/*", vec![param("slug", ParamKind::CatchAll)]);
    assert_eq!(build_path(&only, &[("slug", "/")]).unwrap(), "/");
}

#[test]
fn wildcard_cannot_be_built() {
    assert_eq!(
        build_path(&pattern("/assets/*", vec![]), &[]).unwrap_err(),
        NavigateError::UnsupportedWildcard
    );
    assert_eq!(
        build_path(&pattern("//*", vec![]), &[]).unwrap_err(),
        NavigateError::UnsupportedWildcard
    );
}

#[test]
fn first_failure_from_the_left_wins() {
    let route = pattern("/*/:id", vec![param("id", ParamKind::Single)]);
    assert_eq!(build_path(&route, &[]).unwrap_err(), NavigateError::UnsupportedWildcard);
    let route = pattern("/:id/*", vec![param("id", ParamKind::Single)]);
    assert_eq!(
        build_path(&route, &[]).unwrap_err(),
        NavigateError::MissingParam { name: "id".to_string() }
    );
}

#[test]
fn navigate_error_clone_is_equal() {
    let errors = [
        NavigateError::RouteIdNotFound(3),
        NavigateError::MissingParam { name: "id".to_string() },
        NavigateError::UnsupportedWildcard,
    ];
    for error in errors.iter() {
        assert_eq!(&error.clone(), error);
    }
}

#[test]
fn built_path_matches_with_the_values_supplied() {
    let route = pattern(
        "/shop/:category/files/:filepath/*/by/:author",
        vec![
            param("category", ParamKind::Single),
            param("filepath", ParamKind::CatchAll),
            param("author", ParamKind::Single),
        ],
    );
    let values = [("author", "ann"), ("filepath", "a/by/b"), ("category", "books")];
    let path = build_path(&route, &values).unwrap();
    assert_eq!(path, "/shop/books/files/a/by/b/by/ann");
    let matched = match_route(&route, &path).unwrap();
    assert_eq!(
        matched.params,
        pairs(&[("category", "books"), ("filepath", "a/by/b"), ("author", "ann")])
    );
}

#[test]
fn built_path_of_single_catch_all_matches() {
    let route = pattern("/:rest/*", vec![param("rest", ParamKind::CatchAll)]);
    let path = build_path(&route, &[("rest", "x/y/z")]).unwrap();
    assert_eq!(path, "/x/y/z");
    assert_eq!(match_route(&route, &path).unwrap().params, pairs(&[("rest", "x/y/z")]));
}

#[test]
fn built_root_path_does_not_match_root_pattern() {
    let route = pattern("/", vec![]);
    let path = build_path(&route, &[]).unwrap();
    assert_eq!(path, "/");
    assert!(match_route(&route, &path).is_none());
}
