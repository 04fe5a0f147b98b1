use fs_router::{
    build_path, match_route, NavigateError, ParamKind, ParamSpec, RouteKind, RouteSpec, RouteTable,
};

fn spec(path: &str, kind: RouteKind, params: Vec<ParamSpec>) -> RouteSpec {
    RouteSpec {
        id: 0,
        path: path.to_string(),
        kind,
        params,
        source: "src".to_string(),
    }
}

fn spec_with_id(id: u64, path: &str, kind: RouteKind, params: Vec<ParamSpec>) -> RouteSpec {
    RouteSpec {
        id,
        path: path.to_string(),
        kind,
        params,
        source: "src".to_string(),
    }
}

#[test]
fn matches_static() {
    let spec = spec("/blog/post", RouteKind::Static, vec![]);
    let matched = match_route(&spec, "/blog/post").unwrap();
    assert_eq!(matched.spec.path, "/blog/post");
    assert!(matched.params.is_empty());
}

#[test]
fn matches_dynamic_single() {
    let spec = spec(
        "/users/:id",
        RouteKind::Static,
        vec![ParamSpec {
            name: "id".to_string(),
            kind: ParamKind::Single,
        }],
    );

    let matched = match_route(&spec, "/users/123").unwrap();
    assert_eq!(matched.params, vec![("id".to_string(), "123".to_string())]);
}

#[test]
fn matches_dynamic_catchall_with_suffix() {
    let spec = spec(
        "/files/:filepath/*/info",
        RouteKind::Static,
        vec![ParamSpec {
            name: "filepath".to_string(),
            kind: ParamKind::CatchAll,
        }],
    );

    let matched = match_route(&spec, "/files/a/b/c/info").unwrap();
    assert_eq!(
        matched.params,
        vec![("filepath".to_string(), "a/b/c".to_string())]
    );
}

#[test]
fn does_not_match_when_segment_mismatch() {
    let spec = spec("/blog/post", RouteKind::Static, vec![]);
    assert!(match_route(&spec, "/blog/other").is_none());
}

#[test]
fn route_table_stores_fallback_separately() {
    let mut table: RouteTable<i32> = RouteTable::new();
    table
        .insert(spec("//*", RouteKind::Fallback, vec![]), 42)
        .unwrap();
    assert_eq!(table.fallback, Some(42));
    assert!(table.routes.is_empty());
}

#[test]
fn navigate_by_id_builds_path() {
    let route_id = 123;
    let spec = spec_with_id(
        route_id,
        "/users/:id",
        RouteKind::Static,
        vec![ParamSpec {
            name: "id".to_string(),
            kind: ParamKind::Single,
        }],
    );

    let matched = match_route(&spec, "/users/42").unwrap();
    assert_eq!(matched.params, vec![("id".to_string(), "42".to_string())]);

    let err = build_path(&spec, &[]).unwrap_err();
    assert_eq!(
        err,
        NavigateError::MissingParam {
            name: "id".to_string()
        }
    );

    let path = build_path(&spec, &[("id", "99")]).unwrap();
    assert_eq!(path, "/users/99");
}
