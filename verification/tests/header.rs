use fs_router::header::{debug_header, decimal_text, digit_text, kind_text, params_text};
use fs_router::{match_route, ParamKind, ParamSpec, RouteKind, RouteMatch, RouteSpec, RouteTable};

fn route(path: &str, kind: RouteKind, params: Vec<ParamSpec>) -> RouteSpec {
    RouteSpec { id: 1, path: path.to_string(), kind, params, source: "pages/x.rs".to_string() }
}

#[test]
fn decimal_text_writes_numbers() {
    assert_eq!(decimal_text(0), "0");
    assert_eq!(decimal_text(7), "7");
    assert_eq!(decimal_text(10), "10");
    assert_eq!(decimal_text(1234567890), "1234567890");
    assert_eq!(decimal_text(usize::MAX), usize::MAX.to_string());
    for d in 0..10 {
        assert_eq!(digit_text(d), d.to_string());
    }
}

#[test]
fn kind_text_names_each_kind() {
    for kind in [RouteKind::Static, RouteKind::Dynamic, RouteKind::CatchAll, RouteKind::Fallback] {
        assert_eq!(kind_text(kind), format!("{:?}", kind));
    }
}

#[test]
fn params_text_joins_bindings() {
    let spec = route("/a", RouteKind::Static, vec![]);
    let none = RouteMatch { spec: spec.clone(), params: vec![] };
    assert_eq!(params_text(&none), "");
    let one = RouteMatch { spec: spec.clone(), params: vec![("id".to_string(), "7".to_string())] };
    assert_eq!(params_text(&one), "id=7");
    let two = RouteMatch {
        spec,
        params: vec![("a".to_string(), "1".to_string()), ("b".to_string(), "x/y".to_string())],
    };
    assert_eq!(params_text(&two), "a=1, b=x/y");
    assert_eq!(two.clone().params, two.params);
}

#[test]
fn header_without_a_match() {
    let table: RouteTable<u8> = RouteTable::new();
    assert_eq!(
        debug_header("/nowhere", None, &table),
        vec![
            "route: /nowhere",
            "matched: (none)  kind: (none)",
            "params: (none)",
            "source: (none)",
            "routes: 0  fallback: no",
        ]
    );
}

#[test]
fn header_with_a_match() {
    let mut table = RouteTable::new();
    let spec = route(
        "/shop/:category/:rest/*",
        RouteKind::Static,
        vec![
            ParamSpec { name: "category".to_string(), kind: ParamKind::Single },
            ParamSpec { name: "rest".to_string(), kind: ParamKind::CatchAll },
        ],
    );
    table.insert(spec.clone(), 1).unwrap();
    table.insert(route("/about", RouteKind::Static, vec![]), 2).unwrap();
    table.insert(route("//*", RouteKind::Fallback, vec![]), 3).unwrap();
    let matched = match_route(&spec, "/shop/books/a/b").unwrap();
    assert_eq!(
        debug_header("/shop/books/a/b", Some(&matched), &table),
        vec![
            "route: /shop/books/a/b",
            "matched: /shop/:category/:rest/*  kind: Static",
            "params: category=books, rest=a/b",
            "source: pages/x.rs",
            "routes: 2  fallback: yes",
        ]
    );
}

#[test]
fn header_with_a_match_without_parameters() {
    let mut table = RouteTable::new();
    let spec = route("/about", RouteKind::Dynamic, vec![]);
    table.insert(spec.clone(), 1).unwrap();
    let matched = match_route(&spec, "/about").unwrap();
    let lines = debug_header("/about", Some(&matched), &table);
    assert_eq!(lines[1], "matched: /about  kind: Dynamic");
    assert_eq!(lines[2], "params: (none)");
    assert_eq!(lines[4], "routes: 1  fallback: no");
}
