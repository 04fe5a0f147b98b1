use vstd::prelude::*;
use crate::matcher::{MatchModel, RouteMatch};
use crate::route::RouteKind;
use crate::table::RouteTable;
use crate::text::texts;

verus! {

/// What stands in the header where there is nothing to show.
pub open spec fn nothing() -> Seq<char> {
    "(none)"@
}

/// The decimal digit for `d`; for ten and more, which have none, that for nine.
pub open spec fn digit(d: nat) -> Seq<char> {
    if d == 0 {
        "0"@
    } else if d == 1 {
        "1"@
    } else if d == 2 {
        "2"@
    } else if d == 3 {
        "3"@
    } else if d == 4 {
        "4"@
    } else if d == 5 {
        "5"@
    } else if d == 6 {
        "6"@
    } else if d == 7 {
        "7"@
    } else if d == 8 {
        "8"@
    } else {
        "9"@
    }
}

/// `n` in decimal digits, without leading zeros.
pub open spec fn decimal(n: nat) -> Seq<char>
    decreases n,
{
    if n < 10 {
        digit(n)
    } else {
        decimal(n / 10) + digit(n % 10)
    }
}

/// The name of a kind of route.
pub open spec fn kind_name(kind: RouteKind) -> Seq<char> {
    match kind {
        RouteKind::Static => "Static"@,
        RouteKind::Dynamic => "Dynamic"@,
        RouteKind::CatchAll => "CatchAll"@,
        RouteKind::Fallback => "Fallback"@,
    }
}

/// The bindings as `name=value`, with a comma and a space between neighbours.
pub open spec fn bindings_text(bindings: Seq<(Seq<char>, Seq<char>)>) -> Seq<char>
    decreases bindings.len(),
{
    if bindings.len() == 0 {
        Seq::empty()
    } else if bindings.len() == 1 {
        bindings[0].0 + "="@ + bindings[0].1
    } else {
        bindings_text(bindings.drop_last()) + ", "@ + bindings.last().0 + "="@ + bindings.last().1
    }
}

/// The five lines of the debug header: the current route, the pattern and
/// kind of the route that matched it, the values of its parameters, its source
/// file, and the size of the table.
pub open spec fn header_model(
    current_route: Seq<char>,
    matched: Option<MatchModel>,
    routes: nat,
    has_fallback: bool,
) -> Seq<Seq<char>> {
    seq![
        "route: "@ + current_route,
        "matched: "@ + match matched {
            Some(m) => m.spec.path,
            None => nothing(),
        } + "  kind: "@ + match matched {
            Some(m) => kind_name(m.spec.kind),
            None => nothing(),
        },
        "params: "@ + match matched {
            Some(m) => if m.params.len() == 0 {
                nothing()
            } else {
                bindings_text(m.params)
            },
            None => nothing(),
        },
        "source: "@ + match matched {
            Some(m) => m.spec.source,
            None => nothing(),
        },
        "routes: "@ + decimal(routes) + "  fallback: "@ + if has_fallback {
            "yes"@
        } else {
            "no"@
        },
    ]
}

/// The decimal digit for `d`.
pub fn digit_text(d: usize) -> (text: &'static str)
    ensures
        text@ == digit(d as nat),
{
    if d == 0 {
        "0"
    } else if d == 1 {
        "1"
    } else if d == 2 {
        "2"
    } else if d == 3 {
        "3"
    } else if d == 4 {
        "4"
    } else if d == 5 {
        "5"
    } else if d == 6 {
        "6"
    } else if d == 7 {
        "7"
    } else if d == 8 {
        "8"
    } else {
        "9"
    }
}

/// `n` in decimal digits.
pub fn decimal_text(n: usize) -> (text: String)
    ensures
        text@ == decimal(n as nat),
    decreases n,
{
    if n < 10 {
        String::from_str(digit_text(n))
    } else {
        let mut text = decimal_text(n / 10);
        text.append(digit_text(n % 10));
        text
    }
}

/// The name of a kind of route.
pub fn kind_text(kind: RouteKind) -> (text: &'static str)
    ensures
        text@ == kind_name(kind),
{
    match kind {
        RouteKind::Static => "Static",
        RouteKind::Dynamic => "Dynamic",
        RouteKind::CatchAll => "CatchAll",
        RouteKind::Fallback => "Fallback",
    }
}

/// The bindings of a match as `name=value`, separated by commas.
pub fn params_text(matched: &RouteMatch) -> (text: String)
    ensures
        text@ == bindings_text(matched@.params),
{
    let ghost all = matched@.params;
    let mut text = String::new();
    let mut i: usize = 0;
    assert(all.take(0) =~= Seq::<(Seq<char>, Seq<char>)>::empty());
    while i < matched.params.len()
        invariant
            i <= matched.params@.len(),
            all == matched@.params,
            text@ == bindings_text(all.take(i as int)),
        decreases matched.params@.len() - i,
    {
        let ghost before = text@;
        assert(all.take(i + 1).drop_last() =~= all.take(i as int));
        assert(all.take(i + 1).last() == all[i as int]);
        assert(all[i as int] == (matched.params@[i as int].0@, matched.params@[i as int].1@));
        if i > 0 {
            text.append(", ");
        } else {
            assert(before + matched.params@[i as int].0@ =~= matched.params@[i as int].0@);
        }
        text.append(matched.params[i].0.as_str());
        text.append("=");
        text.append(matched.params[i].1.as_str());
        i += 1;
    }
    assert(all.take(all.len() as int) =~= all);
    text
}

/// The lines of the debug header for a router that shows `current_route`,
/// which resolved to `matched`, in `table`.
pub fn debug_header<T>(current_route: &str, matched: Option<&RouteMatch>, table: &RouteTable<T>) -> (lines:
    Vec<String>)
    ensures
        texts(lines@) == header_model(
            current_route@,
            match matched {
                Some(m) => Some(m@),
                None => None,
            },
            table.routes@.len(),
            table.fallback is Some,
        ),
{
    let mut route_line = String::from_str("route: ");
    route_line.append(current_route);

    let mut matched_line = String::from_str("matched: ");
    let mut params_line = String::from_str("params: ");
    let mut source_line = String::from_str("source: ");
    match matched {
        Some(m) => {
            matched_line.append(m.spec.path.as_str());
            matched_line.append("  kind: ");
            matched_line.append(kind_text(m.spec.kind));
            if m.params.len() == 0 {
                params_line.append("(none)");
            } else {
                let bound = params_text(m);
                params_line.append(bound.as_str());
            }
            source_line.append(m.spec.source.as_str());
        },
        None => {
            matched_line.append("(none)");
            matched_line.append("  kind: ");
            matched_line.append("(none)");
            params_line.append("(none)");
            source_line.append("(none)");
        },
    }

    let mut table_line = String::from_str("routes: ");
    let count = decimal_text(table.routes.len());
    table_line.append(count.as_str());
    table_line.append("  fallback: ");
    table_line.append(if table.fallback.is_some() {
        "yes"
    } else {
        "no"
    });

    let mut lines: Vec<String> = Vec::new();
    lines.push(route_line);
    lines.push(matched_line);
    lines.push(params_line);
    lines.push(source_line);
    lines.push(table_line);
    assert(texts(lines@) =~= header_model(
        current_route@,
        match matched {
            Some(m) => Some(m@),
            None => None,
        },
        table.routes@.len(),
        table.fallback is Some,
    ));
    lines
}

} // verus!
