use vstd::prelude::*;
use crate::errors::{RouteError, RouteErrorModel};
use crate::route::{param_models, ParamKind, ParamModel, ParamSpec, RouteKind, RouteModel, RouteSpec};
use crate::text::{
    enclosed, same_text, split, split_text, strip_enclosing, strip_prefix, strip_suffix, texts,
    without_prefix, without_suffix,
};

verus! {

/// What a piece of a source path means for the route.
pub ghost enum SegmentForm {
    /// An empty piece, which adds nothing.
    Skipped,
    /// `index` as the only piece: the root route.
    Root,
    /// `[...name]`: a catch-all parameter.
    CatchAll(Seq<char>),
    /// `[name]`: a single parameter.
    Dynamic(Seq<char>),
    /// `404`: the fallback page.
    NotFound,
    /// Any other piece, taken literally.
    Static(Seq<char>),
}

/// The form of one piece of a source path; `sole` says that it is the only piece.
pub open spec fn form_of(piece: Seq<char>, sole: bool) -> SegmentForm {
    if piece.len() == 0 {
        SegmentForm::Skipped
    } else if sole && piece == "index"@ {
        SegmentForm::Root
    } else if enclosed(piece, "[..."@, "]"@) is Some {
        SegmentForm::CatchAll(enclosed(piece, "[..."@, "]"@)->0)
    } else if enclosed(piece, "["@, "]"@) is Some {
        SegmentForm::Dynamic(enclosed(piece, "["@, "]"@)->0)
    } else if piece == "404"@ {
        SegmentForm::NotFound
    } else {
        SegmentForm::Static(piece)
    }
}

/// The text that a piece of this form adds to the pattern.
pub open spec fn form_text(form: SegmentForm) -> Seq<char> {
    match form {
        SegmentForm::Skipped => Seq::empty(),
        SegmentForm::Root => "/"@,
        SegmentForm::CatchAll(name) => "/"@ + ":"@ + name + "/*"@,
        SegmentForm::Dynamic(name) => "/"@ + ":"@ + name,
        SegmentForm::NotFound => "/"@ + "/*"@,
        SegmentForm::Static(text) => "/"@ + text,
    }
}

/// The parameter that a piece of this form declares, if any.
pub open spec fn form_param(form: SegmentForm) -> Option<ParamModel> {
    match form {
        SegmentForm::CatchAll(name) => Some(ParamModel { name, kind: ParamKind::CatchAll }),
        SegmentForm::Dynamic(name) => Some(ParamModel { name, kind: ParamKind::Single }),
        _ => None,
    }
}

/// The pattern text that the pieces of a source path add up to.
pub open spec fn pattern_text(pieces: Seq<Seq<char>>, sole: bool) -> Seq<char>
    decreases pieces.len(),
{
    if pieces.len() == 0 {
        Seq::empty()
    } else {
        pattern_text(pieces.drop_last(), sole) + form_text(form_of(pieces.last(), sole))
    }
}

/// The parameters that the pieces of a source path declare, in their order.
pub open spec fn declared_params(pieces: Seq<Seq<char>>, sole: bool) -> Seq<ParamModel>
    decreases pieces.len(),
{
    if pieces.len() == 0 {
        Seq::empty()
    } else {
        match form_param(form_of(pieces.last(), sole)) {
            Some(param) => declared_params(pieces.drop_last(), sole).push(param),
            None => declared_params(pieces.drop_last(), sole),
        }
    }
}

/// Whether one of the pieces names the fallback page.
pub open spec fn names_fallback(pieces: Seq<Seq<char>>, sole: bool) -> bool {
    exists|i: int| 0 <= i < pieces.len() && form_of(#[trigger] pieces[i], sole) is NotFound
}

/// The sum of the codes of the characters of `s`.
pub open spec fn code_sum(s: Seq<char>) -> nat
    decreases s.len(),
{
    if s.len() == 0 {
        0
    } else {
        code_sum(s.drop_last()) + s.last() as nat
    }
}

/// The identifier of a route: the sum of the character codes of its source
/// path without directory and extension, as far as it fits into 64 bits.
pub open spec fn route_id(inner: Seq<char>) -> u64 {
    (code_sum(inner) % 0x1_0000_0000_0000_0000) as u64
}

/// The page directory that is meant when none is given.
pub open spec fn default_page_dir() -> Seq<char> {
    "pages"@
}

/// The rest of a source path after the page directory and a slash, if it lies
/// in that directory.
pub open spec fn under_dir(path: Seq<char>, dir: Seq<char>) -> Option<Seq<char>> {
    without_prefix(path, dir + "/"@)
}

/// A source path without the page directory in front and the extension
/// behind, if it has both.
pub open spec fn inner_path(path: Seq<char>, dir: Seq<char>) -> Option<Seq<char>> {
    match under_dir(path, dir) {
        Some(rest) => without_suffix(rest, ".rs"@),
        None => None,
    }
}

/// The route that a source path stands for, if it is a source file under the
/// page directory.
pub open spec fn compiled(path: Seq<char>, dir: Seq<char>) -> Option<RouteModel> {
    match inner_path(path, dir) {
        Some(inner) => {
            let pieces = split(inner);
            let sole = pieces.len() == 1;
            let text = pattern_text(pieces, sole);
            Some(
                RouteModel {
                    id: route_id(inner),
                    path: if text.len() == 0 {
                        "/"@
                    } else {
                        text
                    },
                    kind: if names_fallback(pieces, sole) {
                        RouteKind::Fallback
                    } else {
                        RouteKind::Static
                    },
                    params: declared_params(pieces, sole),
                    source: path,
                },
            )
        },
        None => None,
    }
}

/// What the error says of a source path that cannot be compiled.
pub open spec fn refusal(path: Seq<char>, dir: Seq<char>) -> Seq<char> {
    if under_dir(path, dir) is None {
        "invalid path : "@ + path
    } else {
        "not a rust file : "@ + path
    }
}

/// The code of a character.
pub fn char_code(c: char) -> (code: u64)
    ensures
        code == c as nat,
        code <= 0x10FFFF,
{
    c as u64
}

/// The identifier of the route whose source path, without directory and
/// extension, is `inner`.
pub fn id_of(inner: &str) -> (id: u64)
    ensures
        id == route_id(inner@),
{
    let mut id: u64 = 0;
    assert(inner@.take(0) =~= Seq::<char>::empty());
    for c in it: inner.chars()
        invariant
            it.seq() == inner@,
            id == route_id(inner@.take(it.index())),
    {
        let ghost k = it.index();
        assert(inner@.take(k + 1).drop_last() =~= inner@.take(k));
        assert(inner@.take(k + 1).last() == c);
        let code = char_code(c);
        assert((code_sum(inner@.take(k)) % 0x1_0000_0000_0000_0000 + c as nat)
            % 0x1_0000_0000_0000_0000 == (code_sum(inner@.take(k)) + c as nat)
            % 0x1_0000_0000_0000_0000) by {
            vstd::arithmetic::div_mod::lemma_add_mod_noop(
                code_sum(inner@.take(k)) as int,
                c as int,
                0x1_0000_0000_0000_0000,
            );
            vstd::arithmetic::div_mod::lemma_small_mod(code as nat, 0x1_0000_0000_0000_0000);
        }
        id = id.wrapping_add(code);
    }
    assert(inner@.take(inner@.len() as int) =~= inner@);
    id
}

/// Compiles the path of a source file into the route that it stands for.
/// `page_dir` is the directory that holds the pages, `pages` if none is given.
/// A path that does not lie in that directory, or does not end in `.rs`, is
/// refused.
pub fn parse_file_path(path: &str, page_dir: Option<&str>) -> (result: Result<RouteSpec, RouteError>)
    ensures
        match result {
            Ok(spec) => compiled(
                path@,
                match page_dir {
                    Some(dir) => dir@,
                    None => default_page_dir(),
                },
            ) == Some(spec@),
            Err(error) => {
                &&& compiled(
                    path@,
                    match page_dir {
                        Some(dir) => dir@,
                        None => default_page_dir(),
                    },
                ) is None
                &&& error@ == RouteErrorModel::InvalidGrammar(
                    refusal(
                        path@,
                        match page_dir {
                            Some(dir) => dir@,
                            None => default_page_dir(),
                        },
                    ),
                )
            },
        },
{
    let page_dir: &str = match page_dir {
        Some(dir) => dir,
        None => "pages",
    };
    let ghost dir = page_dir@;
    let mut prefix = String::from_str(page_dir);
    prefix.append("/");
    let rest = match strip_prefix(path, prefix.as_str()) {
        Some(rest) => rest,
        None => {
            let mut message = String::from_str("invalid path : ");
            message.append(path);
            return Err(RouteError::InvalidGrammar(message));
        },
    };
    let inner = match strip_suffix(rest, ".rs") {
        Some(inner) => inner,
        None => {
            let mut message = String::from_str("not a rust file : ");
            message.append(path);
            return Err(RouteError::InvalidGrammar(message));
        },
    };
    let pieces = split_text(inner);
    let sole = pieces.len() == 1;
    let ghost all = texts(pieces@);
    let mut route_path = String::new();
    let mut params: Vec<ParamSpec> = Vec::new();
    let mut kind = RouteKind::Static;
    let mut i: usize = 0;
    assert(all.take(0) =~= Seq::<Seq<char>>::empty());
    assert(param_models(params@) =~= Seq::<ParamModel>::empty());
    while i < pieces.len()
        invariant
            i <= pieces@.len(),
            all == texts(pieces@),
            route_path@ == pattern_text(all.take(i as int), sole),
            param_models(params@) == declared_params(all.take(i as int), sole),
            kind == RouteKind::Fallback || kind == RouteKind::Static,
            kind == RouteKind::Fallback <==> names_fallback(all.take(i as int), sole),
        decreases pieces@.len() - i,
    {
        let piece: &str = pieces[i].as_str();
        let ghost seen = all.take(i as int);
        let ghost next = all.take(i + 1);
        let ghost form = form_of(piece@, sole);
        let ghost declared = param_models(params@);
        assert(next.drop_last() =~= seen);
        assert(next.last() == piece@);
        assert(forall|j: int| 0 <= j < seen.len() ==> seen[j] == next[j]);
        assert(names_fallback(next, sole) <==> names_fallback(seen, sole) || form is NotFound) by {
            if names_fallback(next, sole) {
                let j = choose|j: int|
                    0 <= j < next.len() && form_of(#[trigger] next[j], sole) is NotFound;
                if j < seen.len() {
                    assert(form_of(seen[j], sole) is NotFound);
                }
            }
            if names_fallback(seen, sole) {
                let j = choose|j: int|
                    0 <= j < seen.len() && form_of(#[trigger] seen[j], sole) is NotFound;
                assert(form_of(next[j], sole) is NotFound);
            }
            if form is NotFound {
                assert(form_of(next[i as int], sole) is NotFound);
            }
        }
        if piece.unicode_len() > 0 {
            route_path.append("/");
            if sole && same_text(piece, "index") {
            } else if let Some(name) = strip_enclosing(piece, "[...", "]") {
                route_path.append(":");
                route_path.append(name);
                route_path.append("/*");
                params.push(ParamSpec { name: String::from_str(name), kind: ParamKind::CatchAll });
                assert(param_models(params@) =~= declared.push(form_param(form)->0));
            } else if let Some(name) = strip_enclosing(piece, "[", "]") {
                route_path.append(":");
                route_path.append(name);
                params.push(ParamSpec { name: String::from_str(name), kind: ParamKind::Single });
                assert(param_models(params@) =~= declared.push(form_param(form)->0));
            } else if same_text(piece, "404") {
                kind = RouteKind::Fallback;
                route_path.append("/*");
            } else {
                route_path.append(piece);
            }
            assert(route_path@ =~= pattern_text(seen, sole) + form_text(form));
        }
        i += 1;
    }
    assert(all.take(pieces@.len() as int) =~= all);
    if route_path.as_str().unicode_len() == 0 {
        route_path.append("/");
    }
    let id = id_of(inner);
    Ok(RouteSpec { id, path: route_path, kind, params, source: String::from_str(path) })
}

} // verus!
