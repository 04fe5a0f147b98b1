use vstd::prelude::*;
use crate::pattern::{pattern_tokens, token_models, tokenize_pattern, Token, TokenModel};
use crate::route::{RouteModel, RouteSpec};
use crate::text::{join, join_range, path_segments, segments, texts};

verus! {

/// A route that matched a path, with the values its parameters took.
#[derive(Debug)]
pub struct RouteMatch {
    pub spec: RouteSpec,
    pub params: Vec<(String, String)>,
}

/// What a `RouteMatch` stands for.
pub ghost struct MatchModel {
    pub spec: RouteModel,
    pub params: Seq<(Seq<char>, Seq<char>)>,
}

/// The name and value pairs that a sequence of bindings stands for.
pub open spec fn binding_models(bindings: Seq<(String, String)>) -> Seq<(Seq<char>, Seq<char>)> {
    bindings.map_values(|b: (String, String)| (b.0@, b.1@))
}

impl View for RouteMatch {
    type V = MatchModel;

    open spec fn view(&self) -> MatchModel {
        MatchModel { spec: self.spec@, params: binding_models(self.params@) }
    }
}

impl Clone for RouteMatch {
    fn clone(&self) -> (copy: Self)
        ensures
            copy@ == self@,
    {
        let mut params: Vec<(String, String)> = Vec::new();
        let mut i: usize = 0;
        while i < self.params.len()
            invariant
                i <= self.params@.len(),
                binding_models(params@) == binding_models(self.params@).take(i as int),
            decreases self.params@.len() - i,
        {
            let ghost before = binding_models(params@);
            params.push((self.params[i].0.clone(), self.params[i].1.clone()));
            assert(binding_models(params@) =~= before.push(binding_models(self.params@)[i as int]));
            assert(binding_models(self.params@).take(i + 1) =~= before.push(
                binding_models(self.params@)[i as int],
            ));
            i += 1;
        }
        assert(binding_models(self.params@).take(self.params@.len() as int) =~= binding_models(
            self.params@,
        ));
        RouteMatch { spec: self.spec.clone(), params }
    }
}

/// The bindings with which the tokens from `ti` on match the segments from `pi`
/// on, if they match. Tokens are taken from left to right. A static token takes
/// the one segment equal to it, a single parameter takes any one segment, a
/// catch-all parameter takes one or more segments and prefers to take more, a
/// last wildcard takes all that is left, and a wildcard before other tokens
/// takes no more than it must. When the tokens are used up, so must the segments be.
pub open spec fn match_from(
    tokens: Seq<TokenModel>,
    segs: Seq<Seq<char>>,
    ti: int,
    pi: int,
) -> Option<Seq<(Seq<char>, Seq<char>)>>
    decreases tokens.len() - ti, segs.len() + 1,
{
    if ti < 0 || pi < 0 || pi > segs.len() {
        None
    } else if ti >= tokens.len() {
        if pi == segs.len() {
            Some(Seq::empty())
        } else {
            None
        }
    } else {
        match tokens[ti] {
            TokenModel::Static(text) => {
                if pi < segs.len() && segs[pi] == text {
                    match_from(tokens, segs, ti + 1, pi + 1)
                } else {
                    None
                }
            },
            TokenModel::ParamSingle(name) => {
                if pi < segs.len() {
                    match match_from(tokens, segs, ti + 1, pi + 1) {
                        Some(rest) => Some(seq![(name, segs[pi])] + rest),
                        None => None,
                    }
                } else {
                    None
                }
            },
            TokenModel::ParamCatchAll(name) => capture_from(tokens, segs, ti, pi, segs.len() - pi),
            TokenModel::Wildcard => {
                if ti + 1 == tokens.len() {
                    Some(Seq::empty())
                } else {
                    skip_from(tokens, segs, ti, pi)
                }
            },
        }
    }
}

/// The match in which the catch-all parameter at `ti` takes at most `most` of
/// the segments from `pi` on, and as many as the tokens after it allow.
pub open spec fn capture_from(
    tokens: Seq<TokenModel>,
    segs: Seq<Seq<char>>,
    ti: int,
    pi: int,
    most: int,
) -> Option<Seq<(Seq<char>, Seq<char>)>>
    decreases tokens.len() - ti, most,
{
    if ti < 0 || ti >= tokens.len() || most <= 0 {
        None
    } else {
        match match_from(tokens, segs, ti + 1, pi + most) {
            Some(rest) => Some(
                seq![(tokens[ti]->ParamCatchAll_0, join(segs.subrange(pi, pi + most)))] + rest,
            ),
            None => capture_from(tokens, segs, ti, pi, most - 1),
        }
    }
}

/// The match in which the wildcard at `ti` takes the segments from its place up
/// to `end` or beyond, and as few as the tokens after it allow.
pub open spec fn skip_from(
    tokens: Seq<TokenModel>,
    segs: Seq<Seq<char>>,
    ti: int,
    end: int,
) -> Option<Seq<(Seq<char>, Seq<char>)>>
    decreases tokens.len() - ti, segs.len() - end,
{
    if ti < 0 || ti >= tokens.len() || end > segs.len() {
        None
    } else {
        match match_from(tokens, segs, ti + 1, end) {
            Some(rest) => Some(rest),
            None => if end < segs.len() {
                skip_from(tokens, segs, ti, end + 1)
            } else {
                None
            },
        }
    }
}

/// The bindings with which a pattern matches a path, if it matches.
pub open spec fn route_match(route: RouteModel, path: Seq<char>) -> Option<
    Seq<(Seq<char>, Seq<char>)>,
> {
    match_from(pattern_tokens(route.path, route.params), segments(path), 0, 0)
}

/// Matches the tokens from `token_index` on against the segments from
/// `path_index` on. On success the bindings made are appended to `params`; on
/// failure `params` is left as it was.
pub fn match_tokens(
    tokens: &[Token],
    path_segments: &[String],
    token_index: usize,
    path_index: usize,
    params: &mut Vec<(String, String)>,
) -> (matched: bool)
    requires
        token_index <= tokens@.len(),
        path_index <= path_segments@.len(),
    ensures
        matched == match_from(
            token_models(tokens@),
            texts(path_segments@),
            token_index as int,
            path_index as int,
        ) is Some,
        matched ==> binding_models(final(params)@) == binding_models(old(params)@) + match_from(
            token_models(tokens@),
            texts(path_segments@),
            token_index as int,
            path_index as int,
        )->0,
        !matched ==> final(params)@ == old(params)@,
    decreases tokens@.len() - token_index,
{
    let ghost tm = token_models(tokens@);
    let ghost sm = texts(path_segments@);
    let ghost before = params@;
    let total: usize = path_segments.len();
    let count: usize = tokens.len();
    if token_index == count {
        assert(binding_models(before) + Seq::empty() =~= binding_models(before));
        return path_index == total;
    }
    assert(tm[token_index as int] == tokens@[token_index as int]@);
    match &tokens[token_index] {
        Token::Static(expected) => {
            if path_index == total {
                return false;
            }
            assert(sm[path_index as int] == path_segments@[path_index as int]@);
            if !(path_segments[path_index] == *expected) {
                return false;
            }
            match_tokens(tokens, path_segments, token_index + 1, path_index + 1, params)
        },
        Token::ParamSingle(name) => {
            if path_index == total {
                return false;
            }
            assert(sm[path_index as int] == path_segments@[path_index as int]@);
            let binding = (name.clone(), path_segments[path_index].clone());
            let ghost pair = (binding.0@, binding.1@);
            params.push(binding);
            assert(binding_models(params@) =~= binding_models(before).push(pair));
            let ok = match_tokens(tokens, path_segments, token_index + 1, path_index + 1, params);
            if ok {
                let ghost rest = match_from(tm, sm, token_index + 1, path_index + 1)->0;
                assert(binding_models(before).push(pair) + rest =~= binding_models(before) + (
                seq![pair] + rest));
            } else {
                params.pop();
                assert(params@ =~= before);
            }
            ok
        },
        Token::ParamCatchAll(name) => {
            let mut end: usize = total;
            while end > path_index
                invariant
                    path_index <= end <= total,
                    total == path_segments@.len(),
                    token_index < count == tokens@.len(),
                    before == old(params)@,
                    tm == token_models(tokens@),
                    sm == texts(path_segments@),
                    tm[token_index as int] == TokenModel::ParamCatchAll(name@),
                    params@ == before,
                    match_from(tm, sm, token_index as int, path_index as int) == capture_from(
                        tm,
                        sm,
                        token_index as int,
                        path_index as int,
                        end - path_index,
                    ),
                decreases end - path_index,
            {
                let captured = join_range(path_segments, path_index, end);
                let binding = (name.clone(), captured);
                let ghost pair = (binding.0@, binding.1@);
                params.push(binding);
                assert(binding_models(params@) =~= binding_models(before).push(pair));
                let ok = match_tokens(tokens, path_segments, token_index + 1, end, params);
                if ok {
                    let ghost rest = match_from(tm, sm, token_index + 1, end as int)->0;
                    assert(binding_models(before).push(pair) + rest =~= binding_models(before) + (
                    seq![pair] + rest));
                    return true;
                }
                params.pop();
                assert(params@ =~= before);
                end -= 1;
            }
            false
        },
        Token::Wildcard => {
            if token_index + 1 == count {
                assert(binding_models(before) + Seq::empty() =~= binding_models(before));
                return true;
            }
            let mut end: usize = path_index;
            loop
                invariant
                    path_index <= end <= total,
                    total == path_segments@.len(),
                    token_index + 1 < count == tokens@.len(),
                    before == old(params)@,
                    tm == token_models(tokens@),
                    sm == texts(path_segments@),
                    tm[token_index as int] == TokenModel::Wildcard,
                    params@ == before,
                    match_from(tm, sm, token_index as int, path_index as int) == skip_from(
                        tm,
                        sm,
                        token_index as int,
                        end as int,
                    ),
                decreases total - end,
            {
                if match_tokens(tokens, path_segments, token_index + 1, end, params) {
                    return true;
                }
                if end == total {
                    return false;
                }
                end += 1;
            }
        },
    }
}

/// Matches a path against a route. On success the result holds a copy of the
/// route and the values that its parameters took, in the order of the pattern.
pub fn match_route(spec: &RouteSpec, path: &str) -> (found: Option<RouteMatch>)
    ensures
        match found {
            Some(m) => m@.spec == spec@ && route_match(spec@, path@) == Some(m@.params),
            None => route_match(spec@, path@) is None,
        },
{
    let tokens = tokenize_pattern(spec.path.as_str(), spec.params.as_slice());
    let segs = path_segments(path);
    let mut params: Vec<(String, String)> = Vec::new();
    if match_tokens(tokens.as_slice(), segs.as_slice(), 0, 0, &mut params) {
        let ghost found = route_match(spec@, path@)->0;
        assert(binding_models(Seq::empty()) + found =~= found);
        Some(RouteMatch { spec: spec.clone(), params })
    } else {
        None
    }
}

} // verus!
