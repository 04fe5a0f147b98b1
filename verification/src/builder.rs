use vstd::prelude::*;
use crate::errors::{NavigateError, NavigateErrorModel};
use crate::pattern::{pattern_tokens, root_segment, token_models, tokenize_pattern, Token, TokenModel};
use crate::route::{RouteModel, RouteSpec};
use crate::text::{same_text, slash, trim_slashes, trimmed};

verus! {

/// The name and value pairs that a slice of supplied values stands for.
pub open spec fn value_models(values: Seq<(&str, &str)>) -> Seq<(Seq<char>, Seq<char>)> {
    values.map_values(|v: (&str, &str)| (v.0@, v.1@))
}

/// The value that `values` gives to `name`: that of the first pair with this name.
pub open spec fn lookup(values: Seq<(Seq<char>, Seq<char>)>, name: Seq<char>) -> Option<Seq<char>>
    decreases values.len(),
{
    if values.len() == 0 {
        None
    } else if values[0].0 == name {
        Some(values[0].1)
    } else {
        lookup(values.skip(1), name)
    }
}

/// A slash followed by `text`.
pub open spec fn segment_text(text: Seq<char>) -> Seq<char> {
    seq![slash()] + text
}

/// The text that one token adds to a path. The root pseudo-segment adds
/// nothing, another static token adds its text, and a parameter adds its value,
/// a catch-all without the slashes at the value's ends and nothing at all if
/// that leaves it empty. A parameter without a value cannot be written, and
/// neither can a wildcard.
pub open spec fn token_text(token: TokenModel, values: Seq<(Seq<char>, Seq<char>)>) -> Result<
    Seq<char>,
    NavigateErrorModel,
> {
    match token {
        TokenModel::Static(text) => Ok(
            if text == root_segment() {
                Seq::empty()
            } else {
                segment_text(text)
            },
        ),
        TokenModel::ParamSingle(name) => match lookup(values, name) {
            Some(value) => Ok(segment_text(value)),
            None => Err(NavigateErrorModel::MissingParam { name }),
        },
        TokenModel::ParamCatchAll(name) => match lookup(values, name) {
            Some(value) => Ok(
                if trimmed(value).len() == 0 {
                    Seq::empty()
                } else {
                    segment_text(trimmed(value))
                },
            ),
            None => Err(NavigateErrorModel::MissingParam { name }),
        },
        TokenModel::Wildcard => Err(NavigateErrorModel::UnsupportedWildcard),
    }
}

/// The texts of `tokens` one after another, or the failure of the first token
/// that cannot be written.
pub open spec fn tokens_text(tokens: Seq<TokenModel>, values: Seq<(Seq<char>, Seq<char>)>) -> Result<
    Seq<char>,
    NavigateErrorModel,
>
    decreases tokens.len(),
{
    if tokens.len() == 0 {
        Ok(Seq::empty())
    } else {
        match tokens_text(tokens.drop_last(), values) {
            Ok(before) => match token_text(tokens.last(), values) {
                Ok(text) => Ok(before + text),
                Err(failure) => Err(failure),
            },
            Err(failure) => Err(failure),
        }
    }
}

/// The concrete path that a route's pattern gives with `values` for its
/// parameters: the texts of its tokens, or a lone slash if they are all empty.
pub open spec fn built_path(route: RouteModel, values: Seq<(Seq<char>, Seq<char>)>) -> Result<
    Seq<char>,
    NavigateErrorModel,
> {
    match tokens_text(pattern_tokens(route.path, route.params), values) {
        Ok(text) => Ok(
            if text.len() == 0 {
                seq![slash()]
            } else {
                text
            },
        ),
        Err(failure) => Err(failure),
    }
}

/// Once a token cannot be written, the tokens after it change nothing.
pub proof fn lemma_failure_stays(
    tokens: Seq<TokenModel>,
    values: Seq<(Seq<char>, Seq<char>)>,
    k: int,
)
    requires
        0 <= k <= tokens.len(),
        tokens_text(tokens.take(k), values) is Err,
    ensures
        tokens_text(tokens, values) == tokens_text(tokens.take(k), values),
    decreases tokens.len(),
{
    if k == tokens.len() {
        assert(tokens.take(k) =~= tokens);
    } else {
        assert(tokens.drop_last().take(k) =~= tokens.take(k));
        lemma_failure_stays(tokens.drop_last(), values, k);
    }
}

/// The value that `values` gives to `name`, if any.
pub fn find_value<'a>(values: &[(&'a str, &'a str)], name: &str) -> (found: Option<&'a str>)
    ensures
        match found {
            Some(value) => lookup(value_models(values@), name@) == Some(value@),
            None => lookup(value_models(values@), name@) is None,
        },
{
    let ghost all = value_models(values@);
    let mut i: usize = 0;
    assert(all.skip(0) =~= all);
    while i < values.len()
        invariant
            i <= values@.len(),
            all == value_models(values@),
            lookup(all, name@) == lookup(all.skip(i as int), name@),
        decreases values@.len() - i,
    {
        assert(all.skip(i as int)[0] == all[i as int]);
        assert(all.skip(i as int).skip(1) =~= all.skip(i + 1));
        if same_text(values[i].0, name) {
            return Some(values[i].1);
        }
        i += 1;
    }
    None
}

/// Builds the concrete path that `spec`'s pattern gives with `params` as the
/// values of its parameters.
pub fn build_path(spec: &RouteSpec, params: &[(&str, &str)]) -> (result: Result<
    String,
    NavigateError,
>)
    ensures
        match result {
            Ok(path) => built_path(spec@, value_models(params@)) == Ok::<
                Seq<char>,
                NavigateErrorModel,
            >(path@),
            Err(error) => built_path(spec@, value_models(params@)) == Err::<
                Seq<char>,
                NavigateErrorModel,
            >(error@),
        },
{
    let tokens = tokenize_pattern(spec.path.as_str(), spec.params.as_slice());
    let ghost all = token_models(tokens@);
    let ghost values = value_models(params@);
    proof {
        reveal_strlit("/");
    }
    assert("/"@ =~= seq![slash()]);
    assert("/"@ =~= root_segment());
    let mut result = String::new();
    let mut i: usize = 0;
    assert(all.take(0) =~= Seq::<TokenModel>::empty());
    while i < tokens.len()
        invariant
            i <= tokens@.len(),
            all == token_models(tokens@),
            values == value_models(params@),
            "/"@ == seq![slash()],
            "/"@ == root_segment(),
            tokens_text(all.take(i as int), values) == Ok::<Seq<char>, NavigateErrorModel>(
                result@,
            ),
            all == pattern_tokens(spec@.path, spec@.params),
        decreases tokens@.len() - i,
    {
        let ghost before = result@;
        assert(all.take(i + 1).drop_last() =~= all.take(i as int));
        assert(all.take(i + 1).last() == tokens@[i as int]@);
        match &tokens[i] {
            Token::Static(text) => {
                if !same_text(text.as_str(), "/") {
                    result.append("/");
                    result.append(text.as_str());
                    assert(result@ =~= before + segment_text(text@));
                } else {
                    assert(result@ =~= before + Seq::<char>::empty());
                }
            },
            Token::ParamSingle(name) => {
                match find_value(params, name.as_str()) {
                    Some(value) => {
                        result.append("/");
                        result.append(value);
                        assert(result@ =~= before + segment_text(value@));
                    },
                    None => {
                        proof {
                            lemma_failure_stays(all, values, i + 1);
                        }
                        return Err(NavigateError::MissingParam { name: name.clone() });
                    },
                }
            },
            Token::ParamCatchAll(name) => {
                match find_value(params, name.as_str()) {
                    Some(value) => {
                        let value = trim_slashes(value);
                        if value.unicode_len() > 0 {
                            result.append("/");
                            result.append(value);
                            assert(result@ =~= before + segment_text(value@));
                        } else {
                            assert(result@ =~= before + Seq::<char>::empty());
                        }
                    },
                    None => {
                        proof {
                            lemma_failure_stays(all, values, i + 1);
                        }
                        return Err(NavigateError::MissingParam { name: name.clone() });
                    },
                }
            },
            Token::Wildcard => {
                proof {
                    lemma_failure_stays(all, values, i + 1);
                }
                return Err(NavigateError::UnsupportedWildcard);
            },
        }
        i += 1;
    }
    assert(all.take(tokens@.len() as int) =~= all);
    if result.as_str().unicode_len() == 0 {
        result.append("/");
    }
    Ok(result)
}

} // verus!
