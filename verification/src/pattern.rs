use vstd::prelude::*;
use crate::route::{param_models, ParamKind, ParamModel, ParamSpec, RouteSpec};
use crate::text::{path_segments, same_text, segments, strip_prefix, texts};

verus! {

/// One unit of a pattern, as the matcher consumes it.
#[derive(Debug, PartialEq, Eq)]
pub enum Token {
    /// A segment that must occur literally.
    Static(String),
    /// A parameter that captures exactly one segment.
    ParamSingle(String),
    /// A parameter that captures one or more segments.
    ParamCatchAll(String),
    /// Any number of segments, captured by nobody.
    Wildcard,
}

/// What a `Token` stands for, with texts as sequences of characters.
pub ghost enum TokenModel {
    Static(Seq<char>),
    ParamSingle(Seq<char>),
    ParamCatchAll(Seq<char>),
    Wildcard,
}

impl View for Token {
    type V = TokenModel;

    open spec fn view(&self) -> TokenModel {
        match self {
            Token::Static(text) => TokenModel::Static(text@),
            Token::ParamSingle(name) => TokenModel::ParamSingle(name@),
            Token::ParamCatchAll(name) => TokenModel::ParamCatchAll(name@),
            Token::Wildcard => TokenModel::Wildcard,
        }
    }
}

/// The models of a sequence of tokens.
pub open spec fn token_models(tokens: Seq<Token>) -> Seq<TokenModel> {
    tokens.map_values(|t: Token| t@)
}

/// The segment that stands for a wildcard.
pub open spec fn star() -> Seq<char> {
    seq!['*']
}

/// The pseudo-segment that stands for a pattern without segments.
pub open spec fn root_segment() -> Seq<char> {
    seq!['/']
}

/// Whether `segment` names a parameter: whether it begins with a colon.
pub open spec fn is_param_segment(segment: Seq<char>) -> bool {
    segment.len() > 0 && segment[0] == ':'
}

/// Whether `params` declares a catch-all parameter called `name`.
pub open spec fn declared_catch_all(params: Seq<ParamModel>, name: Seq<char>) -> bool {
    exists|i: int|
        0 <= i < params.len() && (#[trigger] params[i]).kind == ParamKind::CatchAll && params[i].name
            == name
}

/// The tokens that a sequence of pattern segments stands for. A `*` is a
/// wildcard. A `:name` is a catch-all parameter if `params` declares `name` as
/// one and a `*` follows, which it then takes in; else it is a single parameter.
/// Any other segment is static.
pub open spec fn tokens_of(segs: Seq<Seq<char>>, params: Seq<ParamModel>) -> Seq<TokenModel>
    decreases segs.len(),
{
    if segs.len() == 0 {
        Seq::<TokenModel>::empty()
    } else if segs[0] == star() {
        seq![TokenModel::Wildcard] + tokens_of(segs.skip(1), params)
    } else if is_param_segment(segs[0]) {
        let name = segs[0].skip(1);
        if declared_catch_all(params, name) && segs.len() > 1 && segs[1] == star() {
            seq![TokenModel::ParamCatchAll(name)] + tokens_of(segs.skip(2), params)
        } else {
            seq![TokenModel::ParamSingle(name)] + tokens_of(segs.skip(1), params)
        }
    } else {
        seq![TokenModel::Static(segs[0])] + tokens_of(segs.skip(1), params)
    }
}

/// The segments of a pattern; a pattern without any has the root pseudo-segment.
pub open spec fn pattern_segments(pattern: Seq<char>) -> Seq<Seq<char>> {
    if segments(pattern).len() == 0 {
        seq![root_segment()]
    } else {
        segments(pattern)
    }
}

/// The tokens of a pattern, given the parameters declared for it.
pub open spec fn pattern_tokens(pattern: Seq<char>, params: Seq<ParamModel>) -> Seq<TokenModel> {
    tokens_of(pattern_segments(pattern), params)
}

/// What one token adds to the specificity of a pattern.
pub open spec fn weight(token: TokenModel) -> nat {
    match token {
        TokenModel::Static(_) => 100,
        TokenModel::ParamSingle(_) => 10,
        TokenModel::ParamCatchAll(_) => 1,
        TokenModel::Wildcard => 0,
    }
}

/// The sum of the weights of `tokens`.
pub open spec fn weight_sum(tokens: Seq<TokenModel>) -> nat
    decreases tokens.len(),
{
    if tokens.len() == 0 {
        0
    } else {
        weight_sum(tokens.drop_last()) + weight(tokens.last())
    }
}

/// The specificity of a tokenized pattern: the weights of its tokens, plus their number.
pub open spec fn score_of(tokens: Seq<TokenModel>) -> nat {
    weight_sum(tokens) + tokens.len()
}

/// Whether `params` declares a catch-all parameter called `name`.
pub fn declares_catch_all(params: &[ParamSpec], name: &str) -> (found: bool)
    ensures
        found == declared_catch_all(param_models(params@), name@),
{
    let mut i: usize = 0;
    while i < params.len()
        invariant
            i <= params@.len(),
            forall|j: int|
                0 <= j < i ==> !((#[trigger] param_models(params@)[j]).kind == ParamKind::CatchAll
                    && param_models(params@)[j].name == name@),
        decreases params@.len() - i,
    {
        if params[i].kind == ParamKind::CatchAll && same_text(params[i].name.as_str(), name) {
            assert(param_models(params@)[i as int].kind == ParamKind::CatchAll);
            return true;
        }
        i += 1;
    }
    false
}

/// Splits a pattern into its tokens.
pub fn tokenize_pattern(pattern: &str, params: &[ParamSpec]) -> (tokens: Vec<Token>)
    ensures
        token_models(tokens@) == pattern_tokens(pattern@, param_models(params@)),
{
    let mut segs = path_segments(pattern);
    if segs.len() == 0 {
        proof {
            reveal_strlit("/");
        }
        assert("/"@ =~= root_segment());
        segs.push(String::from_str("/"));
        assert(texts(segs@) =~= seq![root_segment()]);
    }
    proof {
        reveal_strlit("*");
        reveal_strlit(":");
    }
    assert("*"@ =~= star());
    let ghost all = texts(segs@);
    let ghost declared = param_models(params@);
    let mut tokens: Vec<Token> = Vec::new();
    let mut i: usize = 0;
    assert(all.skip(0) =~= all);
    while i < segs.len()
        invariant
            i <= segs@.len(),
            all == texts(segs@),
            declared == param_models(params@),
            "*"@ == star(),
            ":"@.len() == 1,
            ":"@[0] == ':',
            token_models(tokens@) + tokens_of(all.skip(i as int), declared) == tokens_of(
                all,
                declared,
            ),
        decreases segs@.len() - i,
    {
        let ghost done = token_models(tokens@);
        let ghost rest = all.skip(i as int);
        let seg: &str = segs[i].as_str();
        assert(rest[0] == seg@);
        assert(rest.skip(1) =~= all.skip(i + 1));
        if same_text(seg, "*") {
            tokens.push(Token::Wildcard);
            assert(token_models(tokens@) =~= done.push(TokenModel::Wildcard));
            assert(done.push(TokenModel::Wildcard) + tokens_of(all.skip(i + 1), declared) =~= done
                + tokens_of(rest, declared));
            i += 1;
        } else {
            match strip_prefix(seg, ":") {
                Some(name) => {
                    assert(is_param_segment(seg@)) by {
                        assert(seg@.subrange(0, 1)[0] == ':');
                    }
                    let followed = i + 1 < segs.len() && same_text(segs[i + 1].as_str(), "*");
                    assert(followed == (rest.len() > 1 && rest[1] == star()));
                    if followed && declares_catch_all(params, name) {
                        let token = Token::ParamCatchAll(String::from_str(name));
                        let ghost model = token@;
                        tokens.push(token);
                        assert(rest.skip(2) =~= all.skip(i + 2));
                        assert(token_models(tokens@) =~= done.push(model));
                        assert(done.push(model) + tokens_of(all.skip(i + 2), declared) =~= done
                            + tokens_of(rest, declared));
                        i += 2;
                    } else {
                        let token = Token::ParamSingle(String::from_str(name));
                        let ghost model = token@;
                        tokens.push(token);
                        assert(token_models(tokens@) =~= done.push(model));
                        assert(done.push(model) + tokens_of(all.skip(i + 1), declared) =~= done
                            + tokens_of(rest, declared));
                        i += 1;
                    }
                },
                None => {
                    assert(!is_param_segment(seg@)) by {
                        if is_param_segment(seg@) {
                            assert(":"@ =~= seg@.subrange(0, 1));
                        }
                    }
                    let token = Token::Static(segs[i].clone());
                    let ghost model = token@;
                    tokens.push(token);
                    assert(token_models(tokens@) =~= done.push(model));
                    assert(done.push(model) + tokens_of(all.skip(i + 1), declared) =~= done
                        + tokens_of(rest, declared));
                    i += 1;
                },
            }
        }
    }
    assert(token_models(tokens@) + Seq::<TokenModel>::empty() =~= token_models(tokens@));
    tokens
}

/// The specificity of a sequence of tokens.
pub fn score_tokens(tokens: &Vec<Token>) -> (score: u128)
    ensures
        score == score_of(token_models(tokens@)),
{
    let ghost all = token_models(tokens@);
    let mut total: u128 = 0;
    let mut i: usize = 0;
    assert(all.take(0) =~= Seq::<TokenModel>::empty());
    while i < tokens.len()
        invariant
            i <= tokens@.len(),
            all == token_models(tokens@),
            total == score_of(all.take(i as int)),
            total <= 101 * i,
        decreases tokens@.len() - i,
    {
        let gain: u128 = match &tokens[i] {
            Token::Static(_) => 100,
            Token::ParamSingle(_) => 10,
            Token::ParamCatchAll(_) => 1,
            Token::Wildcard => 0,
        };
        assert(all.take(i + 1).drop_last() =~= all.take(i as int));
        assert(all.take(i + 1).last() == tokens@[i as int]@);
        total = total + gain + 1;
        i += 1;
    }
    assert(all.take(tokens@.len() as int) =~= all);
    total
}

/// The specificity of a route: higher for patterns that say more about the
/// paths they match.
pub fn score_spec(spec: &RouteSpec) -> (score: u128)
    ensures
        score == score_of(pattern_tokens(spec@.path, spec@.params)),
{
    let tokens = tokenize_pattern(spec.path.as_str(), spec.params.as_slice());
    score_tokens(&tokens)
}

} // verus!
