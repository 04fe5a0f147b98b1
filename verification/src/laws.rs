use vstd::prelude::*;
use crate::builder::{built_path, lookup, segment_text, tokens_text};
use crate::grammar::{
    compiled, declared_params, form_of, form_param, form_text, inner_path, pattern_text,
    SegmentForm,
};
use crate::matcher::{capture_from, match_from, route_match, skip_from};
use crate::pattern::{
    declared_catch_all, is_param_segment, pattern_segments, pattern_tokens, root_segment, star,
    tokens_of, TokenModel,
};
use crate::route::{ParamKind, ParamModel, RouteModel};
use crate::text::{
    is_segment, is_segment_path, join, lemma_join_split, lemma_nonempty_all,
    lemma_segments_concat, lemma_segments_proper, lemma_split_one, lemma_split_pieces,
    lemma_trimmed_segment_path, nonempty, segments, slash, split,
};

verus! {

/// Whether `values` holds what it takes to write `token` into a path: nothing
/// for a static token, one segment for a single parameter, one or more
/// segments joined by slashes for a catch-all. A wildcard cannot be written.
pub open spec fn writable(token: TokenModel, values: Seq<(Seq<char>, Seq<char>)>) -> bool {
    match token {
        TokenModel::Static(_) => true,
        TokenModel::ParamSingle(name) => lookup(values, name) is Some && is_segment(
            lookup(values, name)->0,
        ),
        TokenModel::ParamCatchAll(name) => lookup(values, name) is Some && is_segment_path(
            lookup(values, name)->0,
        ),
        TokenModel::Wildcard => false,
    }
}

/// Whether `values` holds what it takes to write each of `tokens`.
pub open spec fn all_writable(tokens: Seq<TokenModel>, values: Seq<(Seq<char>, Seq<char>)>) -> bool {
    forall|i: int| 0 <= i < tokens.len() ==> writable(#[trigger] tokens[i], values)
}

/// Whether at most one of `tokens` is a catch-all parameter.
pub open spec fn one_catch_all_at_most(tokens: Seq<TokenModel>) -> bool {
    forall|i: int, j: int|
        0 <= i < j < tokens.len() ==> !((#[trigger] tokens[i]) is ParamCatchAll && (
        #[trigger] tokens[j]) is ParamCatchAll)
}

/// The parameters among the tokens from `ti` on, in their order, each with
/// the value that `values` gives it.
pub open spec fn bindings_from(
    tokens: Seq<TokenModel>,
    values: Seq<(Seq<char>, Seq<char>)>,
    ti: int,
) -> Seq<(Seq<char>, Seq<char>)>
    decreases tokens.len() - ti,
{
    if ti < 0 || ti >= tokens.len() {
        Seq::empty()
    } else {
        match tokens[ti] {
            TokenModel::ParamSingle(name) => seq![(name, lookup(values, name)->0)] + bindings_from(
                tokens,
                values,
                ti + 1,
            ),
            TokenModel::ParamCatchAll(name) => seq![(name, lookup(values, name)->0)]
                + bindings_from(tokens, values, ti + 1),
            _ => bindings_from(tokens, values, ti + 1),
        }
    }
}

/// Whether each static token is one segment.
spec fn statics_proper(tokens: Seq<TokenModel>) -> bool {
    forall|i: int|
        0 <= i < tokens.len() && (#[trigger] tokens[i]) is Static ==> is_segment(
            tokens[i]->Static_0,
        )
}

/// The segments that a token turns into when it is written.
spec fn token_segments(token: TokenModel, values: Seq<(Seq<char>, Seq<char>)>) -> Seq<Seq<char>> {
    match token {
        TokenModel::Static(text) => seq![text],
        TokenModel::ParamSingle(name) => seq![lookup(values, name)->0],
        TokenModel::ParamCatchAll(name) => split(lookup(values, name)->0),
        TokenModel::Wildcard => Seq::empty(),
    }
}

/// The segments that the first `k` tokens turn into.
spec fn written_upto(tokens: Seq<TokenModel>, values: Seq<(Seq<char>, Seq<char>)>, k: int) -> Seq<
    Seq<char>,
>
    decreases k,
{
    if k <= 0 {
        Seq::empty()
    } else {
        written_upto(tokens, values, k - 1) + token_segments(tokens[k - 1], values)
    }
}

proof fn lemma_segments_empty()
    ensures
        segments(Seq::<char>::empty()) == Seq::<Seq<char>>::empty(),
        segments(seq![slash()]) == Seq::<Seq<char>>::empty(),
{
    reveal_with_fuel(nonempty, 3);
    reveal_with_fuel(split, 2);
    let one = seq![slash()];
    assert(one.drop_last() =~= Seq::<char>::empty());
    assert(split(one) =~= seq![Seq::<char>::empty(), Seq::<char>::empty()]);
    assert(split(one).drop_last() =~= seq![Seq::<char>::empty()]);
    assert(seq![Seq::<char>::empty()].drop_last() =~= Seq::<Seq<char>>::empty());
    assert(segments(Seq::<char>::empty()) =~= Seq::<Seq<char>>::empty());
    assert(segments(one) =~= Seq::<Seq<char>>::empty());
}

proof fn lemma_segments_one(s: Seq<char>)
    requires
        is_segment(s),
    ensures
        segments(s) == seq![s],
{
    lemma_split_one(s);
    lemma_nonempty_all(seq![s]);
}

/// The static tokens of proper segments are proper segments.
proof fn lemma_statics_proper(segs: Seq<Seq<char>>, params: Seq<ParamModel>)
    requires
        forall|j: int| 0 <= j < segs.len() ==> is_segment(#[trigger] segs[j]),
    ensures
        statics_proper(tokens_of(segs, params)),
    decreases segs.len(),
{
    if segs.len() > 0 {
        let all = tokens_of(segs, params);
        let one = segs.skip(1);
        lemma_statics_proper(one, params);
        if segs.len() > 1 {
            lemma_statics_proper(segs.skip(2), params);
        }
        assert forall|i: int| 0 <= i < all.len() && (#[trigger] all[i]) is Static implies is_segment(
            all[i]->Static_0,
        ) by {
            if i == 0 {
                assert(is_segment(segs[0]));
            } else {
                assert(all[i] == tokens_of(one, params)[i - 1] || (segs.len() > 1 && all[i]
                    == tokens_of(segs.skip(2), params)[i - 1]));
            }
        }
    }
}

/// Where the segments of token `k` stand among the segments of the first `m` tokens.
proof fn lemma_segments_at(
    tokens: Seq<TokenModel>,
    values: Seq<(Seq<char>, Seq<char>)>,
    k: int,
    m: int,
)
    requires
        0 <= k < m <= tokens.len(),
    ensures
        written_upto(tokens, values, k + 1).len() == written_upto(tokens, values, k).len()
            + token_segments(tokens[k], values).len(),
        written_upto(tokens, values, k + 1).len() <= written_upto(tokens, values, m).len(),
        written_upto(tokens, values, m).subrange(
            written_upto(tokens, values, k).len() as int,
            written_upto(tokens, values, k + 1).len() as int,
        ) == token_segments(tokens[k], values),
    decreases m - k,
{
    let from = written_upto(tokens, values, k).len() as int;
    let to = written_upto(tokens, values, k + 1).len() as int;
    if m == k + 1 {
        assert(written_upto(tokens, values, m).subrange(from, to) =~= token_segments(
            tokens[k],
            values,
        ));
    } else {
        lemma_segments_at(tokens, values, k, m - 1);
        assert(written_upto(tokens, values, m).subrange(from, to) =~= written_upto(
            tokens,
            values,
            m - 1,
        ).subrange(from, to));
    }
}

/// The first `k` tokens can be written, and the text has the segments that
/// they turn into.
proof fn lemma_written_text(tokens: Seq<TokenModel>, values: Seq<(Seq<char>, Seq<char>)>, k: int)
    requires
        0 <= k <= tokens.len(),
        all_writable(tokens, values),
        statics_proper(tokens),
    ensures
        tokens_text(tokens.take(k), values) is Ok,
        segments(tokens_text(tokens.take(k), values)->Ok_0) == written_upto(tokens, values, k),
    decreases k,
{
    lemma_segments_empty();
    if k > 0 {
        lemma_written_text(tokens, values, k - 1);
        let token = tokens[k - 1];
        let before = tokens_text(tokens.take(k - 1), values)->Ok_0;
        assert(tokens.take(k).drop_last() =~= tokens.take(k - 1));
        assert(tokens.take(k).last() == token);
        assert(writable(token, values));
        match token {
            TokenModel::Static(text) => {
                assert(is_segment(text));
                assert(text != root_segment()) by {
                    if text == root_segment() {
                        assert(text[0] == slash());
                    }
                }
                lemma_segments_one(text);
                lemma_segments_concat(before, text);
                assert(before + segment_text(text) =~= before + seq![slash()] + text);
            },
            TokenModel::ParamSingle(name) => {
                let value = lookup(values, name)->0;
                lemma_segments_one(value);
                lemma_segments_concat(before, value);
                assert(before + segment_text(value) =~= before + seq![slash()] + value);
            },
            TokenModel::ParamCatchAll(name) => {
                let value = lookup(values, name)->0;
                lemma_trimmed_segment_path(value);
                lemma_nonempty_all(split(value));
                lemma_segments_concat(before, value);
                assert(before + segment_text(value) =~= before + seq![slash()] + value);
            },
            TokenModel::Wildcard => {},
        }
    }
}

/// Tokens that take one segment each match only as many segments as they are.
proof fn lemma_fixed_width(tokens: Seq<TokenModel>, segs: Seq<Seq<char>>, ti: int, pi: int)
    requires
        0 <= ti <= tokens.len(),
        forall|j: int|
            ti <= j < tokens.len() ==> (#[trigger] tokens[j]) is Static || tokens[j] is ParamSingle,
        match_from(tokens, segs, ti, pi) is Some,
    ensures
        segs.len() - pi == tokens.len() - ti,
    decreases tokens.len() - ti,
{
    if ti < tokens.len() {
        assert(tokens[ti] is Static || tokens[ti] is ParamSingle);
        lemma_fixed_width(tokens, segs, ti + 1, pi + 1);
    }
}

/// Tokens that take one segment each turn into as many segments as they are.
proof fn lemma_tail_count(tokens: Seq<TokenModel>, values: Seq<(Seq<char>, Seq<char>)>, k: int)
    requires
        0 <= k <= tokens.len(),
        forall|j: int|
            k <= j < tokens.len() ==> (#[trigger] tokens[j]) is Static || tokens[j] is ParamSingle,
    ensures
        written_upto(tokens, values, tokens.len() as int).len() - written_upto(
            tokens,
            values,
            k,
        ).len() == tokens.len() - k,
    decreases tokens.len() - k,
{
    if k < tokens.len() {
        assert(tokens[k] is Static || tokens[k] is ParamSingle);
        lemma_tail_count(tokens, values, k + 1);
    }
}

/// A catch-all parameter takes `target` segments if the tokens after it match
/// then, and do not match when it takes more.
proof fn lemma_capture(
    tokens: Seq<TokenModel>,
    segs: Seq<Seq<char>>,
    ti: int,
    pi: int,
    most: int,
    target: int,
)
    requires
        0 <= ti < tokens.len(),
        1 <= target <= most,
        forall|m: int|
            target < m <= most ==> (#[trigger] match_from(tokens, segs, ti + 1, pi + m)) is None,
        match_from(tokens, segs, ti + 1, pi + target) is Some,
    ensures
        capture_from(tokens, segs, ti, pi, most) == Some(
            seq![(tokens[ti]->ParamCatchAll_0, join(segs.subrange(pi, pi + target)))] + match_from(
                tokens,
                segs,
                ti + 1,
                pi + target,
            )->0,
        ),
    decreases most - target,
{
    if most > target {
        assert(match_from(tokens, segs, ti + 1, pi + most) is None);
        lemma_capture(tokens, segs, ti, pi, most - 1, target);
    }
}

/// The tokens from `ti` on match the segments that they turn into, and bind
/// each parameter to the value that it was written with.
proof fn lemma_matches_written(
    tokens: Seq<TokenModel>,
    values: Seq<(Seq<char>, Seq<char>)>,
    ti: int,
)
    requires
        0 <= ti <= tokens.len(),
        all_writable(tokens, values),
        one_catch_all_at_most(tokens),
    ensures
        match_from(
            tokens,
            written_upto(tokens, values, tokens.len() as int),
            ti,
            written_upto(tokens, values, ti).len() as int,
        ) == Some(bindings_from(tokens, values, ti)),
    decreases tokens.len() - ti,
{
    let n = tokens.len() as int;
    let segs = written_upto(tokens, values, n);
    let at = written_upto(tokens, values, ti).len() as int;
    if ti < n {
        let token = tokens[ti];
        let next = written_upto(tokens, values, ti + 1).len() as int;
        assert(writable(token, values));
        lemma_segments_at(tokens, values, ti, n);
        lemma_matches_written(tokens, values, ti + 1);
        let rest = bindings_from(tokens, values, ti + 1);
        assert(segs.subrange(at, next) == token_segments(token, values));
        match token {
            TokenModel::Static(text) => {
                assert(segs.subrange(at, next)[0] == text);
            },
            TokenModel::ParamSingle(name) => {
                assert(segs.subrange(at, next)[0] == lookup(values, name)->0);
            },
            TokenModel::ParamCatchAll(name) => {
                let value = lookup(values, name)->0;
                lemma_split_pieces(value);
                lemma_join_split(value);
                assert forall|j: int| ti + 1 <= j < n implies (#[trigger] tokens[j]) is Static
                    || tokens[j] is ParamSingle by {
                    assert(writable(tokens[j], values));
                    assert(!(tokens[ti] is ParamCatchAll && tokens[j] is ParamCatchAll));
                }
                lemma_tail_count(tokens, values, ti + 1);
                assert forall|m: int| next - at < m <= segs.len() - at implies (
                #[trigger] match_from(tokens, segs, ti + 1, at + m)) is None by {
                    if match_from(tokens, segs, ti + 1, at + m) is Some {
                        lemma_fixed_width(tokens, segs, ti + 1, at + m);
                    }
                }
                lemma_capture(tokens, segs, ti, at, segs.len() - at, next - at);
            },
            TokenModel::Wildcard => {},
        }
    }
}

/// Building a path and matching it gives the values back. Take a pattern
/// with at least one segment, without a wildcard and with at most one
/// catch-all parameter, and values that give every single parameter one
/// segment and the catch-all parameter one or more segments joined by
/// slashes. Then the path can be built, the pattern matches it, and the match
/// binds each parameter, in the order of the pattern, to the value supplied
/// for it.
pub proof fn law_round_trip(route: RouteModel, values: Seq<(Seq<char>, Seq<char>)>)
    requires
        segments(route.path).len() > 0,
        all_writable(pattern_tokens(route.path, route.params), values),
        one_catch_all_at_most(pattern_tokens(route.path, route.params)),
    ensures
        built_path(route, values) is Ok,
        route_match(route, built_path(route, values)->Ok_0) == Some(
            bindings_from(pattern_tokens(route.path, route.params), values, 0),
        ),
{
    let tokens = pattern_tokens(route.path, route.params);
    let n = tokens.len() as int;
    lemma_segments_proper(route.path);
    lemma_statics_proper(pattern_segments(route.path), route.params);
    lemma_written_text(tokens, values, n);
    assert(tokens.take(n) =~= tokens);
    lemma_segments_empty();
    lemma_matches_written(tokens, values, 0);
}

/// Whether `token` may take the segments from `from` up to `to`: a static
/// token the one segment equal to it, a single parameter any one segment, a
/// catch-all parameter one or more segments, a wildcard any number of them.
pub open spec fn takes(token: TokenModel, segs: Seq<Seq<char>>, from: int, to: int) -> bool {
    &&& 0 <= from <= to <= segs.len()
    &&& match token {
        TokenModel::Static(text) => to == from + 1 && segs[from] == text,
        TokenModel::ParamSingle(_) => to == from + 1,
        TokenModel::ParamCatchAll(_) => to > from,
        TokenModel::Wildcard => true,
    }
}

/// Whether `cuts` shares out the segments from `pi` on among the tokens from
/// `ti` on: the first of these tokens takes the segments from `cuts[0]`, which
/// is `pi`, up to `cuts[1]`, the next those up to `cuts[2]`, and so on to the
/// last segment.
pub open spec fn shares_out(
    tokens: Seq<TokenModel>,
    segs: Seq<Seq<char>>,
    ti: int,
    pi: int,
    cuts: Seq<int>,
) -> bool {
    &&& cuts.len() == tokens.len() - ti + 1
    &&& cuts[0] == pi
    &&& cuts.last() == segs.len()
    &&& forall|k: int|
        0 <= k < tokens.len() - ti ==> takes(tokens[ti + k], segs, #[trigger] cuts[k], cuts[k + 1])
}

/// A catch-all parameter that may take up to `most` segments finds a match
/// just when the tokens after it match for one of these lengths.
proof fn lemma_capture_some(
    tokens: Seq<TokenModel>,
    segs: Seq<Seq<char>>,
    ti: int,
    pi: int,
    most: int,
)
    requires
        0 <= ti < tokens.len(),
    ensures
        capture_from(tokens, segs, ti, pi, most) is Some <==> exists|end: int|
            pi < end <= pi + most && (#[trigger] match_from(tokens, segs, ti + 1, end)) is Some,
    decreases most,
{
    if most > 0 {
        lemma_capture_some(tokens, segs, ti, pi, most - 1);
        if match_from(tokens, segs, ti + 1, pi + most) is Some {
        } else if capture_from(tokens, segs, ti, pi, most) is Some {
            let end = choose|end: int|
                pi < end <= pi + most - 1 && (#[trigger] match_from(tokens, segs, ti + 1, end))
                    is Some;
            assert(pi < end <= pi + most);
        }
    }
}

/// A wildcard before other tokens that takes the segments up to `end` or
/// beyond finds a match just when the tokens after it match from there on or
/// from a later place.
proof fn lemma_skip_some(tokens: Seq<TokenModel>, segs: Seq<Seq<char>>, ti: int, end: int)
    requires
        0 <= ti < tokens.len(),
    ensures
        skip_from(tokens, segs, ti, end) is Some <==> exists|later: int|
            end <= later <= segs.len() && (#[trigger] match_from(tokens, segs, ti + 1, later))
                is Some,
    decreases segs.len() - end,
{
    if end <= segs.len() {
        if match_from(tokens, segs, ti + 1, end) is Some {
        } else if end < segs.len() {
            lemma_skip_some(tokens, segs, ti, end + 1);
            if skip_from(tokens, segs, ti, end) is Some {
                let later = choose|later: int|
                    end + 1 <= later <= segs.len() && (#[trigger] match_from(
                        tokens,
                        segs,
                        ti + 1,
                        later,
                    )) is Some;
                assert(end <= later <= segs.len());
            }
        }
    }
}

/// A match shows a way to share out the segments among the tokens.
proof fn lemma_match_gives_cuts(
    tokens: Seq<TokenModel>,
    segs: Seq<Seq<char>>,
    ti: int,
    pi: int,
) -> (cuts: Seq<int>)
    requires
        0 <= ti <= tokens.len(),
        match_from(tokens, segs, ti, pi) is Some,
    ensures
        shares_out(tokens, segs, ti, pi, cuts),
    decreases tokens.len() - ti,
{
    if ti == tokens.len() {
        seq![pi]
    } else {
        let next = match tokens[ti] {
            TokenModel::Static(_) => pi + 1,
            TokenModel::ParamSingle(_) => pi + 1,
            TokenModel::ParamCatchAll(_) => {
                lemma_capture_some(tokens, segs, ti, pi, segs.len() - pi);
                choose|end: int|
                    pi < end <= pi + (segs.len() - pi) && (#[trigger] match_from(
                        tokens,
                        segs,
                        ti + 1,
                        end,
                    )) is Some
            },
            TokenModel::Wildcard => {
                if ti + 1 == tokens.len() {
                    segs.len() as int
                } else {
                    lemma_skip_some(tokens, segs, ti, pi);
                    choose|end: int|
                        pi <= end <= segs.len() && (#[trigger] match_from(
                            tokens,
                            segs,
                            ti + 1,
                            end,
                        )) is Some
                }
            },
        };
        let rest = lemma_match_gives_cuts(tokens, segs, ti + 1, next);
        let cuts = seq![pi] + rest;
        assert forall|k: int| 0 <= k < tokens.len() - ti implies takes(
            tokens[ti + k],
            segs,
            #[trigger] cuts[k],
            cuts[k + 1],
        ) by {
            if k > 0 {
                assert(takes(tokens[ti + 1 + (k - 1)], segs, rest[k - 1], rest[k - 1 + 1]));
            }
        }
        cuts
    }
}

/// A way to share out the segments among the tokens makes the matcher succeed.
proof fn lemma_cuts_give_match(
    tokens: Seq<TokenModel>,
    segs: Seq<Seq<char>>,
    ti: int,
    pi: int,
    cuts: Seq<int>,
)
    requires
        0 <= ti <= tokens.len(),
        shares_out(tokens, segs, ti, pi, cuts),
    ensures
        match_from(tokens, segs, ti, pi) is Some,
    decreases tokens.len() - ti,
{
    if ti < tokens.len() {
        let next = cuts[1];
        let rest = cuts.skip(1);
        assert(takes(tokens[ti + 0], segs, cuts[0], cuts[1]));
        assert forall|k: int| 0 <= k < tokens.len() - (ti + 1) implies takes(
            tokens[ti + 1 + k],
            segs,
            #[trigger] rest[k],
            rest[k + 1],
        ) by {
            assert(takes(tokens[ti + (k + 1)], segs, cuts[k + 1], cuts[k + 1 + 1]));
        }
        lemma_cuts_give_match(tokens, segs, ti + 1, next, rest);
        match tokens[ti] {
            TokenModel::ParamCatchAll(_) => {
                lemma_capture_some(tokens, segs, ti, pi, segs.len() - pi);
            },
            TokenModel::Wildcard => {
                if ti + 1 < tokens.len() {
                    lemma_skip_some(tokens, segs, ti, pi);
                }
            },
            _ => {},
        }
    }
}

/// The matcher finds a match whenever there is one: the pattern matches just
/// when there is a way to share out all the segments among its tokens.
pub proof fn law_match_found(tokens: Seq<TokenModel>, segs: Seq<Seq<char>>)
    ensures
        match_from(tokens, segs, 0, 0) is Some <==> exists|cuts: Seq<int>|
            shares_out(tokens, segs, 0, 0, cuts),
{
    if match_from(tokens, segs, 0, 0) is Some {
        let cuts = lemma_match_gives_cuts(tokens, segs, 0, 0);
        assert(shares_out(tokens, segs, 0, 0, cuts));
    }
    if exists|cuts: Seq<int>| shares_out(tokens, segs, 0, 0, cuts) {
        let cuts = choose|cuts: Seq<int>| shares_out(tokens, segs, 0, 0, cuts);
        lemma_cuts_give_match(tokens, segs, 0, 0, cuts);
    }
}

/// A catch-all parameter takes as many segments as it can: if the tokens
/// after it match from `end` on and from no later place, it takes the
/// segments up to `end`, joined by slashes.
pub proof fn law_catch_all_takes_most(
    tokens: Seq<TokenModel>,
    segs: Seq<Seq<char>>,
    ti: int,
    pi: int,
    end: int,
)
    requires
        0 <= ti < tokens.len(),
        tokens[ti] is ParamCatchAll,
        0 <= pi < end <= segs.len(),
        match_from(tokens, segs, ti + 1, end) is Some,
        forall|later: int|
            end < later <= segs.len() ==> (#[trigger] match_from(tokens, segs, ti + 1, later))
                is None,
    ensures
        match_from(tokens, segs, ti, pi) == Some(
            seq![(tokens[ti]->ParamCatchAll_0, join(segs.subrange(pi, end)))] + match_from(
                tokens,
                segs,
                ti + 1,
                end,
            )->0,
        ),
{
    assert forall|m: int| end - pi < m <= segs.len() - pi implies (#[trigger] match_from(
        tokens,
        segs,
        ti + 1,
        pi + m,
    )) is None by {
        assert(end < pi + m <= segs.len());
    }
    lemma_capture(tokens, segs, ti, pi, segs.len() - pi, end - pi);
}

/// Whether a declared parameter shows in the segments of a pattern: as a
/// colon followed by its name and, for a catch-all, a `*` right behind it.
pub open spec fn appears(segs: Seq<Seq<char>>, param: ParamModel) -> bool {
    exists|k: int|
        0 <= k < segs.len() && #[trigger] segs[k] == ":"@ + param.name && (param.kind
            == ParamKind::CatchAll ==> k + 1 < segs.len() && segs[k + 1] == "*"@)
}

/// The segments that a piece of this form adds to the pattern.
spec fn form_segments(form: SegmentForm) -> Seq<Seq<char>> {
    match form {
        SegmentForm::Skipped => Seq::empty(),
        SegmentForm::Root => Seq::empty(),
        SegmentForm::CatchAll(name) => seq![":"@ + name, "*"@],
        SegmentForm::Dynamic(name) => seq![":"@ + name],
        SegmentForm::NotFound => seq!["*"@],
        SegmentForm::Static(text) => seq![text],
    }
}

/// The segments that the pieces of a source path add up to.
spec fn forms_segments(pieces: Seq<Seq<char>>, sole: bool) -> Seq<Seq<char>>
    decreases pieces.len(),
{
    if pieces.len() == 0 {
        Seq::empty()
    } else {
        forms_segments(pieces.drop_last(), sole) + form_segments(form_of(pieces.last(), sole))
    }
}

/// The text that a piece adds to a pattern adds the segments of its form.
proof fn lemma_form_adds_segments(before: Seq<char>, piece: Seq<char>, sole: bool)
    requires
        forall|i: int| 0 <= i < piece.len() ==> piece[i] != slash(),
    ensures
        segments(before + form_text(form_of(piece, sole))) == segments(before) + form_segments(
            form_of(piece, sole),
        ),
{
    reveal_strlit("/");
    reveal_strlit(":");
    reveal_strlit("/*");
    reveal_strlit("*");
    lemma_segments_empty();
    let bar = seq![slash()];
    let star = "*"@;
    assert("/"@ =~= bar);
    assert("/*"@ =~= bar + star);
    assert(is_segment(star));
    lemma_segments_one(star);
    let empty = Seq::<char>::empty();
    match form_of(piece, sole) {
        SegmentForm::Skipped => {
            assert(before + empty =~= before);
            assert(segments(before) + Seq::<Seq<char>>::empty() =~= segments(before));
        },
        SegmentForm::Root => {
            lemma_segments_concat(before, empty);
            assert(before + "/"@ =~= before + bar + empty);
            assert(segments(before) + Seq::<Seq<char>>::empty() =~= segments(before));
        },
        SegmentForm::CatchAll(name) => {
            let head = ":"@ + name;
            assert(is_segment(head)) by {
                assert forall|i: int| 0 <= i < head.len() implies head[i] != slash() by {
                    if i > 0 {
                        assert(head[i] == piece[i - 1 + "[..."@.len()]);
                    }
                }
            }
            lemma_segments_one(head);
            lemma_segments_concat(head, star);
            lemma_segments_concat(before, head + bar + star);
            assert(before + ("/"@ + ":"@ + name + "/*"@) =~= before + bar + (head + bar + star));
            assert(seq![head] + seq![star] =~= seq![head, star]);
        },
        SegmentForm::Dynamic(name) => {
            let head = ":"@ + name;
            assert(is_segment(head)) by {
                assert forall|i: int| 0 <= i < head.len() implies head[i] != slash() by {
                    if i > 0 {
                        assert(head[i] == piece[i - 1 + "["@.len()]);
                    }
                }
            }
            lemma_segments_one(head);
            lemma_segments_concat(before, head);
            assert(before + ("/"@ + ":"@ + name) =~= before + bar + head);
        },
        SegmentForm::NotFound => {
            lemma_segments_concat(before, empty);
            lemma_segments_concat(before + bar + empty, star);
            assert(before + ("/"@ + "/*"@) =~= before + bar + empty + bar + star);
            assert(segments(before) + Seq::<Seq<char>>::empty() =~= segments(before));
        },
        SegmentForm::Static(text) => {
            lemma_segments_one(text);
            lemma_segments_concat(before, text);
            assert(before + ("/"@ + text) =~= before + bar + text);
        },
    }
}

/// The pattern text of a source path has the segments of its pieces' forms,
/// and each parameter that the pieces declare shows among them.
proof fn lemma_pattern_segments(pieces: Seq<Seq<char>>, sole: bool)
    requires
        forall|i: int, j: int|
            0 <= i < pieces.len() && 0 <= j < pieces[i].len() ==> pieces[i][j] != slash(),
    ensures
        segments(pattern_text(pieces, sole)) == forms_segments(pieces, sole),
        forall|i: int|
            0 <= i < declared_params(pieces, sole).len() ==> appears(
                forms_segments(pieces, sole),
                #[trigger] declared_params(pieces, sole)[i],
            ),
    decreases pieces.len(),
{
    lemma_segments_empty();
    if pieces.len() > 0 {
        let before = pieces.drop_last();
        let form = form_of(pieces.last(), sole);
        let old_segs = forms_segments(before, sole);
        let new_segs = forms_segments(pieces, sole);
        lemma_pattern_segments(before, sole);
        lemma_form_adds_segments(pattern_text(before, sole), pieces.last(), sole);
        assert forall|i: int| 0 <= i < declared_params(pieces, sole).len() implies appears(
            new_segs,
            #[trigger] declared_params(pieces, sole)[i],
        ) by {
            let param = declared_params(pieces, sole)[i];
            if i < declared_params(before, sole).len() {
                assert(param == declared_params(before, sole)[i]);
                let k = choose|k: int|
                    0 <= k < old_segs.len() && #[trigger] old_segs[k] == ":"@ + param.name && (
                    param.kind == ParamKind::CatchAll ==> k + 1 < old_segs.len() && old_segs[k + 1]
                        == "*"@);
                assert(new_segs[k] == old_segs[k]);
                if param.kind == ParamKind::CatchAll {
                    assert(new_segs[k + 1] == old_segs[k + 1]);
                }
            } else {
                assert(form_param(form) == Some(param));
                let k = old_segs.len() as int;
                assert(new_segs[k] == form_segments(form)[0]);
                if param.kind == ParamKind::CatchAll {
                    assert(new_segs[k + 1] == form_segments(form)[1]);
                }
            }
        }
    }
}

/// Each parameter that a compiled route declares shows in its pattern: as a
/// segment made of a colon and its name and, for a catch-all, a `*` segment
/// right behind it.
pub proof fn law_params_appear(path: Seq<char>, dir: Seq<char>)
    requires
        compiled(path, dir) is Some,
    ensures
        forall|i: int|
            0 <= i < compiled(path, dir)->0.params.len() ==> appears(
                segments(compiled(path, dir)->0.path),
                #[trigger] compiled(path, dir)->0.params[i],
            ),
{
    let inner = inner_path(path, dir)->0;
    let pieces = split(inner);
    let sole = pieces.len() == 1;
    lemma_split_pieces(inner);
    lemma_pattern_segments(pieces, sole);
    lemma_segments_empty();
    reveal_strlit("/");
    assert("/"@ =~= seq![slash()]);
    if pattern_text(pieces, sole).len() == 0 {
        assert(pattern_text(pieces, sole) =~= Seq::<char>::empty());
    }
}

/// Whether a piece of a source path means in the pattern what it means in the
/// path: it is a parameter, or a text that the pattern does not read as a
/// wildcard or as a parameter. The fallback page and the root page are not
/// regular.
pub open spec fn regular_piece(piece: Seq<char>, sole: bool) -> bool {
    match form_of(piece, sole) {
        SegmentForm::Static(text) => text != star() && !is_param_segment(text),
        SegmentForm::NotFound => false,
        SegmentForm::Root => false,
        _ => true,
    }
}

/// The token that a piece of this form stands for, if any.
pub open spec fn form_tokens(form: SegmentForm) -> Seq<TokenModel> {
    match form {
        SegmentForm::CatchAll(name) => seq![TokenModel::ParamCatchAll(name)],
        SegmentForm::Dynamic(name) => seq![TokenModel::ParamSingle(name)],
        SegmentForm::Static(text) => seq![TokenModel::Static(text)],
        _ => Seq::empty(),
    }
}

/// The tokens that the pieces of a source path stand for, in their order.
pub open spec fn forms_tokens(pieces: Seq<Seq<char>>, sole: bool) -> Seq<TokenModel>
    decreases pieces.len(),
{
    if pieces.len() == 0 {
        Seq::empty()
    } else {
        forms_tokens(pieces.drop_last(), sole) + form_tokens(form_of(pieces.last(), sole))
    }
}

/// Segments that do not begin with a `*` are tokenized apart from the
/// segments before them.
proof fn lemma_tokens_append(a: Seq<Seq<char>>, b: Seq<Seq<char>>, params: Seq<ParamModel>)
    requires
        b.len() == 0 || b[0] != star(),
    ensures
        tokens_of(a + b, params) == tokens_of(a, params) + tokens_of(b, params),
    decreases a.len(),
{
    let whole = a + b;
    if a.len() == 0 {
        assert(whole =~= b);
        assert(tokens_of(a, params) + tokens_of(b, params) =~= tokens_of(b, params));
    } else {
        assert(whole[0] == a[0]);
        assert(whole.skip(1) =~= a.skip(1) + b);
        lemma_tokens_append(a.skip(1), b, params);
        if a.len() > 1 {
            assert(whole[1] == a[1]);
            assert(whole.skip(2) =~= a.skip(2) + b);
            lemma_tokens_append(a.skip(2), b, params);
        } else if b.len() > 0 {
            assert(whole[1] == b[0]);
        }
        assert(tokens_of(whole, params) =~= tokens_of(a, params) + tokens_of(b, params));
    }
}

/// The segments of a regular piece are tokenized as the piece's form says.
proof fn lemma_form_tokens(piece: Seq<char>, sole: bool, params: Seq<ParamModel>)
    requires
        regular_piece(piece, sole),
        form_of(piece, sole) matches SegmentForm::CatchAll(name) ==> declared_catch_all(
            params,
            name,
        ),
    ensures
        tokens_of(form_segments(form_of(piece, sole)), params) == form_tokens(
            form_of(piece, sole),
        ),
        form_segments(form_of(piece, sole)).len() == 0 || form_segments(form_of(piece, sole))[0]
            != star(),
{
    reveal_strlit(":");
    reveal_strlit("*");
    reveal_with_fuel(tokens_of, 3);
    assert("*"@ =~= star());
    let segs = form_segments(form_of(piece, sole));
    match form_of(piece, sole) {
        SegmentForm::CatchAll(name) => {
            let head = ":"@ + name;
            assert(head[0] == ':');
            assert(head.skip(1) =~= name);
            assert(segs.skip(2) =~= Seq::<Seq<char>>::empty());
            assert(tokens_of(segs, params) =~= form_tokens(form_of(piece, sole)));
        },
        SegmentForm::Dynamic(name) => {
            let head = ":"@ + name;
            assert(head[0] == ':');
            assert(head.skip(1) =~= name);
            assert(segs.skip(1) =~= Seq::<Seq<char>>::empty());
            assert(tokens_of(segs, params) =~= form_tokens(form_of(piece, sole)));
        },
        SegmentForm::Static(text) => {
            assert(segs.skip(1) =~= Seq::<Seq<char>>::empty());
            assert(tokens_of(segs, params) =~= form_tokens(form_of(piece, sole)));
        },
        _ => {},
    }
}

/// Each catch-all piece declares its parameter as a catch-all.
proof fn lemma_catch_all_declared(pieces: Seq<Seq<char>>, sole: bool, i: int)
    requires
        0 <= i < pieces.len(),
        form_of(pieces[i], sole) is CatchAll,
    ensures
        declared_catch_all(declared_params(pieces, sole), form_of(pieces[i], sole)->CatchAll_0),
    decreases pieces.len(),
{
    let all = declared_params(pieces, sole);
    let name = form_of(pieces[i], sole)->CatchAll_0;
    if i == pieces.len() - 1 {
        let k = all.len() - 1;
        assert(all[k].kind == ParamKind::CatchAll && all[k].name == name);
    } else {
        let before = declared_params(pieces.drop_last(), sole);
        lemma_catch_all_declared(pieces.drop_last(), sole, i);
        let k = choose|k: int|
            0 <= k < before.len() && (#[trigger] before[k]).kind == ParamKind::CatchAll
                && before[k].name == name;
        assert(all[k].kind == ParamKind::CatchAll && all[k].name == name);
    }
}

/// The segments of regular pieces are tokenized as the pieces' forms say.
proof fn lemma_forms_tokens(pieces: Seq<Seq<char>>, sole: bool, params: Seq<ParamModel>)
    requires
        forall|i: int| 0 <= i < pieces.len() ==> regular_piece(#[trigger] pieces[i], sole),
        forall|i: int|
            0 <= i < pieces.len() && form_of(#[trigger] pieces[i], sole) is CatchAll
                ==> declared_catch_all(params, form_of(pieces[i], sole)->CatchAll_0),
    ensures
        tokens_of(forms_segments(pieces, sole), params) == forms_tokens(pieces, sole),
    decreases pieces.len(),
{
    if pieces.len() > 0 {
        let before = pieces.drop_last();
        assert forall|i: int| 0 <= i < before.len() implies regular_piece(
            #[trigger] before[i],
            sole,
        ) by {
            assert(before[i] == pieces[i]);
        }
        assert forall|i: int|
            0 <= i < before.len() && form_of(
                #[trigger] before[i],
                sole,
            ) is CatchAll implies declared_catch_all(params, form_of(before[i], sole)->CatchAll_0) by {
            assert(before[i] == pieces[i]);
        }
        lemma_forms_tokens(before, sole, params);
        assert(regular_piece(pieces[pieces.len() - 1], sole));
        lemma_form_tokens(pieces.last(), sole, params);
        lemma_tokens_append(
            forms_segments(before, sole),
            form_segments(form_of(pieces.last(), sole)),
            params,
        );
    }
}

/// The compiler and the tokenizer agree. Take a source path that compiles to
/// a route other than the root, whose pieces are all regular. Then the tokens
/// of the route's pattern are those that the pieces stand for: a catch-all
/// token for `[...name]`, a single parameter for `[name]`, and a static token
/// for any other piece.
pub proof fn law_compiled_tokens(path: Seq<char>, dir: Seq<char>)
    requires
        compiled(path, dir) is Some,
        segments(compiled(path, dir)->0.path).len() > 0,
        forall|i: int|
            0 <= i < split(inner_path(path, dir)->0).len() ==> regular_piece(
                #[trigger] split(inner_path(path, dir)->0)[i],
                split(inner_path(path, dir)->0).len() == 1,
            ),
    ensures
        pattern_tokens(compiled(path, dir)->0.path, compiled(path, dir)->0.params) == forms_tokens(
            split(inner_path(path, dir)->0),
            split(inner_path(path, dir)->0).len() == 1,
        ),
{
    let inner = inner_path(path, dir)->0;
    let pieces = split(inner);
    let sole = pieces.len() == 1;
    let params = declared_params(pieces, sole);
    lemma_split_pieces(inner);
    lemma_pattern_segments(pieces, sole);
    lemma_segments_empty();
    reveal_strlit("/");
    assert("/"@ =~= seq![slash()]);
    if pattern_text(pieces, sole).len() == 0 {
        assert(pattern_text(pieces, sole) =~= Seq::<char>::empty());
    }
    assert forall|i: int|
        0 <= i < pieces.len() && form_of(
            #[trigger] pieces[i],
            sole,
        ) is CatchAll implies declared_catch_all(params, form_of(pieces[i], sole)->CatchAll_0) by {
        lemma_catch_all_declared(pieces, sole, i);
    }
    lemma_forms_tokens(pieces, sole, params);
}

} // verus!
