use vstd::prelude::*;
use crate::errors::{RouteError, RouteErrorModel};
use crate::matcher::{match_route, route_match, RouteMatch};
use crate::pattern::{pattern_tokens, score_of, score_spec};
use crate::route::{RouteKind, RouteModel, RouteSpec};

verus! {

/// The routes of an application, each with its handler, and at most one
/// fallback handler. The order of `routes` is the order of insertion.
#[derive(Debug)]
pub struct RouteTable<T> {
    pub routes: Vec<(RouteSpec, T)>,
    pub fallback: Option<T>,
}

/// What a path resolves to in a table.
#[derive(Debug)]
pub enum Resolved<'a, T> {
    /// The route at `index` is the best match.
    Matched { index: usize, handler: &'a T, matched: RouteMatch },
    /// No route matches, and the table has a fallback.
    Fallback { handler: &'a T },
    /// No route matches, and the table has no fallback.
    NotFound,
}

/// Why `route` cannot be added to a table that holds `earlier` already: a
/// fallback beside a fallback, or a pattern that is stored already.
pub open spec fn clashes(earlier: RouteModel, route: RouteModel) -> bool {
    if route.kind == RouteKind::Fallback {
        earlier.kind == RouteKind::Fallback
    } else {
        earlier.kind != RouteKind::Fallback && earlier.path == route.path
    }
}

/// The error with which `route` is turned away.
pub open spec fn rejection(route: RouteModel) -> RouteErrorModel {
    if route.kind == RouteKind::Fallback {
        RouteErrorModel::MultipleFallbacks
    } else {
        RouteErrorModel::DuplicateRoute(route.path)
    }
}

/// Whether entry `k` of `entries` clashes with an entry before it.
pub open spec fn rejected_at<T>(entries: Seq<(RouteSpec, T)>, k: int) -> bool {
    exists|j: int| 0 <= j < k && clashes((#[trigger] entries[j]).0@, entries[k].0@)
}

/// Whether entry `k` is the first of `entries` that clashes with one before it.
pub open spec fn first_rejected<T>(entries: Seq<(RouteSpec, T)>, k: int) -> bool {
    &&& 0 <= k < entries.len()
    &&& rejected_at(entries, k)
    &&& forall|j: int| 0 <= j < k ==> !#[trigger] rejected_at(entries, j)
}

/// The entries that are no fallback, in their order.
pub open spec fn ordinary<T>(entries: Seq<(RouteSpec, T)>) -> Seq<(RouteSpec, T)>
    decreases entries.len(),
{
    if entries.len() == 0 {
        entries
    } else if entries.last().0.kind == RouteKind::Fallback {
        ordinary(entries.drop_last())
    } else {
        ordinary(entries.drop_last()).push(entries.last())
    }
}

/// The handler of the last fallback among the entries, if there is one.
pub open spec fn fallback_of<T>(entries: Seq<(RouteSpec, T)>) -> Option<T>
    decreases entries.len(),
{
    if entries.len() == 0 {
        None
    } else if entries.last().0.kind == RouteKind::Fallback {
        Some(entries.last().1)
    } else {
        fallback_of(entries.drop_last())
    }
}

/// Whether one of `routes` has the pattern `pattern`.
pub open spec fn holds_pattern<T>(routes: Seq<(RouteSpec, T)>, pattern: Seq<char>) -> bool {
    exists|i: int| 0 <= i < routes.len() && (#[trigger] routes[i]).0.path@ == pattern
}

/// The specificity of a route's pattern.
pub open spec fn route_score(route: RouteModel) -> nat {
    score_of(pattern_tokens(route.path, route.params))
}

/// Whether route `best` wins for `path`: it matches, no matching route has a
/// higher score, and none with the same score stands before it.
pub open spec fn is_best<T>(routes: Seq<(RouteSpec, T)>, path: Seq<char>, best: int) -> bool {
    &&& 0 <= best < routes.len()
    &&& route_match(routes[best].0@, path) is Some
    &&& forall|j: int|
        0 <= j < routes.len() && route_match((#[trigger] routes[j]).0@, path) is Some ==> {
            ||| route_score(routes[j].0@) < route_score(routes[best].0@)
            ||| route_score(routes[j].0@) == route_score(routes[best].0@) && best <= j
        }
}

/// Whether none of `routes` matches `path`.
pub open spec fn none_matches<T>(routes: Seq<(RouteSpec, T)>, path: Seq<char>) -> bool {
    forall|j: int| 0 <= j < routes.len() ==> route_match((#[trigger] routes[j]).0@, path) is None
}

/// Only one route can win for a path.
pub proof fn law_best_is_unique<T>(routes: Seq<(RouteSpec, T)>, path: Seq<char>, a: int, b: int)
    requires
        is_best(routes, path, a),
        is_best(routes, path, b),
    ensures
        a == b,
{
    assert(route_match(routes[a].0@, path) is Some);
    assert(route_match(routes[b].0@, path) is Some);
}

/// The ordinary entries hold a pattern just when an entry that is no fallback has it.
pub proof fn lemma_ordinary_holds<T>(entries: Seq<(RouteSpec, T)>, pattern: Seq<char>)
    ensures
        holds_pattern(ordinary(entries), pattern) <==> exists|j: int|
            0 <= j < entries.len() && (#[trigger] entries[j]).0.kind != RouteKind::Fallback
                && entries[j].0.path@ == pattern,
        forall|i: int|
            0 <= i < ordinary(entries).len() ==> (#[trigger] ordinary(entries)[i]).0.kind
                != RouteKind::Fallback,
    decreases entries.len(),
{
    if entries.len() > 0 {
        let before = entries.drop_last();
        lemma_ordinary_holds(before, pattern);
        if holds_pattern(ordinary(entries), pattern) {
            let i = choose|i: int|
                0 <= i < ordinary(entries).len() && (#[trigger] ordinary(entries)[i]).0.path@
                    == pattern;
            if i < ordinary(before).len() {
                assert(ordinary(before)[i].0.path@ == pattern);
                let j = choose|j: int|
                    0 <= j < before.len() && (#[trigger] before[j]).0.kind != RouteKind::Fallback
                        && before[j].0.path@ == pattern;
                assert(entries[j].0.path@ == pattern);
            } else {
                assert(entries[entries.len() - 1].0.path@ == pattern);
            }
        }
        if exists|j: int|
            0 <= j < entries.len() && (#[trigger] entries[j]).0.kind != RouteKind::Fallback
                && entries[j].0.path@ == pattern {
            let j = choose|j: int|
                0 <= j < entries.len() && (#[trigger] entries[j]).0.kind != RouteKind::Fallback
                    && entries[j].0.path@ == pattern;
            if j < before.len() {
                assert(before[j].0.path@ == pattern);
                let i = choose|i: int|
                    0 <= i < ordinary(before).len() && (#[trigger] ordinary(before)[i]).0.path@
                        == pattern;
                assert(ordinary(entries)[i].0.path@ == pattern);
            } else {
                assert(ordinary(entries)[ordinary(entries).len() - 1].0.path@ == pattern);
            }
        }
    }
}

/// There is a fallback handler just when one of the entries is a fallback.
pub proof fn lemma_fallback_of<T>(entries: Seq<(RouteSpec, T)>)
    ensures
        fallback_of(entries) is Some <==> exists|j: int|
            0 <= j < entries.len() && (#[trigger] entries[j]).0.kind == RouteKind::Fallback,
    decreases entries.len(),
{
    if entries.len() > 0 {
        let before = entries.drop_last();
        lemma_fallback_of(before);
        if entries.last().0.kind == RouteKind::Fallback {
            assert(entries[entries.len() - 1].0.kind == RouteKind::Fallback);
        } else if fallback_of(before) is Some {
            let j = choose|j: int|
                0 <= j < before.len() && (#[trigger] before[j]).0.kind == RouteKind::Fallback;
            assert(entries[j].0.kind == RouteKind::Fallback);
        } else if exists|j: int|
            0 <= j < entries.len() && (#[trigger] entries[j]).0.kind == RouteKind::Fallback {
            let j = choose|j: int|
                0 <= j < entries.len() && (#[trigger] entries[j]).0.kind == RouteKind::Fallback;
            assert(before[j].0.kind == RouteKind::Fallback);
        }
    }
}

impl<T: Clone> Clone for RouteTable<T> {
    fn clone(&self) -> (copy: Self)
        ensures
            copy.routes@.len() == self.routes@.len(),
            forall|i: int|
                0 <= i < self.routes@.len() ==> (#[trigger] copy.routes@[i]).0@
                    == self.routes@[i].0@,
            copy.fallback is Some <==> self.fallback is Some,
    {
        let mut routes: Vec<(RouteSpec, T)> = Vec::new();
        let mut i: usize = 0;
        while i < self.routes.len()
            invariant
                i <= self.routes@.len(),
                routes@.len() == i,
                forall|j: int| 0 <= j < i ==> (#[trigger] routes@[j]).0@ == self.routes@[j].0@,
            decreases self.routes@.len() - i,
        {
            routes.push((self.routes[i].0.clone(), self.routes[i].1.clone()));
            i += 1;
        }
        let fallback = match &self.fallback {
            Some(handler) => Some(handler.clone()),
            None => None,
        };
        RouteTable { routes, fallback }
    }
}

impl<T> RouteTable<T> {
    /// The invariant of a table: no two routes have the same pattern, and no
    /// fallback stands among the routes.
    pub open spec fn wf(&self) -> bool {
        &&& forall|i: int, j: int|
            0 <= i < j < self.routes@.len() ==> (#[trigger] self.routes@[i]).0.path@ != (
            #[trigger] self.routes@[j]).0.path@
        &&& forall|i: int|
            0 <= i < self.routes@.len() ==> (#[trigger] self.routes@[i]).0.kind
                != RouteKind::Fallback
    }

    /// The error with which the table turns `route` away, if it does.
    pub open spec fn refusal(&self, route: RouteModel) -> Option<RouteErrorModel> {
        if route.kind == RouteKind::Fallback {
            if self.fallback is Some {
                Some(RouteErrorModel::MultipleFallbacks)
            } else {
                None
            }
        } else if holds_pattern(self.routes@, route.path) {
            Some(RouteErrorModel::DuplicateRoute(route.path))
        } else {
            None
        }
    }

    /// A table without routes and without a fallback.
    pub fn new() -> (table: Self)
        ensures
            table.routes@.len() == 0,
            table.fallback is None,
            table.wf(),
    {
        Self { routes: Vec::new(), fallback: None }
    }

    /// An empty table with room for `capacity` routes.
    pub fn with_capacity(capacity: usize) -> (table: Self)
        ensures
            table.routes@.len() == 0,
            table.fallback is None,
            table.wf(),
    {
        Self { routes: Vec::with_capacity(capacity), fallback: None }
    }

    /// Whether one of the routes has the pattern `pattern`.
    pub fn has_pattern(&self, pattern: &String) -> (found: bool)
        ensures
            found == holds_pattern(self.routes@, pattern@),
    {
        let mut i: usize = 0;
        while i < self.routes.len()
            invariant
                i <= self.routes@.len(),
                forall|j: int| 0 <= j < i ==> (#[trigger] self.routes@[j]).0.path@ != pattern@,
            decreases self.routes@.len() - i,
        {
            if self.routes[i].0.path == *pattern {
                return true;
            }
            i += 1;
        }
        false
    }

    /// Adds a route with its handler. A fallback goes to the fallback slot,
    /// which must be free; any other route goes to the end of `routes`, where
    /// no route may have its pattern yet. A route that is turned away leaves
    /// the table as it was.
    pub fn insert(&mut self, spec: RouteSpec, handler: T) -> (result: Result<(), RouteError>)
        ensures
            match result {
                Ok(()) => {
                    &&& old(self).refusal(spec@) is None
                    &&& if spec.kind == RouteKind::Fallback {
                        &&& final(self).fallback == Some(handler)
                        &&& final(self).routes == old(self).routes
                    } else {
                        &&& final(self).routes@ == old(self).routes@.push((spec, handler))
                        &&& final(self).fallback == old(self).fallback
                    }
                },
                Err(error) => {
                    &&& old(self).refusal(spec@) == Some(error@)
                    &&& *final(self) == *old(self)
                },
            },
            old(self).wf() ==> final(self).wf(),
    {
        if spec.kind == RouteKind::Fallback {
            if self.fallback.is_some() {
                return Err(RouteError::MultipleFallbacks);
            }
            self.fallback = Some(handler);
            return Ok(());
        }
        if self.has_pattern(&spec.path) {
            return Err(RouteError::DuplicateRoute(spec.path));
        }
        self.routes.push((spec, handler));
        Ok(())
    }

    /// Builds a table from `routes`, inserted in their order. The first route
    /// that is turned away fails the whole construction with its error.
    pub fn from_routes(routes: Vec<(RouteSpec, T)>) -> (result: Result<Self, RouteError>)
        ensures
            match result {
                Ok(table) => {
                    &&& forall|k: int| 0 <= k < routes@.len() ==> !#[trigger] rejected_at(routes@, k)
                    &&& table.routes@ == ordinary(routes@)
                    &&& table.fallback == fallback_of(routes@)
                    &&& table.wf()
                },
                Err(error) => exists|k: int| #[trigger]
                    first_rejected(routes@, k) && error@ == rejection(routes@[k].0@),
            },
    {
        let ghost all = routes@;
        let mut table = Self::new();
        assert(all.take(0) =~= Seq::<(RouteSpec, T)>::empty());
        for entry in it: routes.into_iter()
            invariant
                it.seq() == all,
                forall|k: int| 0 <= k < it.index() ==> !#[trigger] rejected_at(all, k),
                table.routes@ == ordinary(all.take(it.index())),
                table.fallback == fallback_of(all.take(it.index())),
                table.wf(),
        {
            let ghost k = it.index();
            let ghost seen = all.take(k);
            let ghost route = entry.0@;
            assert(all.take(k + 1).drop_last() =~= seen);
            assert(all.take(k + 1).last() == entry);
            proof {
                lemma_ordinary_holds(seen, route.path);
                lemma_fallback_of(seen);
                if table.refusal(route) is Some {
                    if route.kind == RouteKind::Fallback {
                        let j = choose|j: int|
                            0 <= j < seen.len() && (#[trigger] seen[j]).0.kind
                                == RouteKind::Fallback;
                        assert(clashes(all[j].0@, all[k].0@));
                    } else {
                        let j = choose|j: int|
                            0 <= j < seen.len() && (#[trigger] seen[j]).0.kind
                                != RouteKind::Fallback && seen[j].0.path@ == route.path;
                        assert(clashes(all[j].0@, all[k].0@));
                    }
                    assert(first_rejected(all, k));
                } else {
                    if rejected_at(all, k) {
                        let j = choose|j: int|
                            0 <= j < k && clashes((#[trigger] all[j]).0@, all[k].0@);
                        assert(seen[j] == all[j]);
                    }
                }
            }
            let (spec, handler) = entry;
            match table.insert(spec, handler) {
                Ok(()) => {},
                Err(error) => {
                    return Err(error);
                },
            }
        }
        assert(all.take(all.len() as int) =~= all);
        Ok(table)
    }

    /// The route that wins for `path`, with the values of its parameters: of
    /// the routes that match, the one with the highest score, and of several
    /// with that score the one that was inserted first.
    pub fn best_match(&self, path: &str) -> (found: Option<(usize, RouteMatch)>)
        ensures
            match found {
                Some((index, matched)) => {
                    &&& is_best(self.routes@, path@, index as int)
                    &&& matched@.spec == self.routes@[index as int].0@
                    &&& route_match(matched@.spec, path@) == Some(matched@.params)
                },
                None => none_matches(self.routes@, path@),
            },
    {
        let mut best: Option<(usize, RouteMatch)> = None;
        let mut best_score: u128 = 0;
        let mut i: usize = 0;
        while i < self.routes.len()
            invariant
                i <= self.routes@.len(),
                match best {
                    Some((index, matched)) => {
                        &&& index < i
                        &&& best_score == route_score(self.routes@[index as int].0@)
                        &&& matched@.spec == self.routes@[index as int].0@
                        &&& route_match(matched@.spec, path@) == Some(matched@.params)
                        &&& forall|j: int|
                            0 <= j < i && route_match((#[trigger] self.routes@[j]).0@, path@)
                                is Some ==> {
                                ||| route_score(self.routes@[j].0@) < best_score
                                ||| route_score(self.routes@[j].0@) == best_score && index <= j
                            }
                    },
                    None => forall|j: int|
                        0 <= j < i ==> route_match((#[trigger] self.routes@[j]).0@, path@) is None,
                },
            decreases self.routes@.len() - i,
        {
            match match_route(&self.routes[i].0, path) {
                Some(matched) => {
                    let score = score_spec(&self.routes[i].0);
                    if best.is_none() || best_score < score {
                        best = Some((i, matched));
                        best_score = score;
                    }
                },
                None => {},
            }
            i += 1;
        }
        best
    }

    /// What `path` resolves to: the best matching route, else the fallback,
    /// else nothing.
    pub fn resolve<'a>(&'a self, path: &str) -> (resolved: Resolved<'a, T>)
        ensures
            match resolved {
                Resolved::Matched { index, handler, matched } => {
                    &&& is_best(self.routes@, path@, index as int)
                    &&& *handler == self.routes@[index as int].1
                    &&& matched@.spec == self.routes@[index as int].0@
                    &&& route_match(matched@.spec, path@) == Some(matched@.params)
                },
                Resolved::Fallback { handler } => {
                    &&& none_matches(self.routes@, path@)
                    &&& self.fallback == Some(*handler)
                },
                Resolved::NotFound => {
                    &&& none_matches(self.routes@, path@)
                    &&& self.fallback is None
                },
            },
    {
        match self.best_match(path) {
            Some((index, matched)) => Resolved::Matched {
                index,
                handler: &self.routes[index].1,
                matched,
            },
            None => match &self.fallback {
                Some(handler) => Resolved::Fallback { handler },
                None => Resolved::NotFound,
            },
        }
    }
}

} // verus!
