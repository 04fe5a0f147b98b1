use vstd::prelude::*;
use crate::builder::{build_path, built_path, value_models};
use crate::errors::{NavigateError, NavigateErrorModel};
use crate::matcher::route_match;
use crate::route::RouteSpec;
use crate::table::{is_best, none_matches, Resolved, RouteTable};

verus! {

/// A table of routes together with the path that is currently shown.
pub struct RouterView<T> {
    table: RouteTable<T>,
    current_route: String,
}

/// The position of the first of `routes` whose identifier is `id`, if any.
pub open spec fn first_with_id<T>(routes: Seq<(RouteSpec, T)>, id: u64) -> Option<int>
    decreases routes.len(),
{
    if routes.len() == 0 {
        None
    } else if first_with_id(routes.drop_last(), id) is Some {
        first_with_id(routes.drop_last(), id)
    } else if routes.last().0.id == id {
        Some(routes.len() - 1)
    } else {
        None
    }
}

/// Where navigating to the route with identifier `id` leads, with `values`
/// for its parameters: to the path built for the first route with that
/// identifier.
pub open spec fn destination<T>(
    routes: Seq<(RouteSpec, T)>,
    id: u64,
    values: Seq<(Seq<char>, Seq<char>)>,
) -> Result<Seq<char>, NavigateErrorModel> {
    match first_with_id(routes, id) {
        Some(index) => built_path(routes[index].0@, values),
        None => Err(NavigateErrorModel::RouteIdNotFound(id)),
    }
}

impl<T> RouterView<T> {
    /// The routes that the view chooses from.
    pub closed spec fn routes(&self) -> RouteTable<T> {
        self.table
    }

    /// The path that the view currently shows.
    pub closed spec fn current(&self) -> Seq<char> {
        self.current_route@
    }

    /// A view on `table` that shows `initial_route`.
    pub fn new(table: RouteTable<T>, initial_route: String) -> (view: Self)
        ensures
            view.routes() == table,
            view.current() == initial_route@,
    {
        Self { table, current_route: initial_route }
    }

    /// The path that the view currently shows.
    pub fn route(&self) -> (route: &str)
        ensures
            route@ == self.current(),
    {
        self.current_route.as_str()
    }

    /// Makes `route` the path that the view shows.
    pub fn navigate(&mut self, route: String)
        ensures
            final(self).current() == route@,
            final(self).routes() == old(self).routes(),
    {
        self.current_route = route;
    }

    /// Makes `route` the path that the view shows.
    pub fn set_route(&mut self, route: String)
        ensures
            final(self).current() == route@,
            final(self).routes() == old(self).routes(),
    {
        self.navigate(route);
    }

    /// The position of the first route with identifier `route_id`, if any.
    pub fn find_by_id(&self, route_id: u64) -> (found: Option<usize>)
        ensures
            match found {
                Some(index) => first_with_id(self.routes().routes@, route_id) == Some(index as int),
                None => first_with_id(self.routes().routes@, route_id) is None,
            },
            found matches Some(index) ==> index < self.routes().routes@.len(),
    {
        let ghost all = self.table.routes@;
        let mut i: usize = 0;
        assert(all.take(0) =~= Seq::<(RouteSpec, T)>::empty());
        while i < self.table.routes.len()
            invariant
                i <= self.table.routes@.len(),
                all == self.table.routes@,
                first_with_id(all.take(i as int), route_id) is None,
            decreases self.table.routes@.len() - i,
        {
            assert(all.take(i + 1).drop_last() =~= all.take(i as int));
            if self.table.routes[i].0.id == route_id {
                proof {
                    lemma_first_stays(all, route_id, i + 1);
                }
                return Some(i);
            }
            i += 1;
        }
        assert(all.take(all.len() as int) =~= all);
        None
    }

    /// Navigates to the route with identifier `route_id`, with `params` as the
    /// values of its parameters. If there is no such route, or its path cannot
    /// be built, the view goes on showing what it showed.
    pub fn navigate_by_id(&mut self, route_id: u64, params: &[(&str, &str)]) -> (result: Result<
        (),
        NavigateError,
    >)
        ensures
            match result {
                Ok(()) => destination(old(self).routes().routes@, route_id, value_models(params@))
                    == Ok::<Seq<char>, NavigateErrorModel>(final(self).current()),
                Err(error) => {
                    &&& destination(old(self).routes().routes@, route_id, value_models(params@))
                        == Err::<Seq<char>, NavigateErrorModel>(error@)
                    &&& final(self).current() == old(self).current()
                },
            },
            final(self).routes() == old(self).routes(),
    {
        let index = match self.find_by_id(route_id) {
            Some(index) => index,
            None => {
                return Err(NavigateError::RouteIdNotFound(route_id));
            },
        };
        let route = match build_path(&self.table.routes[index].0, params) {
            Ok(route) => route,
            Err(error) => {
                return Err(error);
            },
        };
        self.navigate(route);
        Ok(())
    }

    /// The routes that the view chooses from.
    pub fn table(&self) -> (table: &RouteTable<T>)
        ensures
            *table == self.routes(),
    {
        &self.table
    }

    /// The routes that the view chooses from, to be changed in place.
    pub fn table_mut(&mut self) -> (table: &mut RouteTable<T>)
        ensures
            *table == old(self).routes(),
            final(self).routes() == *final(table),
            final(self).current() == old(self).current(),
    {
        &mut self.table
    }

    /// What the view shows for its current path: the handler of the best
    /// matching route, else the fallback handler, else nothing.
    pub fn resolve<'a>(&'a self) -> (resolved: Resolved<'a, T>)
        ensures
            match resolved {
                Resolved::Matched { index, handler, matched } => {
                    &&& is_best(self.routes().routes@, self.current(), index as int)
                    &&& *handler == self.routes().routes@[index as int].1
                    &&& matched@.spec == self.routes().routes@[index as int].0@
                    &&& route_match(matched@.spec, self.current()) == Some(matched@.params)
                },
                Resolved::Fallback { handler } => {
                    &&& none_matches(self.routes().routes@, self.current())
                    &&& self.routes().fallback == Some(*handler)
                },
                Resolved::NotFound => {
                    &&& none_matches(self.routes().routes@, self.current())
                    &&& self.routes().fallback is None
                },
            },
    {
        self.table.resolve(self.current_route.as_str())
    }
}

/// The first route with an identifier among the first `k` routes is the first
/// among all of them.
pub proof fn lemma_first_stays<T>(routes: Seq<(RouteSpec, T)>, id: u64, k: int)
    requires
        0 <= k <= routes.len(),
        first_with_id(routes.take(k), id) is Some,
    ensures
        first_with_id(routes, id) == first_with_id(routes.take(k), id),
    decreases routes.len(),
{
    if k == routes.len() {
        assert(routes.take(k) =~= routes);
    } else {
        assert(routes.drop_last().take(k) =~= routes.take(k));
        lemma_first_stays(routes.drop_last(), id, k);
    }
}

} // verus!
