use vstd::prelude::*;

verus! {

/// Why a source path could not be compiled, or a route not be stored.
#[derive(Debug)]
pub enum RouteError {
    /// A route with this pattern is already in the table.
    DuplicateRoute(String),
    /// The source path is not under the page directory, or is not a source file.
    InvalidGrammar(String),
    /// The table already has a fallback.
    MultipleFallbacks,
}

/// Why a concrete path could not be built or navigated to.
#[derive(Debug, PartialEq, Eq)]
pub enum NavigateError {
    /// No route of the table has this identifier.
    RouteIdNotFound(u64),
    /// The pattern has a parameter for which no value was supplied.
    MissingParam { name: String },
    /// The pattern holds a wildcard, for which no value can be supplied.
    UnsupportedWildcard,
}

/// What a `RouteError` stands for, with texts as sequences of characters.
pub ghost enum RouteErrorModel {
    DuplicateRoute(Seq<char>),
    InvalidGrammar(Seq<char>),
    MultipleFallbacks,
}

impl View for RouteError {
    type V = RouteErrorModel;

    open spec fn view(&self) -> RouteErrorModel {
        match self {
            RouteError::DuplicateRoute(pattern) => RouteErrorModel::DuplicateRoute(pattern@),
            RouteError::InvalidGrammar(message) => RouteErrorModel::InvalidGrammar(message@),
            RouteError::MultipleFallbacks => RouteErrorModel::MultipleFallbacks,
        }
    }
}

/// What a `NavigateError` stands for, with texts as sequences of characters.
pub ghost enum NavigateErrorModel {
    RouteIdNotFound(u64),
    MissingParam { name: Seq<char> },
    UnsupportedWildcard,
}

impl View for NavigateError {
    type V = NavigateErrorModel;

    open spec fn view(&self) -> NavigateErrorModel {
        match self {
            NavigateError::RouteIdNotFound(id) => NavigateErrorModel::RouteIdNotFound(*id),
            NavigateError::MissingParam { name } => NavigateErrorModel::MissingParam { name: name@ },
            NavigateError::UnsupportedWildcard => NavigateErrorModel::UnsupportedWildcard,
        }
    }
}

impl Clone for NavigateError {
    fn clone(&self) -> (copy: Self)
        ensures
            copy == *self,
    {
        match self {
            NavigateError::RouteIdNotFound(id) => NavigateError::RouteIdNotFound(*id),
            NavigateError::MissingParam { name } => NavigateError::MissingParam {
                name: name.clone(),
            },
            NavigateError::UnsupportedWildcard => NavigateError::UnsupportedWildcard,
        }
    }
}

} // verus!
