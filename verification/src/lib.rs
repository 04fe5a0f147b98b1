//! File-system routing: source paths under a page directory are compiled into
//! route patterns, patterns are matched against request paths, and a table
//! of routes picks the most specific match.
//!
//! - `grammar`: from a source path to a route.
//! - `pattern`: from a pattern to its tokens, and their specificity.
//! - `matcher`: tokens against the segments of a path.
//! - `builder`: from a pattern and values for its parameters to a path.
//! - `table`: routes with their handlers, and the choice among them.
//! - `router`: a table together with the path currently shown.
//! - `header`: the lines of the debug header.
//! - `laws`: what holds of building and matching together.
//! - `text`: slashes, segments, prefixes and suffixes.

pub mod builder;
pub mod errors;
pub mod grammar;
pub mod header;
pub mod laws;
pub mod matcher;
pub mod pattern;
pub mod route;
pub mod router;
pub mod table;
pub mod text;

pub use builder::build_path;
pub use errors::{NavigateError, RouteError};
pub use grammar::parse_file_path;
pub use matcher::{match_route, RouteMatch};
pub use route::{ParamKind, ParamSpec, RouteKind, RouteSpec};
pub use router::RouterView;
pub use table::{Resolved, RouteTable};
