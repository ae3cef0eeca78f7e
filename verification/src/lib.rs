//! Discovery of the routes of a web application from the naming conventions of
//! its page directories, and the sitemap that lists them.

use vstd::prelude::*;

pub mod builder;
pub mod options;
pub mod order;
pub mod scanner;
pub mod segment;
pub mod sitemap;
pub mod sitemap_json;
pub mod sitemap_xml;
pub mod text;
pub mod tree;
pub mod walker;

verus! {

/// A point in time: whole seconds since the Unix epoch and the nanoseconds
/// within that second.
#[derive(Clone, Copy, Debug, PartialEq, Eq, Structural)]
pub struct Timestamp {
    pub secs: i64,
    pub nanos: u32,
}

/// One route of the application.
#[derive(Debug)]
pub struct RouteInfo {
    /// The canonical URL path. It starts with `/`; a dynamic segment reads
    /// `:name`, a catch-all `:name+`, an optional catch-all `:name*`.
    pub route: String,
    /// The path of the page file, relative to the scanned root.
    pub path: String,
    /// A short title for the route.
    pub label: String,
    /// A one-line summary of the route.
    pub description: String,
    /// When the page file was last modified, where that is known.
    pub last_modified: Option<Timestamp>,
}

/// A route as plain values.
pub struct RouteView {
    pub route: Seq<char>,
    pub path: Seq<char>,
    pub label: Seq<char>,
    pub description: Seq<char>,
    pub last_modified: Option<Timestamp>,
}

impl View for RouteInfo {
    type V = RouteView;

    open spec fn view(&self) -> RouteView {
        RouteView {
            route: self.route@,
            path: self.path@,
            label: self.label@,
            description: self.description@,
            last_modified: self.last_modified,
        }
    }
}

impl Clone for RouteInfo {
    fn clone(&self) -> (r: Self)
        ensures
            r == *self,
    {
        RouteInfo {
            route: self.route.clone(),
            path: self.path.clone(),
            label: self.label.clone(),
            description: self.description.clone(),
            last_modified: self.last_modified,
        }
    }
}

/// The views of a list of routes.
pub open spec fn routes_view(routes: Seq<RouteInfo>) -> Seq<RouteView> {
    routes.map_values(|r: RouteInfo| r@)
}

/// No two records have the same route.
pub open spec fn distinct_routes(routes: Seq<RouteView>) -> bool {
    forall|i: int, j: int|
        0 <= i < j < routes.len() ==> (#[trigger] routes[i]).route != (#[trigger] routes[j]).route
}

} // verus!
