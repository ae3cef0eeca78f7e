//! The order of the finished list: by route, lexicographically.

use vstd::prelude::*;
use crate::order::{
    arranged, keys_view, lemma_arranged_is_permutation, lemma_sorted_order, order_by_key,
    positions, sorted_order,
};
use crate::text::{chars_of, lemma_text_le_antisymmetric, text_le, text_lt};
use crate::{distinct_routes, routes_view, RouteInfo, RouteView};

verus! {

/// The route texts of the records.
pub open spec fn route_keys(routes: Seq<RouteView>) -> Seq<Seq<char>> {
    routes.map_values(|r: RouteView| r.route)
}

/// The records in lexicographic order of their routes; records with the same
/// route stay in their order.
pub open spec fn sorted_by_route(routes: Seq<RouteView>) -> Seq<RouteView> {
    arranged(routes, sorted_order(route_keys(routes)))
}

/// The sorted list holds the records of the list it was made from, each as
/// often as that list, and their routes never go down along it. Where no two
/// records have the same route, the routes go strictly up.
pub proof fn lemma_sorted_by_route(routes: Seq<RouteView>)
    ensures
        sorted_by_route(routes).len() == routes.len(),
        sorted_by_route(routes).to_multiset() == routes.to_multiset(),
        forall|i: int, j: int|
            0 <= i < j < routes.len() ==> text_le(
                (#[trigger] sorted_by_route(routes)[i]).route,
                (#[trigger] sorted_by_route(routes)[j]).route,
            ),
        distinct_routes(routes) ==> forall|i: int, j: int|
            0 <= i < j < routes.len() ==> text_lt(
                (#[trigger] sorted_by_route(routes)[i]).route,
                (#[trigger] sorted_by_route(routes)[j]).route,
            ) && !text_le(sorted_by_route(routes)[j].route, sorted_by_route(routes)[i].route),
{
    let keys = route_keys(routes);
    let order = sorted_order(keys);
    let sorted = sorted_by_route(routes);
    lemma_sorted_order(keys);
    lemma_arranged_is_permutation(routes, keys);
    assert forall|i: int, j: int| 0 <= i < j < routes.len() implies text_le(
        (#[trigger] sorted[i]).route,
        (#[trigger] sorted[j]).route,
    ) by {
        assert(0 <= order[i] < keys.len() && 0 <= order[j] < keys.len());
        assert(text_le(keys[order[i]], keys[order[j]]));
    }
    if distinct_routes(routes) {
        assert forall|i: int, j: int| 0 <= i < j < routes.len() implies text_lt(
            (#[trigger] sorted[i]).route,
            (#[trigger] sorted[j]).route,
        ) && !text_le(sorted[j].route, sorted[i].route) by {
            assert(0 <= order[i] < keys.len() && 0 <= order[j] < keys.len());
            assert(text_le(keys[order[i]], keys[order[j]]));
            if text_le(keys[order[j]], keys[order[i]]) {
                lemma_text_le_antisymmetric(keys[order[i]], keys[order[j]]);
                assert(order[i] < order[j]);
                assert(routes[order[i]].route != routes[order[j]].route);
            }
        }
    }
}

/// Sorts the list by route, lexicographically; records with the same route
/// stay in their order.
pub fn sort_by_route(routes: &mut Vec<RouteInfo>)
    ensures
        routes_view(final(routes)@) == sorted_by_route(routes_view(old(routes)@)),
{
    let ghost views = routes_view(routes@);
    let mut keys: Vec<Vec<char>> = Vec::new();
    let mut i: usize = 0;
    while i < routes.len()
        invariant
            i <= routes.len(),
            keys@.len() == i,
            forall|j: int| 0 <= j < i ==> (#[trigger] keys@[j])@ == routes@[j].route@,
        decreases routes.len() - i,
    {
        keys.push(chars_of(routes[i].route.as_str()));
        i += 1;
    }
    assert(keys_view(keys@) =~= route_keys(views));
    let order = order_by_key(&keys);
    let mut sorted: Vec<RouteInfo> = Vec::new();
    let mut k: usize = 0;
    while k < order.len()
        invariant
            k <= order.len(),
            order@.len() == routes@.len(),
            views == routes_view(routes@),
            positions(order@) == sorted_order(route_keys(views)),
            forall|j: int| 0 <= j < order@.len() ==> #[trigger] order@[j] < routes@.len(),
            sorted@.len() == k,
            forall|j: int| 0 <= j < k ==> (#[trigger] sorted@[j])@ == views[order@[j] as int],
        decreases order.len() - k,
    {
        sorted.push(routes[order[k]].clone());
        k += 1;
    }
    assert(routes_view(sorted@) =~= sorted_by_route(views)) by {
        assert forall|j: int| 0 <= j < sorted@.len() implies routes_view(sorted@)[j]
            == sorted_by_route(views)[j] by {
            assert(positions(order@)[j] == order@[j] as int);
        }
    }
    *routes = sorted;
}

} // verus!
