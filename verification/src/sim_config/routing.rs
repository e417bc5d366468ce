//! Paths between the network nodes that hosts are on.

use std::collections::HashSet;

use vstd::prelude::*;
use vstd::std_specs::hash::group_hash_axioms;
use vstd::string::*;

use crate::sim_config::error::ConfigError;
use crate::sim_config::hosts::node_with_id;
use crate::sim_config::options::GraphNode;

verus! {

/// What is known of the path between each pair of nodes, by the numbers of the nodes.
#[derive(Debug)]
pub struct RoutingInfo<P> {
    pub paths: Vec<((u32, u32), P)>,
}

/// The numbers of the nodes in places of the network graph.
pub open spec fn numbers_at(graph: Seq<GraphNode>, places: Seq<usize>) -> Seq<u32> {
    Seq::new(places.len(), |i: int| graph[places[i] as int].id)
}

fn place_of(graph: &[GraphNode], id: u32) -> (place: usize)
    requires
        node_with_id(graph@, id) is Some,
    ensures
        place < graph@.len(),
        graph@[place as int] == node_with_id(graph@, id)->0,
        graph@[place as int].id == id,
{
    let mut i: usize = 0;
    assert(graph@.skip(0) =~= graph@);
    while i < graph.len()
        invariant
            i <= graph@.len(),
            node_with_id(graph@, id) is Some,
            node_with_id(graph@, id) == node_with_id(graph@.skip(i as int), id),
        decreases graph@.len() - i,
    {
        if graph[i].id == id {
            return i;
        }
        assert(graph@.skip(i as int).skip(1) =~= graph@.skip(i + 1));
        i += 1;
    }
    assert(false);
    0
}

/// The places of nodes in the network graph, in any order.
pub fn node_places(graph: &[GraphNode], nodes: &HashSet<u32>) -> (places: Vec<usize>)
    requires
        forall|id: u32| #[trigger] nodes@.contains(id) ==> node_with_id(graph@, id) is Some,
    ensures
        forall|i: int| 0 <= i < places@.len() ==> #[trigger] places@[i] < graph@.len(),
        numbers_at(graph@, places@).no_duplicates(),
        numbers_at(graph@, places@).to_set() == nodes@,
{
    broadcast use group_hash_axioms;

    let mut list: Vec<u32> = Vec::new();
    for id in it: nodes.iter()
        invariant
            it.seq().unref().to_set() == nodes@,
            it.seq().unref().no_duplicates(),
            list@ == it.seq().unref().take(it.index()),
            it.index() == it.seq().len() ==> list@ == it.seq().unref(),
    {
        list.push(*id);
    }
    assert(list@.to_set() == nodes@);
    let mut places: Vec<usize> = Vec::new();
    let mut i: usize = 0;
    while i < list.len()
        invariant
            i <= list@.len(),
            list@.to_set() == nodes@,
            forall|id: u32| #[trigger] nodes@.contains(id) ==> node_with_id(graph@, id) is Some,
            forall|j: int| 0 <= j < places@.len() ==> #[trigger] places@[j] < graph@.len(),
            numbers_at(graph@, places@) == list@.take(i as int),
        decreases list@.len() - i,
    {
        assert(list@.contains(list@[i as int]));
        assert(nodes@.contains(list@[i as int]));
        let ghost before = places@;
        places.push(place_of(graph, list[i]));
        assert(numbers_at(graph@, places@) =~= numbers_at(graph@, before).push(list@[i as int]));
        assert(list@.take(i + 1) =~= list@.take(i as int).push(list@[i as int]));
        i += 1;
    }
    assert(list@.take(i as int) =~= list@);
    places
}

/// What is said to the failure to find paths.
pub open spec fn path_failure_text(use_shortest_paths: bool) -> Seq<char> {
    if use_shortest_paths {
        "Failed to compute shortest paths between graph nodes"@
    } else {
        "Failed to get the direct paths between graph nodes"@
    }
}

/// Whether every path is between places of the network graph.
pub open spec fn paths_are_in_graph<P>(graph: Seq<GraphNode>, paths: Seq<((usize, usize), P)>) -> bool {
    forall|i: int|
        0 <= i < paths.len() ==> (#[trigger] paths[i]).0.0 < graph.len() && paths[i].0.1
            < graph.len()
}

/// The paths by the numbers of the nodes.
pub open spec fn numbered_paths<P>(graph: Seq<GraphNode>, paths: Seq<((usize, usize), P)>) -> Seq<
    ((u32, u32), P),
> {
    Seq::new(
        paths.len(),
        |i: int|
            (
                (graph[paths[i].0.0 as int].id, graph[paths[i].0.1 as int].id),
                paths[i].1,
            ),
    )
}

/// Whether routing information, or a failure, is what the search for paths comes to.
pub open spec fn is_routed<P>(
    routing: Result<RoutingInfo<P>, ConfigError>,
    graph: Seq<GraphNode>,
    paths: Result<Vec<((usize, usize), P)>, String>,
    use_shortest_paths: bool,
) -> bool {
    match paths {
        Ok(found) => routing matches Ok(r) && r.paths@ == numbered_paths(graph, found@),
        Err(cause) => routing matches Err(e) && e@ == seq![
            path_failure_text(use_shortest_paths),
            cause@,
        ],
    }
}

/// The routing information for paths between places of the network graph, or for the failure to
/// find them.
pub fn generate_routing_info<P>(
    graph: &[GraphNode],
    paths: Result<Vec<((usize, usize), P)>, String>,
    use_shortest_paths: bool,
) -> (routing: Result<RoutingInfo<P>, ConfigError>)
    requires
        paths matches Ok(found) ==> paths_are_in_graph(graph@, found@),
    ensures
        is_routed(routing, graph@, paths, use_shortest_paths),
{
    let ghost input = paths;
    let found = match paths {
        Ok(found) => found,
        Err(cause) => {
            let text = if use_shortest_paths {
                "Failed to compute shortest paths between graph nodes".to_owned()
            } else {
                "Failed to get the direct paths between graph nodes".to_owned()
            };
            let ghost said = cause@;
            let error = ConfigError::new(cause).context(text);
            assert(error@ =~= seq![path_failure_text(use_shortest_paths), said]);
            return Err(error);
        },
    };
    let ghost whole = found@;
    let mut numbered: Vec<((u32, u32), P)> = Vec::new();
    let ghost mut done: int = 0;
    for path in it: found
        invariant
            it.seq() == whole,
            it.index() == done,
            paths_are_in_graph(graph@, whole),
            numbered@ == numbered_paths(graph@, whole).take(done),
    {
        assert(path == whole[done]);
        let ((from, to), properties) = path;
        numbered.push(((graph[from].id, graph[to].id), properties));
        proof {
            let all = numbered_paths(graph@, whole);
            assert(all.take(done + 1) =~= all.take(done).push(all[done]));
            done = done + 1;
        }
    }
    assert(numbered_paths(graph@, whole).take(done) =~= numbered_paths(graph@, whole));
    Ok(RoutingInfo { paths: numbered })
}

/// Each path leads between the nodes in the places that it was found between, and keeps what is known
/// of it.
pub proof fn law_paths_lead_between_their_nodes<P>(
    graph: Seq<GraphNode>,
    paths: Seq<((usize, usize), P)>,
    i: int,
)
    requires
        paths_are_in_graph(graph, paths),
        0 <= i < paths.len(),
    ensures
        numbered_paths(graph, paths).len() == paths.len(),
        ({
            let ((from, to), properties) = numbered_paths(graph, paths)[i];
            let ((from_place, to_place), found) = paths[i];
            &&& from == graph[from_place as int].id
            &&& to == graph[to_place as int].id
            &&& properties == found
        }),
{
}

/// The numbers of places stand in the order of the places, and the failure of a search says which
/// paths were looked for.
pub proof fn law_numbers_of_places(graph: Seq<GraphNode>, places: Seq<usize>, i: int)
    requires
        0 <= i < places.len(),
    ensures
        numbers_at(graph, places).len() == places.len(),
        numbers_at(graph, places)[i] == graph[places[i] as int].id,
        path_failure_text(true) == "Failed to compute shortest paths between graph nodes"@,
        path_failure_text(false) == "Failed to get the direct paths between graph nodes"@,
{
}

} // verus!
