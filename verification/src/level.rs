//! One layer of the index: a proximity graph with greedy local search and
//! the upkeep of its neighbour lists.
use std::marker::PhantomData;
use vstd::prelude::*;

use crate::distance::{Distance, DistanceFunction, VectorModel};
use crate::list::{
    contains_id, dedup_by_id, deduplicated, first_farther, has_distinct_id_list,
    has_distinct_ids, has_id, insert_sorted, is_ascending, is_ascending_list,
    keep_nearest, lemma_dedup_by_id_ascending, lemma_dedup_by_id_distinct,
    lemma_dedup_by_id_entries, lemma_first_farther, lemma_keep_nearest,
    lemma_sort_by_distance, lemma_sort_by_distance_entries, lemma_sorted_insert_ascending,
    lemma_sorted_insert_distinct, lemma_sorted_insert_entries, lemma_sorted_insert_ids,
    nearest_entries, sort_by_distance, sorted_by_distance, sorted_insert,
};
use crate::node::{
    neighbours_from_vec, neighbours_to_vec, GraphNode, GraphNodeIdx, GraphNodeModel, Neighbour,
    NodeIdx, MAX_NEIGHBOURS,
};
use crate::store::{
    graph_get, graph_get_mut, graph_len, graph_model, graph_new, graph_push, node_store_get,
    stored_nodes, stored_vectors, Graph, NodeStore,
};

verus! {

/// The mathematical value of a layer: its graph nodes, by position.
pub type GraphModel = Seq<GraphNodeModel>;

/// Every graph node stands for a stored vector, and every neighbour entry
/// names a graph node of the same layer.
pub open spec fn graph_is_sound(graph: GraphModel, node_count: nat) -> bool {
    forall|i: int|
        0 <= i < graph.len() ==> {
            &&& (#[trigger] graph[i]).node_idx.0 < node_count
            &&& forall|j: int|
                0 <= j < graph[i].neighbours.len() ==> (#[trigger] graph[i].neighbours[j]).0.0
                    < graph.len()
        }
}

/// Every vector has `DIM` components.
pub open spec fn vectors_have_dim<const DIM: usize>(vectors: Seq<VectorModel>) -> bool {
    forall|i: int| 0 <= i < vectors.len() ==> (#[trigger] vectors[i]).len() == DIM
}

/// A neighbour list as the index keeps it: at most `MAX_NEIGHBOURS` entries,
/// ascending by distance, no position twice, and never the position of the
/// graph node that owns the list.
pub open spec fn list_is_orderly(list: Seq<Neighbour>, owner: GraphNodeIdx) -> bool {
    &&& list.len() <= MAX_NEIGHBOURS
    &&& is_ascending(list)
    &&& has_distinct_ids(list)
    &&& !has_id(list, owner)
}

/// Every neighbour list of the graph is as the index keeps it.
pub open spec fn graph_is_orderly(graph: GraphModel) -> bool {
    forall|i: int|
        0 <= i < graph.len() ==> list_is_orderly(
            (#[trigger] graph[i]).neighbours,
            GraphNodeIdx(i as usize),
        )
}

/// The distance from the vector that a graph node stands for to the query.
pub open spec fn distance_to<const DIM: usize, DF: DistanceFunction<DIM>>(
    graph: GraphModel,
    vectors: Seq<VectorModel>,
    query: VectorModel,
    idx: GraphNodeIdx,
) -> Distance {
    DF::spec_distance(vectors[graph[idx.0 as int].node_idx.0 as int], query)
}

/// The first place at or after `from` whose entry names a graph node nearer
/// to the query than `bound`, or the list's length when there is none.
pub open spec fn first_closer<const DIM: usize, DF: DistanceFunction<DIM>>(
    graph: GraphModel,
    vectors: Seq<VectorModel>,
    query: VectorModel,
    list: Seq<Neighbour>,
    bound: Distance,
    from: int,
) -> int
    decreases list.len() - from,
{
    if from < 0 || from >= list.len() {
        list.len() as int
    } else if distance_to::<DIM, DF>(graph, vectors, query, list[from].0) < bound {
        from
    } else {
        first_closer::<DIM, DF>(graph, vectors, query, list, bound, from + 1)
    }
}

/// The entries of the list, each with the distance from its graph node to
/// the query in place of the distance that the list had cached.
pub open spec fn rescored<const DIM: usize, DF: DistanceFunction<DIM>>(
    graph: GraphModel,
    vectors: Seq<VectorModel>,
    query: VectorModel,
    list: Seq<Neighbour>,
) -> Seq<Neighbour> {
    list.map_values(
        |entry: Neighbour| (entry.0, distance_to::<DIM, DF>(graph, vectors, query, entry.0)),
    )
}

/// The result of the greedy search that starts at `start`.
///
/// The search looks at the neighbours of the graph node it stands on, in the
/// order of the list. It moves to the first one that is nearer to the query
/// than where it stands and looks again from there. Where no neighbour is
/// nearer it stops: the result is the graph node it stands on and all its
/// neighbours, each with its distance to the query, nearest first.
pub open spec fn search_from<const DIM: usize, DF: DistanceFunction<DIM>>(
    graph: GraphModel,
    vectors: Seq<VectorModel>,
    query: VectorModel,
    start: GraphNodeIdx,
) -> Seq<Neighbour>
    decreases distance_to::<DIM, DF>(graph, vectors, query, start),
{
    let here = distance_to::<DIM, DF>(graph, vectors, query, start);
    let list = graph[start.0 as int].neighbours;
    let next = first_closer::<DIM, DF>(graph, vectors, query, list, here, 0);
    if 0 <= next < list.len() && distance_to::<DIM, DF>(graph, vectors, query, list[next].0)
        < here {
        search_from::<DIM, DF>(graph, vectors, query, list[next].0)
    } else {
        sort_by_distance(
            seq![(start, here)] + rescored::<DIM, DF>(graph, vectors, query, list),
        )
    }
}

/// The result of the greedy search from the layer's entry point, the graph
/// node at position 0. A layer without graph nodes yields nothing.
pub open spec fn search<const DIM: usize, DF: DistanceFunction<DIM>>(
    graph: GraphModel,
    vectors: Seq<VectorModel>,
    query: VectorModel,
) -> Seq<Neighbour> {
    if graph.len() == 0 {
        Seq::empty()
    } else {
        search_from::<DIM, DF>(graph, vectors, query, GraphNodeIdx(0))
    }
}

/// The graph after `neighbour` went into the list of the graph node at
/// `idx`: in order of distance, the list then cut down to `MAX_NEIGHBOURS`.
pub open spec fn with_neighbour(graph: GraphModel, idx: GraphNodeIdx, neighbour: Neighbour)
    -> GraphModel {
    graph.update(
        idx.0 as int,
        GraphNodeModel {
            neighbours: keep_nearest(sorted_insert(graph[idx.0 as int].neighbours, neighbour)),
            ..graph[idx.0 as int]
        },
    )
}

/// The graph after each of `neighbours`, in turn, got the graph node at
/// `idx` as a neighbour, at the distance that its entry gives.
pub open spec fn with_edges(graph: GraphModel, idx: GraphNodeIdx, neighbours: Seq<Neighbour>)
    -> GraphModel
    decreases neighbours.len(),
{
    if neighbours.len() == 0 {
        graph
    } else {
        with_neighbour(
            with_edges(graph, idx, neighbours.drop_last()),
            neighbours.last().0,
            (idx, neighbours.last().1),
        )
    }
}

/// The candidates for the neighbours of a new graph node that stands for
/// the stored vector at `node_idx`: what the greedy search for that vector
/// finds, each position once.
pub open spec fn candidates_for<const DIM: usize, DF: DistanceFunction<DIM>>(
    graph: GraphModel,
    vectors: Seq<VectorModel>,
    node_idx: NodeIdx,
) -> Seq<Neighbour> {
    dedup_by_id(search::<DIM, DF>(graph, vectors, vectors[node_idx.0 as int]))
}

/// The graph after a graph node for the stored vector at `node_idx` joined
/// it. The new graph node goes to the end, with the nearest candidates as its
/// neighbours and with the given vertical links; then every candidate gets
/// it as a neighbour.
pub open spec fn with_node<const DIM: usize, DF: DistanceFunction<DIM>>(
    graph: GraphModel,
    vectors: Seq<VectorModel>,
    node_idx: NodeIdx,
    parent: Option<GraphNodeIdx>,
    child: Option<GraphNodeIdx>,
) -> GraphModel {
    let candidates = candidates_for::<DIM, DF>(graph, vectors, node_idx);
    let node = GraphNodeModel { node_idx, neighbours: keep_nearest(candidates), parent, child };
    with_edges(graph.push(node), GraphNodeIdx(graph.len() as usize), candidates)
}

/// The graph with the upward link of the graph node at `idx` set to `parent`.
pub open spec fn with_parent(graph: GraphModel, idx: GraphNodeIdx, parent: GraphNodeIdx)
    -> GraphModel {
    graph.update(idx.0 as int, GraphNodeModel { parent: Some(parent), ..graph[idx.0 as int] })
}

/// Where `first_closer` lands: nothing it passed is nearer than the bound,
/// and what it stops at is.
pub proof fn lemma_first_closer<const DIM: usize, DF: DistanceFunction<DIM>>(
    graph: GraphModel,
    vectors: Seq<VectorModel>,
    query: VectorModel,
    list: Seq<Neighbour>,
    bound: Distance,
    from: int,
)
    requires
        0 <= from <= list.len(),
    ensures
        from <= first_closer::<DIM, DF>(graph, vectors, query, list, bound, from) <= list.len(),
        forall|j: int|
            from <= j < first_closer::<DIM, DF>(graph, vectors, query, list, bound, from)
                ==> distance_to::<DIM, DF>(graph, vectors, query, list[j].0) >= bound,
        first_closer::<DIM, DF>(graph, vectors, query, list, bound, from) < list.len()
            ==> distance_to::<DIM, DF>(
            graph,
            vectors,
            query,
            list[first_closer::<DIM, DF>(graph, vectors, query, list, bound, from)].0,
        ) < bound,
    decreases list.len() - from,
{
    if from < list.len() && !(distance_to::<DIM, DF>(graph, vectors, query, list[from].0)
        < bound) {
        lemma_first_closer::<DIM, DF>(graph, vectors, query, list, bound, from + 1);
    }
}

/// Adding edges changes neighbour lists and nothing else: the graph keeps
/// its length, and each graph node its vector and its vertical links.
pub proof fn lemma_with_edges_keeps_links(
    graph: GraphModel,
    idx: GraphNodeIdx,
    neighbours: Seq<Neighbour>,
)
    requires
        forall|k: int| 0 <= k < neighbours.len() ==> (#[trigger] neighbours[k]).0.0 < graph.len(),
    ensures
        with_edges(graph, idx, neighbours).len() == graph.len(),
        forall|i: int|
            0 <= i < graph.len() ==> {
                &&& (#[trigger] with_edges(graph, idx, neighbours)[i]).node_idx
                    == graph[i].node_idx
                &&& with_edges(graph, idx, neighbours)[i].parent == graph[i].parent
                &&& with_edges(graph, idx, neighbours)[i].child == graph[i].child
            },
    decreases neighbours.len(),
{
    if neighbours.len() > 0 {
        lemma_with_edges_keeps_links(graph, idx, neighbours.drop_last());
    }
}

/// What a greedy search finds: at least the graph node it stopped on, only
/// graph nodes of the layer, each with its distance to the query, nearest
/// first.
pub proof fn lemma_search_from<const DIM: usize, DF: DistanceFunction<DIM>>(
    graph: GraphModel,
    vectors: Seq<VectorModel>,
    query: VectorModel,
    start: GraphNodeIdx,
    node_count: nat,
)
    requires
        graph_is_sound(graph, node_count),
        start.0 < graph.len(),
    ensures
        search_from::<DIM, DF>(graph, vectors, query, start).len() >= 1,
        is_ascending(search_from::<DIM, DF>(graph, vectors, query, start)),
        forall|k: int|
            0 <= k < search_from::<DIM, DF>(graph, vectors, query, start).len() ==> {
                &&& (#[trigger] search_from::<DIM, DF>(graph, vectors, query, start)[k]).0.0
                    < graph.len()
                &&& search_from::<DIM, DF>(graph, vectors, query, start)[k].1 == distance_to::<
                    DIM,
                    DF,
                >(graph, vectors, query, search_from::<DIM, DF>(graph, vectors, query, start)[k].0)
            },
    decreases distance_to::<DIM, DF>(graph, vectors, query, start),
{
    let here = distance_to::<DIM, DF>(graph, vectors, query, start);
    let list = graph[start.0 as int].neighbours;
    let next = first_closer::<DIM, DF>(graph, vectors, query, list, here, 0);
    let found = search_from::<DIM, DF>(graph, vectors, query, start);
    lemma_first_closer::<DIM, DF>(graph, vectors, query, list, here, 0);
    if 0 <= next < list.len() && distance_to::<DIM, DF>(graph, vectors, query, list[next].0)
        < here {
        assert(graph[start.0 as int].neighbours[next].0.0 < graph.len());
        lemma_search_from::<DIM, DF>(graph, vectors, query, list[next].0, node_count);
    } else {
        let seen = seq![(start, here)] + rescored::<DIM, DF>(graph, vectors, query, list);
        lemma_sort_by_distance(seen);
        lemma_sort_by_distance_entries(seen);
        assert forall|k: int| 0 <= k < found.len() implies {
            &&& (#[trigger] found[k]).0.0 < graph.len()
            &&& found[k].1 == distance_to::<DIM, DF>(graph, vectors, query, found[k].0)
        } by {
            let m = choose|m: int| 0 <= m < seen.len() && seen[m] == found[k];
            if m > 0 {
                assert(seen[m].0 == graph[start.0 as int].neighbours[m - 1].0);
            }
        }
    }
}

/// What a search from the entry point finds: only graph nodes of the layer,
/// nearest first.
pub proof fn lemma_search<const DIM: usize, DF: DistanceFunction<DIM>>(
    graph: GraphModel,
    vectors: Seq<VectorModel>,
    query: VectorModel,
    node_count: nat,
)
    requires
        graph_is_sound(graph, node_count),
    ensures
        graph.len() > 0 ==> search::<DIM, DF>(graph, vectors, query).len() >= 1,
        graph.len() == 0 ==> search::<DIM, DF>(graph, vectors, query).len() == 0,
        is_ascending(search::<DIM, DF>(graph, vectors, query)),
        forall|k: int|
            0 <= k < search::<DIM, DF>(graph, vectors, query).len() ==> (#[trigger] search::<
                DIM,
                DF,
            >(graph, vectors, query)[k]).0.0 < graph.len(),
{
    if graph.len() > 0 {
        lemma_search_from::<DIM, DF>(graph, vectors, query, GraphNodeIdx(0), node_count);
    }
}

/// The candidates for a new graph node: graph nodes of the layer, each once,
/// nearest first.
pub proof fn lemma_candidates_for<const DIM: usize, DF: DistanceFunction<DIM>>(
    graph: GraphModel,
    vectors: Seq<VectorModel>,
    node_idx: NodeIdx,
    node_count: nat,
)
    requires
        graph_is_sound(graph, node_count),
    ensures
        is_ascending(candidates_for::<DIM, DF>(graph, vectors, node_idx)),
        has_distinct_ids(candidates_for::<DIM, DF>(graph, vectors, node_idx)),
        graph.len() == 0 ==> candidates_for::<DIM, DF>(graph, vectors, node_idx).len() == 0,
        forall|k: int|
            0 <= k < candidates_for::<DIM, DF>(graph, vectors, node_idx).len() ==> (
            #[trigger] candidates_for::<DIM, DF>(graph, vectors, node_idx)[k]).0.0 < graph.len(),
{
    let found = search::<DIM, DF>(graph, vectors, vectors[node_idx.0 as int]);
    let candidates = candidates_for::<DIM, DF>(graph, vectors, node_idx);
    lemma_search::<DIM, DF>(graph, vectors, vectors[node_idx.0 as int], node_count);
    lemma_dedup_by_id_entries(found);
    lemma_dedup_by_id_distinct(found);
    lemma_dedup_by_id_ascending(found);
    assert forall|k: int| 0 <= k < candidates.len() implies (#[trigger] candidates[k]).0.0
        < graph.len() by {
        let j = choose|j: int| 0 <= j < found.len() && found[j] == candidates[k];
        assert(found[j].0.0 < graph.len());
    }
}

/// A new neighbour in one list: the graph keeps its length and its links,
/// the other lists stay, and a graph that was sound and orderly is so still,
/// if the new neighbour is a graph node of the layer that the list lacked and
/// not the owner of the list.
pub proof fn lemma_with_neighbour(
    graph: GraphModel,
    idx: GraphNodeIdx,
    neighbour: Neighbour,
    node_count: nat,
)
    requires
        graph_is_sound(graph, node_count),
        graph_is_orderly(graph),
        idx.0 < graph.len(),
        neighbour.0.0 < graph.len(),
        neighbour.0 != idx,
        !has_id(graph[idx.0 as int].neighbours, neighbour.0),
    ensures
        graph_is_sound(with_neighbour(graph, idx, neighbour), node_count),
        graph_is_orderly(with_neighbour(graph, idx, neighbour)),
{
    let list = graph[idx.0 as int].neighbours;
    let longer = sorted_insert(list, neighbour);
    let kept = keep_nearest(longer);
    let out = with_neighbour(graph, idx, neighbour);
    lemma_sorted_insert_entries(list, neighbour);
    lemma_sorted_insert_ascending(list, neighbour);
    lemma_sorted_insert_distinct(list, neighbour);
    lemma_sorted_insert_ids(list, neighbour, idx);
    lemma_keep_nearest(longer);
    let p = first_farther(list, neighbour.1, 0);
    assert forall|i: int| 0 <= i < out.len() implies {
        &&& (#[trigger] out[i]).node_idx.0 < node_count
        &&& forall|j: int|
            0 <= j < out[i].neighbours.len() ==> (#[trigger] out[i].neighbours[j]).0.0
                < out.len()
    } by {
        assert(graph[i].node_idx.0 < node_count);
        if i == idx.0 {
            assert forall|j: int| 0 <= j < out[i].neighbours.len() implies (
            #[trigger] out[i].neighbours[j]).0.0 < out.len() by {
                assert(kept[j] == longer[j]);
                if j < p {
                    assert(longer[j] == graph[i].neighbours[j]);
                } else if j > p {
                    assert(longer[j] == graph[i].neighbours[j - 1]);
                }
            }
        } else {
            assert(out[i] == graph[i]);
        }
    }
    assert forall|i: int| 0 <= i < out.len() implies list_is_orderly(
        (#[trigger] out[i]).neighbours,
        GraphNodeIdx(i as usize),
    ) by {
        assert(list_is_orderly(graph[i].neighbours, GraphNodeIdx(i as usize)));
        if i == idx.0 {
            assert(GraphNodeIdx(i as usize) == idx);
        } else {
            assert(out[i] == graph[i]);
        }
    }
}

/// New edges to one graph node: the graph keeps its length and its links,
/// each of the neighbours gets one entry more, the other lists stay, and a
/// graph that was sound and orderly is so still, if the neighbours are graph
/// nodes of the layer, each once, that lacked the graph node so far.
pub proof fn lemma_with_edges(
    graph: GraphModel,
    idx: GraphNodeIdx,
    neighbours: Seq<Neighbour>,
    node_count: nat,
)
    requires
        graph_is_sound(graph, node_count),
        graph_is_orderly(graph),
        idx.0 < graph.len(),
        has_distinct_ids(neighbours),
        forall|k: int|
            0 <= k < neighbours.len() ==> {
                &&& (#[trigger] neighbours[k]).0.0 < graph.len()
                &&& neighbours[k].0 != idx
                &&& !has_id(graph[neighbours[k].0.0 as int].neighbours, idx)
            },
    ensures
        with_edges(graph, idx, neighbours).len() == graph.len(),
        graph_is_sound(with_edges(graph, idx, neighbours), node_count),
        graph_is_orderly(with_edges(graph, idx, neighbours)),
        forall|i: int|
            0 <= i < graph.len() && !has_id(neighbours, GraphNodeIdx(i as usize)) ==> (
            #[trigger] with_edges(graph, idx, neighbours)[i]) == graph[i],
        forall|k: int|
            0 <= k < neighbours.len() ==> with_edges(graph, idx, neighbours)[(
            #[trigger] neighbours[k]).0.0 as int].neighbours == keep_nearest(
                sorted_insert(graph[neighbours[k].0.0 as int].neighbours, (idx, neighbours[k].1)),
            ),
    decreases neighbours.len(),
{
    if neighbours.len() > 0 {
        let head = neighbours.drop_last();
        let last = neighbours.last();
        let before = with_edges(graph, idx, head);
        let out = with_edges(graph, idx, neighbours);
        assert forall|k: int| 0 <= k < head.len() implies {
            &&& (#[trigger] head[k]).0.0 < graph.len()
            &&& head[k].0 != idx
            &&& !has_id(graph[head[k].0.0 as int].neighbours, idx)
        } by {
            assert(head[k] == neighbours[k]);
        }
        assert(has_distinct_ids(head)) by {
            assert forall|i: int, j: int| 0 <= i < j < head.len() implies head[i].0
                != head[j].0 by {
                assert(head[i] == neighbours[i] && head[j] == neighbours[j]);
            }
        }
        lemma_with_edges(graph, idx, head, node_count);
        assert(!has_id(head, last.0)) by {
            if has_id(head, last.0) {
                let m = choose|m: int| 0 <= m < head.len() && (#[trigger] head[m]).0 == last.0;
                assert(neighbours[m].0 == neighbours[neighbours.len() - 1].0);
            }
        }
        assert(neighbours[neighbours.len() - 1] == last);
        assert(GraphNodeIdx(last.0.0 as int as usize) == last.0);
        assert(before[last.0.0 as int] == graph[last.0.0 as int]);
        lemma_with_neighbour(before, last.0, (idx, last.1), node_count);
        assert forall|i: int|
            0 <= i < graph.len() && !has_id(neighbours, GraphNodeIdx(i as usize)) implies (
        #[trigger] out[i]) == graph[i] by {
            let id = GraphNodeIdx(i as usize);
            if has_id(head, id) {
                let m = choose|m: int| 0 <= m < head.len() && (#[trigger] head[m]).0 == id;
                assert(neighbours[m].0 == id);
            }
            if last.0 == id {
                assert(neighbours[neighbours.len() - 1].0 == id);
            }
            assert(before[i] == graph[i]);
        }
        assert forall|k: int| 0 <= k < neighbours.len() implies out[(
        #[trigger] neighbours[k]).0.0 as int].neighbours == keep_nearest(
            sorted_insert(graph[neighbours[k].0.0 as int].neighbours, (idx, neighbours[k].1)),
        ) by {
            if k < head.len() {
                assert(head[k] == neighbours[k]);
                assert(neighbours[k].0 != last.0);
                assert(out[neighbours[k].0.0 as int] == before[neighbours[k].0.0 as int]);
            }
        }
    }
}

/// A new graph node makes the graph longer by one.
pub proof fn lemma_with_node_len<const DIM: usize, DF: DistanceFunction<DIM>>(
    graph: GraphModel,
    vectors: Seq<VectorModel>,
    node_idx: NodeIdx,
    parent: Option<GraphNodeIdx>,
    child: Option<GraphNodeIdx>,
)
    requires
        graph_is_sound(graph, vectors.len()),
    ensures
        with_node::<DIM, DF>(graph, vectors, node_idx, parent, child).len() == graph.len() + 1,
{
    let candidates = candidates_for::<DIM, DF>(graph, vectors, node_idx);
    let node = GraphNodeModel { node_idx, neighbours: keep_nearest(candidates), parent, child };
    lemma_candidates_for::<DIM, DF>(graph, vectors, node_idx, vectors.len());
    lemma_with_edges_keeps_links(graph.push(node), GraphNodeIdx(graph.len() as usize), candidates);
}

/// A new graph node in a layer: it stands at the end with the links it was
/// given and with the nearest candidates as its neighbours, the graph nodes
/// that were there keep their vectors and their links, and a graph that was
/// sound and orderly is so still.
pub proof fn lemma_with_node<const DIM: usize, DF: DistanceFunction<DIM>>(
    graph: GraphModel,
    vectors: Seq<VectorModel>,
    node_idx: NodeIdx,
    parent: Option<GraphNodeIdx>,
    child: Option<GraphNodeIdx>,
)
    requires
        graph_is_sound(graph, vectors.len()),
        graph_is_orderly(graph),
        node_idx.0 < vectors.len(),
        graph.len() < usize::MAX,
    ensures
        with_node::<DIM, DF>(graph, vectors, node_idx, parent, child).len() == graph.len() + 1,
        graph_is_sound(
            with_node::<DIM, DF>(graph, vectors, node_idx, parent, child),
            vectors.len(),
        ),
        graph_is_orderly(with_node::<DIM, DF>(graph, vectors, node_idx, parent, child)),
        with_node::<DIM, DF>(graph, vectors, node_idx, parent, child)[graph.len() as int]
            == (GraphNodeModel {
            node_idx,
            neighbours: keep_nearest(candidates_for::<DIM, DF>(graph, vectors, node_idx)),
            parent,
            child,
        }),
        forall|i: int|
            0 <= i < graph.len() ==> {
                &&& (#[trigger] with_node::<DIM, DF>(
                    graph,
                    vectors,
                    node_idx,
                    parent,
                    child,
                )[i]).node_idx == graph[i].node_idx
                &&& with_node::<DIM, DF>(graph, vectors, node_idx, parent, child)[i].parent
                    == graph[i].parent
                &&& with_node::<DIM, DF>(graph, vectors, node_idx, parent, child)[i].child
                    == graph[i].child
            },
        forall|i: int|
            0 <= i < graph.len() && !has_id(
                candidates_for::<DIM, DF>(graph, vectors, node_idx),
                GraphNodeIdx(i as usize),
            ) ==> (#[trigger] with_node::<DIM, DF>(graph, vectors, node_idx, parent, child)[i])
                == graph[i],
        forall|k: int|
            0 <= k < candidates_for::<DIM, DF>(graph, vectors, node_idx).len() ==> with_node::<
                DIM,
                DF,
            >(graph, vectors, node_idx, parent, child)[(#[trigger] candidates_for::<DIM, DF>(
                graph,
                vectors,
                node_idx,
            )[k]).0.0 as int].neighbours == keep_nearest(
                sorted_insert(
                    graph[candidates_for::<DIM, DF>(graph, vectors, node_idx)[k].0.0 as int].neighbours,
                    (
                        GraphNodeIdx(graph.len() as usize),
                        candidates_for::<DIM, DF>(graph, vectors, node_idx)[k].1,
                    ),
                ),
            ),
{
    let candidates = candidates_for::<DIM, DF>(graph, vectors, node_idx);
    let node = GraphNodeModel { node_idx, neighbours: keep_nearest(candidates), parent, child };
    let grown = graph.push(node);
    let idx = GraphNodeIdx(graph.len() as usize);
    let out = with_node::<DIM, DF>(graph, vectors, node_idx, parent, child);
    lemma_candidates_for::<DIM, DF>(graph, vectors, node_idx, vectors.len());
    lemma_keep_nearest(candidates);
    assert forall|i: int| 0 <= i < grown.len() implies {
        &&& (#[trigger] grown[i]).node_idx.0 < vectors.len()
        &&& forall|j: int|
            0 <= j < grown[i].neighbours.len() ==> (#[trigger] grown[i].neighbours[j]).0.0
                < grown.len()
    } by {
        if i < graph.len() {
            assert(grown[i] == graph[i]);
            assert(graph[i].node_idx.0 < vectors.len());
            assert forall|j: int| 0 <= j < grown[i].neighbours.len() implies (
            #[trigger] grown[i].neighbours[j]).0.0 < grown.len() by {
                assert(graph[i].neighbours[j].0.0 < graph.len());
            }
        } else {
            assert forall|j: int| 0 <= j < grown[i].neighbours.len() implies (
            #[trigger] grown[i].neighbours[j]).0.0 < grown.len() by {
                assert(node.neighbours[j] == candidates[j]);
            }
        }
    }
    assert forall|i: int| 0 <= i < grown.len() implies list_is_orderly(
        (#[trigger] grown[i]).neighbours,
        GraphNodeIdx(i as usize),
    ) by {
        if i < graph.len() {
            assert(grown[i] == graph[i]);
            assert(list_is_orderly(graph[i].neighbours, GraphNodeIdx(i as usize)));
        } else {
            if has_id(node.neighbours, idx) {
                let m = choose|m: int|
                    0 <= m < node.neighbours.len() && (#[trigger] node.neighbours[m]).0 == idx;
                assert(node.neighbours[m] == candidates[m]);
            }
        }
    }
    assert forall|k: int| 0 <= k < candidates.len() implies {
        &&& (#[trigger] candidates[k]).0.0 < grown.len()
        &&& candidates[k].0 != idx
        &&& !has_id(grown[candidates[k].0.0 as int].neighbours, idx)
    } by {
        let c = candidates[k].0.0 as int;
        assert(grown[c] == graph[c]);
        if has_id(graph[c].neighbours, idx) {
            let m = choose|m: int|
                0 <= m < graph[c].neighbours.len() && (#[trigger] graph[c].neighbours[m]).0
                    == idx;
            assert(graph[c].neighbours[m].0.0 < graph.len());
        }
    }
    lemma_with_edges(grown, idx, candidates, vectors.len());
    lemma_with_edges_keeps_links(grown, idx, candidates);
    assert(!has_id(candidates, idx)) by {
        if has_id(candidates, idx) {
            let m = choose|m: int| 0 <= m < candidates.len() && (#[trigger] candidates[m]).0
                == idx;
        }
    }
    assert(out[graph.len() as int] == grown[graph.len() as int]);
    assert forall|i: int| 0 <= i < graph.len() implies {
        &&& (#[trigger] out[i]).node_idx == graph[i].node_idx
        &&& out[i].parent == graph[i].parent
        &&& out[i].child == graph[i].child
    } by {
        assert(grown[i] == graph[i]);
    }
    assert forall|i: int|
        0 <= i < graph.len() && !has_id(candidates, GraphNodeIdx(i as usize)) implies (
    #[trigger] out[i]) == graph[i] by {
        assert(grown[i] == graph[i]);
    }
    assert forall|k: int| 0 <= k < candidates.len() implies out[(
    #[trigger] candidates[k]).0.0 as int].neighbours == keep_nearest(
        sorted_insert(graph[candidates[k].0.0 as int].neighbours, (idx, candidates[k].1)),
    ) by {
        assert(grown[candidates[k].0.0 as int] == graph[candidates[k].0.0 as int]);
    }
}

/// Setting the upward link of a graph node and adding edges can be done in
/// either order.
pub proof fn lemma_with_parent_commutes(
    graph: GraphModel,
    at: GraphNodeIdx,
    parent: GraphNodeIdx,
    idx: GraphNodeIdx,
    neighbours: Seq<Neighbour>,
)
    requires
        at.0 < graph.len(),
        forall|k: int| 0 <= k < neighbours.len() ==> (#[trigger] neighbours[k]).0.0 < graph.len(),
    ensures
        with_edges(with_parent(graph, at, parent), idx, neighbours) == with_parent(
            with_edges(graph, idx, neighbours),
            at,
            parent,
        ),
    decreases neighbours.len(),
{
    if neighbours.len() > 0 {
        let head = neighbours.drop_last();
        let last = neighbours.last();
        lemma_with_parent_commutes(graph, at, parent, idx, head);
        lemma_with_edges_keeps_links(graph, idx, head);
        let before = with_edges(graph, idx, head);
        assert(with_neighbour(with_parent(before, at, parent), last.0, (idx, last.1))
            =~= with_parent(with_neighbour(before, last.0, (idx, last.1)), at, parent));
    } else {
        assert(with_edges(with_parent(graph, at, parent), idx, neighbours) == with_parent(
            graph,
            at,
            parent,
        ));
    }
}

/// Setting the upward link of the graph node that joined last gives the
/// graph that the node would have made had it joined with that link.
pub proof fn lemma_with_node_then_parent<const DIM: usize, DF: DistanceFunction<DIM>>(
    graph: GraphModel,
    vectors: Seq<VectorModel>,
    node_idx: NodeIdx,
    child: Option<GraphNodeIdx>,
    parent: GraphNodeIdx,
)
    requires
        graph_is_sound(graph, vectors.len()),
        graph.len() < usize::MAX,
    ensures
        with_parent(
            with_node::<DIM, DF>(graph, vectors, node_idx, None, child),
            GraphNodeIdx(graph.len() as usize),
            parent,
        ) == with_node::<DIM, DF>(graph, vectors, node_idx, Some(parent), child),
{
    let candidates = candidates_for::<DIM, DF>(graph, vectors, node_idx);
    let idx = GraphNodeIdx(graph.len() as usize);
    let bare = GraphNodeModel {
        node_idx,
        neighbours: keep_nearest(candidates),
        parent: None,
        child,
    };
    let linked = GraphNodeModel { parent: Some(parent), ..bare };
    lemma_candidates_for::<DIM, DF>(graph, vectors, node_idx, vectors.len());
    lemma_with_parent_commutes(graph.push(bare), idx, parent, idx, candidates);
    assert(with_parent(graph.push(bare), idx, parent) =~= graph.push(linked));
}

/// One layer of the index.
#[derive(Debug, PartialEq)]
pub struct Level<const DIM: usize, DF: DistanceFunction<DIM>> {
    pub graph: Graph,
    pub marker: PhantomData<DF>,
}

impl<const DIM: usize, DF: DistanceFunction<DIM>> View for Level<DIM, DF> {
    type V = GraphModel;

    open spec fn view(&self) -> GraphModel {
        graph_model(self.graph)
    }
}

impl<const DIM: usize, DF: DistanceFunction<DIM>> Default for Level<DIM, DF> {
    /// A layer without graph nodes.
    fn default() -> (level: Self)
        ensures
            level@ == Seq::<GraphNodeModel>::empty(),
    {
        let level = Level { graph: graph_new(), marker: PhantomData };
        assert(level@ =~= Seq::<GraphNodeModel>::empty());
        level
    }
}

impl<const DIM: usize, DF: DistanceFunction<DIM>> Level<DIM, DF> {
    /// The layer with the given graph.
    pub fn from_graph(graph: Graph) -> (level: Self)
        ensures
            level.graph == graph,
    {
        Level { graph, marker: PhantomData }
    }

    /// The number of graph nodes in the layer.
    pub fn len(&self) -> (len: usize)
        ensures
            len == self@.len(),
    {
        graph_len(&self.graph)
    }

    /// The distance from the vector of the graph node at `idx` to the query.
    fn distance_from(&self, query: &Vec<u32>, nodes: &NodeStore, idx: GraphNodeIdx) -> (d:
        Distance)
        requires
            graph_is_sound(self@, stored_nodes(*nodes).len()),
            vectors_have_dim::<DIM>(stored_vectors(*nodes)),
            query@.len() == DIM,
            idx.0 < self@.len(),
        ensures
            d == distance_to::<DIM, DF>(self@, stored_vectors(*nodes), query@, idx),
    {
        let graph_node = graph_get(&self.graph, idx);
        assert(self@[idx.0 as int].node_idx == graph_node.node_idx);
        let node = node_store_get(nodes, graph_node.node_idx);
        assert(stored_vectors(*nodes)[graph_node.node_idx.0 as int] == node.vec@);
        DF::distance(&node.vec, query)
    }

    /// Looks at the neighbours of the graph node at `current`, in the order of
    /// its list, up to the first that is nearer to the query than
    /// `current_dist`. Gives that neighbour, or, where none is nearer, the
    /// graph node with all its neighbours and their distances to the query.
    fn examine(
        &self,
        query: &Vec<u32>,
        nodes: &NodeStore,
        current: GraphNodeIdx,
        current_dist: Distance,
    ) -> (outcome: (Option<Neighbour>, Vec<Neighbour>))
        requires
            graph_is_sound(self@, stored_nodes(*nodes).len()),
            vectors_have_dim::<DIM>(stored_vectors(*nodes)),
            query@.len() == DIM,
            current.0 < self@.len(),
        ensures
            ({
                let vectors = stored_vectors(*nodes);
                let list = self@[current.0 as int].neighbours;
                let next = first_closer::<DIM, DF>(self@, vectors, query@, list, current_dist, 0);
                if next < list.len() {
                    outcome.0 == Some(
                        (list[next].0, distance_to::<DIM, DF>(self@, vectors, query@, list[next].0)),
                    )
                } else {
                    &&& outcome.0 is None
                    &&& outcome.1@ == seq![(current, current_dist)] + rescored::<DIM, DF>(
                        self@,
                        vectors,
                        query@,
                        list,
                    )
                }
            }),
    {
        let list = neighbours_to_vec(&graph_get(&self.graph, current).neighbours);
        let ghost vectors = stored_vectors(*nodes);
        assert(list@ == self@[current.0 as int].neighbours);
        let mut seen: Vec<Neighbour> = Vec::with_capacity(list.len() + 1);
        seen.push((current, current_dist));
        let mut i: usize = 0;
        while i < list.len()
            invariant
                graph_is_sound(self@, stored_nodes(*nodes).len()),
                vectors_have_dim::<DIM>(stored_vectors(*nodes)),
                query@.len() == DIM,
                vectors == stored_vectors(*nodes),
                list@ == self@[current.0 as int].neighbours,
                current.0 < self@.len(),
                i <= list.len(),
                first_closer::<DIM, DF>(self@, vectors, query@, list@, current_dist, 0)
                    == first_closer::<DIM, DF>(
                    self@,
                    vectors,
                    query@,
                    list@,
                    current_dist,
                    i as int,
                ),
                seen@ == seq![(current, current_dist)] + rescored::<DIM, DF>(
                    self@,
                    vectors,
                    query@,
                    list@.take(i as int),
                ),
            decreases list.len() - i,
        {
            let neighbour_idx = list[i].0;
            assert(self@[current.0 as int].neighbours[i as int].0.0 < self@.len());
            let neighbour_dist = self.distance_from(query, nodes, neighbour_idx);
            if neighbour_dist < current_dist {
                return (Some((neighbour_idx, neighbour_dist)), seen);
            }
            seen.push((neighbour_idx, neighbour_dist));
            proof {
                assert(seen@ =~= seq![(current, current_dist)] + rescored::<DIM, DF>(
                    self@,
                    vectors,
                    query@,
                    list@.take(i + 1),
                ));
            }
            i += 1;
        }
        proof {
            assert(list@.take(list.len() as int) =~= list@);
        }
        (None, seen)
    }

    /// Whether the graph of the layer is sound for `node_count` stored
    /// vectors, and orderly.
    pub fn is_well_formed(&self, node_count: usize) -> (ok: bool)
        ensures
            ok == (graph_is_sound(self@, node_count as nat) && graph_is_orderly(self@)),
    {
        let len = graph_len(&self.graph);
        let mut i: usize = 0;
        while i < len
            invariant
                i <= len == self@.len(),
                forall|k: int|
                    0 <= k < i ==> {
                        &&& (#[trigger] self@[k]).node_idx.0 < node_count
                        &&& forall|j: int|
                            0 <= j < self@[k].neighbours.len() ==> (
                            #[trigger] self@[k].neighbours[j]).0.0 < self@.len()
                        &&& list_is_orderly(self@[k].neighbours, GraphNodeIdx(k as usize))
                    },
            decreases len - i,
        {
            let graph_node = graph_get(&self.graph, GraphNodeIdx::new(i));
            let list = neighbours_to_vec(&graph_node.neighbours);
            assert(list@ == self@[i as int].neighbours);
            assert(graph_node.node_idx == self@[i as int].node_idx);
            if graph_node.node_idx.index() >= node_count {
                return false;
            }
            if !is_ascending_list(&list) || !has_distinct_id_list(&list) || contains_id(
                &list,
                GraphNodeIdx::new(i),
            ) {
                assert(!list_is_orderly(self@[i as int].neighbours, GraphNodeIdx(i as usize)));
                return false;
            }
            let mut j: usize = 0;
            while j < list.len()
                invariant
                    j <= list.len(),
                    i < len == self@.len(),
                    list@ == self@[i as int].neighbours,
                    forall|m: int| 0 <= m < j ==> (#[trigger] list@[m]).0.0 < len,
                decreases list.len() - j,
            {
                if list[j].0.index() >= len {
                    assert(!(self@[i as int].neighbours[j as int].0.0 < self@.len()));
                    return false;
                }
                j += 1;
            }
            i += 1;
        }
        true
    }

    /// Greedy search from the graph node at `start`; see [`search_from`].
    pub fn nearest_neighbour_search_starting_from(
        &self,
        query: &Vec<u32>,
        nodes: &NodeStore,
        start: GraphNodeIdx,
    ) -> (found: Vec<Neighbour>)
        requires
            graph_is_sound(self@, stored_nodes(*nodes).len()),
            vectors_have_dim::<DIM>(stored_vectors(*nodes)),
            query@.len() == DIM,
            start.0 < self@.len(),
        ensures
            found@ == search_from::<DIM, DF>(self@, stored_vectors(*nodes), query@, start),
    {
        let ghost vectors = stored_vectors(*nodes);
        let mut current = start;
        let mut current_dist = self.distance_from(query, nodes, current);
        loop
            invariant
                graph_is_sound(self@, stored_nodes(*nodes).len()),
                vectors_have_dim::<DIM>(stored_vectors(*nodes)),
                query@.len() == DIM,
                vectors == stored_vectors(*nodes),
                current.0 < self@.len(),
                current_dist == distance_to::<DIM, DF>(self@, vectors, query@, current),
                search_from::<DIM, DF>(self@, vectors, query@, current) == search_from::<DIM, DF>(
                    self@,
                    vectors,
                    query@,
                    start,
                ),
            decreases current_dist,
        {
            let ghost list = self@[current.0 as int].neighbours;
            proof {
                lemma_first_closer::<DIM, DF>(self@, vectors, query@, list, current_dist, 0);
            }
            let (closer, seen) = self.examine(query, nodes, current, current_dist);
            match closer {
                Some(next) => {
                    current = next.0;
                    current_dist = next.1;
                },
                None => {
                    return sorted_by_distance(&seen);
                },
            }
        }
    }

    /// Greedy search from the layer's entry point; see [`search`].
    pub fn nearest_neighbour_search(&self, query: &Vec<u32>, nodes: &NodeStore) -> (found: Vec<
        Neighbour,
    >)
        requires
            graph_is_sound(self@, stored_nodes(*nodes).len()),
            vectors_have_dim::<DIM>(stored_vectors(*nodes)),
            query@.len() == DIM,
        ensures
            found@ == search::<DIM, DF>(self@, stored_vectors(*nodes), query@),
    {
        if graph_len(&self.graph) == 0 {
            return Vec::new();
        }
        self.nearest_neighbour_search_starting_from(query, nodes, GraphNodeIdx::new(0))
    }

    /// Adds a graph node for the stored vector at `node_idx`: searches the
    /// layer for that vector, gives the new graph node the nearest of what was
    /// found as its neighbours, and gives everything that was found the new
    /// graph node as a neighbour. Returns the position of the new graph node.
    pub fn add_node(&mut self, nodes: &NodeStore, node_idx: NodeIdx, child: Option<GraphNodeIdx>)
        -> (idx: GraphNodeIdx)
        requires
            graph_is_sound(old(self)@, stored_nodes(*nodes).len()),
            vectors_have_dim::<DIM>(stored_vectors(*nodes)),
            node_idx.0 < stored_nodes(*nodes).len(),
        ensures
            idx.0 == old(self)@.len(),
            old(self)@.len() < usize::MAX,
            final(self)@ == with_node::<DIM, DF>(
                old(self)@,
                stored_vectors(*nodes),
                node_idx,
                None,
                child,
            ),
    {
        let ghost vectors = stored_vectors(*nodes);
        let node = node_store_get(nodes, node_idx);
        assert(vectors[node_idx.0 as int] == node.vec@);
        let found = self.nearest_neighbour_search(&node.vec, nodes);
        let candidates = deduplicated(&found);
        let nearest = nearest_entries(&candidates);
        proof {
            lemma_candidates_for::<DIM, DF>(self@, vectors, node_idx, stored_nodes(*nodes).len());
            lemma_keep_nearest(candidates@);
        }
        let graph_node = GraphNode::new(node_idx, nearest, None, child);
        let idx = graph_push(&mut self.graph, graph_node);
        proof {
            assert(self@ =~= old(self)@.push(graph_node@));
        }
        self.make_edges_double_sided(idx, candidates);
        idx
    }

    /// Puts `neighbour` into the list of the graph node at `graph_node_idx`,
    /// in order of distance, and drops the last entry if the list is then
    /// longer than `MAX_NEIGHBOURS`.
    pub fn insert_neighbour(&mut self, graph_node_idx: GraphNodeIdx, neighbour: Neighbour)
        requires
            graph_node_idx.0 < old(self)@.len(),
        ensures
            final(self)@ == with_neighbour(old(self)@, graph_node_idx, neighbour),
    {
        let graph_node = graph_get_mut(&mut self.graph, graph_node_idx);
        let mut neighbours = neighbours_to_vec(&graph_node.neighbours);
        insert_sorted(&mut neighbours, neighbour);
        proof {
            lemma_first_farther(old(self)@[graph_node_idx.0 as int].neighbours, neighbour.1, 0);
        }
        neighbours.truncate(MAX_NEIGHBOURS);
        proof {
            assert(neighbours@ =~= keep_nearest(
                sorted_insert(old(self)@[graph_node_idx.0 as int].neighbours, neighbour),
            ));
        }
        graph_node.neighbours = neighbours_from_vec(neighbours);
        proof {
            assert(self@ =~= with_neighbour(old(self)@, graph_node_idx, neighbour));
        }
    }

    /// Gives each of `neighbours` the graph node at `graph_node_idx` as a
    /// neighbour, at the distance that its entry gives.
    pub fn make_edges_double_sided(
        &mut self,
        graph_node_idx: GraphNodeIdx,
        neighbours: Vec<Neighbour>,
    )
        requires
            forall|k: int|
                0 <= k < neighbours@.len() ==> (#[trigger] neighbours@[k]).0.0 < old(self)@.len(),
        ensures
            final(self)@ == with_edges(old(self)@, graph_node_idx, neighbours@),
    {
        let mut i: usize = 0;
        while i < neighbours.len()
            invariant
                i <= neighbours.len(),
                forall|k: int|
                    0 <= k < neighbours@.len() ==> (#[trigger] neighbours@[k]).0.0 < old(
                        self,
                    )@.len(),
                self@.len() == old(self)@.len(),
                self@ == with_edges(old(self)@, graph_node_idx, neighbours@.take(i as int)),
            decreases neighbours.len() - i,
        {
            let (neighbour_idx, dist) = neighbours[i];
            proof {
                let next = neighbours@.take(i + 1);
                assert(next.drop_last() =~= neighbours@.take(i as int));
                assert(next.last() == neighbours@[i as int]);
            }
            self.insert_neighbour(neighbour_idx, (graph_node_idx, dist));
            i += 1;
        }
        proof {
            assert(neighbours@.take(neighbours.len() as int) =~= neighbours@);
        }
    }
}

} // verus!
