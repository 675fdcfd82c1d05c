//! What holds of every index, whatever was inserted.
use vstd::prelude::*;

use crate::distance::{DistanceFunction, VectorModel};
use crate::hnsw::{
    depth_for_draw, empty_index, index_is_sound, lemma_depth_for_draw, lemma_levels_with_node,
    descend, lemma_sound_for_more, level_with_node, nearest, node_links_are_sound,
    with_indexed_node, with_vector, Hnsw, HnswModel,
};
use crate::level::{
    candidates_for, distance_to, first_closer, graph_is_orderly, graph_is_sound,
    lemma_candidates_for, lemma_first_closer, lemma_search_from, lemma_with_node,
    lemma_with_node_len, rescored, search, search_from, vectors_have_dim, with_neighbour,
    with_node, GraphModel,
};
use crate::list::{
    dedup_by_id, has_distance, has_id, is_ascending, is_strictly_ascending, keep_nearest,
    lemma_dedup_by_id_entries,
    lemma_keep_nearest, lemma_sort_by_distance, lemma_sorted_insert_entries,
    lemma_sorted_insert_ids, lemma_sorted_insert_strictly_ascending, sorted_insert,
};
use crate::node::{GraphNodeIdx, GraphNodeModel, Neighbour, NodeIdx, MAX_NEIGHBOURS};
use crate::rand::next_seed;

verus! {

/// The index after the vectors were inserted, first to last.
pub open spec fn with_vectors<const DIM: usize, DF: DistanceFunction<DIM>>(
    index: HnswModel,
    vectors: Seq<VectorModel>,
) -> HnswModel
    decreases vectors.len(),
{
    if vectors.len() == 0 {
        index
    } else {
        with_vector::<DIM, DF>(
            with_vectors::<DIM, DF>(index, vectors.drop_last()),
            vectors.last(),
        )
    }
}

/// Every edge of the graph has its way back: where a graph node has another
/// in its list, the other has it.
pub open spec fn is_symmetric(graph: GraphModel) -> bool {
    forall|a: int, b: int|
        0 <= a < graph.len() && 0 <= b < graph.len() && #[trigger] has_id(
            graph[a].neighbours,
            GraphNodeIdx(b as usize),
        ) ==> has_id(graph[b].neighbours, GraphNodeIdx(a as usize))
}

/// No neighbour list of the graph is full.
pub open spec fn has_room(graph: GraphModel) -> bool {
    forall|i: int| 0 <= i < graph.len() ==> (#[trigger] graph[i]).neighbours.len() < MAX_NEIGHBOURS
}

/// Two indexes that were made with the same seed and the same cutoffs and
/// were fed the same vectors in the same order are the same index, and they
/// give the same answer to the same query.
pub proof fn lemma_same_inserts_same_index<const DIM: usize, DF: DistanceFunction<DIM>>(
    seed: u64,
    cutoffs: Seq<u64>,
    inserted: Seq<VectorModel>,
    query: VectorModel,
    a: HnswModel,
    b: HnswModel,
)
    requires
        a == with_vectors::<DIM, DF>(empty_index(seed, cutoffs), inserted),
        b == with_vectors::<DIM, DF>(empty_index(seed, cutoffs), inserted),
    ensures
        a == b,
        nearest::<DIM, DF>(a, query) == nearest::<DIM, DF>(b, query),
{
}

/// Two indexes of the same value give the same answer to every query: an
/// index that was put together from the parts of another answers as the
/// other does.
pub proof fn lemma_same_value_same_answers<
    const DIM: usize,
    DF: DistanceFunction<DIM>,
    const LEVEL_COUNT: usize,
>(a: Hnsw<DIM, DF, LEVEL_COUNT>, b: Hnsw<DIM, DF, LEVEL_COUNT>, query: VectorModel)
    requires
        a@ == b@,
    ensures
        nearest::<DIM, DF>(a@, query) == nearest::<DIM, DF>(b@, query),
        a.wf() ==> index_is_sound::<DIM>(b@),
{
}

/// What a descent finds in layer 0: graph nodes of that layer, each with its
/// distance to the query, nearest first.
pub proof fn lemma_descend<const DIM: usize, DF: DistanceFunction<DIM>>(
    index: HnswModel,
    query: VectorModel,
    level: int,
    start: GraphNodeIdx,
)
    requires
        index_is_sound::<DIM>(index),
        -1 <= level < index.levels.len(),
        start.0 == 0 || (level >= 0 && start.0 < index.levels[level].len()),
    ensures
        is_ascending(descend::<DIM, DF>(index.levels, index.vectors, query, level, start)),
        forall|k: int|
            0 <= k < descend::<DIM, DF>(index.levels, index.vectors, query, level, start).len()
                ==> {
                &&& (#[trigger] descend::<DIM, DF>(
                    index.levels,
                    index.vectors,
                    query,
                    level,
                    start,
                )[k]).0.0 < index.levels[0].len()
                &&& descend::<DIM, DF>(index.levels, index.vectors, query, level, start)[k].1
                    == distance_to::<DIM, DF>(
                    index.levels[0],
                    index.vectors,
                    query,
                    descend::<DIM, DF>(index.levels, index.vectors, query, level, start)[k].0,
                )
            },
    decreases level + 1,
{
    if level >= 0 {
        let graph = index.levels[level];
        assert(graph_is_sound(graph, index.vectors.len()));
        if graph.len() == 0 {
            lemma_descend::<DIM, DF>(index, query, level - 1, start);
        } else {
            lemma_search_from::<DIM, DF>(graph, index.vectors, query, start, index.vectors.len());
            if level > 0 {
                let found = search_from::<DIM, DF>(graph, index.vectors, query, start);
                assert(found[0].0.0 < graph.len());
                assert(node_links_are_sound(index.levels, level, found[0].0.0 as int));
                lemma_descend::<DIM, DF>(
                    index,
                    query,
                    level - 1,
                    graph[found[0].0.0 as int].child.unwrap(),
                );
            }
        }
    }
}

/// Every answer to a query is a stored vector with its distance to the
/// query, and the answers come nearest first.
pub proof fn lemma_answers_are_stored_vectors<const DIM: usize, DF: DistanceFunction<DIM>>(
    index: HnswModel,
    query: VectorModel,
)
    requires
        index_is_sound::<DIM>(index),
    ensures
        forall|k: int|
            0 <= k < nearest::<DIM, DF>(index, query).len() ==> {
                &&& (#[trigger] nearest::<DIM, DF>(index, query)[k]).0.0 < index.vectors.len()
                &&& nearest::<DIM, DF>(index, query)[k].1 == DF::spec_distance(
                    index.vectors[nearest::<DIM, DF>(index, query)[k].0.0 as int],
                    query,
                )
            },
        forall|i: int, j: int|
            0 <= i < j < nearest::<DIM, DF>(index, query).len() ==> nearest::<DIM, DF>(
                index,
                query,
            )[i].1 <= nearest::<DIM, DF>(index, query)[j].1,
{
    if index.vectors.len() > 0 {
        let found = descend::<DIM, DF>(
            index.levels,
            index.vectors,
            query,
            index.levels.len() - 1,
            GraphNodeIdx(0),
        );
        lemma_descend::<DIM, DF>(index, query, index.levels.len() - 1, GraphNodeIdx(0));
        assert(graph_is_sound(index.levels[0], index.vectors.len()));
        assert forall|k: int| 0 <= k < nearest::<DIM, DF>(index, query).len() implies {
            &&& (#[trigger] nearest::<DIM, DF>(index, query)[k]).0.0 < index.vectors.len()
            &&& nearest::<DIM, DF>(index, query)[k].1 == DF::spec_distance(
                index.vectors[nearest::<DIM, DF>(index, query)[k].0.0 as int],
                query,
            )
        } by {
            assert(found[k].0.0 < index.levels[0].len());
            assert(index.levels[0][found[k].0.0 as int].node_idx.0 < index.vectors.len());
        }
        assert forall|i: int, j: int|
            0 <= i < j < nearest::<DIM, DF>(index, query).len() implies nearest::<DIM, DF>(
            index,
            query,
        )[i].1 <= nearest::<DIM, DF>(index, query)[j].1 by {
            assert(found[i].1 <= found[j].1);
        }
    }
}

/// An index without vectors is sound.
pub proof fn lemma_empty_index_is_sound<const DIM: usize>(seed: u64, cutoffs: Seq<u64>)
    requires
        cutoffs.len() >= 1,
    ensures
        index_is_sound::<DIM>(empty_index(seed, cutoffs)),
{
}

/// Inserting a vector keeps a sound index sound: every neighbour list still
/// has at most `MAX_NEIGHBOURS` entries, ascending by distance and without
/// repeats, and the vertical links still form one chain per vector. No layer
/// gets more than one graph node.
pub proof fn lemma_with_vector_is_sound<const DIM: usize, DF: DistanceFunction<DIM>>(
    index: HnswModel,
    vector: VectorModel,
)
    requires
        index_is_sound::<DIM>(index),
        vector.len() == DIM,
        index.vectors.len() < usize::MAX,
        forall|l: int| 0 <= l < index.levels.len() ==> (#[trigger] index.levels[l]).len()
            < usize::MAX,
    ensures
        index_is_sound::<DIM>(with_vector::<DIM, DF>(index, vector)),
        with_vector::<DIM, DF>(index, vector).vectors == index.vectors.push(vector),
        with_vector::<DIM, DF>(index, vector).cutoffs == index.cutoffs,
        with_vector::<DIM, DF>(index, vector).levels.len() == index.levels.len(),
        forall|l: int|
            0 <= l < index.levels.len() ==> (#[trigger] with_vector::<DIM, DF>(
                index,
                vector,
            ).levels[l]).len() <= index.levels[l].len() + 1,
{
    let stored = HnswModel { vectors: index.vectors.push(vector), ..index };
    let node_idx = NodeIdx(index.vectors.len() as usize);
    let depth = depth_for_draw(index.cutoffs, next_seed(index.seed), 0);
    lemma_depth_for_draw(index.cutoffs, next_seed(index.seed), 0);
    assert forall|l: int| 0 <= l < stored.levels.len() implies {
        &&& graph_is_sound(#[trigger] stored.levels[l], stored.vectors.len())
        &&& graph_is_orderly(stored.levels[l])
    } by {
        assert(graph_is_sound(index.levels[l], index.vectors.len()));
        lemma_sound_for_more(index.levels[l], index.vectors.len(), stored.vectors.len());
    }
    assert(vectors_have_dim::<DIM>(stored.vectors)) by {
        assert forall|i: int| 0 <= i < stored.vectors.len() implies (
        #[trigger] stored.vectors[i]).len() == DIM by {
            if i < index.vectors.len() {
                assert(stored.vectors[i] == index.vectors[i]);
            }
        }
    }
    assert(index_is_sound::<DIM>(stored));
    lemma_levels_with_node::<DIM, DF>(stored, node_idx, depth);
    let out = with_vector::<DIM, DF>(index, vector);
    assert(out == with_indexed_node::<DIM, DF>(stored, node_idx));
    assert(index_is_sound::<DIM>(out));
    assert forall|l: int| 0 <= l < index.levels.len() implies (#[trigger] out.levels[l]).len()
        <= index.levels[l].len() + 1 by {
        assert(out.levels[l] == level_with_node::<DIM, DF>(
            stored.levels,
            stored.vectors,
            node_idx,
            depth,
            l,
        ));
        if l < depth {
            assert(graph_is_sound(stored.levels[l], stored.vectors.len()));
            lemma_with_node_len::<DIM, DF>(
                stored.levels[l],
                stored.vectors,
                node_idx,
                if l + 1 < depth {
                    Some(GraphNodeIdx(stored.levels[l + 1].len() as usize))
                } else {
                    None
                },
                if l == 0 {
                    None
                } else {
                    Some(GraphNodeIdx(stored.levels[l - 1].len() as usize))
                },
            );
        }
    }
}

/// Every index that insertions made from an index without vectors is
/// sound, at every point of its life: the node store holds the inserted
/// vectors in order, no neighbour list has more than `MAX_NEIGHBOURS`
/// entries, every list is ascending by distance and without repeats, and the
/// vertical links form one chain per vector.
pub proof fn lemma_built_index_is_sound<const DIM: usize, DF: DistanceFunction<DIM>>(
    seed: u64,
    cutoffs: Seq<u64>,
    inserted: Seq<VectorModel>,
)
    requires
        cutoffs.len() >= 1,
        vectors_have_dim::<DIM>(inserted),
        inserted.len() < usize::MAX,
    ensures
        index_is_sound::<DIM>(with_vectors::<DIM, DF>(empty_index(seed, cutoffs), inserted)),
        with_vectors::<DIM, DF>(empty_index(seed, cutoffs), inserted).vectors == inserted,
        with_vectors::<DIM, DF>(empty_index(seed, cutoffs), inserted).cutoffs == cutoffs,
        with_vectors::<DIM, DF>(empty_index(seed, cutoffs), inserted).levels.len()
            == cutoffs.len(),
        forall|l: int|
            0 <= l < cutoffs.len() ==> (#[trigger] with_vectors::<DIM, DF>(
                empty_index(seed, cutoffs),
                inserted,
            ).levels[l]).len() <= inserted.len(),
    decreases inserted.len(),
{
    if inserted.len() == 0 {
        assert(empty_index(seed, cutoffs).vectors =~= inserted);
    } else {
        let head = inserted.drop_last();
        let before = with_vectors::<DIM, DF>(empty_index(seed, cutoffs), head);
        assert(vectors_have_dim::<DIM>(head)) by {
            assert forall|i: int| 0 <= i < head.len() implies (#[trigger] head[i]).len()
                == DIM by {
                assert(head[i] == inserted[i]);
            }
        }
        lemma_built_index_is_sound::<DIM, DF>(seed, cutoffs, head);
        assert(inserted[inserted.len() - 1].len() == DIM);
        lemma_with_vector_is_sound::<DIM, DF>(before, inserted.last());
        assert(head.push(inserted.last()) =~= inserted);
    }
}

/// The first vector of an index gets position 0 in the node store. In every
/// layer that it joins it is the graph node at position 0, the entry point,
/// with no neighbours, linked to the layers next to it; the other layers
/// stay without graph nodes.
pub proof fn lemma_first_insert<const DIM: usize, DF: DistanceFunction<DIM>>(
    seed: u64,
    cutoffs: Seq<u64>,
    vector: VectorModel,
)
    requires
        cutoffs.len() >= 1,
    ensures
        ({
            let index = with_vector::<DIM, DF>(empty_index(seed, cutoffs), vector);
            let depth = depth_for_draw(cutoffs, next_seed(seed), 0);
            &&& index.vectors == seq![vector]
            &&& index.seed == next_seed(seed)
            &&& index.levels.len() == cutoffs.len()
            &&& 0 <= depth < cutoffs.len()
            &&& forall|l: int|
                0 <= l < depth ==> #[trigger] index.levels[l] == seq![
                    GraphNodeModel {
                        node_idx: NodeIdx(0),
                        neighbours: Seq::empty(),
                        parent: if l + 1 < depth {
                            Some(GraphNodeIdx(0))
                        } else {
                            None
                        },
                        child: if l == 0 {
                            None
                        } else {
                            Some(GraphNodeIdx(0))
                        },
                    },
                ]
            &&& forall|l: int|
                depth <= l < cutoffs.len() ==> (#[trigger] index.levels[l]).len() == 0
        }),
{
    let empty = empty_index(seed, cutoffs);
    let stored = HnswModel { vectors: empty.vectors.push(vector), ..empty };
    let index = with_vector::<DIM, DF>(empty, vector);
    let depth = depth_for_draw(cutoffs, next_seed(seed), 0);
    lemma_depth_for_draw(cutoffs, next_seed(seed), 0);
    assert(index.vectors =~= seq![vector]);
    assert forall|l: int| 0 <= l < depth implies #[trigger] index.levels[l] == seq![
        GraphNodeModel {
            node_idx: NodeIdx(0),
            neighbours: Seq::empty(),
            parent: if l + 1 < depth {
                Some(GraphNodeIdx(0))
            } else {
                None
            },
            child: if l == 0 {
                None
            } else {
                Some(GraphNodeIdx(0))
            },
        },
    ] by {
        let graph = stored.levels[l];
        assert(graph.len() == 0);
        let found = search::<DIM, DF>(graph, stored.vectors, stored.vectors[0]);
        assert(found.len() == 0);
        let candidates = candidates_for::<DIM, DF>(graph, stored.vectors, NodeIdx(0));
        assert(candidates.len() == 0) by {
            lemma_dedup_by_id_entries(found);
        }
        assert(keep_nearest(candidates) =~= Seq::empty());
        assert(stored.levels[l + 1].len() == 0 || l + 1 >= cutoffs.len());
        if l > 0 {
            assert(stored.levels[l - 1].len() == 0);
        }
        assert(index.levels[l] == level_with_node::<DIM, DF>(
            stored.levels,
            stored.vectors,
            NodeIdx(0),
            depth,
            l,
        ));
        assert(index.levels[l] =~= seq![
            GraphNodeModel {
                node_idx: NodeIdx(0),
                neighbours: Seq::empty(),
                parent: if l + 1 < depth {
                    Some(GraphNodeIdx(0))
                } else {
                    None
                },
                child: if l == 0 {
                    None
                } else {
                    Some(GraphNodeIdx(0))
                },
            },
        ]);
    }
    assert forall|l: int| depth <= l < cutoffs.len() implies (#[trigger] index.levels[l]).len()
        == 0 by {
        assert(index.levels[l] == stored.levels[l]);
    }
}

/// What is left after the repeated positions are gone holds every position
/// of the list, and no other.
pub proof fn lemma_dedup_by_id_ids(list: Seq<Neighbour>, id: GraphNodeIdx)
    ensures
        has_id(dedup_by_id(list), id) <==> has_id(list, id),
    decreases list.len(),
{
    if list.len() > 0 {
        let head = list.drop_last();
        let last = list.last();
        let kept = dedup_by_id(head);
        let out = dedup_by_id(list);
        lemma_dedup_by_id_ids(head, id);
        if has_id(out, id) {
            let k = choose|k: int| 0 <= k < out.len() && (#[trigger] out[k]).0 == id;
            if k < kept.len() {
                assert(kept[k].0 == id);
                assert(has_id(head, id));
                let m = choose|m: int| 0 <= m < head.len() && (#[trigger] head[m]).0 == id;
                assert(list[m].0 == id);
            } else {
                assert(list[list.len() - 1].0 == id);
            }
        }
        if has_id(list, id) {
            let k = choose|k: int| 0 <= k < list.len() && (#[trigger] list[k]).0 == id;
            if k < head.len() {
                assert(head[k].0 == id);
                assert(has_id(head, id));
                assert(has_id(kept, id));
                let m = choose|m: int| 0 <= m < kept.len() && (#[trigger] kept[m]).0 == id;
                assert(out[m].0 == id);
            } else if has_id(kept, last.0) {
            } else {
                assert(out[out.len() - 1].0 == id);
            }
        }
    }
}

/// A new neighbour leaves a list strictly ascending by distance if the list
/// was so and held no entry as far as the new one.
pub proof fn lemma_with_neighbour_strictly_ascending(
    graph: GraphModel,
    idx: GraphNodeIdx,
    neighbour: Neighbour,
)
    requires
        idx.0 < graph.len(),
        is_strictly_ascending(graph[idx.0 as int].neighbours),
        !has_distance(graph[idx.0 as int].neighbours, neighbour.1),
    ensures
        is_strictly_ascending(with_neighbour(graph, idx, neighbour)[idx.0 as int].neighbours),
{
    let list = graph[idx.0 as int].neighbours;
    lemma_sorted_insert_strictly_ascending(list, neighbour);
    lemma_keep_nearest(sorted_insert(list, neighbour));
}

/// Where no neighbour list is full, a greedy search finds no more than a
/// list can hold.
pub proof fn lemma_search_from_fits<const DIM: usize, DF: DistanceFunction<DIM>>(
    graph: GraphModel,
    vectors: Seq<VectorModel>,
    query: VectorModel,
    start: GraphNodeIdx,
    node_count: nat,
)
    requires
        graph_is_sound(graph, node_count),
        has_room(graph),
        start.0 < graph.len(),
    ensures
        search_from::<DIM, DF>(graph, vectors, query, start).len() <= MAX_NEIGHBOURS,
    decreases distance_to::<DIM, DF>(graph, vectors, query, start),
{
    let here = distance_to::<DIM, DF>(graph, vectors, query, start);
    let list = graph[start.0 as int].neighbours;
    let next = first_closer::<DIM, DF>(graph, vectors, query, list, here, 0);
    lemma_first_closer::<DIM, DF>(graph, vectors, query, list, here, 0);
    if 0 <= next < list.len() && distance_to::<DIM, DF>(graph, vectors, query, list[next].0)
        < here {
        assert(graph[start.0 as int].neighbours[next].0.0 < graph.len());
        lemma_search_from_fits::<DIM, DF>(graph, vectors, query, list[next].0, node_count);
    } else {
        lemma_sort_by_distance(
            seq![(start, here)] + rescored::<DIM, DF>(graph, vectors, query, list),
        );
    }
}

/// A new graph node keeps the edges going both ways in a layer where they
/// did and where no neighbour list was full.
pub proof fn lemma_with_node_is_symmetric<const DIM: usize, DF: DistanceFunction<DIM>>(
    graph: GraphModel,
    vectors: Seq<VectorModel>,
    node_idx: NodeIdx,
    parent: Option<GraphNodeIdx>,
    child: Option<GraphNodeIdx>,
)
    requires
        graph_is_sound(graph, vectors.len()),
        graph_is_orderly(graph),
        is_symmetric(graph),
        has_room(graph),
        node_idx.0 < vectors.len(),
        graph.len() < usize::MAX,
    ensures
        is_symmetric(with_node::<DIM, DF>(graph, vectors, node_idx, parent, child)),
{
    let n = graph.len() as int;
    let idx = GraphNodeIdx(n as usize);
    let candidates = candidates_for::<DIM, DF>(graph, vectors, node_idx);
    let out = with_node::<DIM, DF>(graph, vectors, node_idx, parent, child);
    let found = search::<DIM, DF>(graph, vectors, vectors[node_idx.0 as int]);
    lemma_with_node::<DIM, DF>(graph, vectors, node_idx, parent, child);
    lemma_candidates_for::<DIM, DF>(graph, vectors, node_idx, vectors.len());
    lemma_dedup_by_id_entries(found);
    if graph.len() > 0 {
        lemma_search_from_fits::<DIM, DF>(
            graph,
            vectors,
            vectors[node_idx.0 as int],
            GraphNodeIdx(0),
            vectors.len(),
        );
    }
    lemma_keep_nearest(candidates);
    assert(out[n].neighbours == candidates);
    // A list that was there names no graph node but those that were there.
    assert forall|a: int, b: int|
        0 <= a < n && 0 <= b <= n && #[trigger] has_id(
            graph[a].neighbours,
            GraphNodeIdx(b as usize),
        ) implies b < n by {
        let m = choose|m: int|
            0 <= m < graph[a].neighbours.len() && (#[trigger] graph[a].neighbours[m]).0
                == GraphNodeIdx(b as usize);
        assert(graph[a].neighbours[m].0.0 < graph.len());
    }
    assert forall|a: int, b: int|
        0 <= a < out.len() && 0 <= b < out.len() && #[trigger] has_id(
            out[a].neighbours,
            GraphNodeIdx(b as usize),
        ) implies has_id(out[b].neighbours, GraphNodeIdx(a as usize)) by {
        let id_a = GraphNodeIdx(a as usize);
        let id_b = GraphNodeIdx(b as usize);
        if a == n {
            let k = choose|k: int| 0 <= k < candidates.len() && (#[trigger] candidates[k]).0
                == id_b;
            assert(candidates[k].0.0 as int == b);
            lemma_longer_list(graph[b].neighbours, (idx, candidates[k].1), idx);
        } else {
            if has_id(candidates, id_a) {
                let k = choose|k: int| 0 <= k < candidates.len() && (#[trigger] candidates[k]).0
                    == id_a;
                assert(candidates[k].0.0 as int == a);
                lemma_longer_list(graph[a].neighbours, (idx, candidates[k].1), id_b);
            } else {
                assert(out[a] == graph[a]);
            }
            if b == n {
                assert(has_id(candidates, id_a));
            } else {
                assert(has_id(graph[a].neighbours, id_b));
                assert(has_id(graph[b].neighbours, id_a));
                if has_id(candidates, id_b) {
                    let k = choose|k: int|
                        0 <= k < candidates.len() && (#[trigger] candidates[k]).0 == id_b;
                    assert(candidates[k].0.0 as int == b);
                    lemma_longer_list(graph[b].neighbours, (idx, candidates[k].1), id_a);
                } else {
                    assert(out[b] == graph[b]);
                }
            }
        }
    }
}

/// A list that was not full holds, after a new entry went in, what it held
/// and the new entry.
pub proof fn lemma_longer_list(list: Seq<Neighbour>, entry: Neighbour, id: GraphNodeIdx)
    requires
        list.len() < MAX_NEIGHBOURS,
    ensures
        has_id(keep_nearest(sorted_insert(list, entry)), id) <==> (id == entry.0 || has_id(
            list,
            id,
        )),
{
    lemma_sorted_insert_entries(list, entry);
    lemma_keep_nearest(sorted_insert(list, entry));
    lemma_sorted_insert_ids(list, entry, id);
}

/// Inserting a vector keeps the edges going both ways in every layer, in an
/// index where they did and where no neighbour list was full.
pub proof fn lemma_with_vector_is_symmetric<const DIM: usize, DF: DistanceFunction<DIM>>(
    index: HnswModel,
    vector: VectorModel,
)
    requires
        index_is_sound::<DIM>(index),
        index.vectors.len() < usize::MAX,
        forall|l: int|
            0 <= l < index.levels.len() ==> {
                &&& (#[trigger] index.levels[l]).len() < usize::MAX
                &&& is_symmetric(index.levels[l])
                &&& has_room(index.levels[l])
            },
    ensures
        forall|l: int|
            0 <= l < index.levels.len() ==> is_symmetric(
                #[trigger] with_vector::<DIM, DF>(index, vector).levels[l],
            ),
{
    let vectors = index.vectors.push(vector);
    let node_idx = NodeIdx(index.vectors.len() as usize);
    let depth = depth_for_draw(index.cutoffs, next_seed(index.seed), 0);
    let out = with_vector::<DIM, DF>(index, vector);
    assert forall|l: int| 0 <= l < index.levels.len() implies is_symmetric(
        #[trigger] out.levels[l],
    ) by {
        assert(out.levels[l] == level_with_node::<DIM, DF>(
            index.levels,
            vectors,
            node_idx,
            depth,
            l,
        ));
        assert(is_symmetric(index.levels[l]));
        assert(graph_is_sound(index.levels[l], index.vectors.len()));
        lemma_sound_for_more(index.levels[l], index.vectors.len(), vectors.len());
        if l < depth {
            lemma_with_node_is_symmetric::<DIM, DF>(
                index.levels[l],
                vectors,
                node_idx,
                if l + 1 < depth {
                    Some(GraphNodeIdx(index.levels[l + 1].len() as usize))
                } else {
                    None
                },
                if l == 0 {
                    None
                } else {
                    Some(GraphNodeIdx(index.levels[l - 1].len() as usize))
                },
            );
        }
    }
}

} // verus!
