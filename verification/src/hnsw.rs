//! The index: the node store, the layers, the generator that picks how many
//! layers a vector joins, and the search that descends through the layers.
use vstd::prelude::*;

use crate::distance::{Distance, DistanceFunction, VectorModel};
use crate::level::{
    graph_is_orderly, graph_is_sound, lemma_search_from, lemma_with_node, lemma_with_node_len,
    lemma_with_node_then_parent, search_from, vectors_have_dim, with_node, with_parent,
    GraphModel, Level,
};
use crate::node::{GraphNodeIdx, GraphNodeModel, Neighbour, Node, NodeIdx};
use crate::rand::{next_seed, LCGRng};
use crate::store::{
    graph_get, graph_get_mut, node_store_get, node_store_len, node_store_new, node_store_push,
    stored_nodes, stored_vectors, NodeStore,
};

verus! {

/// The mathematical value of an index.
pub struct HnswModel {
    /// The stored vectors, by position in the node store.
    pub vectors: Seq<VectorModel>,
    /// The layers, layer 0 first.
    pub levels: Seq<GraphModel>,
    /// The state of the generator.
    pub seed: u64,
    /// For each depth, how many of the generator's draws choose it or a
    /// smaller one.
    pub cutoffs: Seq<u64>,
}

/// The vertical links of the graph node at position `i` of layer `l`: in
/// layer 0 it has no link down, in a layer above it links down to the graph
/// node of the same vector one layer below, and wherever a link goes the
/// link back comes from.
pub open spec fn node_links_are_sound(levels: Seq<GraphModel>, l: int, i: int) -> bool {
    let node = levels[l][i];
    &&& l == 0 ==> node.child is None
    &&& l > 0 ==> {
        &&& node.child is Some
        &&& node.child.unwrap().0 < levels[l - 1].len()
        &&& levels[l - 1][node.child.unwrap().0 as int].node_idx == node.node_idx
        &&& levels[l - 1][node.child.unwrap().0 as int].parent == Some(GraphNodeIdx(i as usize))
    }
    &&& node.parent is Some ==> {
        &&& l + 1 < levels.len()
        &&& node.parent.unwrap().0 < levels[l + 1].len()
        &&& levels[l + 1][node.parent.unwrap().0 as int].child == Some(GraphNodeIdx(i as usize))
    }
}

/// The vertical links form one chain per vector.
pub open spec fn links_are_sound(levels: Seq<GraphModel>) -> bool {
    forall|l: int, i: int|
        0 <= l < levels.len() && 0 <= i < levels[l].len() ==> #[trigger] node_links_are_sound(
            levels,
            l,
            i,
        )
}

/// What holds of every index: there is a layer, every layer has a cutoff,
/// every vector has `DIM` components, every layer's graph is sound and
/// orderly, and the vertical links are sound.
pub open spec fn index_is_sound<const DIM: usize>(index: HnswModel) -> bool {
    &&& index.levels.len() >= 1
    &&& index.cutoffs.len() == index.levels.len()
    &&& vectors_have_dim::<DIM>(index.vectors)
    &&& forall|l: int|
        0 <= l < index.levels.len() ==> {
            &&& graph_is_sound(#[trigger] index.levels[l], index.vectors.len())
            &&& graph_is_orderly(index.levels[l])
        }
    &&& links_are_sound(index.levels)
}

/// The depth that a draw chooses: the first place at or after `from` whose
/// cutoff is above the draw, or the last place when there is none.
pub open spec fn depth_for_draw(cutoffs: Seq<u64>, draw: u64, from: int) -> int
    decreases cutoffs.len() - from,
{
    if from < 0 || from >= cutoffs.len() {
        cutoffs.len() - 1
    } else if draw < cutoffs[from] {
        from
    } else {
        depth_for_draw(cutoffs, draw, from + 1)
    }
}

/// Layer `l` after the stored vector at `node_idx` joined the layers below
/// `depth`: below `depth` the layer has one graph node more, linked down to
/// the new graph node of the layer below and up to that of the layer above
/// where that is below `depth` too; from `depth` on the layer is as before.
pub open spec fn level_with_node<const DIM: usize, DF: DistanceFunction<DIM>>(
    levels: Seq<GraphModel>,
    vectors: Seq<VectorModel>,
    node_idx: NodeIdx,
    depth: int,
    l: int,
) -> GraphModel {
    if l < depth {
        let parent = if l + 1 < depth {
            Some(GraphNodeIdx(levels[l + 1].len() as usize))
        } else {
            None
        };
        let child = if l == 0 {
            None
        } else {
            Some(GraphNodeIdx(levels[l - 1].len() as usize))
        };
        with_node::<DIM, DF>(levels[l], vectors, node_idx, parent, child)
    } else {
        levels[l]
    }
}

/// The layers after the stored vector at `node_idx` joined the layers below
/// `depth`.
pub open spec fn levels_with_node<const DIM: usize, DF: DistanceFunction<DIM>>(
    levels: Seq<GraphModel>,
    vectors: Seq<VectorModel>,
    node_idx: NodeIdx,
    depth: int,
) -> Seq<GraphModel> {
    Seq::new(
        levels.len(),
        |l: int| level_with_node::<DIM, DF>(levels, vectors, node_idx, depth, l),
    )
}

/// The index after the stored vector at `node_idx` was indexed: the
/// generator made one step, and the vector joined as many layers as the draw
/// chose.
pub open spec fn with_indexed_node<const DIM: usize, DF: DistanceFunction<DIM>>(
    index: HnswModel,
    node_idx: NodeIdx,
) -> HnswModel {
    let draw = next_seed(index.seed);
    let depth = depth_for_draw(index.cutoffs, draw, 0);
    HnswModel {
        levels: levels_with_node::<DIM, DF>(index.levels, index.vectors, node_idx, depth),
        seed: draw,
        ..index
    }
}

/// The index after `vector` was inserted: stored at the end of the node
/// store, then indexed.
pub open spec fn with_vector<const DIM: usize, DF: DistanceFunction<DIM>>(
    index: HnswModel,
    vector: VectorModel,
) -> HnswModel {
    with_indexed_node::<DIM, DF>(
        HnswModel { vectors: index.vectors.push(vector), ..index },
        NodeIdx(index.vectors.len() as usize),
    )
}

/// An index without vectors: one layer without graph nodes for each cutoff.
pub open spec fn empty_index(seed: u64, cutoffs: Seq<u64>) -> HnswModel {
    HnswModel {
        vectors: Seq::empty(),
        levels: Seq::new(cutoffs.len(), |l: int| Seq::<GraphNodeModel>::empty()),
        seed,
        cutoffs,
    }
}

/// What the descent from layer `level` finds in layer 0, when the search in
/// layer `level` starts at `start`.
///
/// A layer without graph nodes is passed over. In a layer above layer 0 the
/// greedy search runs, and the search one layer below starts where the
/// nearest graph node found links down to, or at the entry point if it has
/// no such link. In layer 0 the greedy search gives the result. Where no
/// layer has a graph node the result is empty.
pub open spec fn descend<const DIM: usize, DF: DistanceFunction<DIM>>(
    levels: Seq<GraphModel>,
    vectors: Seq<VectorModel>,
    query: VectorModel,
    level: int,
    start: GraphNodeIdx,
) -> Seq<Neighbour>
    decreases level + 1,
{
    if level < 0 {
        Seq::empty()
    } else if levels[level].len() == 0 {
        descend::<DIM, DF>(levels, vectors, query, level - 1, start)
    } else {
        let found = search_from::<DIM, DF>(levels[level], vectors, query, start);
        if level == 0 {
            found
        } else {
            let next = match levels[level][found[0].0.0 as int].child {
                Some(child) => child,
                None => GraphNodeIdx(0),
            };
            descend::<DIM, DF>(levels, vectors, query, level - 1, next)
        }
    }
}

/// The answer to a query: for each graph node that the descent finds in
/// layer 0, the position of its vector in the node store and the distance
/// from that vector to the query, nearest first. An index without vectors
/// answers with nothing.
pub open spec fn nearest<const DIM: usize, DF: DistanceFunction<DIM>>(
    index: HnswModel,
    query: VectorModel,
) -> Seq<(NodeIdx, Distance)> {
    if index.vectors.len() == 0 {
        Seq::empty()
    } else {
        descend::<DIM, DF>(
            index.levels,
            index.vectors,
            query,
            index.levels.len() - 1,
            GraphNodeIdx(0),
        ).map_values(|hit: Neighbour| (index.levels[0][hit.0.0 as int].node_idx, hit.1))
    }
}

/// Where `depth_for_draw` lands: at a place of the table.
pub proof fn lemma_depth_for_draw(cutoffs: Seq<u64>, draw: u64, from: int)
    requires
        cutoffs.len() >= 1,
        0 <= from <= cutoffs.len(),
    ensures
        0 <= depth_for_draw(cutoffs, draw, from) < cutoffs.len(),
    decreases cutoffs.len() - from,
{
    if from < cutoffs.len() && !(draw < cutoffs[from]) {
        lemma_depth_for_draw(cutoffs, draw, from + 1);
    }
}

/// A graph that is sound for some number of stored vectors is sound for
/// any larger number.
pub proof fn lemma_sound_for_more(graph: GraphModel, node_count: nat, more: nat)
    requires
        graph_is_sound(graph, node_count),
        node_count <= more,
    ensures
        graph_is_sound(graph, more),
{
    assert forall|i: int| 0 <= i < graph.len() implies {
        &&& (#[trigger] graph[i]).node_idx.0 < more
        &&& forall|j: int|
            0 <= j < graph[i].neighbours.len() ==> (#[trigger] graph[i].neighbours[j]).0.0
                < graph.len()
    } by {
        assert(graph[i].node_idx.0 < node_count);
    }
}

/// One round of indexing: when the vector has joined the layers below `at`,
/// a new graph node in layer `at` and the link up to it from the new graph
/// node of the layer below make it joined to the layers below `at + 1`.
pub proof fn lemma_index_step<const DIM: usize, DF: DistanceFunction<DIM>>(
    levels: Seq<GraphModel>,
    vectors: Seq<VectorModel>,
    node_idx: NodeIdx,
    at: int,
    after: Seq<GraphModel>,
)
    requires
        0 <= at < levels.len(),
        forall|l: int| 0 <= l < levels.len() ==> graph_is_sound(#[trigger] levels[l], vectors.len()),
        forall|l: int| 0 <= l <= at ==> (#[trigger] levels[l]).len() < usize::MAX,
        after.len() == levels.len(),
        forall|l: int|
            0 <= l < levels.len() && l != at && l != at - 1 ==> #[trigger] after[l]
                == level_with_node::<DIM, DF>(levels, vectors, node_idx, at, l),
        after[at] == with_node::<DIM, DF>(
            levels[at],
            vectors,
            node_idx,
            None,
            if at == 0 {
                None
            } else {
                Some(GraphNodeIdx(levels[at - 1].len() as usize))
            },
        ),
        at > 0 ==> after[at - 1] == with_parent(
            level_with_node::<DIM, DF>(levels, vectors, node_idx, at, at - 1),
            GraphNodeIdx(levels[at - 1].len() as usize),
            GraphNodeIdx(levels[at].len() as usize),
        ),
    ensures
        after == levels_with_node::<DIM, DF>(levels, vectors, node_idx, at + 1),
{
    let target = levels_with_node::<DIM, DF>(levels, vectors, node_idx, at + 1);
    assert forall|l: int| 0 <= l < levels.len() implies after[l] == target[l] by {
        if l == at - 1 {
            let below_child = if l == 0 {
                None
            } else {
                Some(GraphNodeIdx(levels[l - 1].len() as usize))
            };
            lemma_with_node_then_parent::<DIM, DF>(
                levels[l],
                vectors,
                node_idx,
                below_child,
                GraphNodeIdx(levels[at].len() as usize),
            );
        }
    }
    assert(after =~= target);
}

/// Indexing a stored vector keeps a sound index sound.
pub proof fn lemma_levels_with_node<const DIM: usize, DF: DistanceFunction<DIM>>(
    index: HnswModel,
    node_idx: NodeIdx,
    depth: int,
)
    requires
        index_is_sound::<DIM>(index),
        node_idx.0 < index.vectors.len(),
        0 <= depth <= index.levels.len(),
        forall|l: int| 0 <= l < depth ==> (#[trigger] index.levels[l]).len() < usize::MAX,
    ensures
        index_is_sound::<DIM>(
            HnswModel {
                levels: levels_with_node::<DIM, DF>(index.levels, index.vectors, node_idx, depth),
                ..index
            },
        ),
{
    let old_levels = index.levels;
    let vectors = index.vectors;
    let new_levels = levels_with_node::<DIM, DF>(old_levels, vectors, node_idx, depth);
    assert forall|l: int| 0 <= l < new_levels.len() implies {
        &&& graph_is_sound(#[trigger] new_levels[l], vectors.len())
        &&& graph_is_orderly(new_levels[l])
        &&& new_levels[l].len() == old_levels[l].len() + (if l < depth {
            1int
        } else {
            0int
        })
        &&& forall|i: int|
            0 <= i < old_levels[l].len() ==> {
                &&& (#[trigger] new_levels[l][i]).node_idx == old_levels[l][i].node_idx
                &&& new_levels[l][i].parent == old_levels[l][i].parent
                &&& new_levels[l][i].child == old_levels[l][i].child
            }
    } by {
        assert(graph_is_sound(old_levels[l], vectors.len()));
        if l < depth {
            let parent = if l + 1 < depth {
                Some(GraphNodeIdx(old_levels[l + 1].len() as usize))
            } else {
                None
            };
            let child = if l == 0 {
                None
            } else {
                Some(GraphNodeIdx(old_levels[l - 1].len() as usize))
            };
            lemma_with_node::<DIM, DF>(old_levels[l], vectors, node_idx, parent, child);
        }
    }
    assert forall|l: int, i: int|
        0 <= l < new_levels.len() && 0 <= i < new_levels[l].len() implies #[trigger] node_links_are_sound(
        new_levels,
        l,
        i,
    ) by {
        let node = new_levels[l][i];
        assert(graph_is_sound(new_levels[l], vectors.len()));
        if l > 0 {
            assert(graph_is_sound(new_levels[l - 1], vectors.len()));
        }
        if l + 1 < new_levels.len() {
            assert(graph_is_sound(new_levels[l + 1], vectors.len()));
        }
        if i < old_levels[l].len() {
            let was = old_levels[l][i];
            assert(node_links_are_sound(old_levels, l, i));
            assert(node.child == was.child && node.parent == was.parent && node.node_idx
                == was.node_idx);
            if l > 0 {
                let c = was.child.unwrap().0 as int;
                assert(new_levels[l - 1][c].parent == old_levels[l - 1][c].parent);
            }
            if was.parent is Some {
                let p = was.parent.unwrap().0 as int;
                assert(new_levels[l + 1][p].child == old_levels[l + 1][p].child);
            }
        } else {
            assert(l < depth);
            assert(i == old_levels[l].len());
            let parent = if l + 1 < depth {
                Some(GraphNodeIdx(old_levels[l + 1].len() as usize))
            } else {
                None
            };
            let child = if l == 0 {
                None
            } else {
                Some(GraphNodeIdx(old_levels[l - 1].len() as usize))
            };
            lemma_with_node::<DIM, DF>(old_levels[l], vectors, node_idx, parent, child);
            assert(node.parent == parent && node.child == child && node.node_idx == node_idx);
            if l > 0 {
                let below_parent = Some(GraphNodeIdx(old_levels[l].len() as usize));
                let below_child = if l - 1 == 0 {
                    None
                } else {
                    Some(GraphNodeIdx(old_levels[l - 2].len() as usize))
                };
                lemma_with_node::<DIM, DF>(
                    old_levels[l - 1],
                    vectors,
                    node_idx,
                    below_parent,
                    below_child,
                );
            }
            if l + 1 < depth {
                let above_parent = if l + 2 < depth {
                    Some(GraphNodeIdx(old_levels[l + 2].len() as usize))
                } else {
                    None
                };
                let above_child = Some(GraphNodeIdx(old_levels[l].len() as usize));
                lemma_with_node::<DIM, DF>(
                    old_levels[l + 1],
                    vectors,
                    node_idx,
                    above_parent,
                    above_child,
                );
            }
        }
    }
}

/// The index.
///
/// `DIM` is the number of components of a vector, `DF` the distance function
/// and `LEVEL_COUNT` the number of layers.
#[derive(Debug, PartialEq)]
pub struct Hnsw<const DIM: usize, DF: DistanceFunction<DIM>, const LEVEL_COUNT: usize> {
    pub nodes: NodeStore,
    pub levels: Vec<Level<DIM, DF>>,
    pub rng: LCGRng,
    pub level_cutoffs: [u64; LEVEL_COUNT],
}

impl<const DIM: usize, DF: DistanceFunction<DIM>, const LEVEL_COUNT: usize> View for Hnsw<
    DIM,
    DF,
    LEVEL_COUNT,
> {
    type V = HnswModel;

    open spec fn view(&self) -> HnswModel {
        HnswModel {
            vectors: stored_vectors(self.nodes),
            levels: self.levels@.map_values(|level: Level<DIM, DF>| level@),
            seed: self.rng@,
            cutoffs: self.level_cutoffs@,
        }
    }
}

impl<const DIM: usize, DF: DistanceFunction<DIM>, const LEVEL_COUNT: usize> Hnsw<
    DIM,
    DF,
    LEVEL_COUNT,
> {
    /// The index is well formed: its value is sound, and every node knows its
    /// own position in the node store.
    pub open spec fn wf(&self) -> bool {
        &&& index_is_sound::<DIM>(self@)
        &&& forall|i: int|
            0 <= i < stored_nodes(self.nodes).len() ==> (#[trigger] stored_nodes(
                self.nodes,
            )[i]).idx.0 == i
    }

    /// An index without vectors. The generator starts at `seed`, and a draw
    /// `d` of the generator chooses the first depth `i` with
    /// `d < level_cutoffs[i]`.
    pub fn new(seed: u64, level_cutoffs: [u64; LEVEL_COUNT]) -> (index: Self)
        requires
            LEVEL_COUNT >= 1,
        ensures
            index.wf(),
            index@ == empty_index(seed, level_cutoffs@),
    {
        let mut levels: Vec<Level<DIM, DF>> = Vec::new();
        let mut i: usize = 0;
        while i < LEVEL_COUNT
            invariant
                i <= LEVEL_COUNT,
                levels@.len() == i,
                forall|l: int| 0 <= l < i ==> (#[trigger] levels@[l])@ == Seq::<
                    GraphNodeModel,
                >::empty(),
            decreases LEVEL_COUNT - i,
        {
            levels.push(Level::default());
            i += 1;
        }
        let index = Hnsw { nodes: node_store_new(), levels, rng: LCGRng::new(seed), level_cutoffs };
        proof {
            assert(index@.vectors =~= Seq::empty());
            assert(index@.levels =~= empty_index(seed, level_cutoffs@).levels);
        }
        index
    }

    /// Whether the vertical links of the graph node at position `i` of layer
    /// `l` are sound.
    fn node_links_are_well_formed(&self, l: usize, i: usize) -> (ok: bool)
        requires
            l < self@.levels.len(),
            i < self@.levels[l as int].len(),
        ensures
            ok == node_links_are_sound(self@.levels, l as int, i as int),
    {
        let ghost levels = self@.levels;
        let node = graph_get(&self.levels[l].graph, GraphNodeIdx::new(i));
        assert(node@ == levels[l as int][i as int]);
        let down = match node.child {
            None => l == 0,
            Some(child) => {
                if l == 0 || child.index() >= self.levels[l - 1].len() {
                    false
                } else {
                    let below = graph_get(&self.levels[l - 1].graph, child);
                    assert(below@ == levels[l - 1][child.0 as int]);
                    let back = match below.parent {
                        None => false,
                        Some(parent) => parent.index() == i,
                    };
                    back && below.node_idx.index() == node.node_idx.index()
                }
            },
        };
        let up = match node.parent {
            None => true,
            Some(parent) => {
                if l >= self.levels.len() - 1 || parent.index() >= self.levels[l + 1].len() {
                    false
                } else {
                    let above = graph_get(&self.levels[l + 1].graph, parent);
                    assert(above@ == levels[l + 1][parent.0 as int]);
                    match above.child {
                        None => false,
                        Some(child) => child.index() == i,
                    }
                }
            },
        };
        down && up
    }

    /// Whether the vertical links form one chain per vector.
    fn links_are_well_formed(&self) -> (ok: bool)
        ensures
            ok == links_are_sound(self@.levels),
    {
        let ghost levels = self@.levels;
        let mut l: usize = 0;
        while l < self.levels.len()
            invariant
                levels == self@.levels,
                l <= self.levels@.len() == levels.len(),
                forall|a: int, b: int|
                    0 <= a < l && 0 <= b < levels[a].len() ==> #[trigger] node_links_are_sound(
                        levels,
                        a,
                        b,
                    ),
            decreases self.levels.len() - l,
        {
            let len = self.levels[l].len();
            assert(len == levels[l as int].len());
            let mut i: usize = 0;
            while i < len
                invariant
                    levels == self@.levels,
                    l < self.levels@.len() == levels.len(),
                    i <= len == levels[l as int].len(),
                    forall|b: int|
                        0 <= b < i ==> #[trigger] node_links_are_sound(levels, l as int, b),
                decreases len - i,
            {
                if !self.node_links_are_well_formed(l, i) {
                    return false;
                }
                i += 1;
            }
            l += 1;
        }
        true
    }

    /// Whether the index is well formed. An index that `new` made and
    /// `insert` filled is; one that was put together from parts may not be.
    pub fn is_well_formed(&self) -> (ok: bool)
        ensures
            ok == self.wf(),
    {
        if self.levels.len() == 0 || self.levels.len() != LEVEL_COUNT {
            return false;
        }
        let node_count = node_store_len(&self.nodes);
        let mut i: usize = 0;
        while i < node_count
            invariant
                i <= node_count == stored_nodes(self.nodes).len(),
                forall|k: int|
                    0 <= k < i ==> {
                        &&& (#[trigger] stored_nodes(self.nodes)[k]).idx.0 == k
                        &&& stored_nodes(self.nodes)[k].vec@.len() == DIM
                    },
            decreases node_count - i,
        {
            let node = node_store_get(&self.nodes, NodeIdx::new(i));
            if node.idx.index() != i || node.vec.len() != DIM {
                assert(self@.vectors[i as int] == node.vec@);
                return false;
            }
            i += 1;
        }
        proof {
            assert forall|k: int| 0 <= k < self@.vectors.len() implies (
            #[trigger] self@.vectors[k]).len() == DIM by {
                assert(self@.vectors[k] == stored_nodes(self.nodes)[k].vec@);
            }
        }
        let mut l: usize = 0;
        while l < self.levels.len()
            invariant
                l <= self.levels@.len(),
                node_count == self@.vectors.len(),
                forall|a: int|
                    0 <= a < l ==> {
                        &&& graph_is_sound(#[trigger] self@.levels[a], self@.vectors.len())
                        &&& graph_is_orderly(self@.levels[a])
                    },
            decreases self.levels.len() - l,
        {
            assert(self@.levels[l as int] == self.levels@[l as int]@);
            if !self.levels[l].is_well_formed(node_count) {
                return false;
            }
            l += 1;
        }
        self.links_are_well_formed()
    }

    /// Makes one step of the generator and gives the depth that the draw
    /// chooses: the number of layers, from layer 0 up, that the next vector
    /// joins.
    pub fn gen_level(&mut self) -> (depth: usize)
        requires
            LEVEL_COUNT >= 1,
        ensures
            depth == depth_for_draw(old(self).level_cutoffs@, next_seed(old(self).rng@), 0),
            depth < LEVEL_COUNT,
            final(self).rng@ == next_seed(old(self).rng@),
            final(self).nodes == old(self).nodes,
            final(self).levels == old(self).levels,
            final(self).level_cutoffs == old(self).level_cutoffs,
    {
        let draw = self.rng.next_draw();
        let mut level: usize = 0;
        while level < LEVEL_COUNT
            invariant
                level <= LEVEL_COUNT,
                LEVEL_COUNT >= 1,
                self.level_cutoffs@.len() == LEVEL_COUNT,
                draw == next_seed(old(self).rng@),
                self.rng@ == draw,
                self.nodes == old(self).nodes,
                self.levels == old(self).levels,
                self.level_cutoffs == old(self).level_cutoffs,
                depth_for_draw(self.level_cutoffs@, draw, 0) == depth_for_draw(
                    self.level_cutoffs@,
                    draw,
                    level as int,
                ),
            decreases LEVEL_COUNT - level,
        {
            if draw < self.level_cutoffs[level] {
                return level;
            }
            level += 1;
        }
        LEVEL_COUNT - 1
    }

    /// Stores `vec` and indexes it.
    pub fn insert(&mut self, vec: Vec<u32>)
        requires
            old(self).wf(),
            vec@.len() == DIM,
        ensures
            final(self).wf(),
            final(self)@ == with_vector::<DIM, DF>(old(self)@, vec@),
    {
        let ghost vector = vec@;
        let node = Node { idx: NodeIdx::new(node_store_len(&self.nodes)), vec };
        let node_idx = node_store_push(&mut self.nodes, node);
        proof {
            assert(self@.vectors =~= old(self)@.vectors.push(vector));
            assert forall|l: int| 0 <= l < self@.levels.len() implies {
                &&& graph_is_sound(#[trigger] self@.levels[l], self@.vectors.len())
                &&& graph_is_orderly(self@.levels[l])
            } by {
                assert(graph_is_sound(old(self)@.levels[l], old(self)@.vectors.len()));
                lemma_sound_for_more(
                    old(self)@.levels[l],
                    old(self)@.vectors.len(),
                    self@.vectors.len(),
                );
            }
            assert(self@ == (HnswModel { vectors: old(self)@.vectors.push(vector), ..old(self)@ }));
        }
        self.index_node(node_idx);
    }

    /// Adds a graph node for the stored vector at `node_idx` to the layer
    /// `level_idx`, linked down to `child`, and links `child`, a graph node of
    /// the layer below, up to it.
    fn index_in_level(
        &mut self,
        node_idx: NodeIdx,
        level_idx: usize,
        child: Option<GraphNodeIdx>,
    ) -> (idx: GraphNodeIdx)
        requires
            level_idx < old(self)@.levels.len(),
            graph_is_sound(old(self)@.levels[level_idx as int], old(self)@.vectors.len()),
            vectors_have_dim::<DIM>(old(self)@.vectors),
            node_idx.0 < old(self)@.vectors.len(),
            child is Some ==> level_idx > 0 && child.unwrap().0 < old(self)@.levels[level_idx
                - 1].len(),
        ensures
            final(self).nodes == old(self).nodes,
            final(self).rng == old(self).rng,
            final(self).level_cutoffs == old(self).level_cutoffs,
            final(self)@.levels.len() == old(self)@.levels.len(),
            idx.0 == old(self)@.levels[level_idx as int].len(),
            old(self)@.levels[level_idx as int].len() < usize::MAX,
            final(self)@.levels[level_idx as int] == with_node::<DIM, DF>(
                old(self)@.levels[level_idx as int],
                old(self)@.vectors,
                node_idx,
                None,
                child,
            ),
            child is Some ==> final(self)@.levels[level_idx - 1] == with_parent(
                old(self)@.levels[level_idx - 1],
                child.unwrap(),
                idx,
            ),
            forall|l: int|
                0 <= l < old(self)@.levels.len() && l != level_idx && !(child is Some && l
                    == level_idx - 1) ==> #[trigger] final(self)@.levels[l] == old(
                    self,
                )@.levels[l],
    {
        let ghost at = level_idx as int;
        let ghost entered = self@.levels;
        proof {
            assert(entered[at] == self.levels@[at]@);
        }
        let graph_node_idx = self.levels[level_idx].add_node(&self.nodes, node_idx, child);
        let ghost grown = self@.levels;
        proof {
            assert(grown[at] == self.levels@[at]@);
            assert forall|l: int| 0 <= l < entered.len() && l != at implies #[trigger] grown[l]
                == entered[l] by {
                assert(grown[l] == self.levels@[l]@);
                assert(entered[l] == old(self).levels@[l]@);
            }
        }
        if let Some(child_idx) = child {
            proof {
                assert(self.levels@[at - 1]@ == grown[at - 1]);
            }
            let below = graph_get_mut(&mut self.levels[level_idx - 1].graph, child_idx);
            below.parent = Some(graph_node_idx);
            proof {
                assert(self.levels@[at - 1]@ =~= with_parent(
                    grown[at - 1],
                    child_idx,
                    graph_node_idx,
                ));
                assert(self@.levels[at - 1] == self.levels@[at - 1]@);
                assert forall|l: int|
                    0 <= l < entered.len() && l != at - 1 implies #[trigger] self@.levels[l]
                    == grown[l] by {
                    assert(self@.levels[l] == self.levels@[l]@);
                }
            }
        }
        graph_node_idx
    }

    /// Indexes the stored vector at `node_idx`: picks a depth and adds a graph
    /// node for the vector to every layer below it, from layer 0 up, each
    /// linked to the one below.
    pub fn index_node(&mut self, node_idx: NodeIdx)
        requires
            old(self).wf(),
            node_idx.0 < old(self)@.vectors.len(),
        ensures
            final(self).wf(),
            final(self)@ == with_indexed_node::<DIM, DF>(old(self)@, node_idx),
    {
        let ghost before = self@;
        let level_count = self.gen_level();
        proof {
            lemma_depth_for_draw(before.cutoffs, next_seed(before.seed), 0);
            assert forall|l: int| 0 <= l < before.levels.len() implies graph_is_sound(
                #[trigger] before.levels[l],
                before.vectors.len(),
            ) by {}
        }
        let mut child_graph_node_idx: Option<GraphNodeIdx> = None;
        let mut level_idx: usize = 0;
        while level_idx < level_count
            invariant
                level_idx <= level_count < LEVEL_COUNT,
                LEVEL_COUNT == before.levels.len(),
                vectors_have_dim::<DIM>(before.vectors),
                forall|l: int|
                    0 <= l < before.levels.len() ==> graph_is_sound(
                        #[trigger] before.levels[l],
                        before.vectors.len(),
                    ),
                node_idx.0 < before.vectors.len(),
                self.nodes == old(self).nodes,
                self@.vectors == before.vectors,
                self@.cutoffs == before.cutoffs,
                self@.seed == next_seed(before.seed),
                self@.levels == levels_with_node::<DIM, DF>(
                    before.levels,
                    before.vectors,
                    node_idx,
                    level_idx as int,
                ),
                forall|l: int| 0 <= l < level_idx ==> (#[trigger] before.levels[l]).len()
                    < usize::MAX,
                child_graph_node_idx == (if level_idx == 0 {
                    None
                } else {
                    Some(GraphNodeIdx(before.levels[level_idx - 1].len() as usize))
                }),
            decreases level_count - level_idx,
        {
            let ghost at = level_idx as int;
            let ghost entered = self@.levels;
            proof {
                assert(entered[at] == level_with_node::<DIM, DF>(
                    before.levels,
                    before.vectors,
                    node_idx,
                    at,
                    at,
                ));
                if at > 0 {
                    assert(entered[at - 1] == level_with_node::<DIM, DF>(
                        before.levels,
                        before.vectors,
                        node_idx,
                        at,
                        at - 1,
                    ));
                    lemma_with_node_len::<DIM, DF>(
                        before.levels[at - 1],
                        before.vectors,
                        node_idx,
                        None,
                        if at - 1 == 0 {
                            None
                        } else {
                            Some(GraphNodeIdx(before.levels[at - 2].len() as usize))
                        },
                    );
                }
            }
            let graph_node_idx = self.index_in_level(node_idx, level_idx, child_graph_node_idx);
            proof {
                let after = self@.levels;
                assert forall|l: int|
                    0 <= l < before.levels.len() && l != at && l != at - 1 implies #[trigger] after[l]
                    == level_with_node::<DIM, DF>(
                    before.levels,
                    before.vectors,
                    node_idx,
                    at,
                    l,
                ) by {
                    assert(after[l] == entered[l]);
                }
                lemma_index_step::<DIM, DF>(before.levels, before.vectors, node_idx, at, after);
            }
            child_graph_node_idx = Some(graph_node_idx);
            level_idx += 1;
        }
        proof {
            lemma_levels_with_node::<DIM, DF>(before, node_idx, level_count as int);
            assert(self@ == with_indexed_node::<DIM, DF>(before, node_idx));
        }
    }

    /// Answers a query: the stored vectors that the descent through the
    /// layers finds, each with its distance to the query, nearest first.
    pub fn nearest_neighbour_search<'a>(&'a self, query: &Vec<u32>) -> (found: Vec<
        (&'a Node, Distance),
    >)
        requires
            self.wf(),
            query@.len() == DIM,
        ensures
            found@.map_values(|hit: (&Node, Distance)| (hit.0.idx, hit.1)) == nearest::<DIM, DF>(
                self@,
                query@,
            ),
            forall|k: int|
                0 <= k < found@.len() ==> *(#[trigger] found@[k]).0 == stored_nodes(
                    self.nodes,
                )[found@[k].0.idx.0 as int],
            self@.vectors.len() == 0 ==> found@.len() == 0,
    {
        let mut found: Vec<(&'a Node, Distance)> = Vec::new();
        if node_store_len(&self.nodes) == 0 {
            proof {
                assert(found@.map_values(|hit: (&Node, Distance)| (hit.0.idx, hit.1))
                    =~= nearest::<DIM, DF>(self@, query@));
            }
            return found;
        }
        let ghost index = self@;
        let mut start_graph_node_idx = GraphNodeIdx::new(0);
        let mut level_idx: usize = LEVEL_COUNT;
        while level_idx > 0
            invariant
                self.wf(),
                index == self@,
                query@.len() == DIM,
                index.vectors.len() > 0,
                level_idx <= LEVEL_COUNT == index.levels.len(),
                found@.len() == 0,
                descend::<DIM, DF>(
                    index.levels,
                    index.vectors,
                    query@,
                    level_idx - 1,
                    start_graph_node_idx,
                ) == descend::<DIM, DF>(
                    index.levels,
                    index.vectors,
                    query@,
                    LEVEL_COUNT - 1,
                    GraphNodeIdx(0),
                ),
                start_graph_node_idx.0 == 0 || (level_idx >= 1 && start_graph_node_idx.0
                    < index.levels[level_idx - 1].len()),
            decreases level_idx,
        {
            level_idx -= 1;
            let level = &self.levels[level_idx];
            proof {
                assert(level@ == index.levels[level_idx as int]);
                assert(graph_is_sound(index.levels[level_idx as int], index.vectors.len()));
            }
            if level.len() > 0 {
                let closest_neighbours = level.nearest_neighbour_search_starting_from(
                    query,
                    &self.nodes,
                    start_graph_node_idx,
                );
                proof {
                    lemma_search_from::<DIM, DF>(
                        level@,
                        index.vectors,
                        query@,
                        start_graph_node_idx,
                        index.vectors.len(),
                    );
                }
                if level_idx == 0 {
                    let mut k: usize = 0;
                    while k < closest_neighbours.len()
                        invariant
                            self.wf(),
                            index == self@,
                            level_idx == 0,
                            level@ == index.levels[0],
                            *level == self.levels@[0],
                            k <= closest_neighbours.len(),
                            graph_is_sound(level@, index.vectors.len()),
                            forall|j: int|
                                0 <= j < closest_neighbours@.len() ==> (
                                #[trigger] closest_neighbours@[j]).0.0 < level@.len(),
                            found@.len() == k,
                            forall|j: int|
                                0 <= j < k ==> {
                                    &&& *(#[trigger] found@[j]).0 == stored_nodes(
                                        self.nodes,
                                    )[found@[j].0.idx.0 as int]
                                    &&& found@[j].0.idx
                                        == level@[closest_neighbours@[j].0.0 as int].node_idx
                                    &&& found@[j].1 == closest_neighbours@[j].1
                                },
                        decreases closest_neighbours.len() - k,
                    {
                        let (idx, dist) = closest_neighbours[k];
                        let graph_node = graph_get(&level.graph, idx);
                        assert(graph_node.node_idx == level@[idx.0 as int].node_idx);
                        let node = node_store_get(&self.nodes, graph_node.node_idx);
                        found.push((node, dist));
                        k += 1;
                    }
                    proof {
                        assert(found@.map_values(|hit: (&Node, Distance)| (hit.0.idx, hit.1))
                            =~= nearest::<DIM, DF>(self@, query@));
                    }
                    return found;
                }
                let closest_graph_node_idx = closest_neighbours[0].0;
                let closest_graph_node = graph_get(&level.graph, closest_graph_node_idx);
                proof {
                    assert(node_links_are_sound(
                        index.levels,
                        level_idx as int,
                        closest_graph_node_idx.0 as int,
                    ));
                    assert(closest_graph_node.child
                        == index.levels[level_idx as int][closest_graph_node_idx.0 as int].child);
                }
                start_graph_node_idx =
                match closest_graph_node.child {
                    Some(child) => child,
                    None => GraphNodeIdx::new(0),
                };
            }
        }
        proof {
            assert(found@.map_values(|hit: (&Node, Distance)| (hit.0.idx, hit.1))
                =~= nearest::<DIM, DF>(self@, query@));
        }
        found
    }
}

} // verus!
