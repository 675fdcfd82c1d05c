use index_vec::IndexVec;
use vstd::prelude::*;

use crate::node::{GraphNode, GraphNodeIdx, GraphNodeModel, Node, NodeIdx};

verus! {

/// The node store: every inserted vector, once, at a position that never
/// changes. It is an `index_vec::IndexVec`, which only the functions of this
/// file reach; what it holds is known through [`stored_nodes`] alone.
#[verifier::external_body]
#[derive(Debug, PartialEq)]
pub struct NodeStore {
    inner: IndexVec<NodeIdx, Node>,
}

/// The nodes that a store holds, by position: the `Vec` inside the
/// `IndexVec`.
pub uninterp spec fn stored_nodes(store: NodeStore) -> Seq<Node>;

/// `IndexVec::new`: a store that holds nothing.
#[verifier::external_body]
pub(crate) fn node_store_new() -> (store: NodeStore)
    ensures
        stored_nodes(store) == Seq::<Node>::empty(),
{
    NodeStore { inner: IndexVec::new() }
}

/// `IndexSlice::len`: the number of nodes held.
#[verifier::external_body]
pub(crate) fn node_store_len(store: &NodeStore) -> (len: usize)
    ensures
        len == stored_nodes(*store).len(),
{
    store.inner.len()
}

/// `IndexVec::push`: the node goes to the end, and its position, the length
/// before the call, comes back. The new length, that of a `Vec`, is a `usize`.
#[verifier::external_body]
pub(crate) fn node_store_push(store: &mut NodeStore, node: Node) -> (idx: NodeIdx)
    ensures
        stored_nodes(*final(store)) == stored_nodes(*old(store)).push(node),
        stored_nodes(*final(store)).len() <= usize::MAX,
        idx.0 == stored_nodes(*old(store)).len(),
{
    store.inner.push(node)
}

/// Indexing an `IndexVec` by a position. It panics past the end, which the
/// precondition excludes.
#[verifier::external_body]
pub(crate) fn node_store_get(store: &NodeStore, idx: NodeIdx) -> (node: &Node)
    requires
        idx.0 < stored_nodes(*store).len(),
    ensures
        *node == stored_nodes(*store)[idx.0 as int],
{
    &store.inner[idx]
}

/// One layer's graph nodes, each at a position that never changes. It is an
/// `index_vec::IndexVec`, which only the functions of this file reach; what
/// it holds is known through [`graph_nodes`] alone.
#[verifier::external_body]
#[derive(Debug, PartialEq)]
pub struct Graph {
    inner: IndexVec<GraphNodeIdx, GraphNode>,
}

/// The graph nodes that a graph holds, by position: the `Vec` inside the
/// `IndexVec`.
pub uninterp spec fn graph_nodes(graph: Graph) -> Seq<GraphNode>;

/// `IndexVec::new`: a graph that holds nothing.
#[verifier::external_body]
pub(crate) fn graph_new() -> (graph: Graph)
    ensures
        graph_nodes(graph) == Seq::<GraphNode>::empty(),
{
    Graph { inner: IndexVec::new() }
}

/// `IndexSlice::len`: the number of graph nodes held.
#[verifier::external_body]
pub(crate) fn graph_len(graph: &Graph) -> (len: usize)
    ensures
        len == graph_nodes(*graph).len(),
{
    graph.inner.len()
}

/// `IndexVec::push`: the graph node goes to the end, and its position, the
/// length before the call, comes back. The new length, that of a `Vec`, is a
/// `usize`.
#[verifier::external_body]
pub(crate) fn graph_push(graph: &mut Graph, node: GraphNode) -> (idx: GraphNodeIdx)
    ensures
        graph_nodes(*final(graph)) == graph_nodes(*old(graph)).push(node),
        graph_nodes(*final(graph)).len() <= usize::MAX,
        idx.0 == graph_nodes(*old(graph)).len(),
{
    graph.inner.push(node)
}

/// Indexing an `IndexVec` by a position. It panics past the end, which the
/// precondition excludes.
#[verifier::external_body]
pub(crate) fn graph_get(graph: &Graph, idx: GraphNodeIdx) -> (node: &GraphNode)
    requires
        idx.0 < graph_nodes(*graph).len(),
    ensures
        *node == graph_nodes(*graph)[idx.0 as int],
{
    &graph.inner[idx]
}

/// Indexing an `IndexVec` mutably by a position. It panics past the end,
/// which the precondition excludes. What is written through the reference is
/// what the graph then holds at that position; the rest stays.
#[verifier::external_body]
pub(crate) fn graph_get_mut(graph: &mut Graph, idx: GraphNodeIdx) -> (node: &mut GraphNode)
    requires
        idx.0 < graph_nodes(*old(graph)).len(),
    ensures
        *node == graph_nodes(*old(graph))[idx.0 as int],
        graph_nodes(*final(graph)) == graph_nodes(*old(graph)).update(idx.0 as int, *final(node)),
{
    &mut graph.inner[idx]
}

impl NodeStore {
    /// A store that holds nothing.
    pub fn new() -> (store: Self)
        ensures
            stored_nodes(store) == Seq::<Node>::empty(),
    {
        node_store_new()
    }

    /// The number of nodes held.
    pub fn len(&self) -> (len: usize)
        ensures
            len == stored_nodes(*self).len(),
    {
        node_store_len(self)
    }

    /// The node at `idx`.
    pub fn get(&self, idx: NodeIdx) -> (node: &Node)
        requires
            idx.0 < stored_nodes(*self).len(),
        ensures
            *node == stored_nodes(*self)[idx.0 as int],
    {
        node_store_get(self, idx)
    }

    /// Puts `node` at the end and gives its position.
    pub fn push(&mut self, node: Node) -> (idx: NodeIdx)
        ensures
            stored_nodes(*final(self)) == stored_nodes(*old(self)).push(node),
            idx.0 == stored_nodes(*old(self)).len(),
    {
        node_store_push(self, node)
    }
}

impl Graph {
    /// A graph that holds nothing.
    pub fn new() -> (graph: Self)
        ensures
            graph_nodes(graph) == Seq::<GraphNode>::empty(),
    {
        graph_new()
    }

    /// The number of graph nodes held.
    pub fn len(&self) -> (len: usize)
        ensures
            len == graph_nodes(*self).len(),
    {
        graph_len(self)
    }

    /// The graph node at `idx`.
    pub fn get(&self, idx: GraphNodeIdx) -> (node: &GraphNode)
        requires
            idx.0 < graph_nodes(*self).len(),
        ensures
            *node == graph_nodes(*self)[idx.0 as int],
    {
        graph_get(self, idx)
    }

    /// Puts `node` at the end and gives its position.
    pub fn push(&mut self, node: GraphNode) -> (idx: GraphNodeIdx)
        ensures
            graph_nodes(*final(self)) == graph_nodes(*old(self)).push(node),
            idx.0 == graph_nodes(*old(self)).len(),
    {
        graph_push(self, node)
    }
}

/// The mathematical value of a graph: the values of its nodes, by position.
pub open spec fn graph_model(graph: Graph) -> Seq<GraphNodeModel> {
    graph_nodes(graph).map_values(|node: GraphNode| node@)
}

/// The vectors that a store holds, by position.
pub open spec fn stored_vectors(store: NodeStore) -> Seq<Seq<u32>> {
    stored_nodes(store).map_values(|node: Node| node.vec@)
}

} // verus!
