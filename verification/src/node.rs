use arrayvec::ArrayVec;
use index_vec::Idx;
use vstd::prelude::*;

use crate::distance::Distance;

verus! {

/// The most neighbours a graph node keeps.
pub const MAX_NEIGHBOURS: usize = 20;

/// The position of a node in the node store.
#[derive(Clone, Copy, Debug, PartialEq, Eq, Structural, PartialOrd, Ord, Hash)]
pub struct NodeIdx(pub usize);

impl NodeIdx {
    pub fn new(value: usize) -> (idx: Self)
        ensures
            idx.0 == value,
    {
        NodeIdx(value)
    }

    pub fn index(self) -> (value: usize)
        ensures
            value == self.0,
    {
        self.0
    }
}

/// The position as `index_vec` makes and reads it.
impl Idx for NodeIdx {
    fn from_usize(idx: usize) -> (position: Self)
        ensures
            position.0 == idx,
    {
        NodeIdx(idx)
    }

    fn index(self) -> (idx: usize)
        ensures
            idx == self.0,
    {
        self.0
    }
}

/// The position of a graph node in one layer's graph.
#[derive(Clone, Copy, Debug, PartialEq, Eq, Structural, PartialOrd, Ord, Hash)]
pub struct GraphNodeIdx(pub usize);

impl GraphNodeIdx {
    pub fn new(value: usize) -> (idx: Self)
        ensures
            idx.0 == value,
    {
        GraphNodeIdx(value)
    }

    pub fn index(self) -> (value: usize)
        ensures
            value == self.0,
    {
        self.0
    }
}

/// The position as `index_vec` makes and reads it.
impl Idx for GraphNodeIdx {
    fn from_usize(idx: usize) -> (position: Self)
        ensures
            position.0 == idx,
    {
        GraphNodeIdx(idx)
    }

    fn index(self) -> (idx: usize)
        ensures
            idx == self.0,
    {
        self.0
    }
}

/// A neighbour of a graph node: its position in the same layer, and a distance.
pub type Neighbour = (GraphNodeIdx, Distance);

/// One stored vector.
#[derive(Clone, Debug, PartialEq)]
pub struct Node {
    pub idx: NodeIdx,
    pub vec: Vec<u32>,
}

/// `arrayvec::ArrayVec`, a vector that keeps its entries in place and takes
/// no more than `CAP` of them. What one holds is known through
/// [`neighbour_entries`] alone.
#[verifier::external_type_specification]
#[verifier::external_body]
#[verifier::reject_recursive_types(T)]
pub struct ExArrayVec<T, const CAP: usize>(ArrayVec<T, CAP>);

/// The entries that a neighbour list holds, first to last: the slice that
/// the `ArrayVec` dereferences to.
pub uninterp spec fn neighbour_entries(list: ArrayVec<Neighbour, MAX_NEIGHBOURS>) -> Seq<Neighbour>;

/// `ArrayVec::from_iter` on the entries of a vector. It panics when handed
/// more than the capacity, which the precondition excludes; otherwise the list
/// holds the entries in the vector's order.
#[verifier::external_body]
pub(crate) fn neighbours_from_vec(entries: Vec<Neighbour>) -> (list: ArrayVec<Neighbour, MAX_NEIGHBOURS>)
    requires
        entries@.len() <= MAX_NEIGHBOURS,
    ensures
        neighbour_entries(list) == entries@,
{
    ArrayVec::from_iter(entries)
}

/// `to_vec` on the slice that an `ArrayVec` dereferences to: a copy of the
/// entries in order. An `ArrayVec` never holds more than its capacity.
#[verifier::external_body]
pub(crate) fn neighbours_to_vec(list: &ArrayVec<Neighbour, MAX_NEIGHBOURS>) -> (entries: Vec<Neighbour>)
    ensures
        entries@ == neighbour_entries(*list),
        entries@.len() <= MAX_NEIGHBOURS,
{
    list.to_vec()
}

/// A node's participation in one layer.
#[derive(Debug, PartialEq)]
pub struct GraphNode {
    pub node_idx: NodeIdx,
    pub neighbours: ArrayVec<Neighbour, MAX_NEIGHBOURS>,
    pub parent: Option<GraphNodeIdx>,
    pub child: Option<GraphNodeIdx>,
}

/// The mathematical value of a graph node.
pub struct GraphNodeModel {
    pub node_idx: NodeIdx,
    pub neighbours: Seq<Neighbour>,
    pub parent: Option<GraphNodeIdx>,
    pub child: Option<GraphNodeIdx>,
}

impl View for GraphNode {
    type V = GraphNodeModel;

    open spec fn view(&self) -> GraphNodeModel {
        GraphNodeModel {
            node_idx: self.node_idx,
            neighbours: neighbour_entries(self.neighbours),
            parent: self.parent,
            child: self.child,
        }
    }
}

impl GraphNode {
    /// A graph node with the given neighbour entries.
    pub fn new(
        node_idx: NodeIdx,
        neighbours: Vec<Neighbour>,
        parent: Option<GraphNodeIdx>,
        child: Option<GraphNodeIdx>,
    ) -> (node: Self)
        requires
            neighbours@.len() <= MAX_NEIGHBOURS,
        ensures
            node@ == (GraphNodeModel { node_idx, neighbours: neighbours@, parent, child }),
    {
        GraphNode { node_idx, neighbours: neighbours_from_vec(neighbours), parent, child }
    }

    /// The neighbour entries, nearest first.
    pub fn neighbour_list(&self) -> (entries: Vec<Neighbour>)
        ensures
            entries@ == self@.neighbours,
            entries@.len() <= MAX_NEIGHBOURS,
    {
        neighbours_to_vec(&self.neighbours)
    }
}

} // verus!
