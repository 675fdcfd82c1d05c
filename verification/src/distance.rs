use vstd::prelude::*;

verus! {

/// The mathematical value of a stored vector: its components, in order.
///
/// A component is an opaque 32-bit encoding. The index never interprets it;
/// only the distance function does.
pub type VectorModel = Seq<u32>;

/// A distance in an order-preserving integer encoding: a smaller number is a
/// smaller dissimilarity, and zero is the least.
pub type Distance = u32;

/// A dissimilarity score between two vectors of `DIM` components.
///
/// An implementation must be consistent: the score is a function of the two
/// vectors alone, which `spec_distance` names. Everything the index proves
/// about a search holds for implementations that keep this promise.
pub trait DistanceFunction<const DIM: usize> {
    /// The score as a function of the two vectors.
    spec fn spec_distance(x: VectorModel, y: VectorModel) -> Distance;

    fn distance(x: &Vec<u32>, y: &Vec<u32>) -> (d: Distance)
        requires
            x@.len() == DIM,
            y@.len() == DIM,
        ensures
            d == Self::spec_distance(x@, y@),
    ;
}

} // verus!
