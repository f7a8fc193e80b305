use vstd::prelude::*;

verus! {

/// The region of a child node inside its parent's box, as `entity_position` reports it:
/// which of the eight octants (`index`) and the octant's corners.
#[derive(Clone, Debug)]
pub struct NodeBoundary<C> {
    pub index: usize,
    pub min: [C; 3],
    pub max: [C; 3],
}

/// The entity sets that an octree stores.
///
/// An implementation supplies the geometry of its entities: their bounding box, how a set is
/// split among the eight octants of a box, which octants one entity falls into, and the
/// coordinate operations that the tree itself needs (comparison and midpoint).
///
/// Each executable method returns what the specification function of the same name (with
/// `spec_` in front) states, so that the tree's contracts can speak of those values: an
/// implementation promises that its methods are functions of their arguments, and that a clone
/// of an entity set is the same set. An implementation outside Verus defines each
/// specification function by the method that it names.
pub trait SVONode: Sized + Clone + core::fmt::Debug {
    type Row;
    type Coord: Copy + Default;

    /// The bounding box `[min, max]` of the entities.
    spec fn spec_bounds(&self) -> [[Self::Coord; 3]; 2];

    /// The eight entity sets of the octants of `bounds`, in octant order.
    spec fn spec_distribute(&self, bounds: [[Self::Coord; 3]; 2]) -> Vec<Self>;

    /// The octants of `bounds` that the first entity of the set falls into.
    spec fn spec_position(&self, bounds: [[Self::Coord; 3]; 2]) -> Vec<NodeBoundary<Self::Coord>>;

    /// Whether the set is small enough to stay in one leaf.
    spec fn spec_if_leaf(&self) -> bool;

    spec fn spec_is_empty(&self) -> bool;

    /// Whether the first entity of `element` is in the set.
    spec fn spec_contain(&self, element: &Self) -> bool;

    /// Whether the first entity of the set lies outside `bounds`, and the box widened for it.
    spec fn spec_cross(&self, bounds: [[Self::Coord; 3]; 2]) -> (bool, [[Self::Coord; 3]; 2]);

    /// The set with the first entity of `element` added.
    spec fn spec_push(&self, element: Self) -> Self;

    spec fn spec_len(&self) -> usize;

    /// The set without the entities equal to the first entity of `element`.
    spec fn spec_retain(&self, element: &Self) -> Self;

    /// `a < b` on coordinates.
    spec fn spec_lt(a: Self::Coord, b: Self::Coord) -> bool;

    /// `a <= b` on coordinates.
    spec fn spec_le(a: Self::Coord, b: Self::Coord) -> bool;

    /// The midpoint of two coordinates.
    spec fn spec_mid(a: Self::Coord, b: Self::Coord) -> Self::Coord;

    /// A clone of an entity set is the same entity set.
    proof fn lemma_clone_faithful(a: &Self, b: &Self)
        requires
            cloned(*a, *b),
        ensures
            *a == *b,
    ;

    fn bounde_get(&self) -> (r: [[Self::Coord; 3]; 2])
        ensures
            r == self.spec_bounds(),
    ;

    fn entities_distribute(&self, bounds: [[Self::Coord; 3]; 2]) -> (r: Vec<Self>)
        ensures
            r == self.spec_distribute(bounds),
    ;

    fn entity_position(&self, bounds: [[Self::Coord; 3]; 2]) -> (r: Vec<NodeBoundary<Self::Coord>>)
        ensures
            r == self.spec_position(bounds),
    ;

    fn if_leaf(&self) -> (r: bool)
        ensures
            r == self.spec_if_leaf(),
    ;

    fn is_empty(&self) -> (r: bool)
        ensures
            r == self.spec_is_empty(),
    ;

    fn contain(&self, element: &Self) -> (r: bool)
        ensures
            r == self.spec_contain(element),
    ;

    fn if_cross(&self, bounds: [[Self::Coord; 3]; 2]) -> (r: (bool, [[Self::Coord; 3]; 2]))
        ensures
            r == self.spec_cross(bounds),
    ;

    fn push(&mut self, element: Self)
        ensures
            *final(self) == old(self).spec_push(element),
    ;

    fn len(&self) -> (r: usize)
        ensures
            r == self.spec_len(),
    ;

    fn row(&self) -> Self::Row;

    fn retain(&mut self, element: &Self)
        ensures
            *final(self) == old(self).spec_retain(element),
    ;

    fn coord_lt(a: Self::Coord, b: Self::Coord) -> (r: bool)
        ensures
            r == Self::spec_lt(a, b),
    ;

    fn coord_le(a: Self::Coord, b: Self::Coord) -> (r: bool)
        ensures
            r == Self::spec_le(a, b),
    ;

    fn coord_mid(a: Self::Coord, b: Self::Coord) -> (r: Self::Coord)
        ensures
            r == Self::spec_mid(a, b),
    ;
}

/// A copy of an entity set, equal to it.
pub(crate) fn duplicate<T: SVONode>(entities: &T) -> (r: T)
    ensures
        r == *entities,
{
    let r = entities.clone();
    proof {
        T::lemma_clone_faithful(entities, &r);
    }
    r
}

} // verus!
