use crate::bvh::object_range::ObjectRange;
use crate::bvh::Bounded;
use vstd::prelude::*;

verus! {

/// One node of a flattened hierarchy: its box, the node to go on with when a
/// ray misses the box (`None`: the traversal is over), and what it holds.
#[derive(Debug)]
pub struct BoundingVolume<A> {
    pub aabb: A,
    pub skip: Option<usize>,
    pub inner: BoundingVolumeInner,
}

/// A node either splits into two child nodes, given by their positions in
/// the node list, or holds a run of objects.
#[derive(Debug, Copy, Clone)]
pub enum BoundingVolumeInner {
    Split { left: usize, right: usize },
    Container { sphere_indices: ObjectRange },
}

impl<A> BoundingVolume<A> {
    /// A leaf over the objects of `range`, with the box around them and no
    /// successor yet.
    pub fn from_spheres<S: Bounded<A>>(spheres: &[S], range: ObjectRange) -> (bv: Self)
        requires
            range.end() <= usize::MAX,
            range.end() <= spheres@.len(),
        ensures
            bv.aabb == S::box_of(spheres, range.index_range()),
            bv.skip is None,
            bv.inner == (BoundingVolumeInner::Container { sphere_indices: range }),
    {
        Self {
            aabb: S::bounds(spheres, range.indices()),
            skip: None,
            inner: BoundingVolumeInner::Container { sphere_indices: range },
        }
    }
}

} // verus!
