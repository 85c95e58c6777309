pub mod bounding_volume;
pub mod nearest;
pub mod object_range;
pub mod split;
pub mod world;

use crate::material::MaterialReference;
use crate::world::World;
use vstd::prelude::*;

verus! {

/// What a bounding-volume hierarchy needs from the objects it organises:
/// the box around a run of them, and a reordering of a run so that cutting it
/// in the middle separates it spatially. Both are geometry on the objects'
/// coordinates and are supplied by the object type. What the methods promise
/// is only that `bounds` gives what `box_of` names, the box as a function of
/// the objects and the run, and that the reordering permutes the run, orders
/// it by `precedes` and leaves the rest of the slice alone.
pub trait Bounded<A>: Sized {
    /// The box around `objects[indices]`.
    spec fn box_of(objects: &[Self], indices: std::ops::Range<usize>) -> A;

    /// The box around `objects[indices]`.
    fn bounds(objects: &[Self], indices: std::ops::Range<usize>) -> (b: A)
        requires
            indices.start <= indices.end <= objects@.len(),
        ensures
            b == Self::box_of(objects, indices),
    ;

    /// Whether `a` comes strictly before `b` along the widest axis of
    /// `bounds`.
    spec fn precedes(bounds: A, a: Self, b: Self) -> bool;

    /// Reorders `objects[indices]` along the widest axis of `bounds`: no
    /// object of the run comes before one that it now follows.
    fn sort_along_widest_axis(objects: &mut [Self], indices: std::ops::Range<usize>, bounds: &A)
        requires
            indices.start <= indices.end <= old(objects)@.len(),
        ensures
            forall|i: int, j: int|
                indices.start <= i < j < indices.end ==> !#[trigger] Self::precedes(
                    *bounds,
                    final(objects)@[j],
                    final(objects)@[i],
                ),
            final(objects)@.len() == old(objects)@.len(),
            final(objects)@.subrange(indices.start as int, indices.end as int).to_multiset()
                == old(objects)@.subrange(indices.start as int, indices.end as int).to_multiset(),
            forall|j: int|
                0 <= j < old(objects)@.len() && !(indices.start <= j < indices.end)
                    ==> final(objects)@[j] == old(objects)@[j],
    ;
}

/// A ray query against the boxes and spheres of a hierarchy; the geometry is
/// the query's own. What the methods promise is only that each gives what the
/// spec function of the same meaning names: an answer that is a function of
/// what the method is given.
pub trait Probe<A, S> {
    /// What a hit reports.
    type Hit;

    /// Whether the ray meets the box `aabb`.
    spec fn meets(&self, aabb: A) -> bool;

    /// The nearest hit of the ray on the spheres `spheres[indices]`, if any.
    spec fn run_hit(&self, spheres: &[S], indices: std::ops::Range<usize>) -> Option<Self::Hit>;

    /// Whether `candidate` lies nearer along the ray than `best`.
    spec fn nearer(&self, candidate: Self::Hit, best: Self::Hit) -> bool;

    /// The hit of the ray on the single sphere `sphere`, if any. Nothing of
    /// the probe's methods is promised in its terms; laws about the probe
    /// are stated with it.
    spec fn sphere_hit(&self, sphere: S) -> Option<Self::Hit>;

    /// Whether the ray meets the box `aabb`.
    fn hits_box(&self, aabb: &A) -> (r: bool)
        ensures
            r == self.meets(*aabb),
    ;

    /// The nearest hit of the ray on the spheres `spheres[indices]`, if any.
    fn hit_run(&self, spheres: &[S], indices: std::ops::Range<usize>) -> (r: Option<Self::Hit>)
        requires
            indices.start <= indices.end <= spheres@.len(),
        ensures
            r == self.run_hit(spheres, indices),
    ;

    /// Whether `candidate` lies nearer along the ray than `best`.
    fn is_closer(&self, candidate: &Self::Hit, best: &Self::Hit) -> (r: bool)
        ensures
            r == self.nearer(*candidate, *best),
    ;
}

/// The nearer of two hits by `probe`: the first when both exist and the probe
/// finds it nearer, else the second; a lone hit, or none.
pub open spec fn nearer_spec<A, S, P: Probe<A, S>>(probe: P, first: Option<P::Hit>, second: Option<P::Hit>) -> Option<P::Hit> {
    match (first, second) {
        (Some(a), Some(b)) => if probe.nearer(a, b) {
            Some(a)
        } else {
            Some(b)
        },
        (Some(a), None) => Some(a),
        (None, b) => b,
    }
}

/// The nearer of two hits found along a ray, given whether the first is the
/// nearer one when there are both; a lone hit is kept, and none stays none.
pub fn nearer_hit<H>(first: Option<H>, second: Option<H>, first_is_nearer: bool) -> (h: Option<H>)
    ensures
        h == (match (first, second) {
            (Some(a), Some(b)) => if first_is_nearer {
                Some(a)
            } else {
                Some(b)
            },
            (Some(a), None) => Some(a),
            (None, b) => b,
        }),
{
    match (first, second) {
        (Some(a), Some(b)) => if first_is_nearer {
            Some(a)
        } else {
            Some(b)
        },
        (Some(a), None) => Some(a),
        (None, b) => b,
    }
}

/// A node of a tree-shaped hierarchy: its box, and either two child nodes or
/// a run of objects.
#[derive(Debug)]
pub struct BoundingVolume<A> {
    aabb: A,
    inner: BoundingVolumeInner<A>,
}

/// The two children of an inner node, boxed together, or the indices of a
/// leaf's objects.
#[derive(Debug)]
pub enum BoundingVolumeInner<A> {
    Split(Box<(BoundingVolume<A>, BoundingVolume<A>)>),
    Container(std::ops::Range<usize>),
}

/// The number of indices in `start .. end`, none when `end` is not past `start`.
pub open spec fn range_len(start: int, end: int) -> int {
    if start <= end {
        end - start
    } else {
        0
    }
}

impl<A> BoundingVolume<A> {
    /// The node is a leaf over the indices `start .. end`.
    pub open spec fn is_leaf_over(self, start: int, end: int) -> bool {
        &&& self.is_leaf()
        &&& self.leaf_range().start == start
        &&& self.leaf_range().end == end
    }

    /// The node is a leaf.
    pub closed spec fn is_leaf(self) -> bool {
        self.inner is Container
    }

    /// The indices of a leaf.
    pub closed spec fn leaf_range(self) -> std::ops::Range<usize> {
        self.inner->Container_0
    }

    /// The first child of an inner node.
    pub closed spec fn first_child(self) -> BoundingVolume<A> {
        self.inner->Split_0.0
    }

    /// The second child of an inner node.
    pub closed spec fn second_child(self) -> BoundingVolume<A> {
        self.inner->Split_0.1
    }

    /// The box of the node.
    pub closed spec fn bounds(self) -> A {
        self.aabb
    }

    /// The subtree at this node holds the objects `start .. end`: a node
    /// over fewer than three of them is a leaf holding exactly them; any other
    /// node splits them in two halves, the first `len / 2` to the first child.
    pub open spec fn spans(self, start: int, end: int) -> bool
        decreases self,
    {
        if self.is_leaf() {
            &&& self.leaf_range().start == start
            &&& self.leaf_range().end == end
            &&& range_len(start, end) < 3
        } else {
            &&& range_len(start, end) >= 3
            &&& self.first_child().spans(start, start + (end - start) / 2)
            &&& self.second_child().spans(start + (end - start) / 2, end)
        }
    }

    /// The leaves of the subtree at this node hold the objects `start .. end`
    /// between them, halving at every inner node: a leaf holds exactly that
    /// run, whatever its length; an inner node gives the first `len / 2` to
    /// its first child.
    pub open spec fn leaves_at(self, start: int, end: int) -> bool
        decreases self,
    {
        if self.is_leaf() {
            &&& self.leaf_range().start == start
            &&& self.leaf_range().end == end
        } else {
            &&& self.first_child().leaves_at(start, start + (end - start) / 2)
            &&& self.second_child().leaves_at(start + (end - start) / 2, end)
        }
    }

    /// Every leaf of the subtree at this node holds a run of indices below
    /// `n`, its start not past its end.
    pub open spec fn runs_within(self, n: int) -> bool
        decreases self,
    {
        if self.is_leaf() {
            self.leaf_range().start <= self.leaf_range().end <= n
        } else {
            &&& self.first_child().runs_within(n)
            &&& self.second_child().runs_within(n)
        }
    }

    /// Every node of the subtree at this node, over the objects `start ..
    /// end` of `spheres`, has the box around its own objects, the halves
    /// going to the children.
    pub open spec fn boxed<S: Bounded<A>>(self, start: int, end: int, spheres: Seq<S>) -> bool
        decreases self,
    {
        &&& start <= end
        &&& split::boxes_run(self.bounds(), spheres, start as nat, (end - start) as nat)
        &&& (!self.is_leaf() ==> {
            &&& self.first_child().boxed(start, start + (end - start) / 2, spheres)
            &&& self.second_child().boxed(start + (end - start) / 2, end, spheres)
        })
    }

    /// The box of the node.
    pub fn aabb(&self) -> (a: &A)
        ensures
            *a == self.bounds(),
    {
        &self.aabb
    }

    /// The children or the objects of the node.
    pub fn inner(&self) -> (i: &BoundingVolumeInner<A>)
        ensures
            self.is_leaf() <==> i is Container,
            self.is_leaf() ==> i->Container_0 == self.leaf_range(),
            !self.is_leaf() ==> i->Split_0.0 == self.first_child() && i->Split_0.1 == self.second_child(),
    {
        &self.inner
    }

    /// Every inner node of the subtree at this node, over the objects `start
    /// .. end` of `spheres`, has cut its objects along the widest axis of its
    /// box: none in the second child's half comes before one in the first's.
    pub open spec fn sorted<S: Bounded<A>>(self, start: int, end: int, spheres: Seq<S>) -> bool
        decreases self,
    {
        !self.is_leaf() ==> {
            &&& split::ordered_halves(self.bounds(), spheres, start, start + (end - start) / 2, end)
            &&& self.first_child().sorted(start, start + (end - start) / 2, spheres)
            &&& self.second_child().sorted(start + (end - start) / 2, end, spheres)
        }
    }

    /// The children of this node, if it splits, have the boxes around their
    /// objects.
    pub open spec fn boxed_below<S: Bounded<A>>(self, start: int, end: int, spheres: Seq<S>) -> bool {
        !self.is_leaf() ==> {
            &&& self.first_child().boxed(start, start + (end - start) / 2, spheres)
            &&& self.second_child().boxed(start + (end - start) / 2, end, spheres)
        }
    }

    /// Every node of the subtree at this node, over the objects `start ..
    /// end` of `spheres`, has the box of its own run of `spheres`, as it lies
    /// now.
    pub open spec fn boxed_exactly<S: Bounded<A>>(self, start: int, end: int, spheres: &[S]) -> bool
        decreases self,
    {
        &&& self.bounds() == S::box_of(spheres, std::ops::Range { start: start as usize, end: end as usize })
        &&& (!self.is_leaf() ==> {
            &&& self.first_child().boxed_exactly(start, start + (end - start) / 2, spheres)
            &&& self.second_child().boxed_exactly(start + (end - start) / 2, end, spheres)
        })
    }

    /// A leaf over the objects `sphere_indices`, with the box around them.
    pub fn from_spheres<S: Bounded<A>>(spheres: &[S], sphere_indices: std::ops::Range<usize>) -> (bv: Self)
        requires
            sphere_indices.start <= sphere_indices.end <= spheres@.len(),
        ensures
            bv.is_leaf_over(sphere_indices.start as int, sphere_indices.end as int),
            bv.bounds() == S::box_of(spheres, sphere_indices),
    {
        let start: usize = sphere_indices.start;
        let end: usize = sphere_indices.end;
        Self { aabb: S::bounds(spheres, sphere_indices), inner: BoundingVolumeInner::Container(start..end) }
    }

    /// Splits this leaf into a tree over its objects: while a node holds three
    /// objects or more, its objects are reordered along the widest axis of its
    /// box and cut in half, each half going to a new child that is split in
    /// turn. The box of this node stays; the objects are only reordered within
    /// its run, and not at all when the run is short; each new node gets the
    /// box around its own objects.
    pub fn split<S: Bounded<A>>(&mut self, spheres: &mut [S])
        requires
            old(self).is_leaf(),
            range_len(old(self).leaf_range().start as int, old(self).leaf_range().end as int) >= 3
                ==> old(self).leaf_range().end <= old(spheres)@.len(),
        ensures
            final(self).bounds() == old(self).bounds(),
            final(self).spans(old(self).leaf_range().start as int, old(self).leaf_range().end as int),
            final(spheres)@.len() == old(spheres)@.len(),
            final(self).sorted(old(self).leaf_range().start as int, old(self).leaf_range().end as int, final(spheres)@),
            final(self).boxed_below(old(self).leaf_range().start as int, old(self).leaf_range().end as int, final(spheres)@),
            range_len(old(self).leaf_range().start as int, old(self).leaf_range().end as int) < 3 ==> {
                &&& *final(self) == *old(self)
                &&& final(spheres)@ == old(spheres)@
            },
            forall|j: int|
                0 <= j < old(spheres)@.len() && !(old(self).leaf_range().start <= j < old(self).leaf_range().end)
                    ==> final(spheres)@[j] == old(spheres)@[j],
            old(self).leaf_range().start <= old(self).leaf_range().end <= old(spheres)@.len() ==> final(spheres)@.subrange(
                old(self).leaf_range().start as int,
                old(self).leaf_range().end as int,
            ).to_multiset() == old(spheres)@.subrange(
                old(self).leaf_range().start as int,
                old(self).leaf_range().end as int,
            ).to_multiset(),
            old(self).leaf_range().start <= old(self).leaf_range().end <= old(spheres)@.len()
                && split::boxes_run(
                old(self).bounds(),
                old(spheres)@,
                old(self).leaf_range().start as nat,
                (old(self).leaf_range().end - old(self).leaf_range().start) as nat,
            ) ==> final(self).boxed(
                old(self).leaf_range().start as int,
                old(self).leaf_range().end as int,
                final(spheres)@,
            ),
        decreases range_len(old(self).leaf_range().start as int, old(self).leaf_range().end as int),
    {
        let ghost s0 = spheres@;
        let ghost old_self = *self;
        let (start, end): (usize, usize) = match &self.inner {
            BoundingVolumeInner::Split(_) => {
                return ;
            },
            BoundingVolumeInner::Container(sphere_indices) => (sphere_indices.start, sphere_indices.end),
        };
        let len: usize = if start <= end {
            end - start
        } else {
            0
        };
        if len < 3 {
            return ;
        }
        S::sort_along_widest_axis(spheres, start..end, &self.aabb);
        let ghost s1 = spheres@;
        let si_half: usize = start + len / 2;

        let ghost sl1: &[S] = &*spheres;
        let mut bvi0 = BoundingVolume::from_spheres(spheres, start..si_half);
        proof {
            assert(s1.subrange(start as int, si_half as int) =~= s1.subrange(start as int, start + (si_half - start) as nat as int));
            split::lemma_box_of_run(sl1, start..si_half, s1, start as nat, (si_half - start) as nat);
        }
        bvi0.split(spheres);
        let ghost s2 = spheres@;
        let ghost sl2: &[S] = &*spheres;
        let mut bvi1 = BoundingVolume::from_spheres(spheres, si_half..end);
        proof {
            assert(s2.subrange(si_half as int, end as int) =~= s2.subrange(si_half as int, si_half + (end - si_half) as nat as int));
            split::lemma_box_of_run(sl2, si_half..end, s2, si_half as nat, (end - si_half) as nat);
        }
        bvi1.split(spheres);
        let ghost s3 = spheres@;

        self.inner = BoundingVolumeInner::Split(Box::new((bvi0, bvi1)));
        proof {
            split::lemma_nested_permutation(s1, s2, start as int, start as int, si_half as int, end as int);
            split::lemma_nested_permutation(s2, s3, start as int, si_half as int, end as int, end as int);
            assert(s2.subrange(start as int, si_half as int) =~= s3.subrange(start as int, si_half as int));
            lemma_tree_boxed_spheres_frame(bvi0, start as int, si_half as int, s2, s3);
            assert(split::ordered_halves(self.aabb, s1, start as int, si_half as int, end as int));
            assert(s2.subrange(si_half as int, end as int) =~= s1.subrange(si_half as int, end as int));
            split::lemma_ordered_halves_permuted(self.aabb, s1, s3, start as int, si_half as int, end as int);
            lemma_tree_sorted_spheres_frame(bvi0, start as int, si_half as int, s2, s3);
            assert(si_half == start + (end - start) / 2);
            if split::boxes_run(old_self.aabb, s0, start as nat, (end - start) as nat) {
                assert(s0.subrange(start as int, start + (end - start) as nat as int) =~= s0.subrange(start as int, end as int));
                assert(s3.subrange(start as int, start + (end - start) as nat as int) =~= s3.subrange(start as int, end as int));
                split::lemma_boxes_run_moved(old_self.aabb, s0, start as nat, (end - start) as nat, s3, start as nat, (end - start) as nat);
                assert(split::boxes_run(self.aabb, s3, start as nat, (end - start) as nat));
            }
        }
    }

    /// The nearest hit of `probe` in the subtree at this node: none when the
    /// ray misses the node's box; for a leaf, the probe's hit on its objects;
    /// otherwise the nearer of the two children's hits, by `nearer_hit`.
    pub fn hit<S, P: Probe<A, S>>(&self, probe: &P, spheres: &[S]) -> (r: Option<P::Hit>)
        requires
            self.runs_within(spheres@.len() as int),
        ensures
            r == tree_nearest(*self, *probe, spheres),
        decreases self,
    {
        if !probe.hits_box(&self.aabb) {
            return None;
        }
        match &self.inner {
            BoundingVolumeInner::Split(split) => {
                let hr0 = split.0.hit(probe, spheres);
                let hr1 = split.1.hit(probe, spheres);
                let first_is_nearer: bool = match (&hr0, &hr1) {
                    (Some(a), Some(b)) => probe.is_closer(a, b),
                    _ => false,
                };
                nearer_hit(hr0, hr1, first_is_nearer)
            },
            BoundingVolumeInner::Container(sphere_indices) => {
                probe.hit_run(spheres, sphere_indices.start..sphere_indices.end)
            },
        }
    }
}


/// The nearest hit of `probe` in the tree at `bv` over `spheres`: none when
/// the ray misses the box; for a leaf, the probe's hit on its run; otherwise
/// the nearer of the children's.
pub open spec fn tree_nearest<A, S, P: Probe<A, S>>(bv: BoundingVolume<A>, probe: P, spheres: &[S]) -> Option<P::Hit>
    decreases bv,
{
    if !probe.meets(bv.bounds()) {
        None
    } else if bv.is_leaf() {
        probe.run_hit(spheres, bv.leaf_range())
    } else {
        nearer_spec(
            probe,
            tree_nearest(bv.first_child(), probe, spheres),
            tree_nearest(bv.second_child(), probe, spheres),
        )
    }
}

proof fn lemma_tree_boxed_spheres_frame<A, S: Bounded<A>>(bv: BoundingVolume<A>, start: int, end: int, a: Seq<S>, b: Seq<S>)
    requires
        bv.boxed(start, end, a),
        0 <= start,
        end <= a.len(),
        end <= b.len(),
        a.subrange(start, end) == b.subrange(start, end),
    ensures
        bv.boxed(start, end, b),
    decreases bv,
{
    assert(a.subrange(start, start + (end - start) as nat as int) =~= b.subrange(start, start + (end - start) as nat as int)) by {
        assert(a.subrange(start, start + (end - start) as nat as int) =~= a.subrange(start, end));
        assert(b.subrange(start, start + (end - start) as nat as int) =~= b.subrange(start, end));
    }
    split::lemma_boxes_run_moved(bv.bounds(), a, start as nat, (end - start) as nat, b, start as nat, (end - start) as nat);
    if !bv.is_leaf() {
        let mid = start + (end - start) / 2;
        assert(a.subrange(start, mid) =~= a.subrange(start, end).subrange(0, mid - start));
        assert(b.subrange(start, mid) =~= b.subrange(start, end).subrange(0, mid - start));
        assert(a.subrange(mid, end) =~= a.subrange(start, end).subrange(mid - start, end - start));
        assert(b.subrange(mid, end) =~= b.subrange(start, end).subrange(mid - start, end - start));
        lemma_tree_boxed_spheres_frame(bv.first_child(), start, mid, a, b);
        lemma_tree_boxed_spheres_frame(bv.second_child(), mid, end, a, b);
    }
}

proof fn lemma_tree_sorted_spheres_frame<A, S: Bounded<A>>(bv: BoundingVolume<A>, start: int, end: int, a: Seq<S>, b: Seq<S>)
    requires
        bv.sorted(start, end, a),
        0 <= start <= end,
        end <= a.len(),
        end <= b.len(),
        a.subrange(start, end) == b.subrange(start, end),
    ensures
        bv.sorted(start, end, b),
    decreases bv,
{
    if !bv.is_leaf() {
        let mid = start + (end - start) / 2;
        assert forall|x: int, y: int| start <= x < mid && mid <= y < end implies !#[trigger] S::precedes(
            bv.bounds(),
            b[y],
            b[x],
        ) by {
            assert(a.subrange(start, end)[x - start] == b.subrange(start, end)[x - start]);
            assert(a.subrange(start, end)[y - start] == b.subrange(start, end)[y - start]);
            assert(a.subrange(start, end)[x - start] == a[x]);
            assert(b.subrange(start, end)[x - start] == b[x]);
            assert(a.subrange(start, end)[y - start] == a[y]);
            assert(b.subrange(start, end)[y - start] == b[y]);
            assert(!S::precedes(bv.bounds(), a[y], a[x]));
        }
        assert(a.subrange(start, mid) =~= a.subrange(start, end).subrange(0, mid - start));
        assert(b.subrange(start, mid) =~= b.subrange(start, end).subrange(0, mid - start));
        assert(a.subrange(mid, end) =~= a.subrange(start, end).subrange(mid - start, end - start));
        assert(b.subrange(mid, end) =~= b.subrange(start, end).subrange(mid - start, end - start));
        lemma_tree_sorted_spheres_frame(bv.first_child(), start, mid, a, b);
        lemma_tree_sorted_spheres_frame(bv.second_child(), mid, end, a, b);
    }
}

/// A tree over the objects `start .. end`, with `end` at most `n`, holds only
/// runs below `n`.
pub proof fn lemma_spans_within<A>(bv: BoundingVolume<A>, start: int, end: int, n: int)
    requires
        bv.spans(start, end),
        0 <= start <= end <= n,
    ensures
        bv.runs_within(n),
    decreases bv,
{
    if !bv.is_leaf() {
        lemma_spans_within(bv.first_child(), start, start + (end - start) / 2, n);
        lemma_spans_within(bv.second_child(), start + (end - start) / 2, end, n);
    }
}

/// How many leaves of the tree at `bv` hold object `k`.
pub open spec fn leaves_holding<A>(bv: BoundingVolume<A>, k: int) -> nat
    decreases bv,
{
    if bv.is_leaf() {
        if bv.leaf_range().start <= k < bv.leaf_range().end {
            1
        } else {
            0
        }
    } else {
        leaves_holding(bv.first_child(), k) + leaves_holding(bv.second_child(), k)
    }
}

/// A tree over the objects `start .. end` puts every one of them in exactly
/// one leaf, and no other object in any leaf.
pub proof fn lemma_leaves_partition_tree<A>(bv: BoundingVolume<A>, start: int, end: int, k: int)
    requires
        bv.spans(start, end),
    ensures
        leaves_holding(bv, k) == (if start <= k < end { 1nat } else { 0nat }),
    decreases bv,
{
    reveal_with_fuel(leaves_holding, 2);
    if let BoundingVolumeInner::Split(children) = bv.inner {
        lemma_leaves_partition_tree(children.0, start, start + (end - start) / 2, k);
        lemma_leaves_partition_tree(children.1, start + (end - start) / 2, end, k);
    }
}

/// Culling by boxes never loses the nearest hit in a tree either. When the
/// probe's hit on a run is a nearest hit among the run's spheres, when a ray
/// that hits a sphere meets every box taken around objects that include it,
/// and when being nearer is a strict weak order, then the hit of a tree over
/// the objects `start .. end`, whose nodes have the boxes around their
/// objects, is a nearest hit among those objects: none exactly when the ray
/// hits none of them, else a hit on one of them with none hit nearer. This
/// holds of any such tree, split or not, and of a leaf over a run of any
/// length: every object of the leaf's run is tested.
pub proof fn lemma_tree_culling_keeps_nearest<A, S: Bounded<A>, P: Probe<A, S>>(
    probe: P,
    bv: BoundingVolume<A>,
    start: int,
    end: int,
    spheres: &[S],
)
    requires
        bv.leaves_at(start, end),
        bv.boxed(start, end, spheres@),
        0 <= start <= end <= spheres@.len(),
        spheres@.len() <= usize::MAX,
        nearest::runs_hit_nearest(probe),
        nearest::boxes_cull(probe),
        nearest::nearer_is_weak_order(probe),
    ensures
        nearest::nearest_in(probe, spheres@, nearest::span(start, end), tree_nearest(bv, probe, spheres)),
    decreases bv,
{
    let whole = nearest::span(start, end);
    if !probe.meets(bv.bounds()) {
        assert forall|k: int| #[trigger] whole.contains(k) implies probe.sphere_hit(spheres@[k]) is None by {
            if probe.sphere_hit(spheres@[k]) is Some {
                nearest::lemma_box_met(probe, bv.bounds(), spheres@, start as nat, (end - start) as nat, k);
            }
        }
    } else if bv.is_leaf() {
        let range = bv.leaf_range();
        assert(nearest::nearest_in(
            probe,
            spheres@,
            nearest::span(range.start as int, range.end as int),
            probe.run_hit(spheres, range),
        ));
    } else {
        let mid = start + (end - start) / 2;
        lemma_tree_culling_keeps_nearest(probe, bv.first_child(), start, mid, spheres);
        lemma_tree_culling_keeps_nearest(probe, bv.second_child(), mid, end, spheres);
        nearest::lemma_nearest_of_union(
            probe,
            spheres@,
            nearest::span(start, mid),
            nearest::span(mid, end),
            tree_nearest(bv.first_child(), probe, spheres),
            tree_nearest(bv.second_child(), probe, spheres),
        );
        assert(nearest::span(start, mid).union(nearest::span(mid, end)) =~= whole);
    }
}

/// Where the box of a run depends only on which objects it holds, every
/// node of a tree whose nodes have the boxes around their objects has exactly
/// the box of its run of the objects in their final order.
pub proof fn lemma_tree_boxed_exactly<A, S: Bounded<A>>(bv: BoundingVolume<A>, start: int, end: int, spheres: &[S])
    requires
        split::boxes_by_contents::<A, S>(),
        bv.boxed(start, end, spheres@),
        0 <= start,
        end <= spheres@.len(),
        spheres@.len() <= usize::MAX,
    ensures
        bv.boxed_exactly(start, end, spheres),
    decreases bv,
{
    let len: nat = (end - start) as nat;
    let (o, r) = choose|objects: &[S], indices: std::ops::Range<usize>|
        #[trigger] S::box_of(objects, indices) == bv.bounds() && indices.start <= indices.end <= objects@.len()
            && objects@.subrange(indices.start as int, indices.end as int).to_multiset()
            == spheres@.subrange(start as nat as int, start as nat + len as int).to_multiset();
    assert(spheres@.subrange(start as nat as int, start as nat + len as int) =~= spheres@.subrange(start, end));
    let mine = std::ops::Range { start: start as usize, end: end as usize };
    assert(S::box_of(o, r) == S::box_of(spheres, mine));
    if !bv.is_leaf() {
        lemma_tree_boxed_exactly(bv.first_child(), start, start + (end - start) / 2, spheres);
        lemma_tree_boxed_exactly(bv.second_child(), start + (end - start) / 2, end, spheres);
    }
}

/// A split tree holds its objects in its leaves the same way.
pub proof fn lemma_spans_leaves_at<A>(bv: BoundingVolume<A>, start: int, end: int)
    requires
        bv.spans(start, end),
    ensures
        bv.leaves_at(start, end),
    decreases bv,
{
    if !bv.is_leaf() {
        lemma_spans_leaves_at(bv.first_child(), start, start + (end - start) / 2);
        lemma_spans_leaves_at(bv.second_child(), start + (end - start) / 2, end);
    }
}

/// The hit of a single leaf over all the objects `0 .. n`, with the box
/// around them, as a world has it before it is split: under the same laws of
/// the probe, a nearest hit among all `n` objects, however many there are.
pub proof fn lemma_leaf_keeps_nearest<A, S: Bounded<A>, P: Probe<A, S>>(
    probe: P,
    bv: BoundingVolume<A>,
    spheres: &[S],
)
    requires
        bv.is_leaf_over(0, spheres@.len() as int),
        bv.bounds() == S::box_of(spheres, 0..spheres@.len() as usize),
        spheres@.len() <= usize::MAX,
        nearest::runs_hit_nearest(probe),
        nearest::boxes_cull(probe),
        nearest::nearer_is_weak_order(probe),
    ensures
        nearest::nearest_in(probe, spheres@, nearest::span(0, spheres@.len() as int), tree_nearest(bv, probe, spheres)),
{
    let n: nat = spheres@.len();
    assert(spheres@.subrange(0, n as int) =~= spheres@.subrange(0, 0 + n as int));
    split::lemma_box_of_run(spheres, 0..n as usize, spheres@, 0, n);
    assert(bv.boxed(0, n as int, spheres@));
    assert(bv.leaves_at(0, n as int));
    lemma_tree_culling_keeps_nearest(probe, bv, 0, n as int, spheres);
}

/// A world whose spheres are organised in a tree-shaped bounding-volume
/// hierarchy, built in two steps: a single leaf over all spheres, then
/// `split`.
pub struct BvhWorld<A, S, M> {
    materials: Vec<M>,
    bounding_volume: BoundingVolume<A>,
    spheres: Vec<S>,
}

impl<A, S, M> BvhWorld<A, S, M> {
    /// Every leaf of the hierarchy holds a run of the spheres.
    pub open spec fn well_formed(&self) -> bool {
        self.root().runs_within(self.sphere_list().len() as int)
    }

    /// The root of the hierarchy.
    pub closed spec fn root(&self) -> BoundingVolume<A> {
        self.bounding_volume
    }

    /// The spheres, in the order the hierarchy keeps them.
    pub closed spec fn sphere_list(&self) -> Seq<S> {
        self.spheres@
    }

    /// The materials, in the order the world held them.
    pub closed spec fn materials(&self) -> Seq<M> {
        self.materials@
    }

    /// A hierarchy of one leaf over all the spheres of `world`, with the box
    /// around them; the spheres and the materials are kept as they are.
    pub fn new(world: World<S, M>) -> (w: Self) where S: Bounded<A>
        ensures
            w.well_formed(),
            w.root().is_leaf_over(0, world@.0.len() as int),
            forall|spheres: &[S]| spheres@ == world@.0 ==> #[trigger] S::box_of(spheres, 0..spheres@.len() as usize) == w.root().bounds(),
            w.sphere_list() == world@.0,
            w.materials() == world@.1,
    {
        let (spheres, materials) = world.decompose();
        let sl = spheres.as_slice();
        let bounding_volume = BoundingVolume::from_spheres(sl, 0..spheres.len());
        proof {
            broadcast use vstd::slice::axiom_slice_ext_equal;
            assert forall|other: &[S]| other@ == world@.0 implies other == sl by {
                assert(other =~= sl);
            }
        }
        Self { materials, bounding_volume, spheres }
    }

    /// Splits the root leaf into a tree over its spheres (see
    /// `BoundingVolume::split`): the spheres are only reordered, and each node
    /// gets the box around its own spheres.
    pub fn split(&mut self) where S: Bounded<A>
        requires
            old(self).well_formed(),
            old(self).root().is_leaf(),
        ensures
            final(self).well_formed(),
            final(self).root().bounds() == old(self).root().bounds(),
            final(self).root().spans(
                old(self).root().leaf_range().start as int,
                old(self).root().leaf_range().end as int,
            ),
            final(self).materials() == old(self).materials(),
            final(self).root().sorted(
                old(self).root().leaf_range().start as int,
                old(self).root().leaf_range().end as int,
                final(self).sphere_list(),
            ),
            final(self).root().boxed_below(
                old(self).root().leaf_range().start as int,
                old(self).root().leaf_range().end as int,
                final(self).sphere_list(),
            ),
            final(self).sphere_list().len() == old(self).sphere_list().len(),
            final(self).sphere_list().to_multiset() == old(self).sphere_list().to_multiset(),
            forall|j: int|
                0 <= j < old(self).sphere_list().len() && !(old(self).root().leaf_range().start <= j
                    < old(self).root().leaf_range().end) ==> final(self).sphere_list()[j] == old(self).sphere_list()[j],
            split::boxes_run(
                old(self).root().bounds(),
                old(self).sphere_list(),
                old(self).root().leaf_range().start as nat,
                (old(self).root().leaf_range().end - old(self).root().leaf_range().start) as nat,
            ) ==> final(self).root().boxed(
                old(self).root().leaf_range().start as int,
                old(self).root().leaf_range().end as int,
                final(self).sphere_list(),
            ),
    {
        let ghost s0 = self.spheres@;
        let ghost r = self.bounding_volume.leaf_range();
        self.bounding_volume.split(self.spheres.as_mut_slice());
        proof {
            let s1 = self.spheres@;
            let a = s0.subrange(0, r.start as int);
            let b = s0.subrange(r.start as int, r.end as int);
            let c = s0.subrange(r.end as int, s0.len() as int);
            assert(s0 =~= a + b + c);
            assert(s1 =~= s1.subrange(0, r.start as int) + s1.subrange(r.start as int, r.end as int)
                + s1.subrange(r.end as int, s1.len() as int));
            assert(s1.subrange(0, r.start as int) =~= a);
            assert(s1.subrange(r.end as int, s1.len() as int) =~= c);
            vstd::seq_lib::lemma_multiset_commutative(a + b, c);
            vstd::seq_lib::lemma_multiset_commutative(a, b);
            vstd::seq_lib::lemma_multiset_commutative(a + s1.subrange(r.start as int, r.end as int), c);
            vstd::seq_lib::lemma_multiset_commutative(a, s1.subrange(r.start as int, r.end as int));
            lemma_spans_within(self.bounding_volume, r.start as int, r.end as int, s1.len() as int);
        }
    }

    /// The nearest hit of `probe` among the spheres (see
    /// `BoundingVolume::hit`).
    pub fn hit<P: Probe<A, S>>(&self, probe: &P) -> (r: Option<P::Hit>)
        requires
            self.well_formed(),
        ensures
            forall|spheres: &[S]| spheres@ == self.sphere_list() ==> r == #[trigger] tree_nearest(self.root(), *probe, spheres),
    {
        let sl = self.spheres.as_slice();
        let r = self.bounding_volume.hit(probe, sl);
        proof {
            broadcast use vstd::slice::axiom_slice_ext_equal;
            assert forall|other: &[S]| other@ == self.sphere_list() implies other == sl by {
                assert(other =~= sl);
            }
        }
        r
    }

    /// The root of the hierarchy.
    pub fn bounding_volume(&self) -> (bv: &BoundingVolume<A>)
        ensures
            *bv == self.root(),
    {
        &self.bounding_volume
    }

    /// The number of materials.
    pub fn material_count(&self) -> (n: usize)
        ensures
            n == self.materials().len(),
    {
        self.materials.len()
    }

    /// The material that `material` refers to.
    pub fn get_material(&self, material: MaterialReference) -> (m: &M)
        requires
            material@ < self.materials().len(),
        ensures
            *m == self.materials()[material@ as int],
    {
        &self.materials[material.id()]
    }
}

} // verus!
