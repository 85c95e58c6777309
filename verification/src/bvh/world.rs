use crate::bvh::bounding_volume::{BoundingVolume, BoundingVolumeInner};
use crate::bvh::{nearer_hit, nearer_spec, Bounded, Probe};
use crate::bvh::object_range::ObjectRange;
use crate::bvh::split::{self, boxed, boxes_run, covers, lemma_skip_passes_subtree, run_of, skip_links, subtree, subtree_end, successor};
use crate::material::MaterialReference;
use crate::world::World;
use vstd::prelude::*;

verus! {

/// A world whose spheres are organised in a flattened bounding-volume
/// hierarchy: the nodes lie in pre-order, node 0 is the root over all the
/// spheres, and every node links to where a ray goes on when it misses the
/// node's box.
pub struct BvhWorld<A, S, M> {
    materials: Vec<M>,
    nodes: Vec<BoundingVolume<A>>,
    spheres: Vec<S>,
    object_count: Ghost<nat>,
}

/// What a traversal does at one node: the run of spheres to test for a hit,
/// if any, and the node to visit next (`None`: the traversal is over).
#[derive(Debug, Copy, Clone)]
pub struct TraversalStep {
    pub test: Option<ObjectRange>,
    pub next: Option<usize>,
}

/// The leaves that a recursive descent from node `i` tests, in order, when
/// `hits` says which boxes the ray meets: none below a missed box, the node
/// itself for a leaf, else those of the left then the right child.
pub open spec fn descent<A>(nodes: Seq<BoundingVolume<A>>, i: int, hits: spec_fn(int) -> bool) -> Seq<int>
    decreases nodes.len() - i,
{
    if !(0 <= i < nodes.len()) || !hits(i) {
        Seq::empty()
    } else {
        match nodes[i].inner {
            BoundingVolumeInner::Container { .. } => seq![i],
            BoundingVolumeInner::Split { left, right } => {
                if i < left < nodes.len() && i < right < nodes.len() {
                    descent(nodes, left as int, hits) + descent(nodes, right as int, hits)
                } else {
                    Seq::empty()
                }
            },
        }
    }
}

/// The leaves that a walk along the pre-order layout tests from node `cur`
/// on, in order: a met box leads to the next node, a missed one past its
/// subtree, and a met leaf is tested.
pub open spec fn walk<A>(nodes: Seq<BoundingVolume<A>>, cur: int, hits: spec_fn(int) -> bool) -> Seq<int>
    decreases nodes.len() - cur,
{
    if !(0 <= cur < nodes.len()) {
        Seq::empty()
    } else if hits(cur) {
        let tested = if nodes[cur].inner is Container { seq![cur] } else { Seq::empty() };
        tested + walk(nodes, cur + 1, hits)
    } else {
        let end: int = subtree_end(nodes, cur);
        if cur < end <= nodes.len() {
            walk(nodes, end, hits)
        } else {
            Seq::empty()
        }
    }
}

proof fn lemma_walk_of_subtree<A>(nodes: Seq<BoundingVolume<A>>, i: int, e: int, hits: spec_fn(int) -> bool)
    requires
        subtree(nodes, i, i + 1, e),
        e <= nodes.len(),
    ensures
        walk(nodes, i, hits) == descent(nodes, i, hits) + walk(nodes, e, hits),
    decreases e - i,
{
    split::lemma_subtree_end_is(nodes, i, e);
    if !hits(i) {
        assert(descent(nodes, i, hits) == Seq::<int>::empty());
        assert(walk(nodes, i, hits) == walk(nodes, e, hits));
    } else {
        match nodes[i].inner {
            BoundingVolumeInner::Container { .. } => {
                assert(walk(nodes, i, hits) == seq![i] + walk(nodes, i + 1, hits));
            },
            BoundingVolumeInner::Split { left, right } => {
                let l: int = left as int;
                let r: int = right as int;
                lemma_walk_of_subtree(nodes, l, r, hits);
                lemma_walk_of_subtree(nodes, r, e, hits);
                assert(walk(nodes, i, hits) == Seq::<int>::empty() + walk(nodes, l, hits));
                assert(walk(nodes, i, hits) == walk(nodes, l, hits));
                assert(descent(nodes, i, hits) == descent(nodes, l, hits) + descent(nodes, r, hits));
                assert(walk(nodes, i, hits) == descent(nodes, l, hits) + (descent(nodes, r, hits) + walk(nodes, e, hits)));
            },
        }
    }
}

/// Walking a pre-order layout from the root, going to the next node past a
/// met box and past the whole subtree of a missed one, tests exactly the
/// leaves that a recursive descent tests, in the same order, whatever boxes
/// the ray meets.
pub proof fn lemma_walk_is_descent<A>(nodes: Seq<BoundingVolume<A>>, hits: spec_fn(int) -> bool)
    requires
        nodes.len() >= 1,
        subtree(nodes, 0, 1, nodes.len() as int),
    ensures
        walk(nodes, 0, hits) == descent(nodes, 0, hits),
{
    lemma_walk_of_subtree(nodes, 0, nodes.len() as int, hits);
    assert(walk(nodes, nodes.len() as int, hits) == Seq::<int>::empty());
    assert(descent(nodes, 0, hits) + Seq::<int>::empty() == descent(nodes, 0, hits));
}

/// Which boxes of `nodes` the ray of `probe` meets, by node.
pub open spec fn boxes_met<A, S, P: Probe<A, S>>(probe: P, nodes: Seq<BoundingVolume<A>>) -> spec_fn(int) -> bool {
    |i: int| probe.meets(nodes[i].aabb)
}

/// The hit kept after testing the spheres of the leaves `leaves` in order,
/// each new hit replacing the kept one when the probe finds it nearer.
pub open spec fn nearest_over<A, S, P: Probe<A, S>>(
    probe: P,
    nodes: Seq<BoundingVolume<A>>,
    spheres: &[S],
    leaves: Seq<int>,
) -> Option<P::Hit>
    decreases leaves.len(),
{
    if leaves.len() == 0 {
        None
    } else {
        let j = leaves.last();
        nearer_spec(
            probe,
            probe.run_hit(spheres, run_of(nodes, j).index_range()),
            nearest_over(probe, nodes, spheres, leaves.drop_last()),
        )
    }
}

proof fn lemma_walk_all_met_from<A>(nodes: Seq<BoundingVolume<A>>, cur: int, hits: spec_fn(int) -> bool)
    requires
        0 <= cur <= nodes.len(),
        forall|i: int| #[trigger] hits(i),
    ensures
        forall|a: int, b: int|
            0 <= a < b < walk(nodes, cur, hits).len() ==> #[trigger] walk(nodes, cur, hits)[a]
                < #[trigger] walk(nodes, cur, hits)[b],
        forall|k: int|
            0 <= k < walk(nodes, cur, hits).len() ==> cur <= #[trigger] walk(nodes, cur, hits)[k] < nodes.len()
                && nodes[walk(nodes, cur, hits)[k]].inner is Container,
        forall|j: int|
            cur <= j < nodes.len() && #[trigger] nodes[j].inner is Container ==> walk(nodes, cur, hits).contains(j),
    decreases nodes.len() - cur,
{
    if cur < nodes.len() {
        assert(hits(cur));
        lemma_walk_all_met_from(nodes, cur + 1, hits);
        let rest = walk(nodes, cur + 1, hits);
        if nodes[cur].inner is Container {
            assert(walk(nodes, cur, hits) == seq![cur] + rest);
            assert forall|j: int| cur <= j < nodes.len() && #[trigger] nodes[j].inner is Container
                implies walk(nodes, cur, hits).contains(j) by {
                if j == cur {
                    assert(walk(nodes, cur, hits)[0] == cur);
                } else {
                    let k = choose|k: int| 0 <= k < rest.len() && rest[k] == j;
                    assert(walk(nodes, cur, hits)[k + 1] == j);
                }
            }
        } else {
            assert(walk(nodes, cur, hits) =~= rest);
        }
    }
}

/// When the ray meets every box, the walk tests every leaf of the layout
/// exactly once, in the order of the layout, which is the order of their
/// runs: the first run starts at object 0, each next one starts where the one
/// before ends, and the last ends at the object count.
pub proof fn lemma_walk_meets_every_leaf<A>(nodes: Seq<BoundingVolume<A>>, count: nat, hits: spec_fn(int) -> bool)
    requires
        nodes.len() >= 1,
        subtree(nodes, 0, 1, nodes.len() as int),
        covers(nodes, 0, 0, count),
        forall|i: int| #[trigger] hits(i),
    ensures
        forall|a: int, b: int|
            0 <= a < b < walk(nodes, 0, hits).len() ==> #[trigger] walk(nodes, 0, hits)[a]
                < #[trigger] walk(nodes, 0, hits)[b]
                && run_of(nodes, walk(nodes, 0, hits)[a]).end() <= run_of(nodes, walk(nodes, 0, hits)[b])@.0,
        forall|j: int|
            0 <= j < nodes.len() ==> (#[trigger] nodes[j].inner is Container <==> walk(nodes, 0, hits).contains(j)),
        walk(nodes, 0, hits).len() >= 1,
        run_of(nodes, walk(nodes, 0, hits)[0])@.0 == 0,
        run_of(nodes, walk(nodes, 0, hits)[walk(nodes, 0, hits).len() - 1]).end() == count,
        forall|a: int, b: int|
            0 <= a && b == a + 1 && b < walk(nodes, 0, hits).len() ==> run_of(nodes, #[trigger] walk(nodes, 0, hits)[a]).end()
                == run_of(nodes, #[trigger] walk(nodes, 0, hits)[b])@.0,
{
    lemma_walk_all_met_from(nodes, 0, hits);
    let top: int = nodes.len() as int;
    split::lemma_leaves_partition(nodes, 0, 1, top, 0, count);
    let w = walk(nodes, 0, hits);
    assert forall|a: int, b: int| 0 <= a < b < w.len() implies #[trigger] w[a] < #[trigger] w[b]
        && run_of(nodes, w[a]).end() <= run_of(nodes, w[b])@.0 by {
        assert(split::leaf_of(nodes, 0, 1, top, w[a]));
        assert(split::leaf_of(nodes, 0, 1, top, w[b]));
    }
    let runs = w.map_values(|j: int| run_of(nodes, j));
    assert forall|a: int, b: int| 0 <= a < b < runs.len() implies #[trigger] runs[a].end() <= #[trigger] runs[b]@.0 by {
        assert(w[a] < w[b]);
    }
    assert forall|c: int| 0 <= c < runs.len() implies 0 <= #[trigger] runs[c]@.0 && runs[c].end() <= count by {
        assert(split::leaf_of(nodes, 0, 1, top, w[c]));
    }
    assert forall|k: int| 0 <= k < count implies #[trigger] some_run_holds(runs, k) by {
        assert(split::in_some_leaf(nodes, 0, 1, top, k));
        let j = choose|j: int| #[trigger] split::leaf_of(nodes, 0, 1, top, j) && run_of(nodes, j).contains(k);
        assert(w.contains(j));
        let c = choose|c: int| 0 <= c < w.len() && w[c] == j;
        assert(runs[c].contains(k));
    }
    if count == 0 {
        assert(nodes[0].inner is Container);
        assert(w.contains(0));
    } else {
        assert(some_run_holds(runs, 0));
    }
    lemma_runs_line_up(runs, count);
    assert forall|a: int, b: int| 0 <= a && b == a + 1 && b < w.len() implies run_of(nodes, #[trigger] w[a]).end()
        == run_of(nodes, #[trigger] w[b])@.0 by {
        assert(runs[a] == run_of(nodes, w[a]));
        assert(runs[b] == run_of(nodes, w[b]));
    }
}

/// Some run of `runs` holds object `k`.
spec fn some_run_holds(runs: Seq<ObjectRange>, k: int) -> bool {
    exists|c: int| 0 <= c < runs.len() && #[trigger] runs[c].contains(k)
}

/// Runs in order, inside `0 .. count`, that hold every object of it, line up
/// end to end from 0 to `count`.
proof fn lemma_runs_line_up(runs: Seq<ObjectRange>, count: nat)
    requires
        runs.len() >= 1,
        forall|a: int, b: int| 0 <= a < b < runs.len() ==> #[trigger] runs[a].end() <= #[trigger] runs[b]@.0,
        forall|c: int| 0 <= c < runs.len() ==> 0 <= #[trigger] runs[c]@.0 && runs[c].end() <= count,
        forall|k: int| 0 <= k < count ==> #[trigger] some_run_holds(runs, k),
    ensures
        runs[0]@.0 == 0,
        runs[runs.len() - 1].end() == count,
        forall|a: int, b: int| 0 <= a && b == a + 1 && b < runs.len() ==> #[trigger] runs[a].end() == #[trigger] runs[b]@.0,
{
    let last: int = runs.len() - 1;
    assert(0 <= runs[0]@.0 && runs[0].end() <= count);
    assert(0 <= runs[last]@.0 && runs[last].end() <= count);
    if count > 0 {
        assert(some_run_holds(runs, 0));
        let c = choose|c: int| 0 <= c < runs.len() && #[trigger] runs[c].contains(0);
        if c > 0 {
            assert(runs[0].end() <= runs[c]@.0);
        }
        let k: int = count - 1;
        assert(some_run_holds(runs, k));
        let c2 = choose|c: int| 0 <= c < runs.len() && #[trigger] runs[c].contains(k);
        if c2 < last {
            assert(runs[c2].end() <= runs[last]@.0);
        }
    }
    assert forall|a: int, b: int| 0 <= a && b == a + 1 && b < runs.len() implies #[trigger] runs[a].end()
        == #[trigger] runs[b]@.0 by {
        assert(runs[a].end() <= runs[b]@.0);
        assert(runs[b].end() <= count);
        let k: int = runs[a].end() as int;
        if k < runs[b]@.0 {
            assert(some_run_holds(runs, k));
            let c = choose|c: int| 0 <= c < runs.len() && #[trigger] runs[c].contains(k);
            if c < a {
                assert(runs[c].end() <= runs[a]@.0);
            } else if c > b {
                assert(runs[b].end() <= runs[c]@.0);
            }
        }
    }
}

impl<A, S, M> BvhWorld<A, S, M> {
    #[verifier::type_invariant]
    spec fn well_formed(self) -> bool {
        &&& self.nodes@.len() >= 1
        &&& self.object_count@ <= usize::MAX
        &&& self.spheres@.len() == self.object_count@
        &&& covers(self.nodes@, 0, 0, self.object_count@)
        &&& skip_links(self.nodes@, 0, 1, self.nodes@.len() as int, None)
    }

    /// The nodes of the hierarchy, in pre-order.
    pub closed spec fn layout(&self) -> Seq<BoundingVolume<A>> {
        self.nodes@
    }

    /// The spheres, in the order the hierarchy keeps them.
    pub closed spec fn sphere_list(&self) -> Seq<S> {
        self.spheres@
    }

    /// The number of spheres that the hierarchy was built over.
    pub closed spec fn object_count(&self) -> nat {
        self.object_count@
    }

    /// The materials, in the order the world held them.
    pub closed spec fn materials(&self) -> Seq<M> {
        self.materials@
    }

    /// Builds the hierarchy over the spheres of `world`: a root over all of
    /// them, split down to leaves of at most two spheres, with every node
    /// linked to the node after its subtree, and every node with the box
    /// around its spheres. The spheres are reordered, the materials kept as
    /// they are.
    pub fn new(world: World<S, M>) -> (w: Self) where S: Bounded<A>
        ensures
            w.object_count() == world@.0.len(),
            w.sphere_list().len() == world@.0.len(),
            w.sphere_list().to_multiset() == world@.0.to_multiset(),
            boxed(w.layout(), 0, 0, w.object_count(), w.sphere_list()),
            split::sorted(w.layout(), 0, 0, w.object_count(), w.sphere_list()),
            w.materials() == world@.1,
            w.layout().len() >= 1,
            subtree(w.layout(), 0, 1, w.layout().len() as int),
            covers(w.layout(), 0, 0, w.object_count()),
            skip_links(w.layout(), 0, 1, w.layout().len() as int, None),
    {
        let (mut spheres, materials) = world.decompose();
        let count: usize = spheres.len();
        let ghost s0 = spheres@;
        let all = ObjectRange::new(0, count);
        let sl = spheres.as_slice();
        let mut nodes = vec![BoundingVolume::from_spheres(sl, all)];
        proof {
            split::lemma_box_of_run(sl, all.index_range(), s0, 0, count as nat);
        }
        split::split(&mut nodes, spheres.as_mut_slice(), 0);
        let ghost built = nodes@;
        assert(subtree(built, 0, 1, built.len() as int));
        proof {
            split::lemma_subtree_is_tree(built, 0, 1, built.len() as int);
        }
        split::skip_pass(nodes.as_mut_slice(), 0, None);
        proof {
            assert(spheres@.subrange(0, count as int) =~= spheres@);
            assert(s0.subrange(0, count as int) =~= s0);
            split::lemma_covers_same_shape(built, nodes@, 0, 0, count as nat);
            split::lemma_boxed_same_shape(built, nodes@, 0, 0, count as nat, spheres@);
            split::lemma_sorted_same_shape(built, nodes@, 0, 0, count as nat, spheres@);
            split::lemma_skip_links_shape(nodes@, 0, 1, nodes@.len() as int, None);
        }
        Self { materials, nodes, spheres, object_count: Ghost(count as nat) }
    }

    /// One step of the traversal at node `current`, given whether the ray
    /// meets the node's box. A met leaf has its spheres tested. A met box
    /// leads to the next node in pre-order, which is the left child of an
    /// inner node; a missed box leads past the node's whole subtree. Either
    /// way the traversal moves forward and stops after the last node.
    pub fn step(&self, current: usize, box_hit: bool) -> (s: TraversalStep)
        requires
            current < self.layout().len(),
        ensures
            s.test == (if box_hit && self.layout()[current as int].inner is Container {
                Some(self.layout()[current as int].inner->sphere_indices)
            } else {
                None
            }),
            box_hit ==> s.next == successor(current + 1, self.layout().len() as int),
            !box_hit ==> s.next == successor(
                subtree_end(self.layout(), current as int),
                self.layout().len() as int,
            ),
            s.next matches Some(n) ==> current < n < self.layout().len(),
    {
        proof {
            use_type_invariant(self);
            lemma_skip_passes_subtree(self.nodes@, current as int);
            assert(self.nodes@.len() == self.nodes.len());
            let e: int = subtree_end(self.nodes@, current as int);
            assert(subtree(self.nodes@, current as int, current + 1, e));
            if self.nodes@[current as int].inner is Container {
                assert(e == current + 1);
            }
        }
        let node = &self.nodes[current];
        if box_hit {
            match node.inner {
                BoundingVolumeInner::Container { sphere_indices } => {
                    TraversalStep { test: Some(sphere_indices), next: node.skip }
                },
                BoundingVolumeInner::Split { left, .. } => {
                    TraversalStep { test: None, next: Some(left) }
                },
            }
        } else {
            TraversalStep { test: None, next: node.skip }
        }
    }

    /// The nearest hit of `probe` in the world: the traversal starts at the
    /// root and follows `step`, testing the spheres of every leaf whose box
    /// the ray meets and keeping a hit (by `nearer_hit`) only when the probe
    /// finds it nearer than the one kept so far. The leaves tested are those
    /// of a recursive descent that skips the subtree of every missed box.
    pub fn hit<P: Probe<A, S>>(&self, probe: &P) -> (r: Option<P::Hit>)
        ensures
            forall|spheres: &[S]|
                #![trigger nearest_over(*probe, self.layout(), spheres, walk(self.layout(), 0, boxes_met(*probe, self.layout())))]
                spheres@ == self.sphere_list() ==> {
                    &&& r == nearest_over(
                        *probe,
                        self.layout(),
                        spheres,
                        walk(self.layout(), 0, boxes_met(*probe, self.layout())),
                    )
                    &&& r == nearest_over(
                        *probe,
                        self.layout(),
                        spheres,
                        descent(self.layout(), 0, boxes_met(*probe, self.layout())),
                    )
                },
    {
        let ghost nodes = self.nodes@;
        let sl = self.spheres.as_slice();
        let ghost spheres = sl;
        let ghost h = boxes_met(*probe, nodes);
        proof {
            use_type_invariant(self);
            split::lemma_skip_links_shape(self.nodes@, 0, 1, self.nodes@.len() as int, None);
            split::lemma_leaves_partition(self.nodes@, 0, 1, self.nodes@.len() as int, 0, self.object_count@);
            lemma_walk_is_descent(nodes, h);
        }
        let mut current: usize = 0;
        let mut hit_record: Option<P::Hit> = None;
        let ghost mut done: Seq<int> = Seq::empty();
        assert(walk(nodes, 0, h) =~= done + walk(nodes, 0, h));
        loop
            invariant
                nodes == self.nodes@,
                spheres == sl,
                sl@ == self.spheres@,
                h == boxes_met(*probe, nodes),
                current < nodes.len(),
                forall|j: int| #[trigger] split::leaf_of(nodes, 0, 1, nodes.len() as int, j)
                    ==> nodes[j].inner->sphere_indices.end() <= self.object_count@,
                self.object_count@ <= usize::MAX,
                spheres@.len() == self.object_count@,
                walk(nodes, 0, h) == done + walk(nodes, current as int, h),
                walk(nodes, 0, h) == descent(nodes, 0, h),
                skip_links(nodes, 0, 1, nodes.len() as int, None),
                hit_record == nearest_over(*probe, nodes, spheres, done),
            decreases nodes.len() - current,
        {
            let box_hit: bool = probe.hits_box(&self.nodes[current].aabb);
            let step = self.step(current, box_hit);
            let ghost before = done;
            assert(box_hit == h(current as int));
            if let Some(range) = step.test {
                assert(split::leaf_of(self.nodes@, 0, 1, self.nodes@.len() as int, current as int));
                let result = probe.hit_run(sl, range.indices());
                let found_is_nearer: bool = match (&result, &hit_record) {
                    (Some(found), Some(best)) => probe.is_closer(found, best),
                    _ => false,
                };
                hit_record = nearer_hit(result, hit_record, found_is_nearer);
                proof {
                    done = done.push(current as int);
                    assert(done.drop_last() =~= before);
                }
            }
            let ghost nxt: int = if box_hit {
                current + 1
            } else {
                subtree_end(nodes, current as int)
            };
            proof {
                lemma_skip_passes_subtree(nodes, current as int);
                if box_hit {
                    let tested = if nodes[current as int].inner is Container {
                        seq![current as int]
                    } else {
                        Seq::<int>::empty()
                    };
                    assert(walk(nodes, current as int, h) == tested + walk(nodes, current + 1, h));
                    assert(done =~= before + tested);
                } else {
                    assert(walk(nodes, current as int, h) == walk(nodes, nxt, h));
                    assert(done =~= before);
                }
                assert(walk(nodes, 0, h) =~= done + walk(nodes, nxt, h));
                if nxt >= nodes.len() {
                    assert(walk(nodes, nxt, h) =~= Seq::<int>::empty());
                }
            }
            match step.next {
                None => {
                    assert(walk(nodes, 0, h) =~= done);
                    proof {
                        broadcast use vstd::slice::axiom_slice_ext_equal;
                        assert forall|other: &[S]| other@ == self.sphere_list() implies other == sl by {
                            assert(other =~= sl);
                        }
                    }
                    return hit_record;
                },
                Some(next) => {
                    assert(nodes.len() == self.nodes.len());
                    assert(next as int == nxt);
                    current = next;
                },
            }
        }
    }

    /// The nodes of the hierarchy, in pre-order.
    pub fn nodes(&self) -> (n: &[BoundingVolume<A>])
        ensures
            n@ == self.layout(),
    {
        self.nodes.as_slice()
    }

    /// The number of materials.
    pub fn material_count(&self) -> (n: usize)
        ensures
            n == self.materials().len(),
    {
        self.materials.len()
    }

    /// The material that `material` refers to.
    pub fn get_material(&self, material: MaterialReference) -> (m: &M)
        requires
            material@ < self.materials().len(),
        ensures
            *m == self.materials()[material@ as int],
    {
        &self.materials[material.id()]
    }
}

} // verus!
