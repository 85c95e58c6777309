use crate::bvh::bounding_volume::{BoundingVolume, BoundingVolumeInner};
use crate::bvh::split::{boxed, boxes_run, covers, leaf_of, run_of, subtree};
use crate::bvh::world::{boxes_met, descent, nearest_over};
use crate::bvh::{nearer_spec, Bounded, Probe};
use vstd::prelude::*;

verus! {

/// The positions `lo .. hi`.
pub open spec fn span(lo: int, hi: int) -> Set<int> {
    Set::new(|k: int| lo <= k < hi)
}

/// `r` is a nearest hit of the ray among the spheres of `spheres` at the
/// positions `at`: none exactly when none of them is hit, else the hit on one
/// of them, with none of them hit nearer.
pub open spec fn nearest_in<A, S, P: Probe<A, S>>(probe: P, spheres: Seq<S>, at: Set<int>, r: Option<P::Hit>) -> bool {
    &&& (r is None <==> forall|k: int| #[trigger] at.contains(k) ==> probe.sphere_hit(spheres[k]) is None)
    &&& (r matches Some(h) ==> {
        &&& exists|k: int| #[trigger] at.contains(k) && probe.sphere_hit(spheres[k]) == Some(h)
        &&& forall|k: int|
            #[trigger] at.contains(k) && probe.sphere_hit(spheres[k]) is Some
                ==> !probe.nearer(probe.sphere_hit(spheres[k])->0, h)
    })
}

/// The probe's hit on a run is a nearest one among its hits on the run's
/// single spheres.
pub open spec fn runs_hit_nearest<A, S, P: Probe<A, S>>(probe: P) -> bool {
    forall|objects: &[S], indices: std::ops::Range<usize>|
        indices.start <= indices.end <= objects@.len() ==> nearest_in(
            probe,
            objects@,
            span(indices.start as int, indices.end as int),
            #[trigger] probe.run_hit(objects, indices),
        )
}

/// A ray that hits a sphere meets every box around a run holding it.
pub open spec fn boxes_cull<A, S: Bounded<A>, P: Probe<A, S>>(probe: P) -> bool {
    forall|objects: &[S], indices: std::ops::Range<usize>, k: int|
        #![trigger probe.sphere_hit(objects@[k]), S::box_of(objects, indices)]
        indices.start <= k < indices.end <= objects@.len() && probe.sphere_hit(objects@[k]) is Some
            ==> probe.meets(S::box_of(objects, indices))
}

/// Being nearer is a strict weak order: it is transitive, and so is not
/// being nearer.
pub open spec fn nearer_is_weak_order<A, S, P: Probe<A, S>>(probe: P) -> bool {
    &&& forall|a: P::Hit, b: P::Hit, c: P::Hit|
        #![trigger probe.nearer(a, b), probe.nearer(b, c)]
        probe.nearer(a, b) && probe.nearer(b, c) ==> probe.nearer(a, c)
    &&& forall|a: P::Hit, b: P::Hit, c: P::Hit|
        #![trigger probe.nearer(a, b), probe.nearer(b, c)]
        !probe.nearer(a, b) && !probe.nearer(b, c) ==> !probe.nearer(a, c)
}

/// The positions held by the runs of the leaves `leaves`.
pub open spec fn in_leaves<A>(nodes: Seq<BoundingVolume<A>>, leaves: Seq<int>) -> Set<int> {
    Set::new(|k: int| exists|t: int| 0 <= t < leaves.len() && #[trigger] run_of(nodes, leaves[t]).contains(k))
}

/// The nearer of a nearest hit among the positions `a` and one among the
/// positions `b` is a nearest hit among both.
pub(crate) proof fn lemma_nearest_of_union<A, S, P: Probe<A, S>>(
    probe: P,
    spheres: Seq<S>,
    a: Set<int>,
    b: Set<int>,
    ra: Option<P::Hit>,
    rb: Option<P::Hit>,
)
    requires
        nearer_is_weak_order(probe),
        nearest_in(probe, spheres, a, ra),
        nearest_in(probe, spheres, b, rb),
    ensures
        nearest_in(probe, spheres, a.union(b), nearer_spec(probe, ra, rb)),
{
    let u = a.union(b);
    match (ra, rb) {
        (Some(f), Some(g)) => {
            if probe.nearer(f, g) {
                assert forall|k: int| #[trigger] u.contains(k) && probe.sphere_hit(spheres[k]) is Some
                    implies !probe.nearer(probe.sphere_hit(spheres[k])->0, f) by {
                    let y = probe.sphere_hit(spheres[k])->0;
                    if b.contains(k) && probe.nearer(y, f) {
                        assert(probe.nearer(y, f) && probe.nearer(f, g));
                        assert(probe.nearer(y, g));
                    }
                }
                let kf = choose|k: int| #[trigger] a.contains(k) && probe.sphere_hit(spheres[k]) == Some(f);
                assert(u.contains(kf));
            } else {
                assert forall|k: int| #[trigger] u.contains(k) && probe.sphere_hit(spheres[k]) is Some
                    implies !probe.nearer(probe.sphere_hit(spheres[k])->0, g) by {
                    let y = probe.sphere_hit(spheres[k])->0;
                    if a.contains(k) {
                        assert(!probe.nearer(y, f));
                        assert(!probe.nearer(y, f) && !probe.nearer(f, g));
                    }
                }
                let kg = choose|k: int| #[trigger] b.contains(k) && probe.sphere_hit(spheres[k]) == Some(g);
                assert(u.contains(kg));
            }
        },
        (Some(f), None) => {
            let kf = choose|k: int| #[trigger] a.contains(k) && probe.sphere_hit(spheres[k]) == Some(f);
            assert(u.contains(kf));
            assert forall|k: int| #[trigger] u.contains(k) && probe.sphere_hit(spheres[k]) is Some
                implies !probe.nearer(probe.sphere_hit(spheres[k])->0, f) by {
                if b.contains(k) {
                }
            }
        },
        (None, Some(g)) => {
            let kg = choose|k: int| #[trigger] b.contains(k) && probe.sphere_hit(spheres[k]) == Some(g);
            assert(u.contains(kg));
            assert forall|k: int| #[trigger] u.contains(k) && probe.sphere_hit(spheres[k]) is Some
                implies !probe.nearer(probe.sphere_hit(spheres[k])->0, g) by {
                if a.contains(k) {
                }
            }
        },
        (None, None) => {
            assert forall|k: int| #[trigger] u.contains(k) implies probe.sphere_hit(spheres[k]) is None by {
                if a.contains(k) {
                }
                if b.contains(k) {
                }
            }
        },
    }
}

/// Keeping the nearer hit, leaf after leaf, gives a nearest hit among the
/// spheres of all the leaves.
proof fn lemma_fold_is_nearest<A, S, P: Probe<A, S>>(
    probe: P,
    nodes: Seq<BoundingVolume<A>>,
    spheres: &[S],
    leaves: Seq<int>,
)
    requires
        runs_hit_nearest(probe),
        nearer_is_weak_order(probe),
        spheres@.len() <= usize::MAX,
        forall|t: int| 0 <= t < leaves.len() ==> run_of(nodes, #[trigger] leaves[t]).end() <= spheres@.len(),
    ensures
        nearest_in(probe, spheres@, in_leaves(nodes, leaves), nearest_over(probe, nodes, spheres, leaves)),
    decreases leaves.len(),
{
    if leaves.len() == 0 {
        assert(in_leaves(nodes, leaves) =~= Set::empty());
    } else {
        let prev = leaves.drop_last();
        let j = leaves.last();
        assert forall|t: int| 0 <= t < prev.len() implies run_of(nodes, #[trigger] prev[t]).end() <= spheres@.len() by {
            assert(prev[t] == leaves[t]);
        }
        lemma_fold_is_nearest(probe, nodes, spheres, prev);
        let run = run_of(nodes, j);
        let range = run.index_range();
        assert(run.end() <= spheres@.len());
        assert(range.start == run@.0 && range.end == run.end());
        let found = probe.run_hit(spheres, range);
        assert(nearest_in(probe, spheres@, span(range.start as int, range.end as int), found));
        assert(in_leaves(nodes, leaves) =~= span(range.start as int, range.end as int).union(in_leaves(nodes, prev))) by {
            assert forall|k: int| #[trigger] in_leaves(nodes, leaves).contains(k) implies
                span(range.start as int, range.end as int).union(in_leaves(nodes, prev)).contains(k) by {
                let t = choose|t: int| 0 <= t < leaves.len() && #[trigger] run_of(nodes, leaves[t]).contains(k);
                if t < leaves.len() - 1 {
                    assert(prev[t] == leaves[t]);
                }
            }
            assert forall|k: int| #[trigger] in_leaves(nodes, prev).contains(k) implies in_leaves(nodes, leaves).contains(k) by {
                let t = choose|t: int| 0 <= t < prev.len() && #[trigger] run_of(nodes, prev[t]).contains(k);
                assert(leaves[t] == prev[t]);
            }
            assert forall|k: int| #[trigger] span(range.start as int, range.end as int).contains(k)
                implies in_leaves(nodes, leaves).contains(k) by {
                assert(run_of(nodes, leaves[leaves.len() - 1]).contains(k));
            }
        }
        lemma_nearest_of_union(
            probe,
            spheres@,
            span(range.start as int, range.end as int),
            in_leaves(nodes, prev),
            found,
            nearest_over(probe, nodes, spheres, prev),
        );
    }
}

/// A nearest hit among some positions is one among more positions too, when
/// none of the added spheres is hit.
proof fn lemma_nearest_widen<A, S, P: Probe<A, S>>(probe: P, spheres: Seq<S>, a: Set<int>, b: Set<int>, r: Option<P::Hit>)
    requires
        nearest_in(probe, spheres, a, r),
        a.subset_of(b),
        forall|k: int| #[trigger] b.contains(k) && probe.sphere_hit(spheres[k]) is Some ==> a.contains(k),
    ensures
        nearest_in(probe, spheres, b, r),
{
    if let Some(h) = r {
        let k = choose|k: int| #[trigger] a.contains(k) && probe.sphere_hit(spheres[k]) == Some(h);
        assert(b.contains(k));
    } else {
        assert forall|k: int| #[trigger] b.contains(k) implies probe.sphere_hit(spheres[k]) is None by {
            if probe.sphere_hit(spheres[k]) is Some {
                assert(a.contains(k));
            }
        }
    }
}

/// The leaves that a descent from node `i` tests are leaves of the subtree
/// at `i`.
proof fn lemma_descent_leaves<A>(nodes: Seq<BoundingVolume<A>>, i: int, lo: int, hi: int, hits: spec_fn(int) -> bool)
    requires
        subtree(nodes, i, lo, hi),
    ensures
        forall|t: int|
            0 <= t < descent(nodes, i, hits).len() ==> leaf_of(nodes, i, lo, hi, #[trigger] descent(nodes, i, hits)[t]),
    decreases hi - lo,
{
    if hits(i) {
        if let BoundingVolumeInner::Split { left, right } = nodes[i].inner {
            let l: int = left as int;
            let r: int = right as int;
            lemma_descent_leaves(nodes, l, l + 1, r, hits);
            lemma_descent_leaves(nodes, r, r + 1, hi, hits);
            let dl = descent(nodes, l, hits);
            let dr = descent(nodes, r, hits);
            assert(descent(nodes, i, hits) == dl + dr);
            assert forall|t: int| 0 <= t < descent(nodes, i, hits).len()
                implies leaf_of(nodes, i, lo, hi, #[trigger] descent(nodes, i, hits)[t]) by {
                if t < dl.len() {
                    assert(leaf_of(nodes, l, l + 1, r, dl[t]));
                } else {
                    assert(leaf_of(nodes, r, r + 1, hi, dr[t - dl.len()]));
                }
            }
        }
    }
}

/// A ray that hits one of the objects around which a box was taken meets
/// the box.
pub(crate) proof fn lemma_box_met<A, S: Bounded<A>, P: Probe<A, S>>(probe: P, aabb: A, spheres: Seq<S>, start: nat, len: nat, k: int)
    requires
        boxes_cull(probe),
        boxes_run(aabb, spheres, start, len),
        start <= k < start + len <= spheres.len(),
        probe.sphere_hit(spheres[k]) is Some,
    ensures
        probe.meets(aabb),
{
    broadcast use vstd::seq_lib::group_to_multiset_ensures;
    let (o, r) = choose|objects: &[S], indices: std::ops::Range<usize>|
        #[trigger] S::box_of(objects, indices) == aabb && indices.start <= indices.end <= objects@.len()
            && objects@.subrange(indices.start as int, indices.end as int).to_multiset()
            == spheres.subrange(start as int, start + len as int).to_multiset();
    let mine = spheres.subrange(start as int, start + len as int);
    let theirs = o@.subrange(r.start as int, r.end as int);
    assert(mine[k - start] == spheres[k]);
    assert(mine.contains(spheres[k]));
    assert(theirs.to_multiset().count(spheres[k]) > 0);
    assert(theirs.contains(spheres[k]));
    let idx = choose|idx: int| 0 <= idx < theirs.len() && theirs[idx] == spheres[k];
    let at: int = r.start + idx;
    assert(o@[at] == spheres[k]);
    assert(probe.sphere_hit(o@[at]) is Some);
    assert(probe.meets(S::box_of(o, r)));
}

/// Every object of a subtree that the ray hits lies in a leaf that the
/// descent tests.
proof fn lemma_descent_covers<A, S: Bounded<A>, P: Probe<A, S>>(
    probe: P,
    nodes: Seq<BoundingVolume<A>>,
    i: int,
    lo: int,
    hi: int,
    start: nat,
    len: nat,
    spheres: Seq<S>,
)
    requires
        boxes_cull(probe),
        subtree(nodes, i, lo, hi),
        covers(nodes, i, start, len),
        boxed(nodes, i, start, len, spheres),
        start + len <= spheres.len(),
    ensures
        forall|k: int|
            start <= k < start + len && probe.sphere_hit(spheres[k]) is Some
                ==> #[trigger] in_leaves(nodes, descent(nodes, i, boxes_met(probe, nodes))).contains(k),
    decreases len,
{
    let hits = boxes_met(probe, nodes);
    match nodes[i].inner {
        BoundingVolumeInner::Container { .. } => {
            assert forall|k: int| start <= k < start + len && probe.sphere_hit(spheres[k]) is Some
                implies #[trigger] in_leaves(nodes, descent(nodes, i, hits)).contains(k) by {
                lemma_box_met(probe, nodes[i].aabb, spheres, start, len, k);
                assert(hits(i));
                let d = descent(nodes, i, hits);
                assert(d == seq![i]);
                assert(run_of(nodes, d[0]).contains(k));
            }
        },
        BoundingVolumeInner::Split { left, right } => {
            let l: int = left as int;
            let r: int = right as int;
            let half: nat = len / 2;
            let rest: nat = (len - len / 2) as nat;
            lemma_descent_covers(probe, nodes, l, l + 1, r, start, half, spheres);
            lemma_descent_covers(probe, nodes, r, r + 1, hi, start + half, rest, spheres);
            assert forall|k: int| start <= k < start + len && probe.sphere_hit(spheres[k]) is Some
                implies #[trigger] in_leaves(nodes, descent(nodes, i, hits)).contains(k) by {
                lemma_box_met(probe, nodes[i].aabb, spheres, start, len, k);
                assert(hits(i));
                let dl = descent(nodes, l, hits);
                let dr = descent(nodes, r, hits);
                let d = descent(nodes, i, hits);
                assert(d == dl + dr);
                if k < start + half {
                    assert(in_leaves(nodes, dl).contains(k));
                    let t = choose|t: int| 0 <= t < dl.len() && #[trigger] run_of(nodes, dl[t]).contains(k);
                    assert(d[t] == dl[t]);
                    assert(run_of(nodes, d[t]).contains(k));
                } else {
                    assert(in_leaves(nodes, dr).contains(k));
                    let t = choose|t: int| 0 <= t < dr.len() && #[trigger] run_of(nodes, dr[t]).contains(k);
                    assert(d[dl.len() + t] == dr[t]);
                    assert(run_of(nodes, d[dl.len() + t]).contains(k));
                }
            }
        },
    }
}

/// Culling by boxes never loses the nearest hit. When the probe's hit on a
/// run is a nearest hit among the run's spheres, when a ray that hits a
/// sphere meets every box taken around objects that include it, and when
/// being nearer is a strict weak order, then testing only the leaves whose
/// boxes the ray meets on the way down, and keeping the nearer hit leaf by
/// leaf, gives a nearest hit among all the spheres of a hierarchy built over
/// them: none exactly when the ray hits no sphere, else a hit on one of them
/// with no sphere hit nearer.
pub proof fn lemma_culling_keeps_nearest<A, S: Bounded<A>, P: Probe<A, S>>(
    probe: P,
    nodes: Seq<BoundingVolume<A>>,
    spheres: &[S],
)
    requires
        nodes.len() >= 1,
        subtree(nodes, 0, 1, nodes.len() as int),
        covers(nodes, 0, 0, spheres@.len()),
        boxed(nodes, 0, 0, spheres@.len(), spheres@),
        spheres@.len() <= usize::MAX,
        runs_hit_nearest(probe),
        boxes_cull(probe),
        nearer_is_weak_order(probe),
    ensures
        nearest_in(
            probe,
            spheres@,
            span(0, spheres@.len() as int),
            nearest_over(probe, nodes, spheres, descent(nodes, 0, boxes_met(probe, nodes))),
        ),
{
    let n: nat = spheres@.len();
    let top: int = nodes.len() as int;
    let hits = boxes_met(probe, nodes);
    let d = descent(nodes, 0, hits);
    lemma_descent_leaves(nodes, 0, 1, top, hits);
    crate::bvh::split::lemma_leaves_partition(nodes, 0, 1, top, 0, n);
    lemma_descent_covers(probe, nodes, 0, 1, top, 0, n, spheres@);
    assert forall|t: int| 0 <= t < d.len() implies run_of(nodes, #[trigger] d[t]).end() <= spheres@.len() by {
        assert(leaf_of(nodes, 0, 1, top, d[t]));
    }
    lemma_fold_is_nearest(probe, nodes, spheres, d);
    assert forall|k: int| #[trigger] in_leaves(nodes, d).contains(k) implies span(0, n as int).contains(k) by {
        let t = choose|t: int| 0 <= t < d.len() && #[trigger] run_of(nodes, d[t]).contains(k);
        assert(leaf_of(nodes, 0, 1, top, d[t]));
    }
    lemma_nearest_widen(probe, spheres@, in_leaves(nodes, d), span(0, n as int), nearest_over(probe, nodes, spheres, d));
}

} // verus!
