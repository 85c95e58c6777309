use raytracer::bvh::bounding_volume::{BoundingVolume, BoundingVolumeInner};
use raytracer::bvh::object_range::ObjectRange;
use raytracer::bvh::split::{skip_pass, split};
use raytracer::bvh::world::BvhWorld;
use raytracer::bvh::BvhWorld as TreeWorld;
use raytracer::bvh::{nearer_hit, Bounded, Probe};
use raytracer::world::World;
use std::ops::Range;

/// A point on a line, standing in for a sphere.
#[derive(Debug, Clone, Copy, PartialEq)]
struct Point(i64);

/// The interval that a run of points spans.
#[derive(Debug, Clone, Copy, PartialEq)]
struct Span {
    lo: i64,
    hi: i64,
}

impl Bounded<Span> for Point {
    fn box_of(objects: &[Self], indices: Range<usize>) -> Span {
        Self::bounds(objects, indices)
    }

    fn bounds(objects: &[Self], indices: Range<usize>) -> Span {
        let run = &objects[indices];
        match run.first() {
            None => Span { lo: 0, hi: 0 },
            Some(p) => {
                let mut span = Span { lo: p.0, hi: p.0 };
                for q in run {
                    span.lo = span.lo.min(q.0);
                    span.hi = span.hi.max(q.0);
                }
                span
            },
        }
    }

    fn precedes(_bounds: Span, a: Self, b: Self) -> bool {
        a.0 < b.0
    }

    fn sort_along_widest_axis(objects: &mut [Self], indices: Range<usize>, _bounds: &Span) {
        objects[indices].sort_by_key(|p| p.0);
    }
}

/// Looks for the point nearest to `at` within distance `reach`.
struct Query {
    at: i64,
    reach: i64,
}

impl Probe<Span, Point> for Query {
    type Hit = i64;

    fn meets(&self, aabb: Span) -> bool {
        self.hits_box(&aabb)
    }

    fn run_hit(&self, spheres: &[Point], indices: Range<usize>) -> Option<i64> {
        self.hit_run(spheres, indices)
    }

    fn nearer(&self, candidate: i64, best: i64) -> bool {
        self.is_closer(&candidate, &best)
    }

    fn sphere_hit(&self, sphere: Point) -> Option<i64> {
        if (sphere.0 - self.at).abs() <= self.reach {
            Some(sphere.0)
        } else {
            None
        }
    }

    fn hits_box(&self, aabb: &Span) -> bool {
        aabb.lo - self.reach <= self.at && self.at <= aabb.hi + self.reach
    }

    fn hit_run(&self, spheres: &[Point], indices: Range<usize>) -> Option<i64> {
        let mut best: Option<i64> = None;
        for p in &spheres[indices] {
            let d = (p.0 - self.at).abs();
            if d <= self.reach && best.map_or(true, |b| d < (b - self.at).abs()) {
                best = Some(p.0);
            }
        }
        best
    }

    fn is_closer(&self, candidate: &i64, best: &i64) -> bool {
        (candidate - self.at).abs() < (best - self.at).abs()
    }
}

fn world_of(points: &[i64]) -> World<Point, &'static str> {
    let mut w = World::new();
    w.add_material("only");
    for p in points {
        w.add_sphere(Point(*p));
    }
    w
}

fn leaf(bv: &BoundingVolume<Span>) -> Option<Range<usize>> {
    match bv.inner {
        BoundingVolumeInner::Container { sphere_indices } => Some(sphere_indices.indices()),
        BoundingVolumeInner::Split { .. } => None,
    }
}

fn children(bv: &BoundingVolume<Span>) -> Option<(usize, usize)> {
    match bv.inner {
        BoundingVolumeInner::Split { left, right } => Some((left, right)),
        BoundingVolumeInner::Container { .. } => None,
    }
}

fn skips(nodes: &[BoundingVolume<Span>]) -> Vec<Option<usize>> {
    nodes.iter().map(|n| n.skip).collect()
}

#[test]
fn from_spheres_makes_a_leaf_with_the_box() {
    let points = [Point(5), Point(-2), Point(9), Point(4)];
    let bv = BoundingVolume::from_spheres(&points, ObjectRange::new(1, 2));
    assert_eq!(bv.aabb, Span { lo: -2, hi: 9 });
    assert_eq!(bv.skip, None);
    assert_eq!(leaf(&bv), Some(1..3));
}

#[test]
fn split_leaves_small_leaves_alone() {
    let mut points = vec![Point(3), Point(1)];
    let mut nodes = vec![BoundingVolume::from_spheres(&points, ObjectRange::new(0, 2))];
    nodes[0].skip = Some(7);
    split(&mut nodes, &mut points, 0);
    assert_eq!(nodes.len(), 1);
    assert_eq!(leaf(&nodes[0]), Some(0..2));
    assert_eq!(nodes[0].skip, Some(7));
    assert_eq!(points, vec![Point(3), Point(1)]);
}

#[test]
fn split_of_five_lays_out_nodes_in_pre_order() {
    let mut points: Vec<Point> = [50, 10, 40, 20, 30].iter().map(|p| Point(*p)).collect();
    let mut nodes = vec![BoundingVolume::from_spheres(&points, ObjectRange::new(0, 5))];
    split(&mut nodes, &mut points, 0);
    assert_eq!(nodes.len(), 5);
    assert_eq!(children(&nodes[0]), Some((1, 2)));
    assert_eq!(leaf(&nodes[1]), Some(0..2));
    assert_eq!(children(&nodes[2]), Some((3, 4)));
    assert_eq!(leaf(&nodes[3]), Some(2..3));
    assert_eq!(leaf(&nodes[4]), Some(3..5));
    assert_eq!(points, vec![Point(10), Point(20), Point(30), Point(40), Point(50)]);
    assert_eq!(nodes[1].aabb, Span { lo: 10, hi: 20 });
    assert_eq!(nodes[2].aabb, Span { lo: 30, hi: 50 });
    assert_eq!(skips(&nodes), vec![None, Some(2), None, Some(4), None]);
}

#[test]
fn split_links_then_skip_pass_completes_them() {
    let mut points: Vec<Point> = (0..7).map(|p| Point(p)).collect();
    let mut nodes = vec![BoundingVolume::from_spheres(&points, ObjectRange::new(0, 7))];
    split(&mut nodes, &mut points, 0);
    assert_eq!(children(&nodes[0]), Some((1, 4)));
    assert_eq!(children(&nodes[1]), Some((2, 3)));
    assert_eq!(children(&nodes[4]), Some((5, 6)));
    assert_eq!(leaf(&nodes[2]), Some(0..1));
    assert_eq!(leaf(&nodes[3]), Some(1..3));
    assert_eq!(leaf(&nodes[5]), Some(3..5));
    assert_eq!(leaf(&nodes[6]), Some(5..7));
    // A right child deep down is left without a successor by `split`.
    assert_eq!(skips(&nodes), vec![None, Some(4), Some(3), None, None, Some(6), None]);
    skip_pass(&mut nodes, 0, None);
    assert_eq!(skips(&nodes), vec![None, Some(4), Some(3), Some(4), None, Some(6), None]);
}

#[test]
fn split_of_a_later_leaf_appends_its_subtree() {
    let mut points: Vec<Point> = (0..6).map(|p| Point(p)).collect();
    let mut nodes = vec![
        BoundingVolume::from_spheres(&points, ObjectRange::new(0, 2)),
        BoundingVolume::from_spheres(&points, ObjectRange::new(2, 4)),
    ];
    nodes[1].skip = Some(9);
    split(&mut nodes, &mut points, 1);
    assert_eq!(leaf(&nodes[0]), Some(0..2));
    assert_eq!(children(&nodes[1]), Some((2, 3)));
    assert_eq!(leaf(&nodes[2]), Some(2..4));
    assert_eq!(leaf(&nodes[3]), Some(4..6));
    assert_eq!(skips(&nodes), vec![None, Some(9), Some(3), Some(9)]);
}

#[test]
fn bvh_world_links_every_node_past_its_subtree() {
    let w = BvhWorld::new(world_of(&[6, 0, 5, 1, 4, 2, 3]));
    let nodes = w.nodes();
    assert_eq!(nodes.len(), 7);
    assert_eq!(skips(nodes), vec![None, Some(4), Some(3), Some(4), None, Some(6), None]);
    assert_eq!(*w.get_material(raytracer::material::MaterialReference::new(0)), "only");
    assert_eq!(w.material_count(), 1);
}

#[test]
fn bvh_world_leaves_partition_the_spheres() {
    for n in 0..40i64 {
        let points: Vec<i64> = (0..n).rev().collect();
        let w = BvhWorld::new(world_of(&points));
        let mut seen = vec![0usize; n as usize];
        let mut next_start = 0;
        for node in w.nodes() {
            if let Some(r) = leaf(node) {
                assert!(r.len() < 3);
                assert_eq!(r.start, next_start);
                next_start = r.end;
                for i in r {
                    seen[i] += 1;
                }
            } else {
                assert!(children(node).is_some());
            }
        }
        assert!(seen.iter().all(|c| *c == 1));
        assert_eq!(next_start, n as usize);
    }
}

#[test]
fn step_follows_pre_order_and_skips_missed_subtrees() {
    let w = BvhWorld::new(world_of(&[0, 1, 2, 3, 4, 5, 6]));
    let s = w.step(0, true);
    assert_eq!((s.test.map(|r| r.indices()), s.next), (None, Some(1)));
    assert_eq!(w.step(0, false).next, None);
    assert_eq!(w.step(1, false).next, Some(4));
    let s = w.step(3, true);
    assert_eq!((s.test.map(|r| r.indices()), s.next), (Some(1..3), Some(4)));
    let s = w.step(3, false);
    assert_eq!((s.test.map(|r| r.indices()), s.next), (None, Some(4)));
    let s = w.step(6, true);
    assert_eq!((s.test.map(|r| r.indices()), s.next), (Some(5..7), None));
}

#[test]
fn step_with_every_box_hit_visits_every_node_in_order() {
    let w = BvhWorld::new(world_of(&(0..23).collect::<Vec<i64>>()));
    let mut visited = vec![0usize];
    let mut current = 0;
    while let Some(next) = w.step(current, true).next {
        visited.push(next);
        current = next;
    }
    assert_eq!(visited, (0..w.nodes().len()).collect::<Vec<usize>>());
}

#[test]
fn hit_finds_the_nearest_point() {
    let w = BvhWorld::new(world_of(&[40, 3, 17, 25, 8, 31, 12, 60]));
    assert_eq!(w.hit(&Query { at: 26, reach: 2 }), Some(25));
    assert_eq!(w.hit(&Query { at: 14, reach: 3 }), Some(12));
    assert_eq!(w.hit(&Query { at: 50, reach: 3 }), None);
    assert_eq!(w.hit(&Query { at: 35, reach: 5 }), Some(31));
}

#[test]
fn ties_go_to_the_first_leaf_in_the_flat_walk_and_the_second_child_in_the_tree() {
    let points = [5, 7, 1, 9];
    let flat = BvhWorld::new(world_of(&points));
    let mut tree = TreeWorld::new(world_of(&points));
    tree.split();
    assert_eq!(flat.hit(&Query { at: 6, reach: 1 }), Some(5));
    assert_eq!(tree.hit(&Query { at: 6, reach: 1 }), Some(7));
}

#[test]
fn hit_in_empty_world_is_none() {
    let w = BvhWorld::new(world_of(&[]));
    assert_eq!(w.nodes().len(), 1);
    assert_eq!(w.hit(&Query { at: 0, reach: 100 }), None);
}


/// Leaf runs that a recursive descent of the tree tests, left to right.
fn descend(bv: &raytracer::bvh::BoundingVolume<Span>, q: &Query, out: &mut Vec<Range<usize>>) {
    if !q.hits_box(bv.aabb()) {
        return;
    }
    match bv.inner() {
        raytracer::bvh::BoundingVolumeInner::Container(r) => out.push(r.clone()),
        raytracer::bvh::BoundingVolumeInner::Split(children) => {
            descend(&children.0, q, out);
            descend(&children.1, q, out);
        },
    }
}

#[test]
fn skip_link_walk_tests_the_leaves_of_a_recursive_descent() {
    let points: Vec<i64> = vec![13, 2, 29, 7, 41, 19, 3, 33, 25, 11, 37, 5, 17];
    let flat = BvhWorld::new(world_of(&points));
    let mut tree = TreeWorld::new(world_of(&points));
    tree.split();
    for at in -5..50 {
        for reach in 0..4 {
            let q = Query { at, reach };
            let mut walked = Vec::new();
            let mut current = 0;
            loop {
                let box_hit = q.hits_box(&flat.nodes()[current].aabb);
                let s = flat.step(current, box_hit);
                if let Some(r) = s.test {
                    walked.push(r.indices());
                }
                match s.next {
                    None => break,
                    Some(n) => current = n,
                }
            }
            let mut descended = Vec::new();
            descend(tree.bounding_volume(), &q, &mut descended);
            assert_eq!(walked, descended);
            // On a tie the flat walk keeps the first hit, the tree the second.
            let distance = |h: Option<i64>| h.map(|p| (p - at).abs());
            assert_eq!(distance(flat.hit(&q)), distance(tree.hit(&q)));
        }
    }
}

#[test]
fn nearer_hit_keeps_the_nearer_or_the_lone_hit() {
    assert_eq!(nearer_hit(Some(1), Some(2), true), Some(1));
    assert_eq!(nearer_hit(Some(1), Some(2), false), Some(2));
    assert_eq!(nearer_hit(Some(1), None, false), Some(1));
    assert_eq!(nearer_hit(None, Some(2), true), Some(2));
    assert_eq!(nearer_hit::<i32>(None, None, true), None);
}

#[test]
fn skip_pass_links_a_tree_laid_out_in_any_order() {
    let points: Vec<Point> = (0..4).map(|p| Point(p)).collect();
    let leaf_a = BoundingVolume::from_spheres(&points, ObjectRange::new(0, 2));
    let leaf_b = BoundingVolume::from_spheres(&points, ObjectRange::new(2, 2));
    let mut root = BoundingVolume::from_spheres(&points, ObjectRange::new(0, 4));
    root.inner = BoundingVolumeInner::Split { left: 2, right: 0 };
    let mut nodes = vec![leaf_b, root, leaf_a];
    nodes[0].skip = Some(5);
    skip_pass(&mut nodes, 1, Some(9));
    assert_eq!(skips(&nodes), vec![Some(9), Some(9), Some(0)]);
}

#[test]
fn a_second_skip_pass_changes_nothing() {
    let mut points: Vec<Point> = (0..11).map(|p| Point(p)).collect();
    let mut nodes = vec![BoundingVolume::from_spheres(&points, ObjectRange::new(0, 11))];
    split(&mut nodes, &mut points, 0);
    skip_pass(&mut nodes, 0, None);
    let once = skips(&nodes);
    skip_pass(&mut nodes, 0, None);
    assert_eq!(skips(&nodes), once);
}

#[test]
fn split_moves_spheres_only_within_the_run() {
    let mut points: Vec<Point> = [9, 8, 7, 6, 5, 4, 3, 2, 1, 0].iter().map(|p| Point(*p)).collect();
    let mut nodes = vec![BoundingVolume::from_spheres(&points, ObjectRange::new(2, 6))];
    split(&mut nodes, &mut points, 0);
    assert_eq!(&points[..2], &[Point(9), Point(8)]);
    assert_eq!(&points[8..], &[Point(1), Point(0)]);
    let mut run: Vec<i64> = points[2..8].iter().map(|p| p.0).collect();
    run.sort();
    assert_eq!(run, vec![2, 3, 4, 5, 6, 7]);
    for node in &nodes {
        if let Some(r) = leaf(node) {
            let span = Point::bounds(&points, r.clone());
            assert_eq!(node.aabb, span);
        }
    }
}

#[test]
fn culling_never_loses_the_nearest_point() {
    let points: Vec<i64> = vec![13, 2, 29, 7, 41, 19, 3, 33, 25, 11, 37, 5, 17, 48, -4];
    let w = BvhWorld::new(world_of(&points));
    for at in -10..55 {
        for reach in 0..5 {
            let q = Query { at, reach };
            let nearest = points.iter().map(|p| (p - at).abs()).filter(|d| *d <= reach).min();
            assert_eq!(w.hit(&q).map(|p| (p - at).abs()), nearest);
        }
    }
}

/// The objects under node `i`: its own run for a leaf, from the first of its
/// left child's to the last of its right child's otherwise.
fn run_below(nodes: &[BoundingVolume<Span>], i: usize) -> Range<usize> {
    match nodes[i].inner {
        BoundingVolumeInner::Container { sphere_indices } => sphere_indices.indices(),
        BoundingVolumeInner::Split { left, right } => run_below(nodes, left).start..run_below(nodes, right).end,
    }
}

#[test]
fn split_orders_the_halves_of_every_inner_node() {
    let mut points: Vec<Point> = [31, 4, 27, 9, 50, 18, 2, 44, 13, 36, 21].iter().map(|p| Point(*p)).collect();
    let n = points.len();
    let mut nodes = vec![BoundingVolume::from_spheres(&points, ObjectRange::new(0, n))];
    split(&mut nodes, &mut points, 0);
    skip_pass(&mut nodes, 0, None);
    let mut inner = 0;
    for i in 0..nodes.len() {
        if let Some((l, r)) = children(&nodes[i]) {
            inner += 1;
            let left_max = points[run_below(&nodes, l)].iter().map(|p| p.0).max().unwrap();
            let right_min = points[run_below(&nodes, r)].iter().map(|p| p.0).min().unwrap();
            assert!(left_max <= right_min);
            let whole = run_below(&nodes, i);
            let lo = points[whole.clone()].iter().map(|p| p.0).min().unwrap();
            let hi = points[whole].iter().map(|p| p.0).max().unwrap();
            assert_eq!(nodes[i].aabb, Span { lo, hi });
        }
    }
    assert!(inner >= 3);
}
