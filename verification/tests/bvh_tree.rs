use raytracer::bvh::{Bounded, BoundingVolume, BoundingVolumeInner, BvhWorld, Probe};
use raytracer::world::World;
use std::ops::Range;

#[derive(Debug, Clone, Copy, PartialEq)]
struct Point(i64);

#[derive(Debug, Clone, Copy, PartialEq)]
struct Span {
    lo: i64,
    hi: i64,
}

impl Bounded<Span> for Point {
    fn box_of(objects: &[Self], indices: Range<usize>) -> Span {
        Self::bounds(objects, indices)
    }

    fn bounds(objects: &[Self], indices: Range<usize>) -> Span {
        let run = &objects[indices];
        match run.first() {
            None => Span { lo: 0, hi: 0 },
            Some(p) => {
                let mut span = Span { lo: p.0, hi: p.0 };
                for q in run {
                    span.lo = span.lo.min(q.0);
                    span.hi = span.hi.max(q.0);
                }
                span
            },
        }
    }

    fn precedes(_bounds: Span, a: Self, b: Self) -> bool {
        a.0 < b.0
    }

    fn sort_along_widest_axis(objects: &mut [Self], indices: Range<usize>, _bounds: &Span) {
        objects[indices].sort_by_key(|p| p.0);
    }
}

struct Query {
    at: i64,
    reach: i64,
}

impl Probe<Span, Point> for Query {
    type Hit = i64;

    fn meets(&self, aabb: Span) -> bool {
        self.hits_box(&aabb)
    }

    fn run_hit(&self, spheres: &[Point], indices: Range<usize>) -> Option<i64> {
        self.hit_run(spheres, indices)
    }

    fn nearer(&self, candidate: i64, best: i64) -> bool {
        self.is_closer(&candidate, &best)
    }

    fn sphere_hit(&self, sphere: Point) -> Option<i64> {
        if (sphere.0 - self.at).abs() <= self.reach {
            Some(sphere.0)
        } else {
            None
        }
    }

    fn hits_box(&self, aabb: &Span) -> bool {
        aabb.lo - self.reach <= self.at && self.at <= aabb.hi + self.reach
    }

    fn hit_run(&self, spheres: &[Point], indices: Range<usize>) -> Option<i64> {
        let mut best: Option<i64> = None;
        for p in &spheres[indices] {
            let d = (p.0 - self.at).abs();
            if d <= self.reach && best.map_or(true, |b| d < (b - self.at).abs()) {
                best = Some(p.0);
            }
        }
        best
    }

    fn is_closer(&self, candidate: &i64, best: &i64) -> bool {
        (candidate - self.at).abs() < (best - self.at).abs()
    }
}

fn world_of(points: &[i64]) -> World<Point, u8> {
    let mut w = World::new();
    w.add_material(42);
    for p in points {
        w.add_sphere(Point(*p));
    }
    w
}

/// The leaf ranges of a tree, left to right.
fn leaves(bv: &BoundingVolume<Span>, out: &mut Vec<Range<usize>>) {
    match bv.inner() {
        BoundingVolumeInner::Container(r) => out.push(r.clone()),
        BoundingVolumeInner::Split(children) => {
            leaves(&children.0, out);
            leaves(&children.1, out);
        },
    }
}

#[test]
fn new_tree_world_is_one_leaf_over_all_spheres() {
    let w = BvhWorld::new(world_of(&[5, 1, 9, 3]));
    let mut out = Vec::new();
    leaves(w.bounding_volume(), &mut out);
    assert_eq!(out, vec![0..4]);
    assert_eq!(*w.bounding_volume().aabb(), Span { lo: 1, hi: 9 });
}

#[test]
fn tree_split_halves_down_to_small_leaves() {
    let mut w = BvhWorld::new(world_of(&[6, 5, 4, 3, 2, 1, 0]));
    w.split();
    let mut out = Vec::new();
    leaves(w.bounding_volume(), &mut out);
    assert_eq!(out, vec![0..1, 1..3, 3..5, 5..7]);
    assert_eq!(*w.bounding_volume().aabb(), Span { lo: 0, hi: 6 });
    match w.bounding_volume().inner() {
        BoundingVolumeInner::Split(children) => {
            assert_eq!(*children.0.aabb(), Span { lo: 0, hi: 2 });
            assert_eq!(*children.1.aabb(), Span { lo: 3, hi: 6 });
        },
        BoundingVolumeInner::Container(_) => panic!("root was not split"),
    }
    assert_eq!(w.material_count(), 1);
    assert_eq!(*w.get_material(raytracer::material::MaterialReference::new(0)), 42);
}

#[test]
fn tree_split_of_two_keeps_the_leaf() {
    let mut w = BvhWorld::new(world_of(&[8, 2]));
    w.split();
    let mut out = Vec::new();
    leaves(w.bounding_volume(), &mut out);
    assert_eq!(out, vec![0..2]);
}

#[test]
fn tree_leaves_partition_the_spheres() {
    for n in 0..40i64 {
        let mut w = BvhWorld::new(world_of(&(0..n).collect::<Vec<i64>>()));
        w.split();
        let mut out = Vec::new();
        leaves(w.bounding_volume(), &mut out);
        let mut next = 0;
        for r in out {
            assert_eq!(r.start, next);
            assert!(r.len() < 3);
            next = r.end;
        }
        assert_eq!(next, n as usize);
    }
}

#[test]
fn tree_hit_finds_the_nearest_point() {
    let mut w = BvhWorld::new(world_of(&[40, 3, 17, 25, 8, 31, 12, 60]));
    w.split();
    assert_eq!(w.hit(&Query { at: 26, reach: 2 }), Some(25));
    assert_eq!(w.hit(&Query { at: 14, reach: 3 }), Some(12));
    assert_eq!(w.hit(&Query { at: 50, reach: 3 }), None);
    assert_eq!(w.hit(&Query { at: 35, reach: 5 }), Some(31));
}

#[test]
fn tree_hit_before_split_tests_the_single_leaf() {
    let w = BvhWorld::new(world_of(&[1, 9]));
    assert_eq!(w.hit(&Query { at: 8, reach: 1 }), Some(9));
    assert_eq!(w.hit(&Query { at: 20, reach: 1 }), None);
}

/// Checks that every inner node below `bv` has its left half of `points`
/// before its right half and every node has the box around its run, and
/// returns the run of objects under `bv`.
fn check_halves(bv: &BoundingVolume<Span>, points: &[Point], inner: &mut usize) -> Range<usize> {
    let run = match bv.inner() {
        BoundingVolumeInner::Container(r) => r.clone(),
        BoundingVolumeInner::Split(children) => {
            *inner += 1;
            let l = check_halves(&children.0, points, inner);
            let r = check_halves(&children.1, points, inner);
            let left_max = points[l.clone()].iter().map(|p| p.0).max().unwrap();
            let right_min = points[r.clone()].iter().map(|p| p.0).min().unwrap();
            assert!(left_max <= right_min);
            l.start..r.end
        },
    };
    let lo = points[run.clone()].iter().map(|p| p.0).min().unwrap();
    let hi = points[run.clone()].iter().map(|p| p.0).max().unwrap();
    assert_eq!(*bv.aabb(), Span { lo, hi });
    run
}

#[test]
fn tree_split_orders_the_halves_of_every_inner_node() {
    let mut points: Vec<Point> = [31, 4, 27, 9, 50, 18, 2, 44, 13, 36, 21].iter().map(|p| Point(*p)).collect();
    let n = points.len();
    let mut bv = BoundingVolume::from_spheres(&points, 0..n);
    bv.split(&mut points);
    let mut inner = 0;
    assert_eq!(check_halves(&bv, &points, &mut inner), 0..n);
    assert!(inner >= 3);
}
