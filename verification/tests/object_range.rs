use raytracer::bvh::object_range::ObjectRange;

#[test]
fn new_and_length() {
    let r = ObjectRange::new(4, 7);
    assert_eq!(r.length(), 7);
    assert_eq!(r.indices(), 4..11);
}

#[test]
fn empty_range_has_empty_indices() {
    let r = ObjectRange::new(3, 0);
    assert_eq!(r.length(), 0);
    assert_eq!(r.indices(), 3..3);
}

#[test]
fn split_odd_length_gives_the_extra_index_to_the_right() {
    let (left, right) = ObjectRange::new(10, 5).split();
    assert_eq!(left.indices(), 10..12);
    assert_eq!(right.indices(), 12..15);
    assert_eq!(left.length() + right.length(), 5);
}

#[test]
fn split_even_length_halves() {
    let (left, right) = ObjectRange::new(0, 8).split();
    assert_eq!(left.indices(), 0..4);
    assert_eq!(right.indices(), 4..8);
}

#[test]
fn split_of_one_leaves_the_left_empty() {
    let (left, right) = ObjectRange::new(6, 1).split();
    assert_eq!(left.length(), 0);
    assert_eq!(left.indices(), 6..6);
    assert_eq!(right.indices(), 6..7);
}

#[test]
fn split_halves_partition_the_indices() {
    let r = ObjectRange::new(2, 9);
    let (left, right) = r.split();
    for i in 0..20usize {
        let in_r = r.indices().contains(&i);
        let in_left = left.indices().contains(&i);
        let in_right = right.indices().contains(&i);
        assert_eq!(in_r, in_left || in_right);
        assert!(!(in_left && in_right));
    }
}
