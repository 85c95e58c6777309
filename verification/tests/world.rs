use raytracer::material::MaterialReference;
use raytracer::world::World;

#[test]
fn material_reference_keeps_its_position() {
    assert_eq!(MaterialReference::new(0).id(), 0);
    assert_eq!(MaterialReference::new(1234).id(), 1234);
    assert_eq!(MaterialReference::new(u16::MAX as usize).id(), 65535);
}

#[test]
fn new_world_is_empty() {
    let w: World<u32, &str> = World::new();
    assert!(w.spheres().is_empty());
    assert_eq!(w.material_count(), 0);
}

#[test]
fn add_material_returns_positions_in_order() {
    let mut w: World<u32, &str> = World::new();
    let a = w.add_material("lambertian");
    let b = w.add_material("metal");
    let c = w.add_material("glass");
    assert_eq!((a.id(), b.id(), c.id()), (0, 1, 2));
    assert_eq!(w.material_count(), 3);
}

#[test]
fn lookup_after_add_gives_the_material_back() {
    let mut w: World<u32, String> = World::new();
    let first = w.add_material("first".to_string());
    let second = w.add_material("second".to_string());
    assert_eq!(w.get_material(second), "second");
    assert_eq!(w.get_material(first), "first");
}

#[test]
fn add_sphere_keeps_order_and_decompose_returns_both_lists() {
    let mut w: World<u32, char> = World::new();
    w.add_sphere(7);
    let m = w.add_material('m');
    w.add_sphere(9);
    assert_eq!(w.spheres(), &[7, 9]);
    assert_eq!(*w.get_material(m), 'm');
    let (spheres, materials) = w.decompose();
    assert_eq!(spheres, vec![7, 9]);
    assert_eq!(materials, vec!['m']);
}

#[test]
fn material_list_holds_u16_max_plus_one_materials() {
    let mut w: World<u8, u32> = World::new();
    let mut last = MaterialReference::new(0);
    for i in 0..=(u16::MAX as u32) {
        last = w.add_material(i);
    }
    assert_eq!(last.id(), u16::MAX as usize);
    assert_eq!(*w.get_material(last), u16::MAX as u32);
    assert_eq!(w.material_count(), 65536);
}
