use voxelkloud::double::Real;
use voxelkloud::octree::{child_index, morton_decode3, morton_encode3, OctreeKey};

fn reals(p: [f64; 3]) -> [Real; 3] {
    p.map(|v| Real { bits: v.to_bits() })
}

#[test]
fn child_index_inverts_child_bounds() {
    let centre = reals([4.0, 4.0, 4.0]);
    for child in 0..8u8 {
        let half = |bit: u8| if child & bit == 0 { 2.0 } else { 6.0 };
        assert_eq!(child_index(centre, reals([half(4), half(2), half(1)])), child);
    }
}

#[test]
fn a_point_on_a_dividing_plane_goes_up() {
    let centre = reals([0.0, -1.0, 5.0]);
    assert_eq!(child_index(centre, reals([0.0, -1.0, 5.0])), 7);
    assert_eq!(child_index(centre, reals([-0.0, -1.5, 4.999])), 4);
    assert_eq!(child_index(centre, reals([f64::NAN, -0.5, f64::NAN])), 2);
}

#[test]
fn potree_and_ept_names_are_the_same_node() {
    let key = OctreeKey::from_potree_name("r047").unwrap();
    assert_eq!(key.level, 3);
    assert_eq!(key.potree_name(), "r047");
    // 0 -> (0,0,0), 4 -> x, 7 -> x,y,z: x = 0b011, y = 0b001, z = 0b001.
    assert_eq!(key.ept_name(), "3-3-1-1");
    assert_eq!(key.child_index(), Some(7));
    assert_eq!(key.parent().unwrap().potree_name(), "r04");
}

#[test]
fn morton_round_trips() {
    for (x, y, z) in [(0, 0, 0), (1, 2, 3), (1023, 1023, 1023), (5, 0, 1023)] {
        assert_eq!(morton_decode3(morton_encode3(x, y, z)), [x, y, z]);
    }
}

#[test]
fn the_root_has_no_parent_and_no_index() {
    let root = OctreeKey::root();
    assert!(root.parent().is_none());
    assert_eq!(root.child_index(), None);
    assert_eq!(root.potree_name(), "r");
    assert_eq!(root.ept_name(), "0-0-0-0");
}

#[test]
fn names_that_are_not_nodes_are_refused() {
    assert!(OctreeKey::from_potree_name("").is_none());
    assert!(OctreeKey::from_potree_name("x0").is_none());
    assert!(OctreeKey::from_potree_name("r8").is_none());
    assert!(OctreeKey::from_potree_name("r0a").is_none());
}

#[test]
fn a_child_knows_its_parent_and_its_index() {
    let key = OctreeKey::new(2, 1, 3, 2);
    for index in 0..8u8 {
        let child = key.child(index);
        assert_eq!(child.child_index(), Some(index));
        assert_eq!(child.parent().unwrap().ept_name(), key.ept_name());
    }
}
