use voxel_world::octree::{Octree, OctreeContent, OctreeError, Voxel};
use voxel_world::position::OctreePosition;

#[test]
fn morton_increment() {
    let mut pos = OctreePosition(0, 0, 0);

    pos.morton_increment(0);
    assert_eq!(pos, OctreePosition(1, 0, 0));
    pos.morton_increment(0);
    assert_eq!(pos, OctreePosition(0, 1, 0));
    pos.morton_increment(0);
    assert_eq!(pos, OctreePosition(1, 1, 0));
    pos.morton_increment(0);
    assert_eq!(pos, OctreePosition(0, 0, 1));
    pos.morton_increment(0);
    assert_eq!(pos, OctreePosition(1, 0, 1));
    pos.morton_increment(0);
    assert_eq!(pos, OctreePosition(0, 1, 1));
    pos.morton_increment(0);
    assert_eq!(pos, OctreePosition(1, 1, 1));
    pos.morton_increment(0);
    assert_eq!(pos, OctreePosition(2, 0, 0));

    pos.morton_increment(1);
    assert_eq!(pos, OctreePosition(0, 2, 0));
}

#[test]
fn get_child_indice_test() {
    let pos = OctreePosition(2, 5, 1);

    assert_eq!(pos.get_child_indice(7), 0b000);
    assert_eq!(pos.get_child_indice(6), 0b000);
    assert_eq!(pos.get_child_indice(5), 0b000);
    assert_eq!(pos.get_child_indice(4), 0b000);
    assert_eq!(pos.get_child_indice(3), 0b000);
    assert_eq!(pos.get_child_indice(2), 0b010);
    assert_eq!(pos.get_child_indice(1), 0b001);
    assert_eq!(pos.get_child_indice(0), 0b110);
}

#[test]
fn test_octree_equal() {
    let tree_1 = Octree {
        size: 8,
        content: OctreeContent::Childs(vec![
            Octree { size: 7, content: OctreeContent::Voxel(Voxel::Stone) },
            Octree { size: 7, content: OctreeContent::Voxel(Voxel::Stone) },
            Octree { size: 7, content: OctreeContent::Voxel(Voxel::Empty) },
            Octree { size: 7, content: OctreeContent::Voxel(Voxel::Empty) },
            Octree { size: 7, content: OctreeContent::Voxel(Voxel::Stone) },
            Octree { size: 7, content: OctreeContent::Voxel(Voxel::Stone) },
            Octree { size: 7, content: OctreeContent::Voxel(Voxel::Empty) },
            Octree { size: 7, content: OctreeContent::Voxel(Voxel::Empty) },
        ]),
    };

    let tree_2 = tree_1.clone();

    assert_eq!(tree_1, tree_2);
}

#[test]
fn basic_octree_creation() {
    let tree = Octree::new(5, Some(Voxel::Empty));

    match tree.content {
        OctreeContent::Voxel(Voxel::Empty) => {
            return;
        }
        _ => {
            panic!("Failed to create a basic octree");
        }
    }
}

#[test]
fn octree_split() {
    let mut tree = Octree::new(8, Some(Voxel::Empty));

    tree.split().unwrap();

    match tree.content {
        OctreeContent::Voxel(_) => {
            panic!("Failed to split octree");
        }
        OctreeContent::Childs(ref childs) => {
            for child in childs {
                if let OctreeContent::Voxel(voxel) = child.content {
                    if voxel != Voxel::Empty {
                        panic!("Splitted voxel has changed type");
                    }
                } else {
                    panic!("Failed to split voxel");
                }
            }
        }
    }
}

#[test]
fn octree_access() {
    let mut tree = Octree::new(8, Some(Voxel::Stone));

    if let OctreeContent::Voxel(voxel) = tree.get_cube(OctreePosition(4, 4, 1), 0).unwrap().content {
        assert_eq!(Voxel::Stone, voxel);
    } else {
        panic!("Failed to access tree");
    }

    assert_eq!(Voxel::Stone, tree.get_voxel(OctreePosition(2, 4, 1)));

    tree.split().unwrap();

    assert_eq!(Voxel::Stone, tree.get_voxel(OctreePosition(2, 7, 1)));
}

#[test]
fn octree_set_complex() {
    let mut tree = Octree::new(8, Some(Voxel::Empty));

    tree.set_voxel(OctreePosition(2, 5, 1), 0, Voxel::Stone).unwrap();

    assert_eq!(Voxel::Stone, tree.get_voxel(OctreePosition(2, 5, 1)));

    assert_eq!(Voxel::Empty, tree.get_voxel(OctreePosition(2, 5, 2)));
    assert_eq!(Voxel::Empty, tree.get_voxel(OctreePosition(3, 5, 1)));
    assert_eq!(Voxel::Empty, tree.get_voxel(OctreePosition(4, 5, 1)));
    assert_eq!(Voxel::Empty, tree.get_voxel(OctreePosition(2, 7, 1)));
    assert_eq!(Voxel::Empty, tree.get_voxel(OctreePosition(2, 0, 1)));

    let mut tree = Octree::new(8, Some(Voxel::Empty));

    tree.set_voxel(OctreePosition(0, 0, 0), 7, Voxel::Stone).unwrap();

    assert_eq!(Voxel::Stone, tree.get_voxel(OctreePosition(10, 10, 10)));
}

#[test]
fn octree_iterator() {
    let mut tree = Octree::new(8, Some(Voxel::Empty));

    tree.set_voxel(OctreePosition(2, 5, 1), 0, Voxel::Stone).unwrap();

    let mut len = 0;
    let mut iter = tree.voxel_iterator();
    while let Some((voxel, pos, _size)) = iter.next() {
        len += 1;
        println!("{:?}", (voxel, pos, _size));
        if voxel == Voxel::Stone {
            assert_eq!(pos, OctreePosition(2, 5, 1));
        }
    }

    assert_eq!(len, 7 * 7 + 8);
}

#[test]
fn octree_set_errors() {
    let mut tree = Octree::new(3, Some(Voxel::Empty));

    assert_eq!(
        tree.set_voxel(OctreePosition(0, 0, 0), 4, Voxel::Stone),
        Err(OctreeError::SizeLargerThanOctree)
    );
    assert!(matches!(
        tree.get_cube(OctreePosition(0, 0, 0), 4),
        Err(OctreeError::SizeLargerThanOctree)
    ));

    let mut smallest = Octree::new(0, Some(Voxel::Dirt));
    assert_eq!(smallest.split(), Err(OctreeError::TooSmallToBeSplit));

    tree.split().unwrap();
    assert_eq!(tree.split(), Err(OctreeError::NotAVoxel));
}

#[test]
fn octree_optimize_merges() {
    let mut tree = Octree::new(4, Some(Voxel::Empty));

    // Refine one cell, then undo it: after optimize the tree is one leaf.
    tree.set_voxel(OctreePosition(3, 9, 2), 0, Voxel::Stone).unwrap();
    tree.set_voxel(OctreePosition(3, 9, 2), 0, Voxel::Empty).unwrap();
    tree.optimize();
    assert_eq!(tree.content, OctreeContent::Voxel(Voxel::Empty));
}

#[test]
fn octree_optimize_idempotent() {
    let mut tree = Octree::new(3, Some(Voxel::Empty));
    tree.set_voxel(OctreePosition(1, 2, 3), 0, Voxel::Stone).unwrap();
    tree.set_voxel(OctreePosition(4, 4, 4), 1, Voxel::Dirt).unwrap();

    tree.optimize();
    let once = tree.clone();
    tree.optimize();
    assert_eq!(once, tree);

    // Values survive both passes.
    assert_eq!(tree.get_voxel(OctreePosition(1, 2, 3)), Voxel::Stone);
    assert_eq!(tree.get_voxel(OctreePosition(5, 5, 5)), Voxel::Dirt);
    assert_eq!(tree.get_voxel(OctreePosition(0, 0, 0)), Voxel::Empty);
}

#[test]
fn octree_set_region_round_trip() {
    let mut tree = Octree::new(6, Some(Voxel::Empty));

    // Writing a whole size-2 cube makes every cell inside read back the
    // value and leaves the outside untouched.
    tree.set_voxel(OctreePosition(8, 4, 12), 2, Voxel::Dirt).unwrap();
    assert_eq!(tree.get_voxel(OctreePosition(8, 4, 12)), Voxel::Dirt);
    assert_eq!(tree.get_voxel(OctreePosition(11, 7, 15)), Voxel::Dirt);
    assert_eq!(tree.get_voxel(OctreePosition(9, 5, 13)), Voxel::Dirt);
    assert_eq!(tree.get_voxel(OctreePosition(7, 4, 12)), Voxel::Empty);
    assert_eq!(tree.get_voxel(OctreePosition(8, 8, 12)), Voxel::Empty);
    assert_eq!(tree.get_voxel(OctreePosition(12, 4, 16)), Voxel::Empty);
}

#[test]
fn octree_cart_size() {
    let tree = Octree::new(10, None);
    assert_eq!(tree.cart_size(), 1024);
    assert_eq!(Octree::octree_size_to_cartestian(0), 1);
    assert_eq!(Octree::octree_size_to_cartestian(63), 1u64 << 63);
}

#[test]
fn octree_get_cube_mut() {
    let mut tree = Octree::new(3, Some(Voxel::Empty));
    tree.set_voxel(OctreePosition(0, 0, 0), 0, Voxel::Stone).unwrap();

    // Descending towards (4,4,4) stops at the homogeneous size-2 leaf
    // that covers its whole octant; rewrite that cube wholesale.
    {
        let cube = tree.get_cube_mut(OctreePosition(4, 4, 4), 1).unwrap();
        assert_eq!(cube.size, 2);
        cube.content = OctreeContent::Voxel(Voxel::Dirt);
    }
    assert_eq!(tree.get_voxel(OctreePosition(4, 4, 4)), Voxel::Dirt);
    assert_eq!(tree.get_voxel(OctreePosition(7, 7, 7)), Voxel::Dirt);
    // Positions outside the borrowed cube kept their voxels.
    assert_eq!(tree.get_voxel(OctreePosition(0, 0, 0)), Voxel::Stone);
    assert_eq!(tree.get_voxel(OctreePosition(1, 0, 0)), Voxel::Empty);
    assert_eq!(tree.get_voxel(OctreePosition(4, 4, 3)), Voxel::Empty);

    assert!(matches!(
        tree.get_cube_mut(OctreePosition(0, 0, 0), 9),
        Err(OctreeError::SizeLargerThanOctree)
    ));
}
