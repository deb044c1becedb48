use voxel_world::octree::{Octree, OctreeContent, Voxel};
use voxel_world::position::OctreePosition;

#[test]
fn res_high_map_generatrion() {
    let heigh_map: Vec<Vec<i128>> = vec![
        vec![0, 0, 1, 2, 2, 2, 2, 2],
        vec![1, 0, 2, 0, 1, 1, 1, 3],
        vec![2, 2, 2, 1, 3, 4, 2, 5],
        vec![0, 1, 1, 1, 1, 0, 1, 4],
        vec![0, 1, 2, 0, 0, 0, -1, 2],
        vec![3, 2, 2, 2, 1, 0, 2, 0],
        vec![1, 1, 1, 1, 1, 1, 1, 1],
        vec![2, 3, 2, 1, 0, 1, 3, 4],
    ];

    let (lowest_point_res, highest_point_res) =
        Octree::generate_res_high_maps(heigh_map.clone(), 3);

    println!("Highest point: {highest_point_res:?}");
    assert_eq!(
        highest_point_res,
        vec![
            heigh_map.clone(),
            vec![
                vec![1, 2, 2, 3],
                vec![2, 2, 4, 5],
                vec![3, 2, 1, 2],
                vec![3, 2, 1, 4]
            ],
            vec![vec![2, 5], vec![3, 4],],
            vec![vec![5]]
        ]
    );

    println!("Lowest point: {lowest_point_res:?}");
    assert_eq!(
        lowest_point_res,
        vec![
            heigh_map.clone(),
            vec![
                vec![0, 0, 1, 1],
                vec![0, 1, 0, 1],
                vec![0, 0, 0, -1],
                vec![1, 1, 0, 1]
            ],
            vec![vec![0, 0], vec![0, -1],],
            vec![vec![-1]]
        ]
    );
}

#[test]
fn res_hight_map_application_chunk_too_high() {
    let mut tree = Octree::new(8, None);

    let heigh_map: Vec<Vec<i128>> = vec![
        vec![0, 0, 0, 0],
        vec![0, 0, 0, 0],
        vec![0, 0, 0, 0],
        vec![0, 0, 0, 0],
    ];

    let (lowest_point_res, highest_point_res) = Octree::generate_res_high_maps(heigh_map, 2);

    tree.apply_res_heigh_map(6, OctreePosition(0, 0, 0), &highest_point_res, &lowest_point_res);

    match tree.content {
        OctreeContent::Childs(_) => panic!(),
        OctreeContent::Voxel(voxel) => assert_eq!(voxel, Voxel::Empty),
    }
}

#[test]
fn res_hight_map_application_chunk_under_ground() {
    let mut tree = Octree::new(8, None);

    let heigh_map: Vec<Vec<i128>> = vec![
        vec![4, 4, 4, 4],
        vec![4, 4, 4, 4],
        vec![4, 4, 4, 4],
        vec![4, 4, 4, 4],
    ];

    let (lowest_point_res, highest_point_res) =
        Octree::generate_res_high_maps(heigh_map.clone(), 2);

    tree.apply_res_heigh_map(6, OctreePosition(0, 0, 0), &highest_point_res, &lowest_point_res);

    match tree.content {
        OctreeContent::Childs(_) => panic!(),
        OctreeContent::Voxel(voxel) => assert_ne!(voxel, Voxel::Empty),
    }
}

#[test]
fn res_hight_map_application() {
    let mut test_tree = Octree::new(8, None);

    let heigh_map: Vec<Vec<i128>> = vec![vec![1, 2], vec![0, 0]];

    let (lowest_point_res, highest_point_res) =
        Octree::generate_res_high_maps(heigh_map.clone(), 1);

    test_tree.apply_res_heigh_map(
        7,
        OctreePosition(0, 0, 0),
        &lowest_point_res,
        &highest_point_res,
    );

    let result_tree = Octree {
        size: 8,
        content: OctreeContent::Childs(vec![
            Octree { size: 7, content: OctreeContent::Voxel(Voxel::Stone) },
            Octree { size: 7, content: OctreeContent::Voxel(Voxel::Empty) },
            Octree { size: 7, content: OctreeContent::Voxel(Voxel::Empty) },
            Octree { size: 7, content: OctreeContent::Voxel(Voxel::Empty) },
            Octree { size: 7, content: OctreeContent::Voxel(Voxel::Stone) },
            Octree { size: 7, content: OctreeContent::Voxel(Voxel::Empty) },
            Octree { size: 7, content: OctreeContent::Voxel(Voxel::Stone) },
            Octree { size: 7, content: OctreeContent::Voxel(Voxel::Empty) },
        ]),
    };

    assert_eq!(result_tree, test_tree);
}

#[test]
fn fill_straddling_chunk_splits() {
    let mut tree = Octree::new(4, None);

    // Two blocks below the surface, the rest above: the root must split.
    let heigh_map: Vec<Vec<i128>> = vec![
        vec![2, 0, 0, 0],
        vec![2, 0, 0, 0],
        vec![0, 0, 0, 0],
        vec![0, 0, 0, 0],
    ];

    tree.fill_with_heigh_map(heigh_map, 2);

    assert!(matches!(tree.content, OctreeContent::Childs(_)));
    // The straddling columns are solid at the bottom and empty on top.
    assert_eq!(tree.get_voxel(OctreePosition(0, 0, 0)), Voxel::Stone);
    assert_eq!(tree.get_voxel(OctreePosition(0, 15, 0)), Voxel::Empty);
    assert_eq!(tree.get_voxel(OctreePosition(15, 0, 15)), Voxel::Empty);
}

#[test]
fn fill_flat_world_boundaries() {
    // Entirely above the surface: one empty leaf at the root.
    let mut sky = Octree::new(3, None);
    sky.fill_with_heigh_map(vec![vec![0, 0], vec![0, 0]], 2);
    assert_eq!(sky.content, OctreeContent::Voxel(Voxel::Empty));

    // Entirely below the surface: one stone leaf at the root.
    let mut ground = Octree::new(3, None);
    ground.fill_with_heigh_map(vec![vec![2, 2], vec![2, 2]], 2);
    assert_eq!(ground.content, OctreeContent::Voxel(Voxel::Stone));
}
