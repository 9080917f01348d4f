use copc_writer::order::deepest_first;
use copc_writer::voxel::{max_voxel_level, voxel_scale, voxel_step, MAX_GRID};
use copc_writer::{
    voxel_cell, voxel_grid_size, Bounds, Occupancy, Octree, PlaceStep, Position, VoxelKey,
    VoxelNode, VoxelStep,
};

const ROOT: VoxelKey = VoxelKey { level: 0, x: 0, y: 0, z: 0 };

fn at(x: f64, y: f64, z: f64) -> Position {
    Position { x: x.to_bits(), y: y.to_bits(), z: z.to_bits() }
}

fn cube() -> Bounds {
    Bounds { min: at(0.0, 0.0, 0.0), max: at(8.0, 8.0, 8.0) }
}

#[test]
fn a_point_outside_is_in_no_node() {
    let mut tree = Octree::new(cube(), 77, 2);
    assert!(matches!(tree.place(&at(9.0, 1.0, 1.0)), PlaceStep::Outside));
    assert_eq!(tree.root_bounds(), cube());
}

#[test]
fn a_full_node_is_divided_once_and_then_takes_the_point() {
    let mut tree = Octree::new(cube(), 0, 2);
    let p = at(1.0, 1.0, 7.0);
    assert!(matches!(tree.place(&p), PlaceStep::Placed { key: ROOT, full: false }));
    assert!(matches!(tree.place(&p), PlaceStep::Placed { key: ROOT, full: true }));
    let node = match tree.place(&p) {
        PlaceStep::Divide { node, key, bounds } => {
            assert_eq!((key, bounds), (ROOT, cube()));
            node
        }
        other => panic!("{other:?}"),
    };
    tree.split(node, &at(4.0, 4.0, 4.0));
    let octant = VoxelKey { level: 1, x: 0, y: 0, z: 1 };
    match tree.place(&p) {
        PlaceStep::Placed { key, full } => assert_eq!((key, full), (octant, false)),
        other => panic!("{other:?}"),
    }
    // on a face between octants, the last one that contains the point takes it
    match tree.place(&at(4.0, 4.0, 4.0)) {
        PlaceStep::Placed { key, .. } => assert_eq!(key, VoxelKey { level: 1, x: 1, y: 1, z: 1 }),
        other => panic!("{other:?}"),
    }
    match tree.place(&p) {
        PlaceStep::Placed { key, full } => assert_eq!((key, full), (octant, true)),
        other => panic!("{other:?}"),
    }
    match tree.place(&p) {
        PlaceStep::Divide { key, bounds, .. } => {
            assert_eq!(key, octant);
            assert_eq!(bounds, Bounds { min: at(0.0, 0.0, 4.0), max: at(4.0, 4.0, 8.0) });
        }
        other => panic!("{other:?}"),
    }
}

#[test]
fn the_grid_follows_the_square_root_of_the_node_size() {
    for n in (1..3000).chain([16384, 46340 * 46340, 46340 * 46341, 46340 * 46341 + 1, i32::MAX]) {
        let expected = ((n as f64).sqrt().round() as i64).max(2);
        assert_eq!(voxel_grid_size(n), expected, "{n}");
    }
    assert_eq!(voxel_grid_size(1), 2);
    assert_eq!(voxel_grid_size(64), 8);
    assert_eq!(voxel_grid_size(16384), 128);
}

#[test]
fn cells_are_numbered_along_x_then_y_then_z() {
    assert_eq!(voxel_cell(0, 0, 0, 8), 0);
    assert_eq!(voxel_cell(3, 2, 1, 8), 3 + 2 * 8 + 64);
    // outside the grid, the outermost cells
    assert_eq!(voxel_cell(-5, 100, i64::MAX, 8), 7 * 8 + 7 * 64);
    assert_eq!(voxel_cell(i64::MIN, 0, 8, 8), 7 * 64);
    assert_eq!(
        voxel_cell(MAX_GRID, MAX_GRID, MAX_GRID, MAX_GRID),
        (MAX_GRID as u64).pow(3) - 1,
    );
    let mut seen = std::collections::HashSet::new();
    for x in 0..4 {
        for y in 0..4 {
            for z in 0..4 {
                assert!(seen.insert(voxel_cell(x, y, z, 4)));
            }
        }
    }
    assert_eq!(seen.len(), 64);
    assert!(seen.iter().all(|cell| *cell < 64));
}

#[test]
fn the_deepest_level_is_measured_and_capped() {
    let edge = 200.0f64.to_bits();
    let scale = 0.001f64.to_bits();
    assert_eq!(max_voxel_level(edge, scale, 18), 18);
    assert_eq!(max_voxel_level(edge, scale, 30), 24);
    assert_eq!(max_voxel_level(edge, scale, -3), 0);
    // without a usable edge or scale
    assert_eq!(max_voxel_level(0.0f64.to_bits(), scale, 5), 18);
    assert_eq!(max_voxel_level(f64::INFINITY.to_bits(), scale, 5), 18);
    assert_eq!(max_voxel_level(edge, f64::NAN.to_bits(), 5), 18);
    assert_eq!(max_voxel_level(edge, (-0.001f64).to_bits(), 5), 18);
}

#[test]
fn the_finest_scale_counts_whatever_its_sign() {
    let scale = voxel_scale(&at(0.01, -0.001, 0.1));
    assert_eq!(f64::from_bits(scale), 0.001);
    assert_eq!(f64::from_bits(voxel_scale(&at(f64::NAN, 3.0, 2.0))), 2.0);
}

#[test]
fn a_cell_is_claimed_once() {
    let mut occupancy = Occupancy::new();
    assert!(occupancy.claim(ROOT, 5));
    assert!(!occupancy.claim(ROOT, 5));
    assert!(occupancy.claim(ROOT, 6));
    assert!(occupancy.claim(VoxelKey { level: 1, ..ROOT }, 5));
}

#[test]
fn a_point_stays_where_its_cell_is_free_or_the_level_is_deepest() {
    let mut occupancy = Occupancy::new();
    let root = VoxelNode { key: ROOT, bounds: cube() };
    let p = at(5.0, 1.0, 5.0);
    let center = at(4.0, 4.0, 4.0);
    let step = voxel_step(&mut occupancy, &root, 3, &p, &center, 1);
    assert!(matches!(step, VoxelStep::Place { key: ROOT }));
    let next = match voxel_step(&mut occupancy, &root, 3, &p, &center, 1) {
        VoxelStep::Descend { node } => node,
        other => panic!("{other:?}"),
    };
    assert_eq!(next.key, VoxelKey { level: 1, x: 1, y: 0, z: 1 });
    assert_eq!(next.bounds, Bounds { min: at(4.0, 0.0, 4.0), max: at(8.0, 4.0, 8.0) });
    // the deepest level takes all
    for _ in 0..3 {
        match voxel_step(&mut occupancy, &next, 0, &p, &at(6.0, 2.0, 6.0), 1) {
            VoxelStep::Place { key } => assert_eq!(key, next.key),
            other => panic!("{other:?}"),
        }
    }
}

#[test]
fn keys_come_in_order_the_deepest_first() {
    let key = |level, x, y, z| VoxelKey { level, x, y, z };
    let keys = vec![key(1, 0, 0, 1), key(3, 0, 0, 0), ROOT, key(1, 1, 0, 0), key(3, 0, 0, 0)];
    assert_eq!(
        deepest_first(&keys),
        vec![key(3, 0, 0, 0), key(1, 1, 0, 0), key(1, 0, 0, 1), ROOT],
    );
    assert!(deepest_first(&vec![]).is_empty());
}

#[test]
fn a_node_encloses_its_octants() {
    let node = VoxelKey { level: 4, x: 3, y: 10, z: 15 };
    for dir in 0..8 {
        assert_eq!(node.child(dir).enclosing(), node);
    }
    let deepest = VoxelKey { level: 31, x: i32::MAX, y: 0, z: 1 };
    assert_eq!(deepest.enclosing(), VoxelKey { level: 30, x: 0x3fff_ffff, y: 0, z: 0 });
}
