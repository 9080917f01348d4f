use copc_writer::scalar::{
    greater_or_equal, is_normal, less_than, magnitude_of, LARGEST_BITS, LOWEST_BITS,
};
use copc_writer::{bounds_contains_point, octant_of, split_bounds, Bounds, Position, VoxelKey};

const SAMPLES: [f64; 16] = [
    0.0,
    -0.0,
    1.0,
    -1.0,
    1.5,
    f64::MIN_POSITIVE,
    -f64::MIN_POSITIVE,
    5e-324,
    -5e-324,
    f64::MAX,
    f64::MIN,
    f64::INFINITY,
    f64::NEG_INFINITY,
    f64::NAN,
    1e-310,
    -123.456,
];

fn at(x: f64, y: f64, z: f64) -> Position {
    Position { x: x.to_bits(), y: y.to_bits(), z: z.to_bits() }
}

#[test]
fn bit_patterns_are_ordered_as_the_numbers_are() {
    for a in SAMPLES {
        for b in SAMPLES {
            assert_eq!(less_than(a.to_bits(), b.to_bits()), a < b, "{a} < {b}");
            assert_eq!(greater_or_equal(a.to_bits(), b.to_bits()), a >= b, "{a} >= {b}");
        }
        assert_eq!(is_normal(a.to_bits()), a.is_normal(), "{a}");
        assert_eq!(magnitude_of(a.to_bits()), a.abs().to_bits(), "{a}");
    }
    assert_eq!(LARGEST_BITS, f64::MAX.to_bits());
    assert_eq!(LOWEST_BITS, f64::MIN.to_bits());
    assert!(is_normal((-1.0f64).to_bits()));
}

#[test]
fn the_faces_of_a_box_belong_to_it() {
    let cube = Bounds { min: at(0.0, 0.0, 0.0), max: at(2.0, 2.0, 2.0) };
    assert!(bounds_contains_point(&cube, &at(0.0, 2.0, 1.0)));
    assert!(bounds_contains_point(&cube, &at(-0.0, 0.0, 0.0)));
    assert!(!bounds_contains_point(&cube, &at(2.0000001, 1.0, 1.0)));
    assert!(!bounds_contains_point(&cube, &at(1.0, -0.1, 1.0)));
    assert!(!bounds_contains_point(&cube, &at(1.0, 1.0, 3.0)));
    // nothing compares with what is not a number
    assert!(bounds_contains_point(&cube, &at(f64::NAN, 1.0, 1.0)));
}

#[test]
fn octants_meet_at_the_center_bit_for_bit() {
    let cube = Bounds { min: at(0.0, 0.0, 0.0), max: at(1.0, 2.0, 4.0) };
    let center = at(0.3, 0.9, 2.5);
    assert_eq!(
        split_bounds(&cube, &center, 0),
        Bounds { min: at(0.0, 0.0, 0.0), max: at(0.3, 0.9, 2.5) },
    );
    assert_eq!(
        split_bounds(&cube, &center, 5),
        Bounds { min: at(0.3, 0.0, 2.5), max: at(1.0, 0.9, 4.0) },
    );
    assert_eq!(
        split_bounds(&cube, &center, 7),
        Bounds { min: at(0.3, 0.9, 2.5), max: at(1.0, 2.0, 4.0) },
    );
}

#[test]
fn a_point_is_in_the_octant_it_is_assigned_to() {
    let cube = Bounds { min: at(-1.0, -1.0, -1.0), max: at(1.0, 1.0, 1.0) };
    for center in [at(0.0, 0.0, 0.0), at(0.25, -0.5, 0.75), at(f64::NAN, 9.0, -9.0)] {
        for x in [-1.0, -0.5, 0.0, 0.25, 1.0] {
            for y in [-1.0, -0.5, 0.0, 1.0] {
                for z in [-1.0, 0.0, 0.75, 1.0] {
                    let p = at(x, y, z);
                    let dir = octant_of(&p, &center);
                    assert!(bounds_contains_point(&split_bounds(&cube, &center, dir), &p));
                }
            }
        }
    }
    // a coordinate on the center plane is on the upper side
    assert_eq!(octant_of(&at(0.0, 0.0, 0.0), &at(0.0, 0.0, 0.0)), 7);
    assert_eq!(octant_of(&at(1.0, -1.0, 1.0), &at(0.0, 0.0, 0.0)), 5);
}

#[test]
fn children_have_keys_of_the_next_level() {
    let root = VoxelKey { level: 0, x: 0, y: 0, z: 0 };
    let children = root.children();
    assert_eq!(children.len(), 8);
    assert_eq!(children[0], VoxelKey { level: 1, x: 0, y: 0, z: 0 });
    assert_eq!(children[3], VoxelKey { level: 1, x: 1, y: 1, z: 0 });
    assert_eq!(children[6], VoxelKey { level: 1, x: 0, y: 1, z: 1 });
    let key = VoxelKey { level: 4, x: 5, y: 9, z: 14 };
    assert_eq!(key.child(5), VoxelKey { level: 5, x: 11, y: 18, z: 29 });
    for (a, child) in key.children().into_iter().enumerate() {
        assert_eq!(key.child(a as i32), child);
        for (b, other) in key.children().into_iter().enumerate() {
            assert_eq!(a == b, child == other);
        }
    }
    // beyond 32 levels the highest bits are dropped
    let deep = VoxelKey { level: 40, x: i32::MAX, y: i32::MIN, z: -1 };
    assert_eq!(deep.child(1), VoxelKey { level: 41, x: -1, y: 0, z: -2 });
}

#[test]
fn a_key_is_read_back_from_its_number() {
    for key in [
        VoxelKey { level: 0, x: 0, y: 0, z: 0 },
        VoxelKey { level: 3, x: 1, y: 7, z: 2 },
        VoxelKey { level: -1, x: i32::MIN, y: i32::MAX, z: -5 },
    ] {
        assert_eq!(VoxelKey::from_code(key.to_code()), key);
    }
    assert_ne!(
        VoxelKey { level: 1, x: 0, y: 0, z: 1 }.to_code(),
        VoxelKey { level: 1, x: 0, y: 1, z: 0 }.to_code(),
    );
    assert_eq!(VoxelKey { level: i32::MIN, x: i32::MIN, y: i32::MIN, z: 3 }.to_code(), 0x8000_0003);
}

#[test]
fn octants_share_points_on_the_center_planes_only() {
    let cube = Bounds { min: at(-1.0, -1.0, -1.0), max: at(1.0, 1.0, 1.0) };
    let center = at(0.0, 0.25, -0.5);
    let holders = |p: &Position| {
        (0..8).filter(|dir| bounds_contains_point(&split_bounds(&cube, &center, *dir), p)).count()
    };
    assert_eq!(holders(&at(0.5, 0.5, 0.5)), 1);
    assert_eq!(holders(&at(0.0, 0.5, 0.5)), 2);
    assert_eq!(holders(&at(-0.0, 0.25, 0.5)), 4);
    assert_eq!(holders(&at(0.0, 0.25, -0.5)), 8);
    assert_eq!(holders(&at(1.5, 0.0, 0.0)), 0);
}
