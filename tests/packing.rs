use planet_gen::packed_vec3::{XY_LIMIT, Z_LIMIT};
use planet_gen::PackedVec3;

const SCALE: f64 = 16384.0;

fn to_fixed(v: f64) -> i64 {
    let int = v.floor();
    int as i64 * 16384 + ((v - int) * SCALE) as i64
}

fn encode(v: [f64; 3]) -> Option<PackedVec3> {
    PackedVec3::from_fixed(to_fixed(v[0]), to_fixed(v[1]), to_fixed(v[2]))
}

fn decode(p: &PackedVec3) -> [f64; 3] {
    let (x, y, z) = p.to_fixed();
    [x as f64 / SCALE, y as f64 / SCALE, z as f64 / SCALE]
}

#[test]
fn fixed_point_round_trip_is_exact() {
    let samples = [
        (0, 0, 0),
        (1, 2, 3),
        (-1, -2, -3),
        (XY_LIMIT - 1, XY_LIMIT - 1, Z_LIMIT - 1),
        (-XY_LIMIT, -XY_LIMIT, -Z_LIMIT),
        (-XY_LIMIT, XY_LIMIT - 1, -1),
        (16384, -16384, 8192),
    ];
    for (x, y, z) in samples {
        let p = PackedVec3::from_fixed(x, y, z).unwrap();
        assert_eq!(p.to_fixed(), (x, y, z));
    }
}

#[test]
fn packing_lays_out_x_y_z_from_the_top() {
    let p = PackedVec3::from_fixed(1, 2, 3).unwrap();
    assert_eq!(p.to_bits(), (1u128 << 85) | (2u128 << 42) | 3);
    let n = PackedVec3::from_fixed(-1, 0, 0).unwrap();
    assert_eq!(n.to_bits(), ((1u128 << 43) - 1) << 85);
    let z = PackedVec3::from_fixed(0, 0, -1).unwrap();
    assert_eq!(z.to_bits(), (1u128 << 42) - 1);
}

#[test]
fn out_of_range_coordinates_are_rejected() {
    assert!(PackedVec3::from_fixed(XY_LIMIT, 0, 0).is_none());
    assert!(PackedVec3::from_fixed(0, -XY_LIMIT - 1, 0).is_none());
    assert!(PackedVec3::from_fixed(0, 0, Z_LIMIT).is_none());
    assert!(PackedVec3::from_fixed(0, 0, -Z_LIMIT - 1).is_none());
    assert!(PackedVec3::from_fixed(i64::MIN, 0, 0).is_none());
    assert!(PackedVec3::from_fixed(0, 0, Z_LIMIT - 1).is_some());
}

#[test]
fn lanes_split_the_word_least_significant_first() {
    let p = PackedVec3::from_fixed(1, 2, 3).unwrap();
    let bits = p.to_bits();
    assert_eq!(
        p.lanes(),
        [bits as u32, (bits >> 32) as u32, (bits >> 64) as u32, (bits >> 96) as u32]
    );
    assert_eq!(p.lanes()[0], 3);
    assert_eq!(p.lanes()[1], 2 << 10);
    assert_eq!(p.lanes()[2], 1 << 21);
    assert_eq!(p.lanes()[3], 0);
}

#[test]
fn decode_of_encode_is_within_one_step() {
    let step = 1.0 / SCALE;
    let limit_xy = (XY_LIMIT as f64) / SCALE;
    let limit_z = (Z_LIMIT as f64) / SCALE;
    let values = [0.0, 0.5, -0.5, 1.0, -1.0, 0.123456789, -0.987654321, 3.75, -1234.5678];
    for &x in &values {
        for &y in &values {
            for &z in &values {
                let v = [x, y, z];
                let d = decode(&encode(v).unwrap());
                for i in 0..3 {
                    assert!((d[i] - v[i]).abs() <= step, "{:?} -> {:?}", v, d);
                }
            }
        }
    }
    let edges = [
        [limit_xy - 1.0, -limit_xy + 1.0, limit_z - 1.0],
        [-limit_xy, limit_xy - step, -limit_z],
    ];
    for v in edges {
        let d = decode(&encode(v).unwrap());
        for i in 0..3 {
            assert!((d[i] - v[i]).abs() <= step, "{:?} -> {:?}", v, d);
        }
    }
    assert!(encode([limit_xy, 0.0, 0.0]).is_none());
    assert!(encode([0.0, 0.0, limit_z]).is_none());
}
