use trackfwd::transform::{CoordsSystem, Quaternion, Transform, Vector3};

fn bits_of(pose: [[f32; 4]; 3]) -> [[u32; 4]; 3] {
    let mut out = [[0u32; 4]; 3];
    for i in 0..3 {
        for j in 0..4 {
            out[i][j] = pose[i][j].to_bits();
        }
    }
    out
}

fn quarter_turn() -> [[u32; 4]; 3] {
    bits_of([
        [0.0, 0.0, 1.0, 0.0],
        [0.0, 1.0, 0.0, 1.0],
        [-1.0, 0.0, 0.0, 0.0],
    ])
}

fn identity_at(px: f32, py: f32, pz: f32) -> [[u32; 4]; 3] {
    bits_of([
        [1.0, 0.0, 0.0, px],
        [0.0, 1.0, 0.0, py],
        [0.0, 0.0, 1.0, pz],
    ])
}

fn num(bits: u32) -> f32 {
    f32::from_bits(bits)
}

#[test]
fn test_default_pose_matrix() {
    let coords_system = None;
    let transform = Transform::from_pose_matrix(&quarter_turn(), &coords_system);
    assert_eq!(num(transform.rotation.x), 0.0);
    assert_eq!(num(transform.rotation.y), 0.70710677);
    assert_eq!(num(transform.rotation.z), 0.0);
    assert_eq!(num(transform.rotation.w), 0.70710677);
    assert_eq!(num(transform.position.x), 0.0);
    assert_eq!(num(transform.position.y), 1.0);
    assert_eq!(num(transform.position.z), 0.0);
}

#[test]
fn test_unreal_pose_matrix() {
    let coords_system = Some(CoordsSystem::Unreal);
    let transform = Transform::from_pose_matrix(&quarter_turn(), &coords_system);
    assert_eq!(num(transform.rotation.x), 0.0);
    assert_eq!(num(transform.rotation.y), 0.0);
    assert_eq!(num(transform.rotation.z), -0.70710677);
    assert_eq!(num(transform.rotation.w), 0.70710677);
    assert_eq!(num(transform.position.x), 0.0);
    assert_eq!(num(transform.position.y), 0.0);
    assert_eq!(num(transform.position.z), 100.0);
}

#[test]
fn test_unity_pose_matrix() {
    let coords_system = Some(CoordsSystem::Unity);
    let transform = Transform::from_pose_matrix(&quarter_turn(), &coords_system);
    assert_eq!(num(transform.rotation.x), 0.0);
    assert_eq!(num(transform.rotation.y), 0.70710677);
    assert_eq!(num(transform.rotation.z), 0.0);
    assert_eq!(num(transform.rotation.w), -0.70710677);
    assert_eq!(num(transform.position.x), 0.0);
    assert_eq!(num(transform.position.y), 1.0);
    assert_eq!(num(transform.position.z), 0.0);
}

#[test]
fn test_blender_pose_matrix() {
    let coords_system = Some(CoordsSystem::Blender);
    let transform = Transform::from_pose_matrix(&quarter_turn(), &coords_system);
    assert_eq!(num(transform.rotation.x), 0.0);
    assert_eq!(num(transform.rotation.y), 0.0);
    assert_eq!(num(transform.rotation.z), 0.70710677);
    assert_eq!(num(transform.rotation.w), 0.70710677);
    assert_eq!(num(transform.position.x), 0.0);
    assert_eq!(num(transform.position.y), 0.0);
    assert_eq!(num(transform.position.z), 1.0);
}

#[test]
fn quarter_turn_exact_bits() {
    let t = Transform::from_pose_matrix(&quarter_turn(), &Some(CoordsSystem::Native));
    assert_eq!(t.rotation.x, 0x0000_0000);
    assert_eq!(t.rotation.y, 0x3f35_04f3);
    assert_eq!(t.rotation.z, 0x0000_0000);
    assert_eq!(t.rotation.w, 0x3f35_04f3);
    assert_eq!(t.position.y, 0x3f80_0000);
    let u = Transform::from_pose_matrix(&quarter_turn(), &Some(CoordsSystem::Unity));
    assert_eq!(u.rotation.w, 0xbf35_04f3);
    let v = Transform::from_pose_matrix(&quarter_turn(), &Some(CoordsSystem::Unreal));
    assert_eq!(v.rotation.z, 0xbf35_04f3);
    assert_eq!(v.position.z, 0x42c8_0000);
}

#[test]
fn explicit_native_is_the_default() {
    let a = Transform::from_pose_matrix(&quarter_turn(), &None);
    let b = Transform::from_pose_matrix(&quarter_turn(), &Some(CoordsSystem::Native));
    assert_eq!(a.rotation.x, b.rotation.x);
    assert_eq!(a.rotation.y, b.rotation.y);
    assert_eq!(a.rotation.z, b.rotation.z);
    assert_eq!(a.rotation.w, b.rotation.w);
    assert_eq!(a.position.x, b.position.x);
    assert_eq!(a.position.y, b.position.y);
    assert_eq!(a.position.z, b.position.z);
    assert_eq!(CoordsSystem::default(), CoordsSystem::Native);
}

#[test]
fn identity_rotation_in_every_system() {
    let pose = identity_at(0.25, -3.0, 7.5);
    for coords in [
        None,
        Some(CoordsSystem::Native),
        Some(CoordsSystem::Blender),
        Some(CoordsSystem::Unity),
        Some(CoordsSystem::Unreal),
    ] {
        let q = Quaternion::from_pose_matrix(&pose, &coords);
        assert_eq!(num(q.x), 0.0);
        assert_eq!(num(q.y), 0.0);
        assert_eq!(num(q.z), 0.0);
        if coords == Some(CoordsSystem::Unity) {
            assert_eq!(num(q.w), -1.0);
        } else {
            assert_eq!(num(q.w), 1.0);
        }
    }
}

#[test]
fn zero_translation_is_a_position() {
    let pose = identity_at(0.0, 0.0, 0.0);
    for coords in [None, Some(CoordsSystem::Blender), Some(CoordsSystem::Unity), Some(CoordsSystem::Unreal)] {
        let p = Vector3::from_pose_matrix(&pose, &coords);
        assert_eq!(num(p.x), 0.0);
        assert_eq!(num(p.y), 0.0);
        assert_eq!(num(p.z), 0.0);
    }
}

#[test]
fn position_table() {
    let pose = identity_at(1.5, -2.25, 0.001);
    let n = Vector3::from_pose_matrix(&pose, &None);
    assert_eq!((num(n.x), num(n.y), num(n.z)), (1.5, -2.25, 0.001));
    let b = Vector3::from_pose_matrix(&pose, &Some(CoordsSystem::Blender));
    assert_eq!((num(b.x), num(b.y), num(b.z)), (1.5, 0.001, -2.25));
    let u = Vector3::from_pose_matrix(&pose, &Some(CoordsSystem::Unity));
    assert_eq!((num(u.x), num(u.y), num(u.z)), (0.001, -2.25, 1.5));
    let e = Vector3::from_pose_matrix(&pose, &Some(CoordsSystem::Unreal));
    assert_eq!((num(e.x), num(e.y), num(e.z)), (0.001 * 100.0, 1.5 * 100.0, -2.25 * 100.0));
    assert_eq!(num(e.y), 150.0);
    assert_eq!(num(e.z), -225.0);
}

#[test]
fn rotation_table() {
    let q = Quaternion { x: 1.0f32.to_bits(), y: 2.0f32.to_bits(), z: 3.0f32.to_bits(), w: 4.0f32.to_bits() };
    let n = q.remap(&None);
    assert_eq!((num(n.x), num(n.y), num(n.z), num(n.w)), (1.0, 2.0, 3.0, 4.0));
    let b = q.remap(&Some(CoordsSystem::Blender));
    assert_eq!((num(b.x), num(b.y), num(b.z), num(b.w)), (1.0, 3.0, 2.0, 4.0));
    let u = q.remap(&Some(CoordsSystem::Unity));
    assert_eq!((num(u.x), num(u.y), num(u.z), num(u.w)), (3.0, 2.0, 1.0, -4.0));
    let e = q.remap(&Some(CoordsSystem::Unreal));
    assert_eq!((num(e.x), num(e.y), num(e.z), num(e.w)), (1.0, 3.0, -2.0, 4.0));
}

#[test]
fn remap_after_native_is_direct() {
    let pose = bits_of([
        [0.36, 0.48, -0.8, 0.1],
        [-0.8, 0.6, 0.0, 0.2],
        [0.48, 0.64, 0.6, 0.3],
    ]);
    for coords in [None, Some(CoordsSystem::Blender), Some(CoordsSystem::Unity), Some(CoordsSystem::Unreal)] {
        let direct = Transform::from_pose_matrix(&pose, &coords);
        let native = Transform::from_pose_matrix(&pose, &None);
        let q = native.rotation.remap(&coords);
        let p = native.position.remap(&coords);
        assert_eq!((direct.rotation.x, direct.rotation.y, direct.rotation.z, direct.rotation.w), (q.x, q.y, q.z, q.w));
        assert_eq!((direct.position.x, direct.position.y, direct.position.z), (p.x, p.y, p.z));
    }
}

#[test]
fn new_is_all_zero() {
    let t = Transform::new();
    assert_eq!((t.rotation.x, t.rotation.y, t.rotation.z, t.rotation.w), (0, 0, 0, 0));
    assert_eq!((t.position.x, t.position.y, t.position.z), (0, 0, 0));
    let q = Quaternion::new();
    assert_eq!((q.x, q.y, q.z, q.w), (0, 0, 0, 0));
    let p = Vector3::new();
    assert_eq!((p.x, p.y, p.z), (0, 0, 0));
}

fn rotation_about(axis: [f32; 3], angle: f32) -> [[f32; 4]; 3] {
    let len = (axis[0] * axis[0] + axis[1] * axis[1] + axis[2] * axis[2]).sqrt();
    let (x, y, z) = (axis[0] / len, axis[1] / len, axis[2] / len);
    let (s, c) = angle.sin_cos();
    let t = 1.0 - c;
    [
        [t * x * x + c, t * x * y - s * z, t * x * z + s * y, 0.5],
        [t * x * y + s * z, t * y * y + c, t * y * z - s * x, -1.0],
        [t * x * z - s * y, t * y * z + s * x, t * z * z + c, 2.0],
    ]
}

#[test]
fn unit_norm_for_rotations() {
    let axes = [[1.0, 0.0, 0.0], [0.0, 1.0, 0.0], [0.0, 0.0, 1.0], [1.0, 2.0, 3.0], [-1.0, 0.5, 0.25], [0.3, -0.7, 0.1]];
    for axis in axes {
        for step in 0..64 {
            let angle = step as f32 * 0.1 - 3.1;
            let pose = bits_of(rotation_about(axis, angle));
            for coords in [None, Some(CoordsSystem::Blender), Some(CoordsSystem::Unity), Some(CoordsSystem::Unreal)] {
                let q = Quaternion::from_pose_matrix(&pose, &coords);
                let (x, y, z, w) = (num(q.x), num(q.y), num(q.z), num(q.w));
                let norm = (x * x + y * y + z * z + w * w).sqrt();
                assert!((norm - 1.0).abs() < 1e-3, "norm {} for axis {:?} angle {}", norm, axis, angle);
            }
        }
    }
}
