//! The numeric evaluation of stored transforms: composition chains and
//! interpolation, exercised on the same arithmetic the plan evaluation in
//! the other test files uses.

use tf_buffer::{Quaternion, Transform, Vector3};

fn bits(v: f64) -> u64 {
    v.to_bits()
}

fn tf_parts(x: f64, y: f64, z: f64, qx: f64, qy: f64, qz: f64, qw: f64) -> Transform {
    Transform {
        translation: Vector3 { x: bits(x), y: bits(y), z: bits(z) },
        rotation: Quaternion { x: bits(qx), y: bits(qy), z: bits(qz), w: bits(qw) },
    }
}

fn iso_of(t: &Transform) -> nalgebra::Isometry3<f64> {
    let trans = nalgebra::Translation3::new(
        f64::from_bits(t.translation.x),
        f64::from_bits(t.translation.y),
        f64::from_bits(t.translation.z),
    );
    let rot = nalgebra::UnitQuaternion::new_normalize(nalgebra::Quaternion::new(
        f64::from_bits(t.rotation.w),
        f64::from_bits(t.rotation.x),
        f64::from_bits(t.rotation.y),
        f64::from_bits(t.rotation.z),
    ));
    nalgebra::Isometry3::from_parts(trans, rot)
}

fn iso_to_transform(iso: &nalgebra::Isometry3<f64>) -> Transform {
    tf_parts(
        iso.translation.x,
        iso.translation.y,
        iso.translation.z,
        iso.rotation.i,
        iso.rotation.j,
        iso.rotation.k,
        iso.rotation.w,
    )
}

/// Left-fold composition from the identity.
fn chain_transforms(transforms: &[Transform]) -> Transform {
    let mut final_transform = nalgebra::Isometry3::identity();
    for t in transforms {
        final_transform *= iso_of(t);
    }
    iso_to_transform(&final_transform)
}

/// Interpolate with weight `w`: `w = 1` yields `t1`, `w = 0` yields `t2`;
/// affine translation, shortest-arc rotation, nearer endpoint's rotation
/// when the rotations are too near antipodal to interpolate safely.
fn interpolate(t1: &Transform, t2: &Transform, w: f64) -> Transform {
    let tx = f64::from_bits(t1.translation.x) * w + f64::from_bits(t2.translation.x) * (1.0 - w);
    let ty = f64::from_bits(t1.translation.y) * w + f64::from_bits(t2.translation.y) * (1.0 - w);
    let tz = f64::from_bits(t1.translation.z) * w + f64::from_bits(t2.translation.z) * (1.0 - w);
    let r1 = nalgebra::UnitQuaternion::new_normalize(nalgebra::Quaternion::new(
        f64::from_bits(t1.rotation.w),
        f64::from_bits(t1.rotation.x),
        f64::from_bits(t1.rotation.y),
        f64::from_bits(t1.rotation.z),
    ));
    let r2 = nalgebra::UnitQuaternion::new_normalize(nalgebra::Quaternion::new(
        f64::from_bits(t2.rotation.w),
        f64::from_bits(t2.rotation.x),
        f64::from_bits(t2.rotation.y),
        f64::from_bits(t2.rotation.z),
    ));
    let rot = match r1.try_slerp(&r2, 1.0 - w, 1e-9) {
        Some(q) => q,
        None => {
            if w > 0.5 {
                r1
            } else {
                r2
            }
        }
    };
    tf_parts(tx, ty, tz, rot.i, rot.j, rot.k, rot.w)
}

fn assert_tf_eq(a: &Transform, b: &Transform) {
    assert_eq!(f64::from_bits(a.translation.x), f64::from_bits(b.translation.x));
    assert_eq!(f64::from_bits(a.translation.y), f64::from_bits(b.translation.y));
    assert_eq!(f64::from_bits(a.translation.z), f64::from_bits(b.translation.z));
    assert_eq!(f64::from_bits(a.rotation.x), f64::from_bits(b.rotation.x));
    assert_eq!(f64::from_bits(a.rotation.y), f64::from_bits(b.rotation.y));
    assert_eq!(f64::from_bits(a.rotation.z), f64::from_bits(b.rotation.z));
    assert_eq!(f64::from_bits(a.rotation.w), f64::from_bits(b.rotation.w));
}

#[test]
fn test_basic_translation_chaining() {
    let tf1 = tf_parts(1.0, 1.0, 0.0, 0.0, 0.0, 0.0, 1.0);
    let expected_tf = tf_parts(2.0, 2.0, 0.0, 0.0, 0.0, 0.0, 1.0);
    let transform_chain = vec![tf1, tf1];
    let res = chain_transforms(&transform_chain);
    assert_tf_eq(&res, &expected_tf);
}

#[test]
fn test_basic_interpolation() {
    let tf1 = tf_parts(1.0, 1.0, 0.0, 0.0, 0.0, 0.0, 1.0);
    let tf2 = tf_parts(2.0, 2.0, 0.0, 0.0, 0.0, 0.0, 1.0);
    let expected = tf_parts(1.5, 1.5, 0.0, 0.0, 0.0, 0.0, 1.0);
    assert_tf_eq(&interpolate(&tf1, &tf2, 0.5), &expected);
}

/// Interpolating a transform with itself yields it back, whatever the
/// weight.
#[test]
fn test_interpolation_idempotent() {
    let tf = tf_parts(0.25, -3.5, 2.0, 0.0, 0.0, 0.0, 1.0);
    for w in [0.0, 0.125, 0.5, 0.875, 1.0] {
        assert_tf_eq(&interpolate(&tf, &tf, w), &tf);
    }
}

/// The weight endpoints are exact: weight one yields the first transform,
/// weight zero the second.
#[test]
fn test_interpolation_endpoints() {
    let tf1 = tf_parts(1.0, 2.0, 3.0, 0.0, 0.0, 0.0, 1.0);
    let tf2 = tf_parts(-4.0, 0.5, 8.0, 0.0, 0.0, 0.0, 1.0);
    assert_tf_eq(&interpolate(&tf1, &tf2, 1.0), &tf1);
    assert_tf_eq(&interpolate(&tf1, &tf2, 0.0), &tf2);
}
