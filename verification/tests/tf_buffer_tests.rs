//! Buffer behaviour: ingest, indices, retention, lookups and time travel.
//!
//! Lookup plans carry stored samples and integer weights; these tests
//! evaluate them numerically with nalgebra and check the resulting
//! translations and rotations.

use tf_buffer::plan::{StepValue, TransformPlan};
use tf_buffer::time::to_stamp;
use tf_buffer::{
    Duration, Header, Quaternion, TfBuffer, TfError, Time, Transform, TransformStamped, Vector3,
};

fn bits(v: f64) -> u64 {
    v.to_bits()
}

fn quat_bits(x: f64, y: f64, z: f64, w: f64) -> Quaternion {
    Quaternion { x: bits(x), y: bits(y), z: bits(z), w: bits(w) }
}

fn vec_bits(x: f64, y: f64, z: f64) -> Vector3 {
    Vector3 { x: bits(x), y: bits(y), z: bits(z) }
}

fn make_tfs(
    parent: &str,
    child: &str,
    secs: u32,
    nsecs: u32,
    x: f64,
    y: f64,
    z: f64,
) -> TransformStamped {
    TransformStamped {
        header: Header {
            seq: 1,
            stamp: Time { secs, nsecs },
            frame_id: parent.to_string(),
        },
        child_frame_id: child.to_string(),
        transform: Transform {
            translation: vec_bits(x, y, z),
            rotation: quat_bits(0.0, 0.0, 0.0, 1.0),
        },
    }
}

fn iso_of(t: &Transform) -> nalgebra::Isometry3<f64> {
    let trans = nalgebra::Translation3::new(
        f64::from_bits(t.translation.x),
        f64::from_bits(t.translation.y),
        f64::from_bits(t.translation.z),
    );
    let rot = nalgebra::UnitQuaternion::new_normalize(nalgebra::Quaternion::new(
        f64::from_bits(t.rotation.w),
        f64::from_bits(t.rotation.x),
        f64::from_bits(t.rotation.y),
        f64::from_bits(t.rotation.z),
    ));
    nalgebra::Isometry3::from_parts(trans, rot)
}

/// Interpolate with weight `w`: `w = 1` yields `t1`, `w = 0` yields `t2`.
fn interpolate_tf(t1: &Transform, t2: &Transform, w: f64) -> nalgebra::Isometry3<f64> {
    let tx = f64::from_bits(t1.translation.x) * w + f64::from_bits(t2.translation.x) * (1.0 - w);
    let ty = f64::from_bits(t1.translation.y) * w + f64::from_bits(t2.translation.y) * (1.0 - w);
    let tz = f64::from_bits(t1.translation.z) * w + f64::from_bits(t2.translation.z) * (1.0 - w);
    let r1 = nalgebra::UnitQuaternion::new_normalize(nalgebra::Quaternion::new(
        f64::from_bits(t1.rotation.w),
        f64::from_bits(t1.rotation.x),
        f64::from_bits(t1.rotation.y),
        f64::from_bits(t1.rotation.z),
    ));
    let r2 = nalgebra::UnitQuaternion::new_normalize(nalgebra::Quaternion::new(
        f64::from_bits(t2.rotation.w),
        f64::from_bits(t2.rotation.x),
        f64::from_bits(t2.rotation.y),
        f64::from_bits(t2.rotation.z),
    ));
    let rot = match r1.try_slerp(&r2, 1.0 - w, 1e-9) {
        Some(q) => q,
        None => {
            if w > 0.5 {
                r1
            } else {
                r2
            }
        }
    };
    nalgebra::Isometry3::from_parts(nalgebra::Translation3::new(tx, ty, tz), rot)
}

fn eval_plan(plan: &TransformPlan) -> nalgebra::Isometry3<f64> {
    let mut acc = nalgebra::Isometry3::identity();
    for step in &plan.steps {
        let hop = match &step.value {
            StepValue::Exact(t) => iso_of(t),
            StepValue::Blend { first, second, num, den } => {
                interpolate_tf(first, second, *num as f64 / *den as f64)
            }
        };
        let hop = if step.inverted { hop.inverse() } else { hop };
        acc *= hop;
    }
    acc
}

fn translation_of(plan: &TransformPlan) -> (f64, f64, f64) {
    let iso = eval_plan(plan);
    (iso.translation.x, iso.translation.y, iso.translation.z)
}

fn rotation_of(plan: &TransformPlan) -> (f64, f64, f64, f64) {
    let iso = eval_plan(plan);
    (iso.rotation.i, iso.rotation.j, iso.rotation.k, iso.rotation.w)
}

fn chain_len(buffer: &TfBuffer, parent: &str, child: &str) -> usize {
    buffer
        .get_edge_chain(parent, child)
        .expect("edge should exist")
        .transform_chain
        .len()
}

/// Build a tree: an `item` in the `world` at (1,0,0) (static), `base_link`
/// moving as (0,t,0) (dynamic), and a `camera` at (0.5,0,0) from
/// `base_link` (static).
fn build_test_tree(buffer: &mut TfBuffer, time: f64) {
    let secs = time.floor() as u32;
    let nsecs = ((time - time.floor()) * 1e9) as u32;
    let world_to_item = make_tfs("world", "item", secs, nsecs, 1.0, 0.0, 0.0);
    let _ = buffer.add_transform(&world_to_item, true);
    let world_to_base_link = make_tfs("world", "base_link", secs, nsecs, 0.0, time, 0.0);
    let _ = buffer.add_transform(&world_to_base_link, false);
    let base_link_to_camera = make_tfs("base_link", "camera", secs, nsecs, 0.5, 0.0, 0.0);
    let _ = buffer.add_transform(&base_link_to_camera, true);
}

#[test]
fn test_basic_tf_lookup() {
    let mut tf_buffer = TfBuffer::new();
    build_test_tree(&mut tf_buffer, 0.0);
    let res = tf_buffer.lookup_transform("camera", "item", None).unwrap();
    assert_eq!(res.frame_id, "camera");
    assert_eq!(res.child_frame_id, "item");
    assert_eq!(res.stamp, Time { secs: 0, nsecs: 0 });
    assert_eq!(translation_of(&res), (0.5, 0.0, 0.0));
    assert_eq!(rotation_of(&res), (0.0, 0.0, 0.0, 1.0));
}

#[test]
fn test_basic_tf_interpolation() {
    let mut tf_buffer = TfBuffer::new();
    build_test_tree(&mut tf_buffer, 0.0);
    build_test_tree(&mut tf_buffer, 1.0);
    let stamp = Time { secs: 0, nsecs: 700_000_000 };
    let res = tf_buffer.lookup_transform("camera", "item", Some(stamp)).unwrap();
    assert_eq!(res.frame_id, "camera");
    assert_eq!(res.child_frame_id, "item");
    assert_eq!(res.stamp, stamp);
    let (x, y, z) = translation_of(&res);
    assert_eq!(x, 0.5);
    assert!((y - -0.7).abs() < 1e-12, "y: {y}");
    assert_eq!(z, 0.0);
    assert_eq!(rotation_of(&res), (0.0, 0.0, 0.0, 1.0));
}

#[test]
fn test_basic_tf_time_travel() {
    let mut tf_buffer = TfBuffer::new();
    build_test_tree(&mut tf_buffer, 0.0);
    build_test_tree(&mut tf_buffer, 1.0);
    let res = tf_buffer
        .lookup_transform_with_time_travel(
            "camera",
            Time { secs: 0, nsecs: 400_000_000 },
            "camera",
            Time { secs: 0, nsecs: 700_000_000 },
            "item",
        )
        .unwrap();
    assert_eq!(res.frame_id, "camera");
    assert_eq!(res.child_frame_id, "camera");
    assert_eq!(res.stamp, Time { secs: 0, nsecs: 700_000_000 });
    let (x, y, z) = translation_of(&res);
    assert!(x.abs() < 1e-9);
    assert!((y - 0.3).abs() < 1e-9, "y: {y}");
    assert!(z.abs() < 1e-9);
    let (qx, qy, qz, qw) = rotation_of(&res);
    assert!(qx.abs() < 1e-9 && qy.abs() < 1e-9 && qz.abs() < 1e-9);
    assert!((qw - 1.0).abs() < 1e-9);
}

#[test]
fn test_add_transform() {
    const PARENT: &str = "parent";
    const CHILD0: &str = "child0";
    const CHILD1: &str = "child1";

    let mut tf_buffer = TfBuffer::new();
    let transform00 = make_tfs(PARENT, CHILD0, 1, 0, 0.0, 0.0, 0.0);
    let transform01 = make_tfs(PARENT, CHILD0, 2, 0, 0.0, 0.0, 0.0);
    let transform10 = make_tfs(PARENT, CHILD1, 3, 0, 0.0, 0.0, 0.0);
    let transform11 = make_tfs(PARENT, CHILD1, 4, 0, 0.0, 0.0, 0.0);

    let is_static = false;
    assert!(tf_buffer.add_transform(&transform00, is_static).is_ok());
    assert_eq!(tf_buffer.child_transform_index.len(), 1);
    assert_eq!(tf_buffer.child_transform_index[0].0, PARENT);
    let children = &tf_buffer.child_transform_index[0].1;
    assert_eq!(children.len(), 1);
    assert!(children.contains(&CHILD0.to_string()));
    assert_eq!(tf_buffer.transform_data.len(), 1);
    assert!(tf_buffer.get_edge_chain(PARENT, CHILD0).is_some());
    assert_eq!(chain_len(&tf_buffer, PARENT, CHILD0), 1);

    assert!(tf_buffer.add_transform(&transform01, is_static).is_ok());
    assert_eq!(tf_buffer.child_transform_index.len(), 1);
    let children = &tf_buffer.child_transform_index[0].1;
    assert_eq!(children.len(), 1);
    assert!(children.contains(&CHILD0.to_string()));
    assert_eq!(tf_buffer.transform_data.len(), 1);
    assert_eq!(chain_len(&tf_buffer, PARENT, CHILD0), 2);

    // A static chain keeps a single entry: the latest overwrites the
    // earlier one, whatever the stamps say.
    let is_static = true;
    assert!(tf_buffer.add_transform(&transform10, is_static).is_ok());
    assert!(tf_buffer.add_transform(&transform11, is_static).is_ok());
    assert_eq!(tf_buffer.child_transform_index.len(), 1);
    let children = &tf_buffer.child_transform_index[0].1;
    assert_eq!(children.len(), 2);
    assert!(children.contains(&CHILD0.to_string()));
    assert!(children.contains(&CHILD1.to_string()));
    assert_eq!(tf_buffer.transform_data.len(), 2);
    assert!(tf_buffer.get_edge_chain(PARENT, CHILD0).is_some());
    assert!(tf_buffer.get_edge_chain(PARENT, CHILD1).is_some());
    assert_eq!(chain_len(&tf_buffer, PARENT, CHILD0), 2);
    assert_eq!(chain_len(&tf_buffer, PARENT, CHILD1), 1);
}

#[test]
fn test_cache_duration() {
    const PARENT: &str = "parent";
    const CHILD0: &str = "child0";

    let mut tf_buffer = TfBuffer::new_with_duration(Duration::new(1, 0).unwrap());
    let transform00 = make_tfs(PARENT, CHILD0, 1, 0, 0.0, 0.0, 0.0);
    let transform01 = make_tfs(PARENT, CHILD0, 2, 0, 0.0, 0.0, 0.0);
    let transform02 = make_tfs(PARENT, CHILD0, 3, 0, 0.0, 0.0, 0.0);

    let is_static = false;
    assert!(tf_buffer.add_transform(&transform00, is_static).is_ok());
    assert_eq!(tf_buffer.child_transform_index.len(), 1);
    assert_eq!(tf_buffer.transform_data.len(), 1);
    let stamps = tf_buffer.get_edge_chain(PARENT, CHILD0).unwrap().stamps();
    assert_eq!(stamps, vec![to_stamp(1, 0)]);

    assert!(tf_buffer.add_transform(&transform01, is_static).is_ok());
    let stamps = tf_buffer.get_edge_chain(PARENT, CHILD0).unwrap().stamps();
    assert_eq!(stamps, vec![to_stamp(1, 0), to_stamp(2, 0)]);

    assert!(tf_buffer.add_transform(&transform02, is_static).is_ok());
    let stamps = tf_buffer.get_edge_chain(PARENT, CHILD0).unwrap().stamps();
    assert_eq!(stamps, vec![to_stamp(2, 0), to_stamp(3, 0)]);
}

/// A tree whose dynamic edges change over time, including a rejected
/// attempt to hang `marker` under a second camera.
#[test]
fn test_dynamic_tree() {
    let mut tf_buffer = TfBuffer::new();

    let base_to_camera1 = TransformStamped {
        header: Header { seq: 1, stamp: Time { secs: 1, nsecs: 0 }, frame_id: "base".to_string() },
        child_frame_id: "camera1".to_string(),
        transform: Transform {
            translation: vec_bits(1.0, 0.0, 0.0),
            rotation: quat_bits(0.0, 0.0, 0.0, 1.0),
        },
    };
    assert!(tf_buffer.add_transform(&base_to_camera1, true).is_ok());

    let base_to_camera2 = TransformStamped {
        header: Header { seq: 1, stamp: Time { secs: 1, nsecs: 0 }, frame_id: "base".to_string() },
        child_frame_id: "camera2".to_string(),
        transform: Transform {
            translation: vec_bits(-1.0, 0.0, 0.0),
            rotation: quat_bits(0.0, 0.0, 1.0, 0.0),
        },
    };
    assert!(tf_buffer.add_transform(&base_to_camera2, true).is_ok());

    let marker_to_target = TransformStamped {
        header: Header {
            seq: 1,
            stamp: Time { secs: 1, nsecs: 0 },
            frame_id: "marker".to_string(),
        },
        child_frame_id: "target".to_string(),
        transform: Transform {
            translation: vec_bits(-0.5, 0.0, 0.0),
            rotation: quat_bits(0.0, 0.0, 0.0, 1.0),
        },
    };
    assert!(tf_buffer.add_transform(&marker_to_target, true).is_ok());

    let mut camera1_to_marker = TransformStamped {
        header: Header {
            seq: 1,
            stamp: Time { secs: 4, nsecs: 0 },
            frame_id: "camera1".to_string(),
        },
        child_frame_id: "marker".to_string(),
        transform: Transform {
            translation: vec_bits(1.0, 1.0, 0.0),
            rotation: quat_bits(0.0, 0.0, 0.0, 1.0),
        },
    };
    assert!(tf_buffer.add_transform(&camera1_to_marker, false).is_ok());

    camera1_to_marker.header.stamp.secs = 30;
    camera1_to_marker.header.seq += 1;
    camera1_to_marker.transform.translation.y = bits(-1.0);
    assert!(tf_buffer.add_transform(&camera1_to_marker, false).is_ok());

    // marker already hangs under camera1: a second parent is rejected.
    let mut camera2_to_marker = TransformStamped {
        header: Header {
            seq: 1,
            stamp: Time { secs: 30, nsecs: 0 },
            frame_id: "camera2".to_string(),
        },
        child_frame_id: "marker".to_string(),
        transform: Transform {
            translation: vec_bits(1.0, 10.0, 0.0),
            rotation: quat_bits(0.0, 0.0, 0.0, 1.0),
        },
    };
    assert!(tf_buffer.add_transform(&camera2_to_marker, false).is_err());

    camera2_to_marker.header.stamp.secs = 40;
    camera2_to_marker.header.seq += 1;
    camera2_to_marker.transform.translation.y = bits(-10.0);
    assert!(tf_buffer.add_transform(&camera2_to_marker, false).is_err());

    let rv = tf_buffer.lookup_transform("base", "target", Some(Time { secs: 37, nsecs: 0 }));
    match rv {
        Err(TfError::AttemptedLookupInFuture(_, _, _)) => {}
        other => panic!("{:?}", other),
    }

    let tf = tf_buffer
        .lookup_transform("camera1", "marker", Some(Time { secs: 30, nsecs: 0 }))
        .unwrap();
    let (_, y, _) = translation_of(&tf);
    assert!((y - -1.0).abs() < 0.01, "{:?}", translation_of(&tf));

    let result = tf_buffer.lookup_transform(
        "base",
        "target",
        Some(Time { secs: 2, nsecs: 500_000_000 }),
    );
    assert!(result.is_err());

    let result = tf_buffer.lookup_transform(
        "base",
        "target",
        Some(Time { secs: 4, nsecs: 500_000_000 }),
    );
    assert!(result.is_err());

    camera1_to_marker.header.stamp.secs = 50;
    camera1_to_marker.header.seq += 1;
    camera1_to_marker.transform.translation.x = bits(0.5);
    camera1_to_marker.transform.translation.y = bits(1.0);
    assert!(tf_buffer.add_transform(&camera1_to_marker, false).is_ok());

    camera1_to_marker.header.stamp.secs += 10;
    camera1_to_marker.header.seq += 1;
    camera1_to_marker.transform.translation.y = bits(-1.0);
    assert!(tf_buffer.add_transform(&camera1_to_marker, false).is_ok());

    let result = tf_buffer
        .lookup_transform("base", "target", Some(Time { secs: 55, nsecs: 0 }))
        .unwrap();
    let (x, y, z) = translation_of(&result);
    assert!((x - 1.0).abs() < 1e-12 && y.abs() < 1e-12 && z.abs() < 1e-12, "{x} {y} {z}");

    let result = tf_buffer
        .lookup_transform("base", "target", Some(Time { secs: 59, nsecs: 500_000_000 }))
        .unwrap();
    let (_, y, _) = translation_of(&result);
    assert!(y - -0.9 < 0.001, "y: {y}");

    let result = tf_buffer
        .lookup_transform("base", "target", Some(Time { secs: 51, nsecs: 0 }))
        .unwrap();
    let (x, y, z) = translation_of(&result);
    assert!((x - 1.0).abs() < 1e-12 && (y - 0.8).abs() < 1e-12 && z.abs() < 1e-12, "{x} {y} {z}");
}

fn now_stamp() -> Time {
    let elapsed = std::time::SystemTime::now()
        .duration_since(std::time::SystemTime::UNIX_EPOCH)
        .unwrap();
    Time { secs: elapsed.as_secs() as u32, nsecs: elapsed.subsec_nanos() }
}

#[test]
fn test_changing_parents() {
    let mut tf_buffer = TfBuffer::new_with_duration(Duration::new(200, 0).unwrap());

    let stamp = now_stamp();
    let mut tfs = make_tfs("base", "leaf", stamp.secs, stamp.nsecs, 1.0, -0.7, 3.0);

    let is_static = true;
    assert!(tf_buffer.add_transform(&tfs, is_static).is_ok());

    tfs.header.frame_id = "other_base".to_string();
    let rv = tf_buffer.add_transform(&tfs, is_static);
    match rv {
        Err(TfError::ChangingParent(child, new_parent, old_parent)) => {
            assert_eq!(child, "leaf");
            assert_eq!(new_parent, "other_base");
            assert_eq!(old_parent, "base");
        }
        other => panic!("{:?}", other),
    }
}

#[test]
fn test_long_buffer() {
    let mut tf_buffer = TfBuffer::new_with_duration(Duration::new(200, 0).unwrap());

    let stamp = now_stamp();
    let tfs = make_tfs("base", "leaf", stamp.secs, stamp.nsecs, 1.0, -0.7, 3.0);

    let is_static = true;
    assert!(tf_buffer.add_transform(&tfs, is_static).is_ok());

    let result = tf_buffer
        .lookup_transform("base", "leaf", Some(Time { secs: 51, nsecs: 0 }))
        .unwrap();
    assert_eq!(translation_of(&result), (1.0, -0.7, 3.0));
    let result = tf_buffer
        .lookup_transform("base", "leaf", Some(Time { secs: stamp.secs, nsecs: 0 }))
        .unwrap();
    assert_eq!(translation_of(&result), (1.0, -0.7, 3.0));
    let result = tf_buffer
        .lookup_transform("base", "leaf", Some(Time { secs: stamp.secs + 1000, nsecs: 0 }))
        .unwrap();
    assert_eq!(translation_of(&result), (1.0, -0.7, 3.0));
}

fn stamp_to_f64(stamp: &Time) -> f64 {
    stamp.secs as f64 + (stamp.nsecs as f64) / 1e9
}

fn f64_to_stamp(seconds: f64) -> Time {
    let secs = seconds as u32;
    let nsecs = ((seconds - secs as f64) * 1e9) as u32;
    Time { secs, nsecs }
}

#[test]
fn test_long_dynamic_buffer() {
    let dt = 0.1;
    let num_secs: i64 = 200;
    let mut tf_buffer = TfBuffer::new_with_duration(Duration::new(num_secs, 0).unwrap());

    let stamp = Time { secs: 1_002_003_000, nsecs: 0 };
    let mut tfs = make_tfs("base", "leaf", stamp.secs, stamp.nsecs, 0.0, 0.0, 0.0);

    let num_steps = (num_secs as f64 / dt) as u32;
    for i in 0..num_steps {
        // set a time and position offset to the same value
        let offset = i as f64 * dt;
        tfs.header.stamp = f64_to_stamp(stamp_to_f64(&stamp) + offset);
        tfs.transform.translation.x = bits(offset);
        let is_static = false;
        let rv = tf_buffer.add_transform(&tfs, is_static);
        assert!(rv.is_ok(), "[i] {offset:.2} {rv:?}");
    }
    for i in 0..num_steps - 1 {
        let offset = i as f64 * dt + dt * 0.5;
        let lookup_stamp = f64_to_stamp(stamp_to_f64(&stamp) + offset);
        let rv = tf_buffer.lookup_transform("base", "leaf", Some(lookup_stamp));
        assert!(rv.is_ok(), "[{i}], offset: {offset}, error: {rv:?}");
        let plan = rv.unwrap();
        let (x, _, _) = translation_of(&plan);
        let diff = x - offset;
        assert!(
            diff.abs() < 0.001,
            "[{i}] ({diff:.1}).abs() !< 0.001, x: {x}, offset {offset:.1}, {lookup_stamp:?}"
        );
    }
}

#[test]
fn test_identity_lookup() {
    let mut tf_buffer = TfBuffer::new();
    build_test_tree(&mut tf_buffer, 0.0);
    let stamp = Time { secs: 5, nsecs: 123 };
    let plan = tf_buffer.lookup_transform("camera", "camera", Some(stamp)).unwrap();
    assert_eq!(plan.steps.len(), 0);
    assert_eq!(plan.stamp, stamp);
    let iso = eval_plan(&plan);
    assert_eq!((iso.translation.x, iso.translation.y, iso.translation.z), (0.0, 0.0, 0.0));
    assert_eq!(iso.rotation.w, 1.0);

    // frames never mentioned still resolve to themselves
    let plan = tf_buffer.lookup_transform("nowhere", "nowhere", None).unwrap();
    assert_eq!(plan.steps.len(), 0);
    assert_eq!(plan.stamp, Time { secs: 0, nsecs: 0 });
}

fn make_rotated_tfs(
    parent: &str,
    child: &str,
    secs: u32,
    x: f64,
    y: f64,
    z: f64,
    axis_angle_z: f64,
) -> TransformStamped {
    let q = nalgebra::UnitQuaternion::from_euler_angles(0.0, 0.0, axis_angle_z);
    TransformStamped {
        header: Header { seq: 1, stamp: Time { secs, nsecs: 0 }, frame_id: parent.to_string() },
        child_frame_id: child.to_string(),
        transform: Transform {
            translation: vec_bits(x, y, z),
            rotation: quat_bits(q.i, q.j, q.k, q.w),
        },
    }
}

fn assert_iso_approx_identity(iso: &nalgebra::Isometry3<f64>) {
    assert!(iso.translation.vector.norm() < 1e-9, "{:?}", iso);
    assert!(iso.rotation.angle() < 1e-9, "{:?}", iso);
}

#[test]
fn test_lookup_inverse_round_trip() {
    let mut tf_buffer = TfBuffer::new();
    assert!(tf_buffer
        .add_transform(&make_rotated_tfs("world", "base", 0, 0.0, 1.0, 0.0, 0.5), false)
        .is_ok());
    assert!(tf_buffer
        .add_transform(&make_rotated_tfs("base", "camera", 0, 1.0, 2.0, 3.0, 1.1), true)
        .is_ok());
    assert!(tf_buffer
        .add_transform(&make_rotated_tfs("world", "item", 0, 4.0, 0.0, 0.0, -0.3), true)
        .is_ok());

    let stamp = Time { secs: 0, nsecs: 0 };
    let forward = tf_buffer.lookup_transform("camera", "item", Some(stamp)).unwrap();
    let backward = tf_buffer.lookup_transform("item", "camera", Some(stamp)).unwrap();
    let composed = eval_plan(&forward) * eval_plan(&backward);
    assert_iso_approx_identity(&composed);
}

#[test]
fn test_lookup_composes_through_intermediate_frame() {
    let mut tf_buffer = TfBuffer::new();
    assert!(tf_buffer
        .add_transform(&make_rotated_tfs("world", "base", 0, 0.0, 1.0, 0.0, 0.5), false)
        .is_ok());
    assert!(tf_buffer
        .add_transform(&make_rotated_tfs("base", "camera", 0, 1.0, 2.0, 3.0, 1.1), true)
        .is_ok());
    assert!(tf_buffer
        .add_transform(&make_rotated_tfs("world", "item", 0, 4.0, 0.0, 0.0, -0.3), true)
        .is_ok());

    let stamp = Time { secs: 0, nsecs: 0 };
    let whole = tf_buffer.lookup_transform("camera", "item", Some(stamp)).unwrap();
    let first = tf_buffer.lookup_transform("camera", "world", Some(stamp)).unwrap();
    let second = tf_buffer.lookup_transform("world", "item", Some(stamp)).unwrap();
    let composed = eval_plan(&first) * eval_plan(&second);
    let difference = eval_plan(&whole).inverse() * composed;
    assert_iso_approx_identity(&difference);
}

/// The three-frame composition law with a middle frame that is not on
/// the resolved path: the detour's two legs cancel numerically.
#[test]
fn test_lookup_composes_through_offside_frame() {
    let mut tf_buffer = TfBuffer::new();
    assert!(tf_buffer
        .add_transform(&make_rotated_tfs("world", "base", 0, 0.0, 1.0, 0.0, 0.5), false)
        .is_ok());
    assert!(tf_buffer
        .add_transform(&make_rotated_tfs("base", "camera", 0, 1.0, 2.0, 3.0, 1.1), true)
        .is_ok());
    assert!(tf_buffer
        .add_transform(&make_rotated_tfs("base", "lidar", 0, -2.0, 0.5, 0.25, 0.7), true)
        .is_ok());
    assert!(tf_buffer
        .add_transform(&make_rotated_tfs("world", "item", 0, 4.0, 0.0, 0.0, -0.3), true)
        .is_ok());

    // lidar hangs off base and is on neither leg of camera -> item
    let stamp = Time { secs: 0, nsecs: 0 };
    let whole = tf_buffer.lookup_transform("camera", "item", Some(stamp)).unwrap();
    let first = tf_buffer.lookup_transform("camera", "lidar", Some(stamp)).unwrap();
    let second = tf_buffer.lookup_transform("lidar", "item", Some(stamp)).unwrap();
    let composed = eval_plan(&first) * eval_plan(&second);
    let difference = eval_plan(&whole).inverse() * composed;
    assert_iso_approx_identity(&difference);
}
